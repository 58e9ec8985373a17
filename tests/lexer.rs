use scheme_parser::{lexer, tokenize, Keyword, Primitive, Reason, Span, Token};

fn texts(source: &str) -> Vec<String> {
    tokenize(source, "test").unwrap().iter().map(|(t, _)| t.to_string()).collect()
}

fn only_real(source: &str) -> scheme_parser::Real {
    let mut tokens = tokenize(source, "test").unwrap();
    assert_eq!(tokens.len(), 1);
    match tokens.pop().unwrap().0 {
        Token::Primitive(Primitive::Real(r)) => r,
        other => panic!("not a real: {:?}", other),
    }
}

#[test]
fn tokens_with_spans() {
    let tokens = tokenize("(define x 1)", "test").unwrap();
    let spans: Vec<Span> = tokens.iter().map(|t| t.1).collect();
    assert_eq!(
        spans,
        vec![
            Span::new(0, 1),
            Span::new(1, 7),
            Span::new(8, 9),
            Span::new(10, 11),
            Span::new(11, 12)
        ]
    );
    assert!(matches!(tokens[0].0, Token::Keyword(Keyword::LParen)));
    assert!(matches!(tokens[1].0, Token::Keyword(Keyword::Define)));
    assert!(matches!(&tokens[2].0, Token::Primitive(Primitive::Ident(s)) if s == "x"));
    assert!(matches!(tokens[4].0, Token::Keyword(Keyword::RParen)));
}

#[test]
fn real_numerator_and_digits() {
    let r = only_real("3.1400");
    assert_eq!(r.numer.to_string(), "31400");
    assert_eq!(r.denom_log10, 4);
    assert_eq!(r.to_string(), "3.1400");
}

#[test]
fn real_display_round_trip() {
    for text in ["0.5", "-2.25", "100.0", "0.001", "3.1400", "-0.05", "12.0340"] {
        assert_eq!(only_real(text).to_string(), text);
    }
    let r = only_real("0.001");
    assert_eq!(r.numer.to_string(), "1");
    assert_eq!(r.denom_log10, 3);
    let r = only_real("-2.25");
    assert_eq!(r.numer.to_string(), "-225");
}

#[test]
fn big_integers_keep_every_digit() {
    assert_eq!(texts("123456789012345678901234567890"), vec!["123456789012345678901234567890"]);
    assert_eq!(texts("-007 +5 0"), vec!["-7", "5", "0"]);
    assert_eq!(texts("-0"), vec!["0"]);
}

#[test]
fn keywords_need_a_whole_word() {
    let tokens = tokenize("define-x defined set! if lambda", "test").unwrap();
    assert!(matches!(&tokens[0].0, Token::Primitive(Primitive::Ident(s)) if s == "define-x"));
    assert!(matches!(&tokens[1].0, Token::Primitive(Primitive::Ident(s)) if s == "defined"));
    assert!(matches!(tokens[2].0, Token::Keyword(Keyword::SetBang)));
    assert!(matches!(tokens[3].0, Token::Keyword(Keyword::If)));
    assert!(matches!(tokens[4].0, Token::Keyword(Keyword::Lambda)));
}

#[test]
fn signs_numbers_and_identifiers() {
    let tokens = tokenize("-5 + +a #t #f", "test").unwrap();
    assert!(matches!(&tokens[0].0, Token::Primitive(Primitive::Integer(i)) if i.to_string() == "-5"));
    assert!(matches!(&tokens[1].0, Token::Primitive(Primitive::Ident(s)) if s == "+"));
    assert!(matches!(&tokens[2].0, Token::Primitive(Primitive::Ident(s)) if s == "+a"));
    assert!(matches!(tokens[3].0, Token::Primitive(Primitive::Bool(true))));
    assert!(matches!(tokens[4].0, Token::Primitive(Primitive::Bool(false))));
    assert_eq!(texts("#t #f"), vec!["#t", "#f"]);
}

#[test]
fn comments_and_blanks_are_skipped() {
    assert_eq!(texts("; one\n  ; two\n\tx ; three"), vec!["x"]);
    assert_eq!(texts(""), Vec::<String>::new());
    assert_eq!(texts(" \u{a0}\u{3000}y"), vec!["y"]);
}

#[test]
fn bad_characters_are_reported_and_passed_over() {
    let e = tokenize("(a . b)", "file.scm").unwrap_err();
    let failures = e.failures();
    assert_eq!(failures.len(), 1);
    assert_eq!(failures[0].span, Span::new(3, 4));
    assert_eq!(failures[0].found, Some('.'));
    assert!(matches!(failures[0].reason, Reason::Unexpected));
    assert_eq!(e.source(), "(a . b)");
    assert_eq!(e.source_path(), "file.scm");

    let cs: Vec<char> = "(a . b) [".chars().collect();
    let (tokens, failures) = lexer(&cs);
    assert_eq!(tokens.len(), 4);
    assert_eq!(failures.len(), 2);
    assert_eq!(failures[1].found, Some('['));
    assert_eq!(failures[1].span, Span::new(8, 9));
}

#[test]
fn reals_round_toward_zero() {
    assert_eq!(only_real("-2.75").to_i64(), Some(-2));
    assert_eq!(only_real("-2.75").to_u64(), None);
    assert_eq!(only_real("3.9").to_i64(), Some(3));
    assert_eq!(only_real("3.9").to_u64(), Some(3));
    assert_eq!(only_real("-0.5").to_i64(), Some(0));
    assert_eq!(only_real("-0.5").to_u64(), Some(0));
    assert_eq!(only_real("9223372036854775807.9").to_i64(), Some(i64::MAX));
    assert_eq!(only_real("-9223372036854775808.1").to_i64(), Some(i64::MIN));
    assert_eq!(only_real("-9223372036854775809.0").to_i64(), None);
    assert_eq!(only_real("18446744073709551615.0").to_u64(), Some(u64::MAX));
    assert_eq!(only_real("18446744073709551615.0").to_i64(), None);
    assert_eq!(only_real("99999999999999999999.0").to_u64(), None);
    assert_eq!(only_real("0.001").to_i64(), Some(0));
}

#[test]
fn spans_count_bytes() {
    let tokens = tokenize("; \u{e9}t\u{e9}\n(\u{3000}x)", "test").unwrap();
    let spans: Vec<Span> = tokens.iter().map(|t| t.1).collect();
    assert_eq!(spans, vec![Span::new(8, 9), Span::new(12, 13), Span::new(13, 14)]);
    let e = tokenize("\u{e9}", "test").unwrap_err();
    assert_eq!(e.failures()[0].span, Span::new(0, 2));
    assert_eq!(e.failures()[0].found, Some('\u{e9}'));
}

#[test]
fn written_primitives_lex_back() {
    for text in ["42", "-7", "#t", "#f", "3.1400", "-0.05", "set-car!", "+", "<=?"] {
        let tokens = tokenize(text, "test").unwrap();
        assert_eq!(tokens.len(), 1);
        let again = tokenize(&tokens[0].0.to_string(), "test").unwrap();
        assert_eq!(again[0].0.to_string(), text);
    }
}
