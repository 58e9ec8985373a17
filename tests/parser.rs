use scheme_parser::report::Color;
use scheme_parser::{
    datumize, datums, expansion, tokenize, Begin, BuiltinTransformer, Datum, Expected, Expression,
    IntoTokens, Keyword, Label, Parser, Primitive, Reason, Span, Token, TokenizeOrParseError,
};

fn token_texts(tokens: &[(Token, Span)]) -> Vec<String> {
    tokens.iter().map(|(t, _)| t.to_string()).collect()
}

fn parse_err(source: &str) -> scheme_parser::ParseError<Token> {
    match Parser::default().parse(source, "test") {
        Err(TokenizeOrParseError::Parse(e)) => e,
        other => panic!("expected a parse error, got {:?}", other),
    }
}

#[test]
fn data_follow_brackets() {
    let tokens = tokenize("(a (b c) d) e", "test").unwrap();
    let ds = datumize(&tokens, "(a (b c) d) e", "test").unwrap();
    assert_eq!(ds.len(), 2);
    assert_eq!(ds[0].1, Span::new(0, 11));
    match &ds[0].0 {
        Datum::List(items) => {
            assert_eq!(items.len(), 3);
            assert_eq!(items[1].1, Span::new(3, 8));
            assert_eq!(items[1].0.to_string(), "( ... )");
        }
        other => panic!("not a list: {:?}", other),
    }
    assert_eq!(ds[1].0.to_string(), "e");
}

#[test]
fn unclosed_delimiter_names_outermost_open() {
    let source = "(define x (+ 1 2)";
    let tokens = tokenize(source, "test").unwrap();
    let e = datumize(&tokens, source, "test").unwrap_err();
    assert_eq!(e.failures().len(), 1);
    let f = &e.failures()[0];
    match &f.reason {
        Reason::Unclosed { span, delimiter } => {
            assert_eq!(*span, Span::new(0, 1));
            assert!(matches!(delimiter, Token::Keyword(Keyword::LParen)));
        }
        other => panic!("not unclosed: {:?}", other),
    }
    assert_eq!(f.span, Span::new(17, 18));
    assert!(f.found.is_none());
    assert_eq!(f.expected, vec![Expected::CloseParen]);
    assert!(matches!(Parser::default().parse(source, "test"), Err(TokenizeOrParseError::Parse(_))));
}

#[test]
fn stray_close_becomes_error_datum() {
    let tokens = tokenize("a ) b", "test").unwrap();
    let (ds, failures) = datums(&tokens, 5);
    assert_eq!(ds.len(), 3);
    assert!(matches!(ds[1].0, Datum::Error));
    assert_eq!(failures.len(), 1);
    assert_eq!(failures[0].span, Span::new(2, 3));
    assert_eq!(failures[0].expected, vec![Expected::Datum, Expected::EndOfInput]);
}

#[test]
fn data_round_trip_through_tokens() {
    let source = "(define (f x) (if x 1 2.50)) (f #t)";
    let tokens = tokenize(source, "test").unwrap();
    let ds = datumize(&tokens, source, "test").unwrap();
    let again = ds.into_tokens();
    assert_eq!(token_texts(&again), token_texts(&tokens));
    let spans: Vec<Span> = again.iter().map(|t| t.1).collect();
    let read_spans: Vec<Span> = tokens.iter().map(|t| t.1).collect();
    assert_eq!(spans, read_spans);
}

#[test]
fn begin_expands_to_lambda_call() {
    let source = "(begin (define x 1) x)";
    let tokens = tokenize(source, "test").unwrap();
    let transformers = vec![BuiltinTransformer::Begin(Begin)];
    let (out, added) = expansion(&transformers, &tokens, source, "test").unwrap();
    assert!(added.is_empty());
    let expected = tokenize("((lambda () (define x 1) x))", "test").unwrap();
    assert_eq!(token_texts(&out), token_texts(&expected));
    assert_eq!(out[2].1, Span::new(1, 6));

    let program = Parser::default().parse(source, "test").unwrap();
    assert!(program.defs.is_empty());
    assert!(program.exprs.is_empty());
    match &program.last_expr.0 {
        Expression::ProcedureCall { operator, args } => {
            assert!(args.is_empty());
            match &operator.0 {
                Expression::Procedure { args, body } => {
                    assert!(args.is_empty());
                    assert_eq!(body.defs.len(), 1);
                    assert_eq!(body.defs[0].0 .0 .0, "x");
                }
                other => panic!("not a procedure: {:?}", other),
            }
        }
        other => panic!("not a call: {:?}", other),
    }
}

#[test]
fn begin_inside_a_form_is_expanded() {
    let source = "(f (begin 1 2))";
    let tokens = tokenize(source, "test").unwrap();
    let transformers = vec![BuiltinTransformer::Begin(Begin)];
    let (out, _) = expansion(&transformers, &tokens, source, "test").unwrap();
    let expected = tokenize("(f ((lambda () 1 2)))", "test").unwrap();
    assert_eq!(token_texts(&out), token_texts(&expected));
}

#[test]
fn if_without_operands_reports_expression() {
    let e = parse_err("(if)");
    assert_eq!(e.failures().len(), 1);
    let f = &e.failures()[0];
    assert!(f.expected.contains(&Expected::Expression));
    assert_eq!(f.span, Span::new(3, 4));
    assert!(matches!(f.found, Some(Token::Keyword(Keyword::RParen))));
    assert_eq!(f.label, Some(Label::Expression));
}

#[test]
fn program_shapes() {
    let program = Parser::default()
        .parse("(define (sq x) (* x x)) (define y 2) (set! y 3) (sq y)", "test")
        .unwrap();
    assert_eq!(program.defs.len(), 2);
    assert_eq!(program.exprs.len(), 1);
    assert!(matches!(program.exprs[0].0, Expression::Assignment(_, _)));
    match &program.defs[0].0 .1 .0 {
        Expression::Procedure { args, body } => {
            assert_eq!(args.len(), 1);
            assert_eq!(args[0].0, "x");
            assert!(matches!(body.last_expr.0, Expression::ProcedureCall { .. }));
        }
        other => panic!("not a procedure: {:?}", other),
    }
    let program = Parser::default().parse("(lambda args (if #t 1))", "test").unwrap();
    match &program.last_expr.0 {
        Expression::Procedure { args, .. } => assert_eq!(args[0].0, "args"),
        other => panic!("not a procedure: {:?}", other),
    }
}

#[test]
fn empty_program_wants_an_expression() {
    let e = parse_err("(define x 1)");
    let f = &e.failures()[0];
    assert!(f.found.is_none());
    assert_eq!(f.expected, vec![Expected::Definition, Expected::Expression]);
    assert_eq!(f.span, Span::new(12, 13));
}

#[test]
fn each_malformed_form_is_reported() {
    let e = parse_err("(set! 1 2) (lambda (x 1) x) (if 1 2 3 4) (define 5) ()");
    let expected: Vec<Vec<Expected>> = e.failures().iter().map(|f| f.expected.clone()).collect();
    assert_eq!(expected, vec![vec![Expected::Expression]; 5]);
    assert!(e.failures().iter().all(|f| f.label == Some(Label::Expression)));
    let spans: Vec<Span> = e.failures().iter().map(|f| f.span).collect();
    assert_eq!(
        spans,
        vec![Span::new(6, 7), Span::new(22, 23), Span::new(38, 39), Span::new(42, 48), Span::new(53, 54)]
    );
}

#[test]
fn set_without_target_expects_an_expression() {
    let e = parse_err("(set!)");
    assert_eq!(e.failures().len(), 1);
    assert_eq!(e.failures()[0].expected, vec![Expected::Expression]);
    assert_eq!(e.failures()[0].label, Some(Label::Expression));
    assert_eq!(e.failures()[0].span, Span::new(5, 6));
}

#[test]
fn malformed_definitions_expect_a_definition() {
    let e = parse_err("(define 5 1) (define (f 2) 1) (define (g)) x");
    let expected: Vec<Vec<Expected>> = e.failures().iter().map(|f| f.expected.clone()).collect();
    assert_eq!(expected, vec![vec![Expected::Definition]; 3]);
    assert_eq!(e.failures()[0].label, Some(Label::Definition));
    assert_eq!(e.failures()[1].span, Span::new(24, 25));
    assert_eq!(e.failures()[2].label, Some(Label::ProcedureBody));
    let e = parse_err("(lambda (x))");
    assert_eq!(e.failures()[0].expected, vec![Expected::Expression]);
}

#[test]
fn reports_list_expected_sorted_and_distinct() {
    let f = scheme_parser::Failure {
        span: Span::new(0, 1),
        reason: Reason::Unexpected,
        expected: vec![Expected::Identifier, Expected::CloseParen, Expected::EndOfInput, Expected::Identifier],
        found: Some(Token::Keyword(Keyword::If)),
        label: None,
    };
    let e = scheme_parser::ParseError::new("if".to_string(), "t".to_string(), vec![f], "token");
    let message: String = e.reports()[0].message.iter().map(|p| p.text.as_str()).collect();
    assert_eq!(message, "Unexpected token in input, expected ), <identifier>, end of input");
}

#[test]
fn recovery_continues_after_bad_definition() {
    let (program, lex_failures, failures) =
        Parser::default().parse_recover("(define) (define y 3) y");
    assert!(lex_failures.is_empty());
    assert_eq!(failures.len(), 1);
    assert_eq!(failures[0].label, Some(Label::Definition));
    let program = program.unwrap();
    assert_eq!(program.defs.len(), 1);
    assert_eq!(program.defs[0].0 .0 .0, "y");
    assert!(matches!(&program.defs[0].0 .1 .0, Expression::Primitive(Primitive::Integer(i)) if i.to_string() == "3"));
}

#[test]
fn recovery_continues_after_bad_expression() {
    let (program, lex_failures, failures) =
        Parser::default().parse_recover("(+ 1 . 2) (if) (f 1)");
    assert_eq!(lex_failures.len(), 1);
    assert_eq!(failures.len(), 1);
    let program = program.unwrap();
    assert_eq!(program.exprs.len(), 2);
    assert!(matches!(program.exprs[0].0, Expression::ProcedureCall { .. }));
    assert!(matches!(program.exprs[1].0, Expression::Error));
    assert!(matches!(program.last_expr.0, Expression::ProcedureCall { .. }));
}

#[test]
fn lenient_parse_of_garbage_ends() {
    let (program, lex_failures, failures) =
        Parser::default().parse_recover(")) (( . # ; never closed");
    let program = program.unwrap();
    assert_eq!(program.exprs.len(), 2);
    assert!(program.exprs.iter().all(|e| matches!(e.0, Expression::Error)));
    assert!(matches!(program.last_expr.0, Expression::Error));
    assert_eq!(lex_failures.len(), 2);
    assert_eq!(failures.len(), 3);
}

#[test]
fn child_spans_lie_in_parent_spans() {
    let source = "(a (b (c)) d)";
    let tokens = tokenize(source, "test").unwrap();
    let ds = datumize(&tokens, source, "test").unwrap();
    fn check(d: &(Datum, Span)) {
        if let Datum::List(items) = &d.0 {
            for item in items {
                assert!(d.1.start <= item.1.start && item.1.end <= d.1.end);
                check(item);
            }
        }
    }
    for d in &ds {
        check(d);
    }
}

#[test]
fn lexing_failure_comes_before_parsing() {
    match Parser::default().parse("(a . b", "test") {
        Err(TokenizeOrParseError::Tokenize(e)) => assert_eq!(e.failures().len(), 1),
        other => panic!("expected a lexing error, got {:?}", other),
    }
}

#[test]
fn reports_describe_failures() {
    let e = parse_err("(if)").with_color(false);
    assert!(!e.is_colorful());
    let reports = e.reports();
    assert_eq!(reports.len(), 1);
    let message: String = reports[0].message.iter().map(|p| p.text.as_str()).collect();
    assert_eq!(message, "Unexpected token in input while parsing expression, expected <expression>");
    assert_eq!(reports[0].offset, 3);
    let label: String = reports[0].labels[0].message.iter().map(|p| p.text.as_str()).collect();
    assert_eq!(label, "Unexpected token )");
    assert_eq!(reports[0].labels[0].color, Color::Red);

    let short = parse_err("(if)").display_every_expected(false).reports();
    let message: String = short[0].message.iter().map(|p| p.text.as_str()).collect();
    assert_eq!(message, "Unexpected token in input while parsing expression");

    let source = "(a";
    let tokens = tokenize(source, "test").unwrap();
    let reports = datumize(&tokens, source, "test").unwrap_err().reports();
    let message: String = reports[0].message.iter().map(|p| p.text.as_str()).collect();
    assert_eq!(message, "Unclosed delimiter ( while parsing datum");
    assert_eq!(reports[0].labels.len(), 2);
    assert_eq!(reports[0].labels[0].span, Span::new(0, 1));
    let second: String = reports[0].labels[1].message.iter().map(|p| p.text.as_str()).collect();
    assert_eq!(second, "Must be closed before this end of file");
}

#[test]
fn tokenize_reports_name_the_character() {
    let e = tokenize("a . b", "f").unwrap_err();
    let reports = scheme_parser::TokenizeError::new(
        e.source().clone(),
        e.source_path().clone(),
        e.failures().iter().map(|f| scheme_parser::Failure {
            span: f.span,
            reason: Reason::Unexpected,
            expected: Vec::new(),
            found: f.found,
            label: None,
        }).collect(),
    )
    .with_color(true)
    .reports();
    let message: String = reports[0].message.iter().map(|p| p.text.as_str()).collect();
    assert_eq!(message, "Unexpected char in input");
    let label: String = reports[0].labels[0].message.iter().map(|p| p.text.as_str()).collect();
    assert_eq!(label, "Unexpected char .");
    let plain = e.reports();
    let message: String = plain[0].message.iter().map(|p| p.text.as_str()).collect();
    assert_eq!(message, "Unexpected char in input");
}

fn nested_calls(depth: usize) -> String {
    let mut s = String::new();
    for _ in 0..depth {
        s.push_str("(f ");
    }
    s.push('x');
    for _ in 0..depth {
        s.push(')');
    }
    s
}

#[test]
fn nesting_at_the_limit_parses() {
    let source = nested_calls(scheme_parser::transformer::MAX_DEPTH);
    let program = Parser::default().parse(&source, "test").unwrap();
    assert!(matches!(program.last_expr.0, Expression::ProcedureCall { .. }));
}

#[test]
fn too_deep_nesting_is_skipped() {
    let source = nested_calls(scheme_parser::transformer::MAX_DEPTH + 1);
    let tokens = tokenize(&source, "test").unwrap();
    let e = datumize(&tokens, &source, "test").unwrap_err();
    assert_eq!(e.failures().len(), 1);
    let f = &e.failures()[0];
    assert!(matches!(&f.reason, Reason::Custom(m) if m == "lists nested too deeply"));
    let start = 3 * scheme_parser::transformer::MAX_DEPTH;
    assert_eq!(f.span, Span::new(start, start + 1));
    let message: String = e.reports()[0].message.iter().map(|p| p.text.as_str()).collect();
    assert_eq!(message, "lists nested too deeply while parsing datum");

    let (program, _, failures) = Parser::default().parse_recover(&source);
    assert_eq!(failures.len(), 1);
    assert!(program.is_some());

    let huge = nested_calls(100_000);
    let (program, _, failures) = Parser::default().parse_recover(&huge);
    assert!(program.is_some());
    assert_eq!(failures.len(), 1);
}

#[test]
fn expanded_tokens_parse_to_the_same_program() {
    let source = "(define (f x) (begin (set! x 1) x)) (begin (f 2))";
    let first = Parser::default().parse(source, "test").unwrap();
    let tokens = tokenize(source, "test").unwrap();
    let transformers = vec![BuiltinTransformer::Begin(Begin)];
    let (out, _) = expansion(&transformers, &tokens, source, "test").unwrap();
    let second = Parser::default().parse_tokens(&out, source, "test").unwrap();
    assert_eq!(format!("{:?}", first), format!("{:?}", second));
}
