pub mod error;

use vstd::prelude::*;

use crate::error::{failures_view, Failure, FailureV, ParseError, ParseErrorV, Reason, ReasonV};
use crate::span::{Span, Spanned};
use crate::strings::{chars_of, push_char};
use crate::token::{decimal_value, BigInt, Keyword, Primitive, PrimitiveV, Real, Token, TokenV};

verus! {

/// Unicode white space, as `char::is_whitespace` counts it.
pub open spec fn is_ws(c: char) -> bool {
    ('\t' <= c && c <= '\r') || c == ' ' || c == '\u{85}' || c == '\u{a0}' || c == '\u{1680}' || (
    '\u{2000}' <= c && c <= '\u{200a}') || c == '\u{2028}' || c == '\u{2029}' || c == '\u{202f}'
        || c == '\u{205f}' || c == '\u{3000}'
}

/// An ASCII decimal digit.
pub open spec fn is_digit(c: char) -> bool {
    '0' <= c && c <= '9'
}

/// ASCII letters and digits, and `! $ % & * + - / : < = > ? @ ^ _ ~`.
pub open spec fn is_ident_char(c: char) -> bool {
    ('a' <= c && c <= 'z') || ('A' <= c && c <= 'Z') || is_digit(c) || c == '!' || c == '$' || c
        == '%' || c == '&' || c == '*' || c == '+' || c == '-' || c == '/' || c == ':' || c == '<'
        || c == '=' || c == '>' || c == '?' || c == '@' || c == '^' || c == '_' || c == '~'
}

/// The first position at or after `i` that holds no white space and is not in
/// a comment; a comment runs from `;` through the next line feed.
pub open spec fn skip_from(cs: Seq<char>, i: int, in_comment: bool) -> int
    decreases cs.len() - i,
{
    if i < 0 || i >= cs.len() {
        i
    } else if in_comment {
        skip_from(cs, i + 1, cs[i] != '\n')
    } else if cs[i] == ';' {
        skip_from(cs, i + 1, true)
    } else if is_ws(cs[i]) {
        skip_from(cs, i + 1, false)
    } else {
        i
    }
}

/// The end of the run of identifier characters that starts at `i`.
pub open spec fn ident_end(cs: Seq<char>, i: int) -> int
    decreases cs.len() - i,
{
    if 0 <= i < cs.len() && is_ident_char(cs[i]) {
        ident_end(cs, i + 1)
    } else {
        i
    }
}

/// The end of the run of decimal digits that starts at `i`.
pub open spec fn digits_end(cs: Seq<char>, i: int) -> int
    decreases cs.len() - i,
{
    if 0 <= i < cs.len() && is_digit(cs[i]) {
        digits_end(cs, i + 1)
    } else {
        i
    }
}

/// The word keyword written as `w`, if any.
pub open spec fn keyword_of(w: Seq<char>) -> Option<Keyword> {
    if w == Keyword::Define.spec_text() {
        Some(Keyword::Define)
    } else if w == Keyword::Lambda.spec_text() {
        Some(Keyword::Lambda)
    } else if w == Keyword::If.spec_text() {
        Some(Keyword::If)
    } else if w == Keyword::SetBang.spec_text() {
        Some(Keyword::SetBang)
    } else {
        None
    }
}

/// The value of a digit character.
pub open spec fn digit_of(c: char) -> u8 {
    ((c as u32) - 48) as u8
}

/// The digit values of a run of digit characters.
pub open spec fn char_digits(w: Seq<char>) -> Seq<u8> {
    w.map_values(|c: char| digit_of(c))
}

/// `v`, negated when `negative`.
pub open spec fn signed(negative: bool, v: int) -> int {
    if negative {
        -v
    } else {
        v
    }
}

/// The token that starts at `i`, with the position after it, or `None` when no
/// token starts there. Forms are tried in order: delimiters, word keywords
/// (a whole run of identifier characters), booleans, reals, integers,
/// identifiers.
pub open spec fn lex_token(cs: Seq<char>, i: int) -> Option<(TokenV, int)> {
    let c = cs[i];
    let we = ident_end(cs, i);
    let p = if c == '+' || c == '-' {
        i + 1
    } else {
        i
    };
    let q = digits_end(cs, p);
    if c == '(' {
        Some((TokenV::Keyword(Keyword::LParen), i + 1))
    } else if c == ')' {
        Some((TokenV::Keyword(Keyword::RParen), i + 1))
    } else if keyword_of(cs.subrange(i, we)) is Some {
        Some((TokenV::Keyword(keyword_of(cs.subrange(i, we))->0), we))
    } else if c == '#' && i + 1 < cs.len() && (cs[i + 1] == 't' || cs[i + 1] == 'f') {
        Some((TokenV::Primitive(PrimitiveV::Bool(cs[i + 1] == 't')), i + 2))
    } else if q > p && q + 1 < cs.len() && cs[q] == '.' && is_digit(cs[q + 1]) {
        let r = digits_end(cs, q + 1);
        let v = decimal_value(char_digits(cs.subrange(p, q) + cs.subrange(q + 1, r)));
        Some((TokenV::Primitive(PrimitiveV::Real(signed(c == '-', v), (r - q - 1) as nat)), r))
    } else if q > p {
        let v = decimal_value(char_digits(cs.subrange(p, q)));
        Some((TokenV::Primitive(PrimitiveV::Integer(signed(c == '-', v))), q))
    } else if we > i {
        Some((TokenV::Primitive(PrimitiveV::Ident(cs.subrange(i, we))), we))
    } else {
        None
    }
}

/// How many bytes UTF-8 takes to write `c`.
pub open spec fn utf8_len(c: char) -> nat {
    if (c as u32) < 0x80 {
        1
    } else if (c as u32) < 0x800 {
        2
    } else if (c as u32) < 0x10000 {
        3
    } else {
        4
    }
}

/// The byte offset, in UTF-8, of character `k` of `cs`.
pub open spec fn byte_pos(cs: Seq<char>, k: int) -> int
    decreases k,
{
    if k <= 0 || k > cs.len() {
        0
    } else {
        byte_pos(cs, k - 1) + utf8_len(cs[k - 1])
    }
}

/// The length of `cs` in UTF-8 bytes.
pub open spec fn text_len(cs: Seq<char>) -> int {
    byte_pos(cs, cs.len() as int)
}

/// The span of characters `[j, e)` of `cs`, in bytes.
pub open spec fn byte_span(cs: Seq<char>, j: int, e: int) -> Span {
    Span { start: byte_pos(cs, j) as usize, end: byte_pos(cs, e) as usize }
}

/// Each character takes at least one byte.
pub proof fn lemma_byte_pos_mono(cs: Seq<char>, j: int, k: int)
    requires
        0 <= j <= k <= cs.len(),
    ensures
        byte_pos(cs, j) + (k - j) <= byte_pos(cs, k),
        0 <= byte_pos(cs, j),
    decreases k,
{
    lemma_byte_pos_nonneg(cs, j);
    if j < k {
        lemma_byte_pos_mono(cs, j, k - 1);
    }
}

proof fn lemma_byte_pos_nonneg(cs: Seq<char>, k: int)
    ensures
        byte_pos(cs, k) >= 0,
    decreases k,
{
    if 0 < k <= cs.len() {
        lemma_byte_pos_nonneg(cs, k - 1);
    }
}

/// The failure for a character that starts no token, at `span`.
pub open spec fn lex_failure(c: char, span: Span) -> FailureV<char> {
    FailureV {
        span,
        reason: ReasonV::Unexpected,
        expected: seq![],
        found: Some(c),
        label: None,
    }
}

pub proof fn lemma_skip_from(cs: Seq<char>, i: int, in_comment: bool)
    requires
        0 <= i,
    ensures
        i <= skip_from(cs, i, in_comment),
        skip_from(cs, i, in_comment) < cs.len() ==> !is_ws(cs[skip_from(cs, i, in_comment)])
            && cs[skip_from(cs, i, in_comment)] != ';',
        i <= cs.len() ==> skip_from(cs, i, in_comment) <= cs.len(),
    decreases cs.len() - i,
{
    if 0 <= i < cs.len() {
        if in_comment {
            lemma_skip_from(cs, i + 1, cs[i] != '\n');
        } else if cs[i] == ';' {
            lemma_skip_from(cs, i + 1, true);
        } else if is_ws(cs[i]) {
            lemma_skip_from(cs, i + 1, false);
        }
    }
}

pub proof fn lemma_run_ends(cs: Seq<char>, i: int)
    requires
        0 <= i <= cs.len(),
    ensures
        i <= ident_end(cs, i) <= cs.len(),
        i <= digits_end(cs, i) <= cs.len(),
        forall|k: int| i <= k < ident_end(cs, i) ==> is_ident_char(#[trigger] cs[k]),
        forall|k: int| i <= k < digits_end(cs, i) ==> is_digit(#[trigger] cs[k]),
    decreases cs.len() - i,
{
    if i < cs.len() {
        lemma_run_ends(cs, i + 1);
    }
}

pub proof fn lemma_lex_token_advances(cs: Seq<char>, i: int)
    requires
        0 <= i < cs.len(),
    ensures
        lex_token(cs, i) matches Some((t, e)) ==> i < e <= cs.len(),
{
    lemma_run_ends(cs, i);
    lemma_run_ends(cs, i + 1);
    let p = if cs[i] == '+' || cs[i] == '-' {
        i + 1
    } else {
        i
    };
    lemma_run_ends(cs, p);
    let q = digits_end(cs, p);
    if q + 1 < cs.len() {
        lemma_run_ends(cs, q + 1);
    }
}

/// The tokens and the failures of lexing `cs` from position `i`: blanks and
/// comments are skipped, each token is taken by `lex_token`, and a character
/// that starts no token is reported and passed over.
pub open spec fn lex_from(cs: Seq<char>, i: int) -> (Seq<(TokenV, Span)>, Seq<FailureV<char>>)
    decreases cs.len() - i,
{
    if 0 <= i <= cs.len() {
        proof {
            lemma_skip_from(cs, i, false);
        }
        let j = skip_from(cs, i, false);
        if j >= cs.len() {
            (seq![], seq![])
        } else {
            proof {
                lemma_lex_token_advances(cs, j);
            }
            match lex_token(cs, j) {
                Some((t, e)) => {
                    let rest = lex_from(cs, e);
                    (seq![(t, byte_span(cs, j, e))] + rest.0, rest.1)
                },
                None => {
                    let rest = lex_from(cs, j + 1);
                    (rest.0, seq![lex_failure(cs[j], byte_span(cs, j, j + 1))] + rest.1)
                },
            }
        }
    } else {
        (seq![], seq![])
    }
}

/// The lexing of a whole text.
pub open spec fn lex_spec(cs: Seq<char>) -> (Seq<(TokenV, Span)>, Seq<FailureV<char>>) {
    lex_from(cs, 0)
}

/// The models of spanned tokens, in order.
pub open spec fn tokens_view(s: Seq<Spanned<Token>>) -> Seq<(TokenV, Span)> {
    s.map_values(|t: Spanned<Token>| (t.0@, t.1))
}

fn is_ws_exec(c: char) -> (r: bool)
    ensures
        r == is_ws(c),
{
    ('\t' <= c && c <= '\r') || c == ' ' || c == '\u{85}' || c == '\u{a0}' || c == '\u{1680}' || (
    '\u{2000}' <= c && c <= '\u{200a}') || c == '\u{2028}' || c == '\u{2029}' || c == '\u{202f}'
        || c == '\u{205f}' || c == '\u{3000}'
}

fn is_digit_exec(c: char) -> (r: bool)
    ensures
        r == is_digit(c),
{
    '0' <= c && c <= '9'
}

fn is_ident_char_exec(c: char) -> (r: bool)
    ensures
        r == is_ident_char(c),
{
    ('a' <= c && c <= 'z') || ('A' <= c && c <= 'Z') || is_digit_exec(c) || c == '!' || c == '$'
        || c == '%' || c == '&' || c == '*' || c == '+' || c == '-' || c == '/' || c == ':' || c
        == '<' || c == '=' || c == '>' || c == '?' || c == '@' || c == '^' || c == '_' || c == '~'
}

fn skip_blank(cs: &Vec<char>, i: usize) -> (r: usize)
    requires
        i <= cs.len(),
    ensures
        r == skip_from(cs@, i as int, false),
{
    let mut k = i;
    let mut in_comment = false;
    while k < cs.len()
        invariant
            i <= k <= cs.len(),
            skip_from(cs@, k as int, in_comment) == skip_from(cs@, i as int, false),
        decreases cs.len() - k,
    {
        let c = cs[k];
        if in_comment {
            in_comment = c != '\n';
        } else if c == ';' {
            in_comment = true;
        } else if is_ws_exec(c) {
        } else {
            return k;
        }
        k = k + 1;
    }
    k
}

fn scan_ident(cs: &Vec<char>, i: usize) -> (r: usize)
    requires
        i <= cs.len(),
    ensures
        r == ident_end(cs@, i as int),
{
    let mut k = i;
    while k < cs.len() && is_ident_char_exec(cs[k])
        invariant
            i <= k <= cs.len(),
            ident_end(cs@, k as int) == ident_end(cs@, i as int),
        decreases cs.len() - k,
    {
        k = k + 1;
    }
    k
}

fn scan_digits(cs: &Vec<char>, i: usize) -> (r: usize)
    requires
        i <= cs.len(),
    ensures
        r == digits_end(cs@, i as int),
{
    let mut k = i;
    while k < cs.len() && is_digit_exec(cs[k])
        invariant
            i <= k <= cs.len(),
            digits_end(cs@, k as int) == digits_end(cs@, i as int),
        decreases cs.len() - k,
    {
        k = k + 1;
    }
    k
}

/// Whether `cs[from..to]` writes the keyword `k`.
fn word_is(cs: &Vec<char>, from: usize, to: usize, k: Keyword) -> (r: bool)
    requires
        from <= to <= cs.len(),
    ensures
        r == (cs@.subrange(from as int, to as int) == k.spec_text()),
{
    let w = chars_of(k.text());
    if to - from != w.len() {
        return false;
    }
    let mut j: usize = 0;
    while j < w.len()
        invariant
            to - from == w.len(),
            from <= to <= cs.len(),
            w@ == k.spec_text(),
            j <= w.len(),
            forall|m: int| 0 <= m < j ==> cs@[from + m] == w@[m],
        decreases w.len() - j,
    {
        if cs[from + j] != w[j] {
            assert(cs@.subrange(from as int, to as int)[j as int] != w@[j as int]);
            return false;
        }
        j = j + 1;
    }
    assert(cs@.subrange(from as int, to as int) =~= w@);
    true
}

fn keyword_at(cs: &Vec<char>, from: usize, to: usize) -> (r: Option<Keyword>)
    requires
        from <= to <= cs.len(),
    ensures
        r == keyword_of(cs@.subrange(from as int, to as int)),
{
    if word_is(cs, from, to, Keyword::Define) {
        Some(Keyword::Define)
    } else if word_is(cs, from, to, Keyword::Lambda) {
        Some(Keyword::Lambda)
    } else if word_is(cs, from, to, Keyword::If) {
        Some(Keyword::If)
    } else if word_is(cs, from, to, Keyword::SetBang) {
        Some(Keyword::SetBang)
    } else {
        None
    }
}

/// Appends the values of the digit characters `cs[from..to]` to `v`.
fn push_digit_values(v: &mut Vec<u8>, cs: &Vec<char>, from: usize, to: usize)
    requires
        from <= to <= cs.len(),
        forall|k: int| from <= k < to ==> is_digit(#[trigger] cs@[k]),
    ensures
        final(v)@ == old(v)@ + char_digits(cs@.subrange(from as int, to as int)),
        forall|k: int| 0 <= k < old(v)@.len() ==> final(v)@[k] == old(v)@[k],
{
    let ghost start = v@;
    let mut k = from;
    while k < to
        invariant
            from <= k <= to <= cs.len(),
            forall|m: int| from <= m < to ==> is_digit(#[trigger] cs@[m]),
            v@ == start + char_digits(cs@.subrange(from as int, k as int)),
        decreases to - k,
    {
        let c = cs[k];
        assert(is_digit(cs@[k as int]));
        v.push((c as u32 - 48) as u8);
        k = k + 1;
        assert(char_digits(cs@.subrange(from as int, k as int)) =~= char_digits(
            cs@.subrange(from as int, k - 1),
        ).push(digit_of(c)));
    }
}

fn string_of(cs: &Vec<char>, from: usize, to: usize) -> (r: String)
    requires
        from <= to <= cs.len(),
    ensures
        r@ == cs@.subrange(from as int, to as int),
{
    let mut s = String::new();
    let mut k = from;
    while k < to
        invariant
            from <= k <= to <= cs.len(),
            s@ == cs@.subrange(from as int, k as int),
        decreases to - k,
    {
        push_char(&mut s, cs[k]);
        k = k + 1;
        assert(s@ =~= cs@.subrange(from as int, k as int));
    }
    s
}

/// The token that starts at `i`, as `lex_token` gives it.
fn next_token(cs: &Vec<char>, i: usize) -> (r: Option<(Token, usize)>)
    requires
        i < cs.len(),
    ensures
        match (r, lex_token(cs@, i as int)) {
            (Some((t, e)), Some((tv, ev))) => t@ == tv && e == ev,
            (None, None) => true,
            _ => false,
        },
{
    proof {
        lemma_run_ends(cs@, i as int);
        lemma_run_ends(cs@, i + 1);
    }
    let c = cs[i];
    if c == '(' {
        return Some((Token::Keyword(Keyword::LParen), i + 1));
    }
    if c == ')' {
        return Some((Token::Keyword(Keyword::RParen), i + 1));
    }
    let we = scan_ident(cs, i);
    if let Some(k) = keyword_at(cs, i, we) {
        return Some((Token::Keyword(k), we));
    }
    if c == '#' && i + 1 < cs.len() && (cs[i + 1] == 't' || cs[i + 1] == 'f') {
        return Some((Token::Primitive(Primitive::Bool(cs[i + 1] == 't')), i + 2));
    }
    let p = if c == '+' || c == '-' {
        i + 1
    } else {
        i
    };
    proof {
        lemma_run_ends(cs@, p as int);
    }
    let q = scan_digits(cs, p);
    if q > p && q < cs.len() && q + 1 < cs.len() && cs[q] == '.' && is_digit_exec(cs[q + 1]) {
        proof {
            lemma_run_ends(cs@, q + 1);
        }
        let r = scan_digits(cs, q + 1);
        let mut ds: Vec<u8> = Vec::new();
        push_digit_values(&mut ds, cs, p, q);
        push_digit_values(&mut ds, cs, q + 1, r);
        proof {
            assert(char_digits(cs@.subrange(p as int, q as int) + cs@.subrange(q + 1, r as int))
                =~= char_digits(cs@.subrange(p as int, q as int)) + char_digits(
                cs@.subrange(q + 1, r as int),
            ));
            assert(ds@ =~= char_digits(cs@.subrange(p as int, q as int) + cs@.subrange(
                q + 1,
                r as int,
            )));
            assert forall|k: int| 0 <= k < ds@.len() implies #[trigger] ds@[k] < 10 by {
                if k < q - p {
                    assert(is_digit(cs@[p + k]));
                } else {
                    assert(is_digit(cs@[q + 1 + (k - (q - p))]));
                }
            }
        }
        let numer = BigInt::from_digits(c == '-', ds);
        return Some((Token::Primitive(Primitive::Real(Real { numer, denom_log10: r - q - 1 })), r));
    }
    if q > p {
        let mut ds: Vec<u8> = Vec::new();
        push_digit_values(&mut ds, cs, p, q);
        proof {
            assert(ds@ =~= char_digits(cs@.subrange(p as int, q as int)));
            assert forall|k: int| 0 <= k < ds@.len() implies #[trigger] ds@[k] < 10 by {
                assert(is_digit(cs@[p + k]));
            }
        }
        return Some((Token::Primitive(Primitive::Integer(BigInt::from_digits(c == '-', ds))), q));
    }
    if we > i {
        return Some((Token::Primitive(Primitive::Ident(string_of(cs, i, we))), we));
    }
    None
}

fn utf8_len_exec(c: char) -> (r: usize)
    ensures
        r == utf8_len(c),
{
    let u = c as u32;
    if u < 0x80 {
        1
    } else if u < 0x800 {
        2
    } else if u < 0x10000 {
        3
    } else {
        4
    }
}

/// The byte offset of every character of `cs`, and of its end.
fn byte_offsets(cs: &Vec<char>) -> (r: Vec<usize>)
    requires
        text_len(cs@) <= usize::MAX,
    ensures
        r@.len() == cs@.len() + 1,
        forall|k: int| 0 <= k <= cs@.len() ==> r@[k] == byte_pos(cs@, k),
{
    let mut r: Vec<usize> = Vec::new();
    r.push(0);
    let mut at: usize = 0;
    let mut k: usize = 0;
    while k < cs.len()
        invariant
            k <= cs.len(),
            text_len(cs@) <= usize::MAX,
            r@.len() == k + 1,
            at == byte_pos(cs@, k as int),
            forall|m: int| 0 <= m <= k ==> r@[m] == byte_pos(cs@, m),
        decreases cs.len() - k,
    {
        proof {
            lemma_byte_pos_mono(cs@, k + 1, cs@.len() as int);
        }
        at = at + utf8_len_exec(cs[k]);
        k = k + 1;
        r.push(at);
    }
    r
}

/// The length of `source` in UTF-8 bytes.
pub fn source_len(source: &str) -> (r: usize)
    requires
        text_len(source@) <= usize::MAX,
    ensures
        r == text_len(source@),
{
    let cs = chars_of(source);
    let offs = byte_offsets(&cs);
    offs[cs.len()]
}

/// Lexes `cs` through to its end, passing over characters that start no token.
/// Returns the tokens and the failures, each in source order.
pub fn lexer(cs: &Vec<char>) -> (r: (Vec<Spanned<Token>>, Vec<Failure<char>>))
    requires
        text_len(cs@) <= usize::MAX,
    ensures
        tokens_view(r.0@) == lex_spec(cs@).0,
        failures_view(r.1@) == lex_spec(cs@).1,
{
    let offs = byte_offsets(cs);
    let mut toks: Vec<Spanned<Token>> = Vec::new();
    let mut errs: Vec<Failure<char>> = Vec::new();
    let mut pos: usize = 0;
    while pos < cs.len()
        invariant
            pos <= cs.len(),
            offs@.len() == cs@.len() + 1,
            forall|k: int| 0 <= k <= cs@.len() ==> offs@[k] == byte_pos(cs@, k),
            lex_spec(cs@).0 == tokens_view(toks@) + lex_from(cs@, pos as int).0,
            lex_spec(cs@).1 == failures_view(errs@) + lex_from(cs@, pos as int).1,
        decreases cs.len() - pos,
    {
        proof {
            lemma_skip_from(cs@, pos as int, false);
        }
        let j = skip_blank(cs, pos);
        if j >= cs.len() {
            proof {
                assert(lex_from(cs@, cs.len() as int).0 =~= seq![]);
                assert(lex_from(cs@, pos as int).0 =~= seq![]);
            }
            pos = cs.len();
        } else {
            proof {
                lemma_lex_token_advances(cs@, j as int);
            }
            let ghost old_toks = toks@;
            let ghost old_errs = errs@;
            match next_token(cs, j) {
                Some((t, e)) => {
                    toks.push((t, Span { start: offs[j], end: offs[e] }));
                    proof {
                        assert(tokens_view(toks@) =~= tokens_view(old_toks) + seq![
                            (t@, byte_span(cs@, j as int, e as int)),
                        ]);
                        assert(lex_spec(cs@).0 =~= tokens_view(toks@) + lex_from(cs@, e as int).0);
                    }
                    pos = e;
                },
                None => {
                    let f = Failure {
                        span: Span { start: offs[j], end: offs[j + 1] },
                        reason: Reason::Unexpected,
                        expected: Vec::new(),
                        found: Some(cs[j]),
                        label: None,
                    };
                    assert(f@.expected =~= seq![]);
                    errs.push(f);
                    proof {
                        assert(failures_view(errs@) =~= failures_view(old_errs) + seq![
                            lex_failure(cs@[j as int], byte_span(cs@, j as int, j + 1)),
                        ]);
                        assert(lex_spec(cs@).1 =~= failures_view(errs@) + lex_from(
                            cs@,
                            j + 1,
                        ).1);
                    }
                    pos = j + 1;
                },
            }
        }
    }
    proof {
        assert(lex_from(cs@, pos as int).0 =~= seq![]);
        assert(tokens_view(toks@) + seq![] =~= tokens_view(toks@));
        assert(failures_view(errs@) + seq![] =~= failures_view(errs@));
    }
    (toks, errs)
}

/// Lexes `source`. Succeeds exactly when every character is blank, in a
/// comment, or part of a token; otherwise reports every character that starts
/// no token.
pub fn tokenize(source: &str, source_path: &str) -> (r: Result<Vec<Spanned<Token>>, ParseError<char>>)
    requires
        text_len(source@) <= usize::MAX,
    ensures
        match r {
            Ok(tokens) => lex_spec(source@).1.len() == 0 && tokens_view(tokens@) == lex_spec(
                source@,
            ).0,
            Err(e) => lex_spec(source@).1.len() > 0 && e@ == (ParseErrorV {
                failures: lex_spec(source@).1,
                source: source@,
                source_path: source_path@,
                item_name: "char"@,
                colorful: true,
                display_every_expected: true,
            }),
        },
{
    let cs = chars_of(source);
    let (tokens, failures) = lexer(&cs);
    if failures.len() == 0 {
        Ok(tokens)
    } else {
        Err(
            ParseError::new(
                crate::strings::string_from(source),
                crate::strings::string_from(source_path),
                failures,
                "char",
            ),
        )
    }
}

} // verus!
