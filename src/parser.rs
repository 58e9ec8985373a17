use vstd::prelude::*;

use crate::ast::{
    body_view, defs_view, expr_view, exprs_view, idents_view, lemma_defs_view_push,
    lemma_exprs_view_push, BodyV, DefV, Definition, ExprV, Expression, ProcedureBody, Program,
};
use crate::datum::{close_token, datum_view, datums_view, lemma_datums_view_len, open_token, Datum, DatumV};
use crate::error::{
    failures_view, option_view, Expected, Failure, FailureV, Label, ParseError, ParseErrorV, Reason,
    ReasonV,
};
use crate::datum::flatten_seq;
use crate::lexer::{lexer, lex_spec, source_len, text_len, tokenize, tokens_view};
use crate::strings::{chars_of, string_from};
use crate::transformer::builtin::{Begin, BuiltinTransformer};
use crate::transformer::{token_error, datums, expand_all, expand_each, expansion, read_spec};
use crate::span::{Span, Spanned};
use crate::token::{Keyword, Primitive, PrimitiveV, Token, TokenV};

verus! {

/// The token that a datum starts with, as a failure reports it.
pub open spec fn datum_token(d: DatumV) -> Option<TokenV> {
    match d {
        DatumV::Error => None,
        DatumV::Keyword(k) => Some(TokenV::Keyword(k)),
        DatumV::Primitive(p) => Some(TokenV::Primitive(p)),
        DatumV::List(_) => Some(TokenV::Keyword(Keyword::LParen)),
    }
}

/// The span of the token that a datum starts with.
pub open spec fn datum_token_span(d: (DatumV, Span)) -> Span {
    match d.0 {
        DatumV::List(_) => open_token(d.1).1,
        _ => d.1,
    }
}

pub open spec fn unexpected(
    span: Span,
    found: Option<TokenV>,
    expected: Seq<Expected>,
    label: Label,
) -> FailureV<TokenV> {
    FailureV { span, reason: ReasonV::Unexpected, expected, found, label: Some(label) }
}

/// The failure for meeting datum `d` where one of `expected` was due.
pub open spec fn unexpected_datum(d: (DatumV, Span), expected: Seq<Expected>, label: Label) -> FailureV<
    TokenV,
> {
    unexpected(datum_token_span(d), datum_token(d.0), expected, label)
}

/// The failure for meeting the `)` of a list spanning `span` where one of
/// `expected` was due.
pub open spec fn unexpected_close(span: Span, expected: Seq<Expected>, label: Label) -> FailureV<
    TokenV,
> {
    unexpected(close_token(span).1, Some(TokenV::Keyword(Keyword::RParen)), expected, label)
}

pub open spec fn ident_of(d: (DatumV, Span)) -> Option<(Seq<char>, Span)> {
    match d.0 {
        DatumV::Primitive(PrimitiveV::Ident(s)) => Some((s, d.1)),
        _ => None,
    }
}

pub open spec fn is_ident(d: (DatumV, Span)) -> bool {
    ident_of(d) is Some
}

/// A list that starts with `define`.
pub open spec fn is_define_form(d: (DatumV, Span)) -> bool {
    match d.0 {
        DatumV::List(items) => items.len() > 0 && items[0].0 == DatumV::Keyword(Keyword::Define),
        _ => false,
    }
}

/// The index of the first item of `s` from `i` on that is not an identifier.
pub open spec fn first_non_ident(s: Seq<(DatumV, Span)>, i: int) -> int
    decreases s.len() - i,
{
    if 0 <= i < s.len() && is_ident(s[i]) {
        first_non_ident(s, i + 1)
    } else {
        i
    }
}

/// The identifiers of `s`, all of which are identifiers.
pub open spec fn idents(s: Seq<(DatumV, Span)>) -> Seq<(Seq<char>, Span)> {
    s.map_values(|d: (DatumV, Span)| ident_of(d)->0)
}

/// The index of the first item of `s` from `i` on that is not a definition form.
pub open spec fn def_prefix(s: Seq<(DatumV, Span)>, i: int) -> int
    decreases s.len() - i,
{
    if 0 <= i < s.len() && is_define_form(s[i]) {
        def_prefix(s, i + 1)
    } else {
        i
    }
}

pub open spec fn error_expr(span: Span, f: FailureV<TokenV>) -> ((ExprV, Span), Seq<FailureV<TokenV>>) {
    ((ExprV::Error, span), seq![f])
}

/// The expression a datum stands for, with the failures met inside it in
/// source order. A malformed form becomes `Error` with one failure, at the
/// first place where it goes wrong; the failure expects `<expression>`, the
/// construct being read, whatever part of it was due there.
pub open spec fn parse_expr(d: (DatumV, Span)) -> ((ExprV, Span), Seq<FailureV<TokenV>>)
    decreases d, 0int,
{
    match d.0 {
        DatumV::Error => ((ExprV::Error, d.1), seq![]),
        DatumV::Primitive(p) => ((ExprV::Primitive(p), d.1), seq![]),
        DatumV::Keyword(k) => error_expr(
            d.1,
            unexpected_datum(d, seq![Expected::Expression], Label::Expression),
        ),
        DatumV::List(items) => parse_form(items, d.1),
    }
}

/// The expression written by a list of `items` spanning `span`, chosen by its
/// first item: `if`, `lambda`, `set!`, or else a procedure call.
pub open spec fn parse_form(items: Seq<(DatumV, Span)>, span: Span) -> (
    (ExprV, Span),
    Seq<FailureV<TokenV>>,
)
    decreases items, 4int,
{
    let lbl = Label::Expression;
    if items.len() == 0 {
        error_expr(span, unexpected_close(span, seq![Expected::Expression], lbl))
    } else if items[0].0 == DatumV::Keyword(Keyword::If) {
        parse_if(items, span)
    } else if items[0].0 == DatumV::Keyword(Keyword::Lambda) {
        parse_lambda(items, span)
    } else if items[0].0 == DatumV::Keyword(Keyword::SetBang) {
        parse_set(items, span)
    } else if items[0].0 == DatumV::Keyword(Keyword::Define) {
        error_expr(span, unexpected_datum(items[0], seq![Expected::Expression], lbl))
    } else {
        let op = parse_expr(items[0]);
        let args = parse_exprs(items.drop_first());
        ((ExprV::Call { operator: Box::new(op.0), args: args.0 }, span), op.1 + args.1)
    }
}

/// `(if test conseq [alter])`.
pub open spec fn parse_if(items: Seq<(DatumV, Span)>, span: Span) -> (
    (ExprV, Span),
    Seq<FailureV<TokenV>>,
)
    decreases items, 3int,
{
    let lbl = Label::Expression;
    let n = items.len();
    if n < 3 {
        error_expr(span, unexpected_close(span, seq![Expected::Expression], lbl))
    } else if n > 4 {
        error_expr(span, unexpected_datum(items[4], seq![Expected::Expression], lbl))
    } else {
        let t = parse_expr(items[1]);
        let c = parse_expr(items[2]);
        if n == 4 {
            let a = parse_expr(items[3]);
            (
                (
                    ExprV::Conditional {
                        test: Box::new(t.0),
                        conseq: Box::new(c.0),
                        alter: Some(Box::new(a.0)),
                    },
                    span,
                ),
                t.1 + c.1 + a.1,
            )
        } else {
            (
                (
                    ExprV::Conditional { test: Box::new(t.0), conseq: Box::new(c.0), alter: None },
                    span,
                ),
                t.1 + c.1,
            )
        }
    }
}

/// The formal parameters of a `lambda`: a list of identifiers, or a single
/// identifier; `None` with the failure when they are neither.
pub open spec fn parse_formals(f: (DatumV, Span)) -> Result<Seq<(Seq<char>, Span)>, FailureV<TokenV>> {
    match f.0 {
        DatumV::List(formals) => {
            let j = first_non_ident(formals, 0);
            if j < formals.len() {
                Err(
                    unexpected_datum(
                        formals[j],
                        seq![Expected::Expression],
                        Label::Expression,
                    ),
                )
            } else {
                Ok(idents(formals))
            }
        },
        DatumV::Primitive(PrimitiveV::Ident(x)) => Ok(seq![(x, f.1)]),
        _ => Err(
            unexpected_datum(f, seq![Expected::Expression], Label::Expression),
        ),
    }
}

/// `(lambda formals body)`.
pub open spec fn parse_lambda(items: Seq<(DatumV, Span)>, span: Span) -> (
    (ExprV, Span),
    Seq<FailureV<TokenV>>,
)
    decreases items, 3int,
{
    if items.len() < 2 {
        error_expr(
            span,
            unexpected_close(span, seq![Expected::Expression], Label::Expression),
        )
    } else {
        match parse_formals(items[1]) {
            Err(f) => error_expr(span, f),
            Ok(args) => {
                let b = parse_body(
                    items.skip(2),
                    close_token(span).1,
                    Some(TokenV::Keyword(Keyword::RParen)),
                    seq![Expected::Expression],
                );
                match b.0 {
                    Some(body) => ((ExprV::Procedure { args, body: Box::new(body) }, span), b.1),
                    None => ((ExprV::Error, span), b.1),
                }
            },
        }
    }
}

/// `(set! ident expr)`.
pub open spec fn parse_set(items: Seq<(DatumV, Span)>, span: Span) -> (
    (ExprV, Span),
    Seq<FailureV<TokenV>>,
)
    decreases items, 3int,
{
    let lbl = Label::Expression;
    let n = items.len();
    if n < 2 {
        error_expr(span, unexpected_close(span, seq![Expected::Expression], lbl))
    } else if !is_ident(items[1]) {
        error_expr(span, unexpected_datum(items[1], seq![Expected::Expression], lbl))
    } else if n < 3 {
        error_expr(span, unexpected_close(span, seq![Expected::Expression], lbl))
    } else if n > 3 {
        error_expr(span, unexpected_datum(items[3], seq![Expected::Expression], lbl))
    } else {
        let v = parse_expr(items[2]);
        ((ExprV::Assignment { target: ident_of(items[1])->0, value: Box::new(v.0) }, span), v.1)
    }
}

/// The expressions of a sequence of data, and their failures in order.
pub open spec fn parse_exprs(s: Seq<(DatumV, Span)>) -> (Seq<(ExprV, Span)>, Seq<FailureV<TokenV>>)
    decreases s, 1int,
{
    if s.len() == 0 {
        (seq![], seq![])
    } else {
        let init = parse_exprs(s.drop_last());
        let e = parse_expr(s.last());
        (init.0.push(e.0), init.1 + e.1)
    }
}

/// The definition a `define` form stands for, or `None` with one failure
/// (expecting `<definition>`) when it is malformed, or with the failures of
/// a procedure body that has no expression.
pub open spec fn parse_def(d: (DatumV, Span)) -> (Option<(DefV, Span)>, Seq<FailureV<TokenV>>)
    decreases d, 0int,
{
    match d.0 {
        DatumV::List(items) => parse_def_form(items, d.1),
        _ => (None, seq![]),
    }
}

/// `(define name expr)` or `(define (name arg ...) body)`, as a list of
/// `items` spanning `span`.
pub open spec fn parse_def_form(items: Seq<(DatumV, Span)>, span: Span) -> (
    Option<(DefV, Span)>,
    Seq<FailureV<TokenV>>,
)
    decreases items, 3int,
{
    let lbl = Label::Definition;
    let n = items.len();
    if n < 2 {
        (None, seq![unexpected_close(span, seq![Expected::Definition], lbl)])
    } else {
        match items[1].0 {
            DatumV::Primitive(PrimitiveV::Ident(x)) => {
                if n < 3 {
                    (None, seq![unexpected_close(span, seq![Expected::Definition], lbl)])
                } else if n > 3 {
                    (None, seq![unexpected_datum(items[3], seq![Expected::Definition], lbl)])
                } else {
                    let v = parse_expr(items[2]);
                    (Some((DefV { name: (x, items[1].1), value: v.0 }, span)), v.1)
                }
            },
            DatumV::List(sig) => {
                let j = first_non_ident(sig, 0);
                if sig.len() == 0 {
                    (None, seq![unexpected_close(items[1].1, seq![Expected::Definition], lbl)])
                } else if j < sig.len() {
                    (
                        None,
                        seq![
                            unexpected_datum(
                                sig[j],
                                seq![Expected::Definition],
                                lbl,
                            ),
                        ],
                    )
                } else {
                    let b = parse_body(
                        items.skip(2),
                        close_token(span).1,
                        Some(TokenV::Keyword(Keyword::RParen)),
                        seq![Expected::Definition],
                    );
                    match b.0 {
                        Some(body) => (
                            Some(
                                (
                                    DefV {
                                        name: ident_of(sig[0])->0,
                                        value: (
                                            ExprV::Procedure {
                                                args: idents(sig.drop_first()),
                                                body: Box::new(body),
                                            },
                                            span,
                                        ),
                                    },
                                    span,
                                ),
                            ),
                            b.1,
                        ),
                        None => (None, b.1),
                    }
                }
            },
            _ => (
                None,
                seq![unexpected_datum(items[1], seq![Expected::Definition], lbl)],
            ),
        }
    }
}

/// The definitions of a sequence of `define` forms (the malformed ones left
/// out), and their failures in order.
pub open spec fn parse_defs(s: Seq<(DatumV, Span)>) -> (Seq<(DefV, Span)>, Seq<FailureV<TokenV>>)
    decreases s, 1int,
{
    if s.len() == 0 {
        (seq![], seq![])
    } else {
        let init = parse_defs(s.drop_last());
        let d = parse_def(s.last());
        (
            match d.0 {
                Some(x) => init.0.push(x),
                None => init.0,
            },
            init.1 + d.1,
        )
    }
}

/// The procedure body written by `s`: the leading `define` forms are its
/// definitions, the rest its expressions. With no expression there is no
/// body, and a failure at `close`, where the body ends and `found` stands,
/// expecting `outer`: what the construct that holds the body expects.
pub open spec fn parse_body(
    s: Seq<(DatumV, Span)>,
    close: Span,
    found: Option<TokenV>,
    outer: Seq<Expected>,
) -> (Option<BodyV>, Seq<
    FailureV<TokenV>,
>)
    decreases s, 2int,
{
    let k = def_prefix(s, 0);
    if 0 <= k <= s.len() {
        proof {
            assert(s.take(s.len() as int) =~= s);
            assert(s.skip(0) =~= s);
        }
        let defs = parse_defs(s.take(k));
        let exprs = parse_exprs(s.skip(k));
        if exprs.0.len() == 0 {
            (
                None,
                defs.1 + exprs.1 + seq![
                    unexpected(close, found, outer, Label::ProcedureBody),
                ],
            )
        } else {
            (
                Some(
                    BodyV {
                        defs: defs.0,
                        exprs: exprs.0.drop_last(),
                        last: exprs.0.last(),
                    },
                ),
                defs.1 + exprs.1,
            )
        }
    } else {
        (None, seq![])
    }
}

/// The program written by data read from a source of `eoi` bytes.
pub open spec fn parse_program(ds: Seq<(DatumV, Span)>, eoi: usize) -> (Option<BodyV>, Seq<
    FailureV<TokenV>,
>) {
    parse_body(
        ds,
        Span { start: eoi, end: (eoi + 1) as usize },
        None,
        seq![Expected::Definition, Expected::Expression],
    )
}

pub proof fn lemma_def_prefix(s: Seq<(DatumV, Span)>, from: int, i: int)
    requires
        0 <= from <= i <= s.len(),
    ensures
        def_prefix(s.subrange(from, s.len() as int), i - from) == def_prefix(s, i) - from,
        i <= def_prefix(s, i) <= s.len(),
        forall|j: int| i <= j < def_prefix(s, i) ==> is_define_form(#[trigger] s[j]),
        def_prefix(s, i) < s.len() ==> !is_define_form(s[def_prefix(s, i)]),
    decreases s.len() - i,
{
    if i < s.len() {
        lemma_def_prefix(s, from, i + 1);
    }
}

pub proof fn lemma_first_non_ident(s: Seq<(DatumV, Span)>, i: int)
    requires
        0 <= i <= s.len(),
    ensures
        i <= first_non_ident(s, i) <= s.len(),
        forall|j: int| i <= j < first_non_ident(s, i) ==> is_ident(#[trigger] s[j]),
        first_non_ident(s, i) < s.len() ==> !is_ident(s[first_non_ident(s, i)]),
    decreases s.len() - i,
{
    if i < s.len() {
        lemma_first_non_ident(s, i + 1);
    }
}

fn push_failure(
    errs: &mut Vec<Failure<Token>>,
    span: Span,
    found: Option<Token>,
    expected: Vec<Expected>,
    label: Label,
)
    ensures
        failures_view(final(errs)@) == failures_view(old(errs)@).push(
            unexpected(span, option_view(found), expected@, label),
        ),
{
    let ghost before = errs@;
    errs.push(Failure { span, reason: Reason::Unexpected, expected, found, label: Some(label) });
    assert(failures_view(errs@) =~= failures_view(before).push(
        unexpected(span, option_view(found), expected@, label),
    ));
}

fn expect1(a: Expected) -> (r: Vec<Expected>)
    ensures
        r@ == seq![a],
{
    let v = vec![a];
    assert(v@ =~= seq![a]);
    v
}

fn expect2(a: Expected, b: Expected) -> (r: Vec<Expected>)
    ensures
        r@ == seq![a, b],
{
    let v = vec![a, b];
    assert(v@ =~= seq![a, b]);
    v
}

fn close_span(span: Span) -> (r: Span)
    ensures
        r == close_token(span).1,
{
    let start = if span.end > 0 {
        span.end - 1
    } else {
        0
    };
    Span { start, end: span.end }
}

/// The token a datum starts with, and its span.
fn datum_token_of(d: &Spanned<Datum>) -> (r: (Option<Token>, Span))
    ensures
        option_view(r.0) == datum_token(datum_view(d.0)),
        r.1 == datum_token_span((datum_view(d.0), d.1)),
{
    match &d.0 {
        Datum::Error => (None, d.1),
        Datum::Keyword(k) => (Some(Token::Keyword(*k)), d.1),
        Datum::Primitive(p) => (Some(Token::Primitive(p.duplicate())), d.1),
        Datum::List(_) => {
            let end = if d.1.start < usize::MAX {
                d.1.start + 1
            } else {
                d.1.start
            };
            (Some(Token::Keyword(Keyword::LParen)), Span { start: d.1.start, end })
        },
    }
}

fn fail_at_datum(errs: &mut Vec<Failure<Token>>, d: &Spanned<Datum>, expected: Vec<Expected>, label: Label)
    ensures
        failures_view(final(errs)@) == failures_view(old(errs)@).push(
            unexpected_datum((datum_view(d.0), d.1), expected@, label),
        ),
{
    let (found, span) = datum_token_of(d);
    push_failure(errs, span, found, expected, label);
}

fn fail_at_close(errs: &mut Vec<Failure<Token>>, span: Span, expected: Vec<Expected>, label: Label)
    ensures
        failures_view(final(errs)@) == failures_view(old(errs)@).push(
            unexpected_close(span, expected@, label),
        ),
{
    push_failure(errs, close_span(span), Some(Token::Keyword(Keyword::RParen)), expected, label);
}

fn ident_at(d: &Spanned<Datum>) -> (r: Option<Spanned<String>>)
    ensures
        match r {
            Some(x) => ident_of((datum_view(d.0), d.1)) == Some((x.0@, x.1)),
            None => ident_of((datum_view(d.0), d.1)) is None,
        },
{
    match &d.0 {
        Datum::Primitive(Primitive::Ident(x)) => Some((x.clone(), d.1)),
        _ => None,
    }
}

fn keyword_head(items: &Vec<Spanned<Datum>>) -> (r: Option<Keyword>)
    ensures
        match r {
            Some(k) => items@.len() > 0 && datum_view(items@[0].0) == DatumV::Keyword(k),
            None => items@.len() == 0 || datum_view(items@[0].0) !is Keyword,
        },
{
    if items.len() == 0 {
        return None;
    }
    match &items[0].0 {
        Datum::Keyword(k) => Some(*k),
        _ => None,
    }
}

fn is_define_form_at(d: &Spanned<Datum>) -> (r: bool)
    ensures
        r == is_define_form((datum_view(d.0), d.1)),
{
    match &d.0 {
        Datum::List(items) => {
            proof {
                lemma_datums_view_len(items@);
            }
            match keyword_head(items) {
                Some(Keyword::Define) => true,
                _ => false,
            }
        },
        _ => false,
    }
}

/// The index of the first item of `items` from `i` on that is not an identifier.
fn scan_idents(items: &Vec<Spanned<Datum>>, i: usize) -> (r: usize)
    requires
        i <= items.len(),
    ensures
        r == first_non_ident(datums_view(items@), i as int),
{
    proof {
        lemma_datums_view_len(items@);
    }
    let mut k = i;
    while k < items.len()
        invariant
            i <= k <= items.len(),
            datums_view(items@).len() == items@.len(),
            forall|j: int|
                0 <= j < items@.len() ==> #[trigger] datums_view(items@)[j] == (
                    datum_view(items@[j].0),
                    items@[j].1,
                ),
            first_non_ident(datums_view(items@), k as int) == first_non_ident(
                datums_view(items@),
                i as int,
            ),
        decreases items.len() - k,
    {
        if ident_at(&items[k]).is_none() {
            return k;
        }
        k = k + 1;
    }
    k
}

/// The identifiers `items[from..]`, all of which are identifiers.
fn collect_idents(items: &Vec<Spanned<Datum>>, from: usize) -> (r: Vec<Spanned<String>>)
    requires
        from <= items.len(),
        first_non_ident(datums_view(items@), from as int) == items.len(),
    ensures
        idents_view(r@) == idents(datums_view(items@).subrange(from as int, items@.len() as int)),
{
    proof {
        lemma_datums_view_len(items@);
        lemma_first_non_ident(datums_view(items@), from as int);
    }
    let ghost s = datums_view(items@);
    let mut out: Vec<Spanned<String>> = Vec::new();
    let mut k = from;
    while k < items.len()
        invariant
            from <= k <= items.len(),
            s == datums_view(items@),
            s.len() == items@.len(),
            forall|j: int| 0 <= j < items@.len() ==> #[trigger] s[j] == (datum_view(items@[j].0), items@[j].1),
            forall|j: int| from <= j < items@.len() ==> is_ident(#[trigger] s[j]),
            idents_view(out@) == idents(s.subrange(from as int, k as int)),
        decreases items.len() - k,
    {
        assert(is_ident(s[k as int]));
        assert(s[k as int] == (datum_view(items@[k as int].0), items@[k as int].1));
        let x = ident_at(&items[k]);
        let x = x.unwrap();
        let ghost before = out@;
        let ghost xv = (x.0@, x.1);
        out.push(x);
        k = k + 1;
        proof {
            assert(idents_view(out@) =~= idents_view(before).push(xv));
            assert(idents(s.subrange(from as int, k as int)) =~= idents(
                s.subrange(from as int, k - 1),
            ).push(ident_of(s[k - 1])->0));
        }
    }
    out
}

/// Parses a datum as an expression; failures are appended to `errs`.
fn parse_expr_at(d: &Spanned<Datum>, errs: &mut Vec<Failure<Token>>) -> (r: Spanned<Expression>)
    ensures
        (expr_view(r.0), r.1) == parse_expr((datum_view(d.0), d.1)).0,
        failures_view(final(errs)@) == failures_view(old(errs)@) + parse_expr(
            (datum_view(d.0), d.1),
        ).1,
    decreases d.0, 0int,
{
    let ghost dv = (datum_view(d.0), d.1);
    let ghost start = failures_view(errs@);
    match &d.0 {
        Datum::Error => {
            assert(start + seq![] =~= start);
            (Expression::Error, d.1)
        },
        Datum::Primitive(p) => {
            assert(start + seq![] =~= start);
            (Expression::Primitive(p.duplicate()), d.1)
        },
        Datum::Keyword(_) => {
            fail_at_datum(errs, d, expect1(Expected::Expression), Label::Expression);
            assert(failures_view(errs@) =~= start + parse_expr(dv).1);
            (Expression::Error, d.1)
        },
        Datum::List(items) => {
            proof {
                assert(decreases_to!(d.0 => *items));
            }
            parse_form_at(items, d.1, errs)
        },
    }
}

/// Parses a list of `items` spanning `span` as an expression.
fn parse_form_at(items: &Vec<Spanned<Datum>>, span: Span, errs: &mut Vec<Failure<Token>>) -> (r:
    Spanned<Expression>)
    ensures
        (expr_view(r.0), r.1) == parse_form(datums_view(items@), span).0,
        failures_view(final(errs)@) == failures_view(old(errs)@) + parse_form(
            datums_view(items@),
            span,
        ).1,
    decreases items, 4int,
{
    let ghost s = datums_view(items@);
    let ghost start = failures_view(errs@);
    proof {
        lemma_datums_view_len(items@);
    }
    if items.len() == 0 {
        fail_at_close(errs, span, expect1(Expected::Expression), Label::Expression);
        assert(failures_view(errs@) =~= start + parse_form(s, span).1);
        return (Expression::Error, span);
    }
    match keyword_head(items) {
        Some(Keyword::If) => parse_if_at(items, span, errs),
        Some(Keyword::Lambda) => parse_lambda_at(items, span, errs),
        Some(Keyword::SetBang) => parse_set_at(items, span, errs),
        Some(Keyword::Define) => {
            fail_at_datum(errs, &items[0], expect1(Expected::Expression), Label::Expression);
            assert(failures_view(errs@) =~= start + parse_form(s, span).1);
            (Expression::Error, span)
        },
        _ => {
            proof {
                assert(decreases_to!(*items => items@[0]));
            }
            let operator = parse_expr_at(&items[0], errs);
            let args = parse_exprs_at(items, 1, errs);
            proof {
                assert(s.drop_first() =~= s.subrange(1, s.len() as int));
            }
            assert(failures_view(errs@) =~= start + parse_form(s, span).1);
            (Expression::ProcedureCall { operator: Box::new(operator), args }, span)
        },
    }
}

fn parse_if_at(items: &Vec<Spanned<Datum>>, span: Span, errs: &mut Vec<Failure<Token>>) -> (r:
    Spanned<Expression>)
    ensures
        (expr_view(r.0), r.1) == parse_if(datums_view(items@), span).0,
        failures_view(final(errs)@) == failures_view(old(errs)@) + parse_if(
            datums_view(items@),
            span,
        ).1,
    decreases items, 3int,
{
    let ghost s = datums_view(items@);
    let ghost start = failures_view(errs@);
    proof {
        lemma_datums_view_len(items@);
    }
    let n = items.len();
    if n < 3 {
        fail_at_close(errs, span, expect1(Expected::Expression), Label::Expression);
        assert(failures_view(errs@) =~= start + parse_if(s, span).1);
        return (Expression::Error, span);
    }
    if n > 4 {
        fail_at_datum(errs, &items[4], expect1(Expected::Expression), Label::Expression);
        assert(failures_view(errs@) =~= start + parse_if(s, span).1);
        return (Expression::Error, span);
    }
    proof {
        assert(decreases_to!(*items => items@[1]));
        assert(decreases_to!(*items => items@[2]));
    }
    let test = parse_expr_at(&items[1], errs);
    let conseq = parse_expr_at(&items[2], errs);
    if n == 4 {
        proof {
            assert(decreases_to!(*items => items@[3]));
        }
        let alter = parse_expr_at(&items[3], errs);
        assert(failures_view(errs@) =~= start + parse_if(s, span).1);
        (
            Expression::Conditional {
                test: Box::new(test),
                conseq: Box::new(conseq),
                alter: Some(Box::new(alter)),
            },
            span,
        )
    } else {
        assert(failures_view(errs@) =~= start + parse_if(s, span).1);
        (Expression::Conditional { test: Box::new(test), conseq: Box::new(conseq), alter: None }, span)
    }
}

fn parse_formals_at(f: &Spanned<Datum>, errs: &mut Vec<Failure<Token>>) -> (r: Option<
    Vec<Spanned<String>>,
>)
    ensures
        match parse_formals((datum_view(f.0), f.1)) {
            Ok(a) => (r matches Some(v) && idents_view(v@) == a) && failures_view(final(errs)@)
                == failures_view(old(errs)@),
            Err(x) => r is None && failures_view(final(errs)@) == failures_view(old(errs)@).push(x),
        },
{
    match &f.0 {
        Datum::List(formals) => {
            proof {
                lemma_datums_view_len(formals@);
                lemma_first_non_ident(datums_view(formals@), 0);
            }
            let j = scan_idents(formals, 0);
            if j < formals.len() {
                fail_at_datum(
                    errs,
                    &formals[j],
                    expect1(Expected::Expression),
                    Label::Expression,
                );
                return None;
            }
            let r = collect_idents(formals, 0);
            assert(datums_view(formals@).subrange(0, formals@.len() as int) =~= datums_view(
                formals@,
            ));
            Some(r)
        },
        Datum::Primitive(Primitive::Ident(x)) => {
            let v = vec![(x.clone(), f.1)];
            assert(idents_view(v@) =~= seq![(x@, f.1)]);
            Some(v)
        },
        _ => {
            fail_at_datum(errs, f, expect1(Expected::Expression), Label::Expression);
            None
        },
    }
}

fn parse_lambda_at(items: &Vec<Spanned<Datum>>, span: Span, errs: &mut Vec<Failure<Token>>) -> (r:
    Spanned<Expression>)
    ensures
        (expr_view(r.0), r.1) == parse_lambda(datums_view(items@), span).0,
        failures_view(final(errs)@) == failures_view(old(errs)@) + parse_lambda(
            datums_view(items@),
            span,
        ).1,
    decreases items, 3int,
{
    let ghost s = datums_view(items@);
    let ghost start = failures_view(errs@);
    proof {
        lemma_datums_view_len(items@);
    }
    if items.len() < 2 {
        fail_at_close(errs, span, expect1(Expected::Expression), Label::Expression);
        assert(failures_view(errs@) =~= start + parse_lambda(s, span).1);
        return (Expression::Error, span);
    }
    match parse_formals_at(&items[1], errs) {
        None => {
            assert(failures_view(errs@) =~= start + parse_lambda(s, span).1);
            (Expression::Error, span)
        },
        Some(args) => {
            let body = parse_body_at(
                items,
                2,
                close_span(span),
                Some(Token::Keyword(Keyword::RParen)),
                expect1(Expected::Expression),
                errs,
            );
            proof {
                assert(s.skip(2) =~= s.subrange(2, s.len() as int));
            }
            assert(failures_view(errs@) =~= start + parse_lambda(s, span).1);
            match body {
                Some(body) => (Expression::Procedure { args, body: Box::new(body) }, span),
                None => (Expression::Error, span),
            }
        },
    }
}

fn parse_set_at(items: &Vec<Spanned<Datum>>, span: Span, errs: &mut Vec<Failure<Token>>) -> (r:
    Spanned<Expression>)
    ensures
        (expr_view(r.0), r.1) == parse_set(datums_view(items@), span).0,
        failures_view(final(errs)@) == failures_view(old(errs)@) + parse_set(
            datums_view(items@),
            span,
        ).1,
    decreases items, 3int,
{
    let ghost s = datums_view(items@);
    let ghost start = failures_view(errs@);
    proof {
        lemma_datums_view_len(items@);
    }
    let n = items.len();
    if n < 2 {
        fail_at_close(errs, span, expect1(Expected::Expression), Label::Expression);
        assert(failures_view(errs@) =~= start + parse_set(s, span).1);
        return (Expression::Error, span);
    }
    let target = match ident_at(&items[1]) {
        Some(x) => x,
        None => {
            fail_at_datum(errs, &items[1], expect1(Expected::Expression), Label::Expression);
            assert(failures_view(errs@) =~= start + parse_set(s, span).1);
            return (Expression::Error, span);
        },
    };
    if n < 3 {
        fail_at_close(errs, span, expect1(Expected::Expression), Label::Expression);
        assert(failures_view(errs@) =~= start + parse_set(s, span).1);
        return (Expression::Error, span);
    }
    if n > 3 {
        fail_at_datum(errs, &items[3], expect1(Expected::Expression), Label::Expression);
        assert(failures_view(errs@) =~= start + parse_set(s, span).1);
        return (Expression::Error, span);
    }
    proof {
        assert(decreases_to!(*items => items@[2]));
    }
    let value = parse_expr_at(&items[2], errs);
    assert(failures_view(errs@) =~= start + parse_set(s, span).1);
    (Expression::Assignment(target, Box::new(value)), span)
}
/// Parses `items[from..]` as expressions.
fn parse_exprs_at(items: &Vec<Spanned<Datum>>, from: usize, errs: &mut Vec<Failure<Token>>) -> (r:
    Vec<Spanned<Expression>>)
    requires
        from <= items.len(),
    ensures
        exprs_view(r@) == parse_exprs(datums_view(items@).subrange(from as int, items@.len() as int)).0,
        failures_view(final(errs)@) == failures_view(old(errs)@) + parse_exprs(
            datums_view(items@).subrange(from as int, items@.len() as int),
        ).1,
    decreases items, 1int,
{
    proof {
        lemma_datums_view_len(items@);
    }
    let ghost s = datums_view(items@);
    let ghost start = failures_view(errs@);
    let mut out: Vec<Spanned<Expression>> = Vec::new();
    let mut k = from;
    assert(s.subrange(from as int, from as int) =~= seq![]);
    assert(start + seq![] =~= start);
    while k < items.len()
        invariant
            from <= k <= items.len(),
            s == datums_view(items@),
            s.len() == items@.len(),
            forall|j: int| 0 <= j < items@.len() ==> #[trigger] s[j] == (datum_view(items@[j].0), items@[j].1),
            exprs_view(out@) == parse_exprs(s.subrange(from as int, k as int)).0,
            failures_view(errs@) == start + parse_exprs(s.subrange(from as int, k as int)).1,
        decreases items.len() - k,
    {
        proof {
            assert(decreases_to!(*items => items@[k as int]));
        }
        let e = parse_expr_at(&items[k], errs);
        proof {
            lemma_exprs_view_push(out@, e);
            assert(s.subrange(from as int, k + 1).drop_last() =~= s.subrange(from as int, k as int));
        }
        out.push(e);
        k = k + 1;
        assert(failures_view(errs@) =~= start + parse_exprs(s.subrange(from as int, k as int)).1);
    }
    out
}

/// Parses a `define` form.
fn parse_def_at(d: &Spanned<Datum>, errs: &mut Vec<Failure<Token>>) -> (r: Option<Spanned<Definition>>)
    ensures
        option_def_view(r) == parse_def((datum_view(d.0), d.1)).0,
        failures_view(final(errs)@) == failures_view(old(errs)@) + parse_def(
            (datum_view(d.0), d.1),
        ).1,
    decreases d.0, 0int,
{
    let ghost start = failures_view(errs@);
    match &d.0 {
        Datum::List(items) => {
            proof {
                assert(decreases_to!(d.0 => *items));
            }
            parse_def_form_at(items, d.1, errs)
        },
        _ => {
            assert(start + seq![] =~= start);
            None
        },
    }
}

pub open spec fn def_view(x: Spanned<Definition>) -> (DefV, Span) {
    (DefV { name: (x.0.0.0@, x.0.0.1), value: (expr_view(x.0.1.0), x.0.1.1) }, x.1)
}

pub open spec fn option_def_view(r: Option<Spanned<Definition>>) -> Option<(DefV, Span)> {
    match r {
        Some(x) => Some(def_view(x)),
        None => None,
    }
}

fn parse_def_form_at(items: &Vec<Spanned<Datum>>, span: Span, errs: &mut Vec<Failure<Token>>) -> (r:
    Option<Spanned<Definition>>)
    ensures
        option_def_view(r) == parse_def_form(datums_view(items@), span).0,
        failures_view(final(errs)@) == failures_view(old(errs)@) + parse_def_form(
            datums_view(items@),
            span,
        ).1,
    decreases items, 3int,
{
    let ghost s = datums_view(items@);
    let ghost start = failures_view(errs@);
    let lbl = Label::Definition;
    proof {
        lemma_datums_view_len(items@);
    }
    let n = items.len();
    if n < 2 {
        fail_at_close(errs, span, expect1(Expected::Definition), lbl);
        assert(failures_view(errs@) =~= start + parse_def_form(s, span).1);
        return None;
    }
    match &items[1].0 {
        Datum::Primitive(Primitive::Ident(x)) => {
            if n < 3 {
                fail_at_close(errs, span, expect1(Expected::Definition), lbl);
                assert(failures_view(errs@) =~= start + parse_def_form(s, span).1);
                return None;
            }
            if n > 3 {
                fail_at_datum(errs, &items[3], expect1(Expected::Definition), lbl);
                assert(failures_view(errs@) =~= start + parse_def_form(s, span).1);
                return None;
            }
            proof {
                assert(decreases_to!(*items => items@[2]));
            }
            let value = parse_expr_at(&items[2], errs);
            Some((Definition((x.clone(), items[1].1), value), span))
        },
        Datum::List(sig) => {
            proof {
                lemma_datums_view_len(sig@);
                lemma_first_non_ident(datums_view(sig@), 0);
            }
            if sig.len() == 0 {
                fail_at_close(errs, items[1].1, expect1(Expected::Definition), lbl);
                assert(failures_view(errs@) =~= start + parse_def_form(s, span).1);
                return None;
            }
            let j = scan_idents(sig, 0);
            if j < sig.len() {
                fail_at_datum(errs, &sig[j], expect1(Expected::Definition), lbl);
                assert(failures_view(errs@) =~= start + parse_def_form(s, span).1);
                return None;
            }
            let name = ident_at(&sig[0]).unwrap();
            let args = collect_idents(sig, 1);
            proof {
                assert(datums_view(sig@).subrange(1, sig@.len() as int) =~= datums_view(
                    sig@,
                ).drop_first());
            }
            let body = parse_body_at(
                items,
                2,
                close_span(span),
                Some(Token::Keyword(Keyword::RParen)),
                expect1(Expected::Definition),
                errs,
            );
            proof {
                assert(s.skip(2) =~= s.subrange(2, s.len() as int));
            }
            assert(failures_view(errs@) =~= start + parse_def_form(s, span).1);
            match body {
                Some(body) => Some(
                    (
                        Definition(name, (Expression::Procedure { args, body: Box::new(body) }, span)),
                        span,
                    ),
                ),
                None => None,
            }
        },
        _ => {
            fail_at_datum(errs, &items[1], expect1(Expected::Definition), lbl);
            assert(failures_view(errs@) =~= start + parse_def_form(s, span).1);
            None
        },
    }
}
/// Parses `items[from..to]` as definitions, leaving out the malformed ones.
fn parse_defs_at(items: &Vec<Spanned<Datum>>, from: usize, to: usize, errs: &mut Vec<Failure<Token>>) -> (r:
    Vec<Spanned<Definition>>)
    requires
        from <= to <= items.len(),
    ensures
        defs_view(r@) == parse_defs(datums_view(items@).subrange(from as int, to as int)).0,
        failures_view(final(errs)@) == failures_view(old(errs)@) + parse_defs(
            datums_view(items@).subrange(from as int, to as int),
        ).1,
    decreases items, 1int,
{
    proof {
        lemma_datums_view_len(items@);
    }
    let ghost s = datums_view(items@);
    let ghost start = failures_view(errs@);
    let mut out: Vec<Spanned<Definition>> = Vec::new();
    let mut k = from;
    assert(s.subrange(from as int, from as int) =~= seq![]);
    assert(start + seq![] =~= start);
    while k < to
        invariant
            from <= k <= to <= items.len(),
            s == datums_view(items@),
            s.len() == items@.len(),
            forall|j: int| 0 <= j < items@.len() ==> #[trigger] s[j] == (datum_view(items@[j].0), items@[j].1),
            defs_view(out@) == parse_defs(s.subrange(from as int, k as int)).0,
            failures_view(errs@) == start + parse_defs(s.subrange(from as int, k as int)).1,
        decreases to - k,
    {
        proof {
            assert(decreases_to!(*items => items@[k as int]));
        }
        let d = parse_def_at(&items[k], errs);
        proof {
            assert(s.subrange(from as int, k + 1).drop_last() =~= s.subrange(from as int, k as int));
        }
        match d {
            Some(x) => {
                proof {
                    lemma_defs_view_push(out@, x);
                }
                out.push(x);
            },
            None => {},
        }
        k = k + 1;
        assert(failures_view(errs@) =~= start + parse_defs(s.subrange(from as int, k as int)).1);
    }
    out
}

/// Parses `items[from..]` as a procedure body that ends at `close`, where
/// `found` stands.
fn parse_body_at(
    items: &Vec<Spanned<Datum>>,
    from: usize,
    close: Span,
    found: Option<Token>,
    outer: Vec<Expected>,
    errs: &mut Vec<Failure<Token>>,
) -> (r: Option<ProcedureBody>)
    requires
        from <= items.len(),
    ensures
        ({
            let b = parse_body(
                datums_view(items@).subrange(from as int, items@.len() as int),
                close,
                option_view(found),
                outer@,
            );
            &&& match (r, b.0) {
                (Some(x), Some(y)) => body_view(x) == y,
                (None, None) => true,
                _ => false,
            }
            &&& failures_view(final(errs)@) == failures_view(old(errs)@) + b.1
        }),
    decreases items, 2int,
{
    proof {
        lemma_datums_view_len(items@);
    }
    let ghost s = datums_view(items@);
    let ghost sub = s.subrange(from as int, items@.len() as int);
    let ghost start = failures_view(errs@);
    let mut k = from;
    while k < items.len() && is_define_form_at(&items[k])
        invariant
            from <= k <= items.len(),
            s == datums_view(items@),
            s.len() == items@.len(),
            forall|j: int| 0 <= j < items@.len() ==> #[trigger] s[j] == (datum_view(items@[j].0), items@[j].1),
            def_prefix(s, k as int) == def_prefix(s, from as int),
        decreases items.len() - k,
    {
        k = k + 1;
    }
    proof {
        lemma_def_prefix(s, from as int, from as int);
        assert(sub.take(k - from) =~= s.subrange(from as int, k as int));
        assert(sub.skip(k - from) =~= s.subrange(k as int, items@.len() as int));
    }
    let defs = parse_defs_at(items, from, k, errs);
    let mut exprs = parse_exprs_at(items, k, errs);
    let ghost b = parse_body(sub, close, option_view(found), outer@);
    if exprs.len() == 0 {
        push_failure(errs, close, found, outer, Label::ProcedureBody);
        assert(failures_view(errs@) =~= start + b.1);
        return None;
    }
    let ghost before_pop = exprs@;
    let last_expr = exprs.pop().unwrap();
    proof {
        assert(exprs@.push(last_expr) =~= before_pop);
        lemma_exprs_view_push(exprs@, last_expr);
        assert(exprs_view(before_pop).drop_last() =~= exprs_view(exprs@));
    }
    assert(failures_view(errs@) =~= start + b.1);
    Some(ProcedureBody { defs, exprs, last_expr })
}

/// Parses the data of a whole program, read from a source of `eoi` bytes.
/// Goes on past failures; the program is there exactly when it has at least
/// one expression.
pub fn parser(ds: &Vec<Spanned<Datum>>, eoi: usize) -> (r: (Option<Program>, Vec<Failure<Token>>))
    requires
        eoi < usize::MAX,
    ensures
        ({
            let p = parse_program(datums_view(ds@), eoi);
            &&& match (r.0, p.0) {
                (Some(x), Some(y)) => body_view(x) == y,
                (None, None) => true,
                _ => false,
            }
            &&& failures_view(r.1@) == p.1
        }),
{
    let mut errs: Vec<Failure<Token>> = Vec::new();
    assert(failures_view(errs@) =~= seq![]);
    let r = parse_body_at(
        ds,
        0,
        Span { start: eoi, end: eoi + 1 },
        None,
        expect2(Expected::Definition, Expected::Expression),
        &mut errs,
    );
    proof {
        lemma_datums_view_len(ds@);
    }
    assert(datums_view(ds@).subrange(0, ds@.len() as int) =~= datums_view(ds@));
    assert(seq![] + parse_program(datums_view(ds@), eoi).1 =~= parse_program(datums_view(ds@), eoi).1);
    (r, errs)
}

/// Either a lexing failure or a reading/parsing failure: lexing failures stop
/// the work before any parsing.
#[derive(Debug)]
pub enum TokenizeOrParseError {
    Tokenize(ParseError<char>),
    Parse(ParseError<Token>),
}

impl TokenizeOrParseError {
    /// Whether the error is shown with color.
    pub fn with_color(self, colorful: bool) -> (r: Self)
        ensures
            match (self, r) {
                (TokenizeOrParseError::Tokenize(a), TokenizeOrParseError::Tokenize(b)) => b@ == (
                ParseErrorV { colorful, ..a@ }),
                (TokenizeOrParseError::Parse(a), TokenizeOrParseError::Parse(b)) => b@ == (
                ParseErrorV { colorful, ..a@ }),
                _ => false,
            },
    {
        match self {
            TokenizeOrParseError::Tokenize(e) => TokenizeOrParseError::Tokenize(e.with_color(colorful)),
            TokenizeOrParseError::Parse(e) => TokenizeOrParseError::Parse(e.with_color(colorful)),
        }
    }
}

/// What parsing a token sequence gives: read the data, run the transformers
/// over them, write them back as tokens, read those again and parse the
/// program; the failures of the first stage that has any, otherwise.
pub open spec fn parse_tokens_spec(
    trs: Seq<BuiltinTransformer>,
    ts: Seq<(TokenV, Span)>,
    eoi: usize,
) -> Result<BodyV, Seq<FailureV<TokenV>>> {
    let r1 = read_spec(ts, eoi);
    if r1.1.len() > 0 {
        Err(r1.1)
    } else {
        let r2 = read_spec(flatten_seq(expand_all(trs, r1.0)), eoi);
        if r2.1.len() > 0 {
            Err(r2.1)
        } else {
            let p = parse_program(r2.0, eoi);
            if p.1.len() == 0 && p.0 is Some {
                Ok(p.0->0)
            } else {
                Err(p.1)
            }
        }
    }
}

/// What a lenient parse of a whole source gives: lex past bad characters,
/// read past unmatched delimiters, run the transformers, and parse past
/// malformed forms. The program, the lexing failures, the reading and
/// parsing failures.
pub open spec fn parse_recover_spec(trs: Seq<BuiltinTransformer>, cs: Seq<char>) -> (
    Option<BodyV>,
    Seq<FailureV<char>>,
    Seq<FailureV<TokenV>>,
) {
    let lexed = lex_spec(cs);
    let read = read_spec(lexed.0, text_len(cs) as usize);
    let p = parse_program(expand_all(trs, read.0), text_len(cs) as usize);
    (p.0, lexed.1, read.1 + p.1)
}

/// A parser that owns the transformers run before each parse.
pub struct Parser {
    transformers: Vec<BuiltinTransformer>,
}

impl View for Parser {
    type V = Seq<BuiltinTransformer>;

    closed spec fn view(&self) -> Seq<BuiltinTransformer> {
        self.transformers@
    }
}

impl Default for Parser {
    /// A parser with the `begin` transformer.
    fn default() -> (r: Self)
        ensures
            r@ == seq![BuiltinTransformer::Begin(Begin)],
    {
        let transformers = vec![BuiltinTransformer::Begin(Begin)];
        assert(transformers@ =~= seq![BuiltinTransformer::Begin(Begin)]);
        Parser { transformers }
    }
}

fn program_result(
    r: Option<Program>,
    failures: Vec<Failure<Token>>,
    source: &str,
    source_path: &str,
) -> (out: Result<Program, TokenizeOrParseError>)
    ensures
        match out {
            Ok(p) => failures@.len() == 0 && r == Some(p),
            Err(TokenizeOrParseError::Parse(e)) => (failures@.len() > 0 || r is None) && e@
                == token_error(failures_view(failures@), source@, source_path@),
            Err(TokenizeOrParseError::Tokenize(_)) => false,
        },
{
    if failures.len() == 0 {
        if let Some(p) = r {
            return Ok(p);
        }
    }
    Err(
        TokenizeOrParseError::Parse(
            ParseError::new(string_from(source), string_from(source_path), failures, "token"),
        ),
    )
}

impl Parser {
    /// Parses tokens lexed from `source`, after running the transformers over
    /// their data. Succeeds exactly when no stage fails.
    pub fn parse_tokens(&mut self, tokens: &[Spanned<Token>], source: &str, source_path: &str) -> (r:
        Result<Program, TokenizeOrParseError>)
        requires
            text_len(source@) < usize::MAX,
        ensures
            final(self)@ == old(self)@,
            match (r, parse_tokens_spec(old(self)@, tokens_view(tokens@), text_len(source@) as usize)) {
                (Ok(p), Ok(b)) => body_view(p) == b,
                (Err(TokenizeOrParseError::Parse(e)), Err(f)) => e@ == token_error(
                    f,
                    source@,
                    source_path@,
                ),
                _ => false,
            },
    {
        let len = source_len(source);
        let (expanded, mut added) = match expansion(&self.transformers, tokens, source, source_path) {
            Ok(x) => x,
            Err(e) => return Err(TokenizeOrParseError::Parse(e)),
        };
        let ghost before = self.transformers@;
        self.transformers.append(&mut added);
        assert(self.transformers@ =~= before);
        let (ds, failures) = datums(expanded.as_slice(), len);
        if failures.len() > 0 {
            return Err(
                TokenizeOrParseError::Parse(
                    ParseError::new(string_from(source), string_from(source_path), failures, "token"),
                ),
            );
        }
        let (program, failures) = parser(&ds, len);
        program_result(program, failures, source, source_path)
    }

    /// Lexes and parses `source`. Lexing failures come first; otherwise as
    /// `parse_tokens`.
    pub fn parse(&mut self, source: &str, source_path: &str) -> (r: Result<Program, TokenizeOrParseError>)
        requires
            text_len(source@) < usize::MAX,
        ensures
            final(self)@ == old(self)@,
            lex_spec(source@).1.len() > 0 ==> (r matches Err(TokenizeOrParseError::Tokenize(e))
                && e@ == (ParseErrorV {
                failures: lex_spec(source@).1,
                source: source@,
                source_path: source_path@,
                item_name: "char"@,
                colorful: true,
                display_every_expected: true,
            })),
            lex_spec(source@).1.len() == 0 ==> match (
                r,
                parse_tokens_spec(old(self)@, lex_spec(source@).0, text_len(source@) as usize),
            ) {
                (Ok(p), Ok(b)) => body_view(p) == b,
                (Err(TokenizeOrParseError::Parse(e)), Err(f)) => e@ == token_error(
                    f,
                    source@,
                    source_path@,
                ),
                _ => false,
            },
    {
        let tokens = match tokenize(source, source_path) {
            Ok(t) => t,
            Err(e) => return Err(TokenizeOrParseError::Tokenize(e)),
        };
        self.parse_tokens(tokens.as_slice(), source, source_path)
    }

    /// Lexes, reads and parses `source`, going on past every failure: the
    /// program (when it has an expression), the lexing failures, and the
    /// reading and parsing failures.
    pub fn parse_recover(&mut self, source: &str) -> (r: (
        Option<Program>,
        Vec<Failure<char>>,
        Vec<Failure<Token>>,
    ))
        requires
            text_len(source@) < usize::MAX,
        ensures
            final(self)@ == old(self)@,
            ({
                let sp = parse_recover_spec(old(self)@, source@);
                &&& match (r.0, sp.0) {
                    (Some(x), Some(y)) => body_view(x) == y,
                    (None, None) => true,
                    _ => false,
                }
                &&& failures_view(r.1@) == sp.1
                &&& failures_view(r.2@) == sp.2
            }),
    {
        let cs = chars_of(source);
        let len = source_len(source);
        let (tokens, lex_failures) = lexer(&cs);
        let (mut ds, mut failures) = datums(tokens.as_slice(), len);
        let ghost read = datums_view(ds@);
        let mut k: usize = 0;
        while k < self.transformers.len()
            invariant
                k <= self.transformers.len(),
                datums_view(ds@) == expand_all(self.transformers@.take(k as int), read),
            decreases self.transformers.len() - k,
        {
            ds = expand_each(&self.transformers[k], ds);
            k = k + 1;
            assert(self.transformers@.take(k as int).drop_last() =~= self.transformers@.take(k - 1));
        }
        assert(self.transformers@.take(k as int) =~= self.transformers@);
        let (program, mut parse_failures) = parser(&ds, len);
        let ghost f1 = failures_view(failures@);
        let ghost f2 = failures_view(parse_failures@);
        failures.append(&mut parse_failures);
        assert(failures_view(failures@) =~= f1 + f2);
        (program, lex_failures, failures)
    }
}

} // verus!
