pub mod builtin;

use vstd::prelude::*;

use crate::datum::{
    clean_datum, datum_view, datums_view, flatten_seq, lemma_datums_view_len, lemma_datums_view_push, Datum,
    DatumV, IntoTokens,
};
use crate::error::{
    failures_view, Expected, Failure, FailureV, Label, ParseError, ParseErrorV, Reason, ReasonV,
};
use crate::lexer::{source_len, text_len, tokens_view};
use crate::span::{Span, Spanned};
use crate::strings::string_from;
use crate::token::{Keyword, Token, TokenV};

verus! {

/// The error that reports token failures `fs` against a source and its name.
pub open spec fn token_error(fs: Seq<FailureV<TokenV>>, source: Seq<char>, source_path: Seq<char>) -> ParseErrorV<
    TokenV,
> {
    ParseErrorV {
        failures: fs,
        source,
        source_path,
        item_name: "token"@,
        colorful: true,
        display_every_expected: true,
    }
}

/// A rewrite of one datum, run over every datum before the final parse.
pub trait Transformer {
    /// What the rewrite makes of a datum.
    spec fn spec_transform(&self, d: (DatumV, Span)) -> (DatumV, Span);

    fn transform(&self, datum: &mut Spanned<Datum>)
        ensures
            (datum_view(final(datum).0), final(datum).1) == self.spec_transform(
                (datum_view(old(datum).0), old(datum).1),
            ),
    ;

    /// The rewrite keeps a datum that its tokens write faithfully so.
    proof fn lemma_keeps_clean(&self, d: (DatumV, Span))
        requires
            clean_datum(d),
        ensures
            clean_datum(self.spec_transform(d)),
    ;
}

/// An open list being read: the span of its `(` and the items read so far.
pub type FrameV = (Span, Seq<(DatumV, Span)>);

/// Puts `d` at the end of the innermost open list, or at top level when no
/// list is open.
pub open spec fn add_item(stack: Seq<FrameV>, top: Seq<(DatumV, Span)>, d: (DatumV, Span)) -> (
    Seq<FrameV>,
    Seq<(DatumV, Span)>,
) {
    if stack.len() == 0 {
        (stack, top.push(d))
    } else {
        (stack.drop_last().push((stack.last().0, stack.last().1.push(d))), top)
    }
}

/// The span just past the end of a source of `eoi` bytes.
pub open spec fn end_span(eoi: usize) -> Span {
    Span { start: eoi, end: (eoi + 1) as usize }
}

/// A `(` at `open` that is still open at the end of input.
pub open spec fn unclosed_failure(open: Span, eoi: usize) -> FailureV<TokenV> {
    FailureV {
        span: end_span(eoi),
        reason: ReasonV::Unclosed { span: open, delimiter: TokenV::Keyword(Keyword::LParen) },
        expected: seq![Expected::CloseParen],
        found: None,
        label: Some(Label::Datum),
    }
}

/// A `)` at `at` that closes nothing.
pub open spec fn stray_close_failure(at: Span) -> FailureV<TokenV> {
    FailureV {
        span: at,
        reason: ReasonV::Unexpected,
        expected: seq![Expected::Datum, Expected::EndOfInput],
        found: Some(TokenV::Keyword(Keyword::RParen)),
        label: None,
    }
}

/// How deeply lists may nest. Deeper lists are skipped whole, so that every
/// datum read can be walked without exhausting the stack.
pub const MAX_DEPTH: usize = 256;

/// A `(` at `at` that would open a list nested deeper than `MAX_DEPTH`.
pub open spec fn too_deep_failure(at: Span) -> FailureV<TokenV> {
    FailureV {
        span: at,
        reason: ReasonV::Custom("lists nested too deeply"@),
        expected: seq![],
        found: Some(TokenV::Keyword(Keyword::LParen)),
        label: Some(Label::Datum),
    }
}

/// Reading data from token `i` on, with the lists still open on `stack`, the
/// data read at top level in `top`, and the failures so far in `errs`.
/// A `)` with no open list becomes an `Error` datum; lists still open at the
/// end of input become one `Error` datum from the outermost `(` to the end.
/// A list that would nest deeper than `MAX_DEPTH` is skipped through its
/// matching `)` and becomes an `Error` datum; while `skip > 0`, that many of
/// its lists are open, and it started at `skip_start`.
pub open spec fn read_from(
    ts: Seq<(TokenV, Span)>,
    eoi: usize,
    i: int,
    stack: Seq<FrameV>,
    top: Seq<(DatumV, Span)>,
    errs: Seq<FailureV<TokenV>>,
    skip: nat,
    skip_start: usize,
) -> (Seq<(DatumV, Span)>, Seq<FailureV<TokenV>>)
    decreases ts.len() - i,
{
    if i < 0 || i >= ts.len() {
        if stack.len() == 0 {
            (top, errs)
        } else {
            (
                top.push((DatumV::Error, Span { start: stack[0].0.start, end: eoi })),
                errs.push(unclosed_failure(stack[0].0, eoi)),
            )
        }
    } else if skip > 0 {
        let sp = ts[i].1;
        match ts[i].0 {
            TokenV::Keyword(Keyword::LParen) => read_from(
                ts,
                eoi,
                i + 1,
                stack,
                top,
                errs,
                skip + 1,
                skip_start,
            ),
            TokenV::Keyword(Keyword::RParen) => {
                if skip == 1 {
                    let next = add_item(
                        stack,
                        top,
                        (DatumV::Error, Span { start: skip_start, end: sp.end }),
                    );
                    read_from(ts, eoi, i + 1, next.0, next.1, errs, 0, 0)
                } else {
                    read_from(ts, eoi, i + 1, stack, top, errs, (skip - 1) as nat, skip_start)
                }
            },
            _ => read_from(ts, eoi, i + 1, stack, top, errs, skip, skip_start),
        }
    } else {
        let sp = ts[i].1;
        match ts[i].0 {
            TokenV::Keyword(Keyword::LParen) => {
                if stack.len() >= MAX_DEPTH {
                    read_from(ts, eoi, i + 1, stack, top, errs.push(too_deep_failure(sp)), 1, sp.start)
                } else {
                    read_from(ts, eoi, i + 1, stack.push((sp, seq![])), top, errs, 0, 0)
                }
            },
            TokenV::Keyword(Keyword::RParen) => {
                if stack.len() == 0 {
                    read_from(
                        ts,
                        eoi,
                        i + 1,
                        stack,
                        top.push((DatumV::Error, sp)),
                        errs.push(stray_close_failure(sp)),
                        0,
                        0,
                    )
                } else {
                    let d = (
                        DatumV::List(stack.last().1),
                        Span { start: stack.last().0.start, end: sp.end },
                    );
                    let next = add_item(stack.drop_last(), top, d);
                    read_from(ts, eoi, i + 1, next.0, next.1, errs, 0, 0)
                }
            },
            TokenV::Keyword(k) => {
                let next = add_item(stack, top, (DatumV::Keyword(k), sp));
                read_from(ts, eoi, i + 1, next.0, next.1, errs, 0, 0)
            },
            TokenV::Primitive(p) => {
                let next = add_item(stack, top, (DatumV::Primitive(p), sp));
                read_from(ts, eoi, i + 1, next.0, next.1, errs, 0, 0)
            },
        }
    }
}

/// The data and the failures of reading a whole token sequence.
pub open spec fn read_spec(ts: Seq<(TokenV, Span)>, eoi: usize) -> (
    Seq<(DatumV, Span)>,
    Seq<FailureV<TokenV>>,
) {
    read_from(ts, eoi, 0, seq![], seq![], seq![], 0, 0)
}

pub open spec fn stack_view(s: Seq<(Span, Vec<Spanned<Datum>>)>) -> Seq<FrameV> {
    s.map_values(|f: (Span, Vec<Spanned<Datum>>)| (f.0, datums_view(f.1@)))
}

fn add_item_exec(
    stack: &mut Vec<(Span, Vec<Spanned<Datum>>)>,
    top: &mut Vec<Spanned<Datum>>,
    d: Spanned<Datum>,
)
    ensures
        (stack_view(final(stack)@), datums_view(final(top)@)) == add_item(
            stack_view(old(stack)@),
            datums_view(old(top)@),
            (datum_view(d.0), d.1),
        ),
{
    let ghost dv = (datum_view(d.0), d.1);
    if stack.len() == 0 {
        proof {
            lemma_datums_view_push(top@, d);
        }
        top.push(d);
    } else {
        let ghost old_stack = stack@;
        let (sp, mut items) = stack.pop().unwrap();
        proof {
            lemma_datums_view_push(items@, d);
        }
        items.push(d);
        stack.push((sp, items));
        proof {
            assert(stack_view(old_stack).drop_last() =~= stack_view(old_stack.drop_last()));
            assert(stack_view(stack@) =~= stack_view(old_stack).drop_last().push(
                (stack_view(old_stack).last().0, stack_view(old_stack).last().1.push(dv)),
            ));
        }
    }
}

/// Reads the bracket structure of `tokens`: each `(` ... `)` becomes a list,
/// every other token an atom. Reading goes on past failures; `eoi` is the
/// length of the source in bytes, where the end of input is reported.
pub fn datums(tokens: &[Spanned<Token>], eoi: usize) -> (r: (
    Vec<Spanned<Datum>>,
    Vec<Failure<Token>>,
))
    requires
        eoi < usize::MAX,
    ensures
        (datums_view(r.0@), failures_view(r.1@)) == read_spec(tokens_view(tokens@), eoi),
{
    let ghost ts = tokens_view(tokens@);
    let mut stack: Vec<(Span, Vec<Spanned<Datum>>)> = Vec::new();
    let mut top: Vec<Spanned<Datum>> = Vec::new();
    let mut errs: Vec<Failure<Token>> = Vec::new();
    let mut skip: usize = 0;
    let mut skip_start: usize = 0;
    let mut i: usize = 0;
    assert(stack_view(stack@) =~= seq![]);
    assert(datums_view(top@) =~= seq![]);
    assert(failures_view(errs@) =~= seq![]);
    while i < tokens.len()
        invariant
            i <= tokens.len(),
            skip <= i,
            skip == 0 ==> skip_start == 0,
            ts == tokens_view(tokens@),
            read_spec(ts, eoi) == read_from(
                ts,
                eoi,
                i as int,
                stack_view(stack@),
                datums_view(top@),
                failures_view(errs@),
                skip as nat,
                skip_start,
            ),
        decreases tokens.len() - i,
    {
        let sp = tokens[i].1;
        let ghost before = (stack_view(stack@), datums_view(top@), failures_view(errs@));
        if skip > 0 {
            match &tokens[i].0 {
                Token::Keyword(Keyword::LParen) => {
                    skip = skip + 1;
                },
                Token::Keyword(Keyword::RParen) => {
                    if skip == 1 {
                        add_item_exec(
                            &mut stack,
                            &mut top,
                            (Datum::Error, Span { start: skip_start, end: sp.end }),
                        );
                        skip_start = 0;
                    }
                    skip = skip - 1;
                },
                _ => {},
            }
        } else {
            match &tokens[i].0 {
                Token::Keyword(Keyword::LParen) => {
                    if stack.len() >= MAX_DEPTH {
                        let f = Failure {
                            span: sp,
                            reason: Reason::Custom(string_from("lists nested too deeply")),
                            expected: Vec::new(),
                            found: Some(Token::Keyword(Keyword::LParen)),
                            label: Some(Label::Datum),
                        };
                        assert(f@.expected =~= seq![]);
                        errs.push(f);
                        assert(failures_view(errs@) =~= before.2.push(too_deep_failure(sp)));
                        skip = 1;
                        skip_start = sp.start;
                    } else {
                        stack.push((sp, Vec::new()));
                        assert(stack_view(stack@) =~= before.0.push((sp, seq![])));
                    }
                },
                Token::Keyword(Keyword::RParen) => {
                    if stack.len() == 0 {
                        proof {
                            lemma_datums_view_push(top@, (Datum::Error, sp));
                        }
                        top.push((Datum::Error, sp));
                        let f = Failure {
                            span: sp,
                            reason: Reason::Unexpected,
                            expected: vec![Expected::Datum, Expected::EndOfInput],
                            found: Some(Token::Keyword(Keyword::RParen)),
                            label: None,
                        };
                        assert(f@.expected =~= seq![Expected::Datum, Expected::EndOfInput]);
                        errs.push(f);
                        assert(failures_view(errs@) =~= before.2.push(stray_close_failure(sp)));
                    } else {
                        let (open, items) = stack.pop().unwrap();
                        proof {
                            assert(stack_view(stack@) =~= before.0.drop_last());
                        }
                        add_item_exec(
                            &mut stack,
                            &mut top,
                            (Datum::List(items), Span { start: open.start, end: sp.end }),
                        );
                    }
                },
                Token::Keyword(k) => {
                    add_item_exec(&mut stack, &mut top, (Datum::Keyword(*k), sp));
                },
                Token::Primitive(p) => {
                    add_item_exec(&mut stack, &mut top, (Datum::Primitive(p.duplicate()), sp));
                },
            }
        }
        i = i + 1;
    }
    if stack.len() > 0 {
        let open = stack[0].0;
        proof {
            lemma_datums_view_push(top@, (Datum::Error, Span { start: open.start, end: eoi }));
        }
        top.push((Datum::Error, Span { start: open.start, end: eoi }));
        let ghost before = failures_view(errs@);
        let f = Failure {
            span: Span { start: eoi, end: eoi + 1 },
            reason: Reason::Unclosed { span: open, delimiter: Token::Keyword(Keyword::LParen) },
            expected: vec![Expected::CloseParen],
            found: None,
            label: Some(Label::Datum),
        };
        assert(f@.expected =~= seq![Expected::CloseParen]);
        errs.push(f);
        assert(failures_view(errs@) =~= before.push(unclosed_failure(open, eoi)));
    }
    (top, errs)
}

/// Reads the data of `tokens`, lexed from `source`. Succeeds exactly when
/// reading finds no failure.
pub fn datumize(tokens: &[Spanned<Token>], source: &str, source_path: &str) -> (r: Result<
    Vec<Spanned<Datum>>,
    ParseError<Token>,
>)
    requires
        text_len(source@) < usize::MAX,
    ensures
        ({
            let read = read_spec(tokens_view(tokens@), text_len(source@) as usize);
            match r {
                Ok(ds) => read.1.len() == 0 && datums_view(ds@) == read.0,
                Err(e) => read.1.len() > 0 && e@ == token_error(read.1, source@, source_path@),
            }
        }),
{
    let len = source_len(source);
    let (ds, failures) = datums(tokens, len);
    if failures.len() == 0 {
        Ok(ds)
    } else {
        Err(ParseError::new(string_from(source), string_from(source_path), failures, "token"))
    }
}

/// A datum after `t` has run over it: children first, then the datum itself.
pub open spec fn expand_datum<T: Transformer>(t: T, d: (DatumV, Span)) -> (DatumV, Span)
    decreases d,
{
    match d.0 {
        DatumV::List(items) => t.spec_transform((DatumV::List(expand_seq(t, items)), d.1)),
        _ => t.spec_transform(d),
    }
}

pub open spec fn expand_seq<T: Transformer>(t: T, s: Seq<(DatumV, Span)>) -> Seq<(DatumV, Span)>
    decreases s,
{
    if s.len() == 0 {
        seq![]
    } else {
        expand_seq(t, s.drop_last()).push(expand_datum(t, s.last()))
    }
}

/// The data after each transformer, in order, has run over all of them.
pub open spec fn expand_all<T: Transformer>(ts: Seq<T>, ds: Seq<(DatumV, Span)>) -> Seq<
    (DatumV, Span),
>
    decreases ts.len(),
{
    if ts.len() == 0 {
        ds
    } else {
        expand_seq(ts.last(), expand_all(ts.drop_last(), ds))
    }
}

pub proof fn lemma_expand_seq_index<T: Transformer>(t: T, s: Seq<(DatumV, Span)>)
    ensures
        expand_seq(t, s).len() == s.len(),
        forall|j: int| 0 <= j < s.len() ==> #[trigger] expand_seq(t, s)[j] == expand_datum(t, s[j]),
    decreases s.len(),
{
    if s.len() > 0 {
        lemma_expand_seq_index(t, s.drop_last());
    }
}

/// Runs `t` over `d` and, before that, over every datum inside it.
fn expand_owned<T: Transformer>(t: &T, d: Spanned<Datum>) -> (r: Spanned<Datum>)
    ensures
        (datum_view(r.0), r.1) == expand_datum(*t, (datum_view(d.0), d.1)),
    decreases d.0,
{
    let span = d.1;
    let ghost whole = d.0;
    match d.0 {
        Datum::List(items) => {
            let ghost orig_vec = items;
            let ghost orig = items@;
            assert(decreases_to!(whole => orig_vec));
            let mut items = items;
            let mut k: usize = 0;
            while k < items.len()
                invariant
                    k <= items.len(),
                    items@.len() == orig.len(),
                    forall|j: int|
                        0 <= j < k ==> (datum_view(#[trigger] items@[j].0), items@[j].1)
                            == expand_datum(*t, (datum_view(orig[j].0), orig[j].1)),
                    forall|j: int| k <= j < items@.len() ==> #[trigger] items@[j] == orig[j],
                    decreases_to!(whole => orig_vec),
                    whole == d.0,
                    orig == orig_vec@,
                decreases items.len() - k,
            {
                let mut x = (Datum::Error, span);
                items.set_and_swap(k, &mut x);
                proof {
                    assert(x == orig[k as int]);
                    assert(decreases_to!(orig_vec => orig_vec[k as int]));
                    assert(decreases_to!(orig_vec[k as int] => orig_vec[k as int].0));
                    assert(decreases_to!(whole => orig[k as int].0));
                }
                let y = expand_owned(t, x);
                items.set(k, y);
                k = k + 1;
            }
            proof {
                lemma_datums_view_len(items@);
                lemma_datums_view_len(orig);
                lemma_expand_seq_index(*t, datums_view(orig));
                assert(datums_view(items@) =~= expand_seq(*t, datums_view(orig)));
            }
            let mut r = (Datum::List(items), span);
            t.transform(&mut r);
            r
        },
        other => {
            let mut r = (other, span);
            t.transform(&mut r);
            r
        },
    }
}

/// Runs `t` over every datum of `ds`.
pub(crate) fn expand_each<T: Transformer>(t: &T, ds: Vec<Spanned<Datum>>) -> (r: Vec<Spanned<Datum>>)
    ensures
        datums_view(r@) == expand_seq(*t, datums_view(ds@)),
{
    let mut ds = ds;
    let ghost orig = ds@;
    let mut k: usize = 0;
    while k < ds.len()
        invariant
            k <= ds.len(),
            ds@.len() == orig.len(),
            forall|j: int|
                0 <= j < k ==> (datum_view(#[trigger] ds@[j].0), ds@[j].1) == expand_datum(
                    *t,
                    (datum_view(orig[j].0), orig[j].1),
                ),
            forall|j: int| k <= j < ds@.len() ==> #[trigger] ds@[j] == orig[j],
        decreases ds.len() - k,
    {
        let mut x = (Datum::Error, Span { start: 0, end: 0 });
        ds.set_and_swap(k, &mut x);
        let y = expand_owned(t, x);
        ds.set(k, y);
        k = k + 1;
    }
    proof {
        lemma_datums_view_len(ds@);
        lemma_datums_view_len(orig);
        lemma_expand_seq_index(*t, datums_view(orig));
        assert(datums_view(ds@) =~= expand_seq(*t, datums_view(orig)));
    }
    ds
}

/// Reads the data of `tokens`, runs each transformer over all of them in
/// order, and writes the result back as tokens. Fails, with the reading
/// failures, exactly when reading fails. No transformer here registers
/// another, so the second part of the result is empty.
pub fn expansion<T: Transformer>(
    transformers: &Vec<T>,
    tokens: &[Spanned<Token>],
    source: &str,
    source_path: &str,
) -> (r: Result<(Vec<Spanned<Token>>, Vec<T>), ParseError<Token>>)
    requires
        text_len(source@) < usize::MAX,
    ensures
        ({
            let read = read_spec(tokens_view(tokens@), text_len(source@) as usize);
            match r {
                Ok((out, added)) => read.1.len() == 0 && tokens_view(out@) == flatten_seq(
                    expand_all(transformers@, read.0),
                ) && added@.len() == 0,
                Err(e) => read.1.len() > 0 && e@ == token_error(read.1, source@, source_path@),
            }
        }),
{
    let mut ds = match datumize(tokens, source, source_path) {
        Ok(ds) => ds,
        Err(e) => return Err(e),
    };
    let ghost read = datums_view(ds@);
    let mut k: usize = 0;
    while k < transformers.len()
        invariant
            k <= transformers.len(),
            datums_view(ds@) == expand_all(transformers@.take(k as int), read),
        decreases transformers.len() - k,
    {
        ds = expand_each(&transformers[k], ds);
        k = k + 1;
        assert(transformers@.take(k as int).drop_last() =~= transformers@.take(k - 1));
    }
    assert(transformers@.take(k as int) =~= transformers@);
    Ok((ds.into_tokens(), Vec::new()))
}

} // verus!
