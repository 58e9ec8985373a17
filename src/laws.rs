use vstd::prelude::*;

use crate::datum::{lemma_clean_seq_index, clean_datum, clean_seq, close_token, flatten_datum, flatten_seq, open_token, DatumV};
use crate::error::FailureV;
use crate::error::{Expected, Label};
use crate::ast::{BodyV, DefV, ExprV};
use crate::parser::parse_tokens_spec;
use crate::transformer::builtin::{begin_word, Begin, BuiltinTransformer};
use crate::lexer::{byte_pos, byte_span, lemma_byte_pos_mono, text_len, lemma_lex_token_advances, lemma_skip_from, lex_from, lex_spec, lex_token, skip_from};
use crate::token::PrimitiveV;
use crate::parser::{
    lemma_first_non_ident, parse_if, parse_lambda, parse_set, first_non_ident, idents, is_ident, parse_def_form, parse_form, parse_formals,
    def_prefix, is_define_form, lemma_def_prefix, parse_body, parse_def, parse_defs, parse_expr,
    parse_exprs, parse_program, unexpected,
};
use crate::span::Span;
use crate::token::{Keyword, TokenV};
use crate::transformer::{lemma_expand_seq_index, too_deep_failure, MAX_DEPTH, expand_all, expand_datum, expand_seq, Transformer, add_item, read_from, read_spec, FrameV};

verus! {

/// Adds each datum of `s`, in order, as `add_item` does.
pub open spec fn add_all(stack: Seq<FrameV>, top: Seq<(DatumV, Span)>, s: Seq<(DatumV, Span)>) -> (
    Seq<FrameV>,
    Seq<(DatumV, Span)>,
)
    decreases s.len(),
{
    if s.len() == 0 {
        (stack, top)
    } else {
        let p = add_all(stack, top, s.drop_last());
        add_item(p.0, p.1, s.last())
    }
}

proof fn lemma_add_all_shape(stack: Seq<FrameV>, top: Seq<(DatumV, Span)>, s: Seq<(DatumV, Span)>)
    ensures
        stack.len() == 0 ==> add_all(stack, top, s) == (stack, top + s),
        stack.len() > 0 ==> add_all(stack, top, s) == (
            stack.drop_last().push((stack.last().0, stack.last().1 + s)),
            top,
        ),
    decreases s.len(),
{
    if s.len() == 0 {
        assert(top + s =~= top);
        assert(stack.last().1 + s =~= stack.last().1);
        if stack.len() > 0 {
            assert(stack.drop_last().push((stack.last().0, stack.last().1)) =~= stack);
        }
    } else {
        lemma_add_all_shape(stack, top, s.drop_last());
        assert(top + s.drop_last() + seq![s.last()] =~= top + s);
        assert((top + s.drop_last()).push(s.last()) =~= top + s);
        assert((stack.last().1 + s.drop_last()).push(s.last()) =~= stack.last().1 + s);
        if stack.len() > 0 {
            let st2 = stack.drop_last().push((stack.last().0, stack.last().1 + s.drop_last()));
            assert(st2.drop_last() =~= stack.drop_last());
        }
    }
}

proof fn lemma_split3(ts: Seq<(TokenV, Span)>, i: int, a: Seq<(TokenV, Span)>, b: Seq<(TokenV, Span)>)
    requires
        0 <= i,
        i + a.len() + b.len() <= ts.len(),
        ts.subrange(i, i + a.len() + b.len()) == a + b,
    ensures
        ts.subrange(i, i + a.len()) == a,
        ts.subrange(i + a.len(), i + a.len() + b.len()) == b,
{
    assert forall|k: int| 0 <= k < a.len() implies ts[i + k] == a[k] by {
        assert(ts.subrange(i, i + a.len() + b.len())[k] == (a + b)[k]);
    }
    assert forall|k: int| 0 <= k < b.len() implies ts[i + a.len() + k] == b[k] by {
        assert(ts.subrange(i, i + a.len() + b.len())[a.len() + k] == (a + b)[a.len() + k]);
    }
    assert(ts.subrange(i, i + a.len()) =~= a);
    assert(ts.subrange(i + a.len(), i + a.len() + b.len()) =~= b);
}

/// Every list of `d` nests at most `n` deep.
pub open spec fn fits(d: (DatumV, Span), n: nat) -> bool
    decreases d,
{
    match d.0 {
        DatumV::List(items) => n >= 1 && forall|j: int|
            0 <= j < items.len() ==> fits(#[trigger] items[j], (n - 1) as nat),
        _ => true,
    }
}

/// Every datum of `s` nests at most `n` deep.
pub open spec fn fits_seq(s: Seq<(DatumV, Span)>, n: nat) -> bool {
    forall|j: int| 0 <= j < s.len() ==> fits(#[trigger] s[j], n)
}

/// Reading the tokens that write a clean datum adds that datum where reading
/// stands.
proof fn lemma_read_datum(
    d: (DatumV, Span),
    ts: Seq<(TokenV, Span)>,
    eoi: usize,
    i: int,
    stack: Seq<FrameV>,
    top: Seq<(DatumV, Span)>,
    errs: Seq<FailureV<TokenV>>,
)
    requires
        clean_datum(d),
        stack.len() <= MAX_DEPTH,
        fits(d, (MAX_DEPTH - stack.len()) as nat),
        0 <= i,
        i + flatten_datum(d).len() <= ts.len(),
        ts.subrange(i, i + flatten_datum(d).len()) == flatten_datum(d),
    ensures
        read_from(ts, eoi, i, stack, top, errs, 0, 0) == ({
            let n = add_item(stack, top, d);
            read_from(ts, eoi, i + flatten_datum(d).len(), n.0, n.1, errs, 0, 0)
        }),
    decreases d, 0int,
{
    let f = flatten_datum(d);
    match d.0 {
        DatumV::List(items) => {
            let fi = flatten_seq(items);
            let o = open_token(d.1);
            let c = close_token(d.1);
            assert(f == seq![o] + fi + seq![c]);
            lemma_split3(ts, i, seq![o] + fi, seq![c]);
            lemma_split3(ts, i, seq![o], fi);
            assert(ts[i] == ts.subrange(i, i + 1)[0]);
            assert(ts[i + 1 + fi.len()] == ts.subrange(i + 1 + fi.len(), i + 2 + fi.len())[0]);
            let st1 = stack.push((o.1, seq![]));
            assert(fits_seq(items, (MAX_DEPTH - st1.len()) as nat));
            lemma_read_seq(items, ts, eoi, i + 1, st1, top, errs);
            lemma_add_all_shape(st1, top, items);
            assert(st1.drop_last() =~= stack);
            assert(seq![] + items =~= items);
            let st2 = st1.drop_last().push((o.1, items));
            assert(st2.drop_last() =~= stack);
        },
        _ => {
            assert(ts[i] == ts.subrange(i, i + f.len())[0]);
        },
    }
}

/// Reading the tokens that write clean data adds those data in order.
proof fn lemma_read_seq(
    s: Seq<(DatumV, Span)>,
    ts: Seq<(TokenV, Span)>,
    eoi: usize,
    i: int,
    stack: Seq<FrameV>,
    top: Seq<(DatumV, Span)>,
    errs: Seq<FailureV<TokenV>>,
)
    requires
        clean_seq(s),
        stack.len() <= MAX_DEPTH,
        fits_seq(s, (MAX_DEPTH - stack.len()) as nat),
        0 <= i,
        i + flatten_seq(s).len() <= ts.len(),
        ts.subrange(i, i + flatten_seq(s).len()) == flatten_seq(s),
    ensures
        read_from(ts, eoi, i, stack, top, errs, 0, 0) == ({
            let n = add_all(stack, top, s);
            read_from(ts, eoi, i + flatten_seq(s).len(), n.0, n.1, errs, 0, 0)
        }),
    decreases s, 1int,
{
    if s.len() > 0 {
        let a = flatten_seq(s.drop_last());
        let b = flatten_datum(s.last());
        lemma_split3(ts, i, a, b);
        lemma_read_seq(s.drop_last(), ts, eoi, i, stack, top, errs);
        let p = add_all(stack, top, s.drop_last());
        lemma_add_all_shape(stack, top, s.drop_last());
        assert(fits(s.last(), (MAX_DEPTH - stack.len()) as nat)) by {
            assert(s.last() == s[s.len() - 1]);
        }
        assert(fits_seq(s.drop_last(), (MAX_DEPTH - stack.len()) as nat)) by {
            assert forall|j: int| 0 <= j < s.drop_last().len() implies fits(
                #[trigger] s.drop_last()[j],
                (MAX_DEPTH - stack.len()) as nat,
            ) by {
                assert(s.drop_last()[j] == s[j]);
            }
        }
        lemma_read_datum(s.last(), ts, eoi, i + a.len(), p.0, p.1, errs);
    }
}

/// Writing clean data that nest at most `MAX_DEPTH` deep as tokens and
/// reading those tokens gives back the same data, with no failure; so the
/// program parsed from them is the same too.
pub proof fn lemma_round_trip(ds: Seq<(DatumV, Span)>, eoi: usize)
    requires
        clean_seq(ds),
        fits_seq(ds, MAX_DEPTH as nat),
    ensures
        read_spec(flatten_seq(ds), eoi) == (ds, Seq::<FailureV<TokenV>>::empty()),
        parse_program(read_spec(flatten_seq(ds), eoi).0, eoi) == parse_program(ds, eoi),
{
    let ts = flatten_seq(ds);
    assert(ts.subrange(0, ts.len() as int) =~= ts);
    lemma_read_seq(ds, ts, eoi, 0, seq![], seq![], seq![]);
    lemma_add_all_shape(seq![], seq![], ds);
    assert(Seq::<(DatumV, Span)>::empty() + ds =~= ds);
}

/// Each form of a sequence is parsed on its own: the expression at each place
/// is the one its datum gives alone, so a malformed form (which becomes
/// `Error`) leaves the forms after it untouched.
pub proof fn lemma_forms_independent(s: Seq<(DatumV, Span)>)
    ensures
        parse_exprs(s).0.len() == s.len(),
        forall|i: int| 0 <= i < s.len() ==> #[trigger] parse_exprs(s).0[i] == parse_expr(s[i]).0,
    decreases s.len(),
{
    if s.len() > 0 {
        lemma_forms_independent(s.drop_last());
    }
}

proof fn lemma_def_prefix_shift(d0: (DatumV, Span), rest: Seq<(DatumV, Span)>, i: int)
    requires
        0 <= i <= rest.len(),
    ensures
        def_prefix(seq![d0] + rest, i + 1) == def_prefix(rest, i) + 1,
    decreases rest.len() - i,
{
    let s = seq![d0] + rest;
    if i < rest.len() {
        assert(s[i + 1] == rest[i]);
        lemma_def_prefix_shift(d0, rest, i + 1);
    }
}

proof fn lemma_defs_skip_first(d0: (DatumV, Span), x: Seq<(DatumV, Span)>)
    requires
        parse_def(d0).0 is None,
    ensures
        parse_defs(seq![d0] + x) == (parse_defs(x).0, parse_def(d0).1 + parse_defs(x).1),
    decreases x.len(),
{
    if x.len() == 0 {
        assert(seq![d0] + x =~= seq![d0]);
        assert(seq![d0].drop_last() =~= Seq::<(DatumV, Span)>::empty());
        assert(parse_defs(Seq::<(DatumV, Span)>::empty()).0 =~= seq![]);
        assert(parse_defs(Seq::<(DatumV, Span)>::empty()).1 =~= seq![]);
        assert(parse_defs(x) == parse_defs(Seq::<(DatumV, Span)>::empty()));
        assert(parse_def(d0).1 + Seq::<FailureV<TokenV>>::empty() =~= parse_def(d0).1);
        assert(Seq::<FailureV<TokenV>>::empty() + parse_def(d0).1 =~= parse_def(d0).1);
    } else {
        lemma_defs_skip_first(d0, x.drop_last());
        assert((seq![d0] + x).drop_last() =~= seq![d0] + x.drop_last());
        assert((seq![d0] + x).last() == x.last());
        let a = parse_def(d0).1;
        let b = parse_defs(x.drop_last()).1;
        let c = parse_def(x.last()).1;
        assert(a + b + c =~= a + (b + c));
        assert(parse_defs(seq![d0] + x).1 == parse_defs(seq![d0] + x.drop_last()).1 + c);
        assert(parse_defs(x).1 == b + c);
        assert(parse_defs(seq![d0] + x).0 == parse_defs(x).0);
    }
}

/// A `define` form at the head of a body that cannot be parsed is reported
/// and left out; the definitions and expressions after it are parsed as
/// they would be without it.
pub proof fn lemma_bad_definition_skipped(
    d0: (DatumV, Span),
    rest: Seq<(DatumV, Span)>,
    close: Span,
    found: Option<TokenV>,
    outer: Seq<Expected>,
)
    requires
        is_define_form(d0),
        parse_def(d0).0 is None,
    ensures
        parse_body(seq![d0] + rest, close, found, outer).0 == parse_body(rest, close, found, outer).0,
        parse_body(seq![d0] + rest, close, found, outer).1 == parse_def(d0).1 + parse_body(
            rest,
            close,
            found,
            outer,
        ).1,
{
    let s = seq![d0] + rest;
    assert(s[0] == d0);
    lemma_def_prefix_shift(d0, rest, 0);
    lemma_def_prefix(rest, 0, 0);
    lemma_def_prefix(s, 0, 0);
    let k = def_prefix(rest, 0);
    assert(def_prefix(s, 0) == k + 1);
    assert(s.take(k + 1) =~= seq![d0] + rest.take(k));
    assert(s.skip(k + 1) =~= rest.skip(k));
    lemma_defs_skip_first(d0, rest.take(k));
    let a = parse_def(d0).1;
    let b = parse_defs(rest.take(k)).1;
    let c = parse_exprs(rest.skip(k)).1;
    assert(a + b + c =~= a + (b + c));
    let m = seq![unexpected(close, found, outer, Label::ProcedureBody)];
    assert(a + b + c + m =~= a + (b + c + m));
}

/// Every child of a list lies within the list's span, all the way down.
pub open spec fn nested(d: (DatumV, Span)) -> bool
    decreases d,
{
    match d.0 {
        DatumV::List(items) => forall|j: int|
            0 <= j < items.len() ==> d.1.contains(#[trigger] items[j].1) && nested(items[j]),
        _ => true,
    }
}

/// Tokens in source order within a source of `eoi` bytes: each span covers
/// at least one position, ends by `eoi`, and ends before the next one starts.
pub open spec fn ordered(ts: Seq<(TokenV, Span)>, eoi: usize) -> bool {
    &&& forall|i: int| 0 <= i < ts.len() ==> ts[i].1.start < #[trigger] ts[i].1.end <= eoi
    &&& forall|i: int, j: int| 0 <= i < j < ts.len() ==> #[trigger] ts[i].1.end <= #[trigger] ts[j].1.start
}

/// Where token `i` starts, or `eoi` past the last token.
pub open spec fn pos(ts: Seq<(TokenV, Span)>, eoi: usize, i: int) -> int {
    if 0 <= i < ts.len() {
        ts[i].1.start as int
    } else {
        eoi as int
    }
}

/// What reading keeps true before token `i`: data read are nested, the open
/// lists start in order before `i`, and their items lie between their `(` and
/// token `i`.
pub open spec fn read_inv(ts: Seq<(TokenV, Span)>, eoi: usize, i: int, stack: Seq<FrameV>, top: Seq<
    (DatumV, Span),
>) -> bool {
    &&& forall|j: int| 0 <= j < top.len() ==> nested(#[trigger] top[j]) && top[j].1.end <= pos(ts, eoi, i)
    &&& forall|k: int|
        0 <= k < stack.len() ==> #[trigger] stack[k].0.start <= stack[k].0.end <= pos(ts, eoi, i)
    &&& forall|k: int, m: int|
        0 <= k < m < stack.len() ==> #[trigger] stack[k].0.end <= #[trigger] stack[m].0.start
    &&& forall|k: int, j: int|
        0 <= k < stack.len() && 0 <= j < stack[k].1.len() ==> {
            let x = #[trigger] stack[k].1[j];
            &&& nested(x)
            &&& stack[k].0.start <= x.1.start
            &&& x.1.end <= pos(ts, eoi, i)
        }
}

proof fn lemma_pos_step(ts: Seq<(TokenV, Span)>, eoi: usize, i: int)
    requires
        ordered(ts, eoi),
        0 <= i < ts.len(),
    ensures
        pos(ts, eoi, i) <= ts[i].1.end <= pos(ts, eoi, i + 1),
{
    if i + 1 < ts.len() {
        assert(ts[i].1.end <= ts[i + 1].1.start);
    }
}

/// While no failure has been met, every datum read so far is clean, and so is
/// every open `(`.
pub open spec fn clean_inv(stack: Seq<FrameV>, top: Seq<(DatumV, Span)>, errs: Seq<FailureV<TokenV>>) -> bool {
    errs.len() == 0 ==> {
        &&& forall|j: int| 0 <= j < top.len() ==> clean_datum(#[trigger] top[j])
        &&& forall|k: int| 0 <= k < stack.len() ==> #[trigger] stack[k].0.start < stack[k].0.end
        &&& forall|k: int, j: int|
            0 <= k < stack.len() && 0 <= j < stack[k].1.len() ==> clean_datum(#[trigger] stack[k].1[j])
    }
}

proof fn lemma_add_item_clean(
    stack: Seq<FrameV>,
    top: Seq<(DatumV, Span)>,
    errs: Seq<FailureV<TokenV>>,
    d: (DatumV, Span),
)
    requires
        clean_inv(stack, top, errs),
        errs.len() == 0 ==> clean_datum(d),
    ensures
        clean_inv(add_item(stack, top, d).0, add_item(stack, top, d).1, errs),
{
    let n = add_item(stack, top, d);
    if errs.len() == 0 {
        if stack.len() == 0 {
            assert forall|j: int| 0 <= j < n.1.len() implies clean_datum(#[trigger] n.1[j]) by {
                if j < top.len() {
                    assert(n.1[j] == top[j]);
                }
            }
        } else {
            let last = stack.len() - 1;
            assert forall|k: int| 0 <= k < n.0.len() implies #[trigger] n.0[k].0.start < n.0[k].0.end by {
                assert(n.0[k].0 == stack[k].0);
            }
            assert forall|k: int, j: int| 0 <= k < n.0.len() && 0 <= j < n.0[k].1.len() implies clean_datum(
                #[trigger] n.0[k].1[j],
            ) by {
                if k < last {
                    assert(n.0[k] == stack[k]);
                } else if j < stack[last].1.len() {
                    assert(n.0[k].1[j] == stack[last].1[j]);
                }
            }
        }
    }
}

/// Adding a nested datum that starts after every open `(` and ends by `p`
/// keeps the invariant at `p`.
proof fn lemma_add_item_inv(
    ts: Seq<(TokenV, Span)>,
    eoi: usize,
    i: int,
    stack: Seq<FrameV>,
    top: Seq<(DatumV, Span)>,
    d: (DatumV, Span),
)
    requires
        read_inv(ts, eoi, i, stack, top),
        nested(d),
        forall|k: int| 0 <= k < stack.len() ==> #[trigger] stack[k].0.start <= d.1.start,
        d.1.end <= pos(ts, eoi, i),
    ensures
        read_inv(ts, eoi, i, add_item(stack, top, d).0, add_item(stack, top, d).1),
{
    let n = add_item(stack, top, d);
    if stack.len() == 0 {
        assert forall|j: int| 0 <= j < n.1.len() implies nested(#[trigger] n.1[j]) && n.1[j].1.end
            <= pos(ts, eoi, i) by {
            if j < top.len() {
                assert(n.1[j] == top[j]);
            }
        }
    } else {
        let last = stack.len() - 1;
        assert forall|k: int, j: int| 0 <= k < n.0.len() && 0 <= j < n.0[k].1.len() implies {
            let x = #[trigger] n.0[k].1[j];
            &&& nested(x)
            &&& n.0[k].0.start <= x.1.start
            &&& x.1.end <= pos(ts, eoi, i)
        } by {
            if k < last {
                assert(n.0[k] == stack[k]);
            } else {
                if j < stack[last].1.len() {
                    assert(n.0[k].1[j] == stack[last].1[j]);
                }
            }
        }
        assert forall|k: int| 0 <= k < n.0.len() implies #[trigger] n.0[k].0.start <= n.0[k].0.end
            <= pos(ts, eoi, i) by {
            assert(n.0[k].0 == stack[k].0);
        }
        assert forall|k: int, m: int| 0 <= k < m < n.0.len() implies #[trigger] n.0[k].0.end
            <= #[trigger] n.0[m].0.start by {
            assert(n.0[k].0 == stack[k].0);
            assert(n.0[m].0 == stack[m].0);
        }
    }
}

/// The invariant holds at the next token too.
proof fn lemma_read_inv_step(
    ts: Seq<(TokenV, Span)>,
    eoi: usize,
    i: int,
    stack: Seq<FrameV>,
    top: Seq<(DatumV, Span)>,
)
    requires
        ordered(ts, eoi),
        0 <= i < ts.len(),
        read_inv(ts, eoi, i, stack, top),
    ensures
        read_inv(ts, eoi, i + 1, stack, top),
{
    lemma_pos_step(ts, eoi, i);
    assert forall|k: int, j: int| 0 <= k < stack.len() && 0 <= j < stack[k].1.len() implies {
        let x = #[trigger] stack[k].1[j];
        &&& nested(x)
        &&& stack[k].0.start <= x.1.start
        &&& x.1.end <= pos(ts, eoi, i + 1)
    } by {
    }
}

/// While a too-deep list is skipped, a failure has been met and every open
/// `(` ends before the skipped list starts, which is before token `i`.
pub open spec fn skip_inv(
    ts: Seq<(TokenV, Span)>,
    eoi: usize,
    i: int,
    stack: Seq<FrameV>,
    errs: Seq<FailureV<TokenV>>,
    skip: nat,
    skip_start: usize,
) -> bool {
    skip > 0 ==> {
        &&& errs.len() > 0
        &&& skip_start <= pos(ts, eoi, i)
        &&& forall|k: int| 0 <= k < stack.len() ==> #[trigger] stack[k].0.end <= skip_start
    }
}

/// Reading on from a state that keeps the invariant gives nested data.
proof fn lemma_read_from_nested(
    ts: Seq<(TokenV, Span)>,
    eoi: usize,
    i: int,
    stack: Seq<FrameV>,
    top: Seq<(DatumV, Span)>,
    errs: Seq<FailureV<TokenV>>,
    skip: nat,
    skip_start: usize,
)
    requires
        ordered(ts, eoi),
        0 <= i <= ts.len(),
        read_inv(ts, eoi, i, stack, top),
        clean_inv(stack, top, errs),
        skip_inv(ts, eoi, i, stack, errs, skip, skip_start),
    ensures
        ({
            let r = read_from(ts, eoi, i, stack, top, errs, skip, skip_start);
            &&& forall|j: int| 0 <= j < r.0.len() ==> nested(#[trigger] r.0[j]) && r.0[j].1.end <= eoi
            &&& r.1.len() >= errs.len()
            &&& r.1.len() == 0 ==> forall|j: int| 0 <= j < r.0.len() ==> clean_datum(#[trigger] r.0[j])
        }),
    decreases ts.len() - i,
{
    let r = read_from(ts, eoi, i, stack, top, errs, skip, skip_start);
    if i >= ts.len() {
        if stack.len() > 0 {
            let t2 = top.push((DatumV::Error, Span { start: stack[0].0.start, end: eoi }));
            assert forall|j: int| 0 <= j < t2.len() implies nested(#[trigger] t2[j]) && t2[j].1.end
                <= eoi by {
                if j < top.len() {
                    assert(t2[j] == top[j]);
                }
            }
            assert(r.0 == t2);
        } else {
            assert(r.0 == top);
        }
    } else {
        let sp = ts[i].1;
        lemma_pos_step(ts, eoi, i);
        assert(sp.start < sp.end <= eoi);
        lemma_read_inv_step(ts, eoi, i, stack, top);
        if skip > 0 {
            match ts[i].0 {
                TokenV::Keyword(Keyword::LParen) => {
                    lemma_read_from_nested(ts, eoi, i + 1, stack, top, errs, skip + 1, skip_start);
                    assert(r == read_from(ts, eoi, i + 1, stack, top, errs, skip + 1, skip_start));
                },
                TokenV::Keyword(Keyword::RParen) => {
                    if skip == 1 {
                        let d = (DatumV::Error, Span { start: skip_start, end: sp.end });
                        assert forall|k: int| 0 <= k < stack.len() implies #[trigger] stack[k].0.start
                            <= d.1.start by {
                            assert(stack[k].0.start <= stack[k].0.end);
                        }
                        lemma_add_item_inv(ts, eoi, i + 1, stack, top, d);
                        lemma_add_item_clean(stack, top, errs, d);
                        let n = add_item(stack, top, d);
                        lemma_read_from_nested(ts, eoi, i + 1, n.0, n.1, errs, 0, 0);
                        assert(r == read_from(ts, eoi, i + 1, n.0, n.1, errs, 0, 0));
                    } else {
                        lemma_read_from_nested(
                            ts,
                            eoi,
                            i + 1,
                            stack,
                            top,
                            errs,
                            (skip - 1) as nat,
                            skip_start,
                        );
                        assert(r == read_from(
                            ts,
                            eoi,
                            i + 1,
                            stack,
                            top,
                            errs,
                            (skip - 1) as nat,
                            skip_start,
                        ));
                    }
                },
                _ => {
                    lemma_read_from_nested(ts, eoi, i + 1, stack, top, errs, skip, skip_start);
                    assert(r == read_from(ts, eoi, i + 1, stack, top, errs, skip, skip_start));
                },
            }
        } else {
            match ts[i].0 {
                TokenV::Keyword(Keyword::LParen) => {
                    if stack.len() >= MAX_DEPTH {
                        let e2 = errs.push(too_deep_failure(sp));
                        assert forall|k: int| 0 <= k < stack.len() implies #[trigger] stack[k].0.end
                            <= sp.start by {
                            assert(stack[k].0.start <= stack[k].0.end <= pos(ts, eoi, i));
                        }
                        lemma_read_from_nested(ts, eoi, i + 1, stack, top, e2, 1, sp.start);
                        assert(r == read_from(ts, eoi, i + 1, stack, top, e2, 1, sp.start));
                    } else {
                        let st = stack.push((sp, seq![]));
                        assert forall|k: int, j: int| 0 <= k < st.len() && 0 <= j < st[k].1.len() implies {
                            let x = #[trigger] st[k].1[j];
                            &&& nested(x)
                            &&& st[k].0.start <= x.1.start
                            &&& x.1.end <= pos(ts, eoi, i + 1)
                        } by {
                            assert(st[k] == stack[k]);
                        }
                        assert forall|k: int| 0 <= k < st.len() implies #[trigger] st[k].0.start
                            <= st[k].0.end <= pos(ts, eoi, i + 1) by {
                            if k < stack.len() {
                                assert(st[k] == stack[k]);
                            }
                        }
                        assert forall|k: int, m: int| 0 <= k < m < st.len() implies #[trigger] st[k].0.end
                            <= #[trigger] st[m].0.start by {
                            assert(st[k] == stack[k]);
                            assert(stack[k].0.start <= stack[k].0.end <= pos(ts, eoi, i));
                            if m < stack.len() {
                                assert(st[m] == stack[m]);
                            }
                        }
                        assert(clean_inv(st, top, errs)) by {
                            if errs.len() == 0 {
                                assert forall|k: int| 0 <= k < st.len() implies #[trigger] st[k].0.start
                                    < st[k].0.end by {
                                    if k < stack.len() {
                                        assert(st[k] == stack[k]);
                                    }
                                }
                                assert forall|k: int, j: int|
                                    0 <= k < st.len() && 0 <= j < st[k].1.len() implies clean_datum(
                                    #[trigger] st[k].1[j],
                                ) by {
                                    assert(st[k] == stack[k]);
                                }
                            }
                        }
                        lemma_read_from_nested(ts, eoi, i + 1, st, top, errs, 0, 0);
                        assert(r == read_from(ts, eoi, i + 1, st, top, errs, 0, 0));
                    }
                },
                TokenV::Keyword(Keyword::RParen) => {
                    if stack.len() == 0 {
                        let t2 = top.push((DatumV::Error, sp));
                        let e2 = errs.push(crate::transformer::stray_close_failure(sp));
                        assert forall|j: int| 0 <= j < t2.len() implies nested(#[trigger] t2[j])
                            && t2[j].1.end <= pos(ts, eoi, i + 1) by {
                            if j < top.len() {
                                assert(t2[j] == top[j]);
                            }
                        }
                        lemma_read_from_nested(ts, eoi, i + 1, stack, t2, e2, 0, 0);
                        assert(r == read_from(ts, eoi, i + 1, stack, t2, e2, 0, 0));
                    } else {
                        let last = stack.len() - 1;
                        let items = stack[last].1;
                        let d = (DatumV::List(items), Span { start: stack[last].0.start, end: sp.end });
                        assert forall|j: int| 0 <= j < items.len() implies d.1.contains(
                            #[trigger] items[j].1,
                        ) && nested(items[j]) by {
                            assert(items[j] == stack[last].1[j]);
                        }
                        let rest = stack.drop_last();
                        assert(read_inv(ts, eoi, i + 1, rest, top)) by {
                            assert forall|k: int| 0 <= k < rest.len() implies #[trigger] rest[k].0.start
                                <= rest[k].0.end <= pos(ts, eoi, i + 1) by {
                                assert(rest[k] == stack[k]);
                            }
                            assert forall|k: int, m: int| 0 <= k < m < rest.len() implies #[trigger] rest[k].0.end
                                <= #[trigger] rest[m].0.start by {
                                assert(rest[k] == stack[k]);
                                assert(rest[m] == stack[m]);
                            }
                            assert forall|k: int, j: int|
                                0 <= k < rest.len() && 0 <= j < rest[k].1.len() implies {
                                let x = #[trigger] rest[k].1[j];
                                &&& nested(x)
                                &&& rest[k].0.start <= x.1.start
                                &&& x.1.end <= pos(ts, eoi, i + 1)
                            } by {
                                assert(rest[k] == stack[k]);
                            }
                        }
                        assert forall|k: int| 0 <= k < rest.len() implies #[trigger] rest[k].0.start
                            <= d.1.start by {
                            assert(rest[k] == stack[k]);
                            assert(stack[k].0.end <= stack[last].0.start);
                        }
                        lemma_add_item_inv(ts, eoi, i + 1, rest, top, d);
                        assert(clean_inv(rest, top, errs)) by {
                            if errs.len() == 0 {
                                assert forall|k: int| 0 <= k < rest.len() implies #[trigger] rest[k].0.start
                                    < rest[k].0.end by {
                                    assert(rest[k] == stack[k]);
                                }
                                assert forall|k: int, j: int|
                                    0 <= k < rest.len() && 0 <= j < rest[k].1.len() implies clean_datum(
                                    #[trigger] rest[k].1[j],
                                ) by {
                                    assert(rest[k] == stack[k]);
                                }
                            }
                        }
                        if errs.len() == 0 {
                            assert(stack[last].0.start < stack[last].0.end);
                            lemma_clean_seq_index(items);
                            assert forall|j: int| 0 <= j < items.len() implies clean_datum(
                                #[trigger] items[j],
                            ) by {
                                assert(items[j] == stack[last].1[j]);
                            }
                            assert(clean_datum(d));
                        }
                        lemma_add_item_clean(rest, top, errs, d);
                        let n = add_item(rest, top, d);
                        lemma_read_from_nested(ts, eoi, i + 1, n.0, n.1, errs, 0, 0);
                        assert(r == read_from(ts, eoi, i + 1, n.0, n.1, errs, 0, 0));
                    }
                },
                _ => {
                    let d = match ts[i].0 {
                        TokenV::Keyword(k) => (DatumV::Keyword(k), sp),
                        TokenV::Primitive(p) => (DatumV::Primitive(p), sp),
                    };
                    lemma_add_item_inv(ts, eoi, i + 1, stack, top, d);
                    lemma_add_item_clean(stack, top, errs, d);
                    let n = add_item(stack, top, d);
                    lemma_read_from_nested(ts, eoi, i + 1, n.0, n.1, errs, 0, 0);
                    assert(r == read_from(ts, eoi, i + 1, n.0, n.1, errs, 0, 0));
                },
            }
        }
    }
}

/// Reading tokens that stand in source order gives data whose every child
/// lies within its parent's span; when reading meets no failure, the data
/// are clean.
pub proof fn lemma_read_nested(ts: Seq<(TokenV, Span)>, eoi: usize)
    requires
        ordered(ts, eoi),
    ensures
        forall|j: int|
            0 <= j < read_spec(ts, eoi).0.len() ==> nested(#[trigger] read_spec(ts, eoi).0[j])
                && read_spec(ts, eoi).0[j].1.end <= eoi,
        read_spec(ts, eoi).1.len() == 0 ==> clean_seq(read_spec(ts, eoi).0),
{
    lemma_clean_seq_index(read_spec(ts, eoi).0);
    lemma_read_from_nested(ts, eoi, 0, seq![], seq![], seq![], 0, 0);
}

/// Every child of an expression lies within the expression's span, all the
/// way down; a procedure's parameters and body lie within the procedure.
pub open spec fn expr_nested(e: (ExprV, Span)) -> bool
    decreases e,
{
    match e.0 {
        ExprV::Call { operator, args } => e.1.contains(operator.1) && expr_nested(*operator) && (
        forall|j: int|
            0 <= j < args.len() ==> e.1.contains(#[trigger] args[j].1) && expr_nested(args[j])),
        ExprV::Procedure { args, body } => (forall|j: int|
            0 <= j < args.len() ==> e.1.contains(#[trigger] args[j].1)) && body_within(*body, e.1),
        ExprV::Conditional { test, conseq, alter } => e.1.contains(test.1) && expr_nested(*test)
            && e.1.contains(conseq.1) && expr_nested(*conseq) && match alter {
            Some(a) => e.1.contains(a.1) && expr_nested(*a),
            None => true,
        },
        ExprV::Assignment { target, value } => e.1.contains(target.1) && e.1.contains(value.1)
            && expr_nested(*value),
        _ => true,
    }
}

/// A definition whose name and value lie within its span, all the way down.
pub open spec fn def_nested(d: (DefV, Span)) -> bool
    decreases d,
{
    d.1.contains(d.0.name.1) && d.1.contains(d.0.value.1) && expr_nested(d.0.value)
}

/// Every definition and expression of `b` lies within `sp`, all the way down.
pub open spec fn body_within(b: BodyV, sp: Span) -> bool
    decreases b,
{
    &&& forall|j: int|
        0 <= j < b.defs.len() ==> sp.contains(#[trigger] b.defs[j].1) && def_nested(b.defs[j])
    &&& forall|j: int|
        0 <= j < b.exprs.len() ==> sp.contains(#[trigger] b.exprs[j].1) && expr_nested(b.exprs[j])
    &&& sp.contains(b.last.1) && expr_nested(b.last)
}

pub open spec fn all_within(s: Seq<(DatumV, Span)>, sp: Span) -> bool {
    forall|j: int| 0 <= j < s.len() ==> sp.contains(#[trigger] s[j].1) && nested(s[j])
}

proof fn lemma_expr_nested(d: (DatumV, Span))
    requires
        nested(d),
    ensures
        parse_expr(d).0.1 == d.1,
        expr_nested(parse_expr(d).0),
    decreases d, 0int,
{
    if let DatumV::List(items) = d.0 {
        assert(all_within(items, d.1));
        lemma_form_nested(items, d.1);
    }
}

proof fn lemma_exprs_nested(s: Seq<(DatumV, Span)>, sp: Span)
    requires
        all_within(s, sp),
    ensures
        forall|j: int|
            0 <= j < parse_exprs(s).0.len() ==> sp.contains(#[trigger] parse_exprs(s).0[j].1)
                && expr_nested(parse_exprs(s).0[j]),
    decreases s, 1int,
{
    lemma_forms_independent(s);
    assert forall|j: int| 0 <= j < parse_exprs(s).0.len() implies sp.contains(
        #[trigger] parse_exprs(s).0[j].1,
    ) && expr_nested(parse_exprs(s).0[j]) by {
        lemma_expr_nested(s[j]);
    }
}

proof fn lemma_form_nested(items: Seq<(DatumV, Span)>, sp: Span)
    requires
        all_within(items, sp),
    ensures
        parse_form(items, sp).0.1 == sp,
        expr_nested(parse_form(items, sp).0),
    decreases items, 4int,
{
    let n = items.len();
    if n == 0 {
    } else if items[0].0 == DatumV::Keyword(Keyword::If) {
        lemma_if_nested(items, sp);
    } else if items[0].0 == DatumV::Keyword(Keyword::Lambda) {
        lemma_lambda_nested(items, sp);
    } else if items[0].0 == DatumV::Keyword(Keyword::SetBang) {
        lemma_set_nested(items, sp);
    } else if items[0].0 == DatumV::Keyword(Keyword::Define) {
    } else {
        lemma_expr_nested(items[0]);
        let rest = items.drop_first();
        assert(all_within(rest, sp)) by {
            assert forall|j: int| 0 <= j < rest.len() implies sp.contains(#[trigger] rest[j].1)
                && nested(rest[j]) by {
                assert(rest[j] == items[j + 1]);
            }
        }
        lemma_exprs_nested(rest, sp);
        let args = parse_exprs(rest).0;
        assert forall|j: int| 0 <= j < args.len() implies sp.contains(#[trigger] args[j].1)
            && expr_nested(args[j]) by {
        }
    }
}

proof fn lemma_if_nested(items: Seq<(DatumV, Span)>, sp: Span)
    requires
        all_within(items, sp),
    ensures
        parse_if(items, sp).0.1 == sp,
        expr_nested(parse_if(items, sp).0),
    decreases items, 3int,
{
    let n = items.len();
    if 3 <= n <= 4 {
        lemma_expr_nested(items[1]);
        lemma_expr_nested(items[2]);
        if n == 4 {
            lemma_expr_nested(items[3]);
        }
    }
}

proof fn lemma_set_nested(items: Seq<(DatumV, Span)>, sp: Span)
    requires
        all_within(items, sp),
    ensures
        parse_set(items, sp).0.1 == sp,
        expr_nested(parse_set(items, sp).0),
    decreases items, 3int,
{
    if items.len() == 3 && is_ident(items[1]) {
        lemma_expr_nested(items[2]);
    }
}

proof fn lemma_lambda_nested(items: Seq<(DatumV, Span)>, sp: Span)
    requires
        all_within(items, sp),
    ensures
        parse_lambda(items, sp).0.1 == sp,
        expr_nested(parse_lambda(items, sp).0),
    decreases items, 3int,
{
    let n = items.len();
    if n >= 2 {
        let f = items[1];
        assert(sp.contains(f.1) && nested(f));
        if let Ok(args) = parse_formals(f) {
            let rest = items.skip(2);
            assert(all_within(rest, sp)) by {
                assert forall|j: int| 0 <= j < rest.len() implies sp.contains(#[trigger] rest[j].1)
                    && nested(rest[j]) by {
                    assert(rest[j] == items[j + 2]);
                }
            }
            lemma_body_nested(
                rest,
                sp,
                close_token(sp).1,
                Some(TokenV::Keyword(Keyword::RParen)),
                seq![Expected::Expression],
            );
            match f.0 {
                DatumV::List(formals) => {
                    lemma_first_non_ident(formals, 0);
                    assert forall|j: int| 0 <= j < args.len() implies sp.contains(
                        #[trigger] args[j].1,
                    ) by {
                        assert(is_ident(formals[j]));
                        assert(args[j].1 == formals[j].1);
                        assert(f.1.contains(formals[j].1));
                    }
                },
                _ => {
                    assert forall|j: int| 0 <= j < args.len() implies sp.contains(
                        #[trigger] args[j].1,
                    ) by {
                        assert(args[j].1 == f.1);
                    }
                },
            }
        }
    }
}

proof fn lemma_def_nested(d: (DatumV, Span))
    requires
        nested(d),
    ensures
        parse_def(d).0 matches Some(x) ==> x.1 == d.1 && def_nested(x),
    decreases d, 0int,
{
    if let DatumV::List(items) = d.0 {
        assert(all_within(items, d.1));
        lemma_def_form_nested(items, d.1);
    }
}

proof fn lemma_def_form_nested(items: Seq<(DatumV, Span)>, sp: Span)
    requires
        all_within(items, sp),
    ensures
        parse_def_form(items, sp).0 matches Some(x) ==> x.1 == sp && def_nested(x),
    decreases items, 3int,
{
    let n = items.len();
    if n >= 2 {
        assert(sp.contains(items[1].1) && nested(items[1]));
        match items[1].0 {
            DatumV::Primitive(PrimitiveV::Ident(x)) => {
                if n == 3 {
                    lemma_expr_nested(items[2]);
                }
            },
            DatumV::List(sig) => {
                if sig.len() > 0 && first_non_ident(sig, 0) >= sig.len() {
                    let rest = items.skip(2);
                    assert(all_within(rest, sp)) by {
                        assert forall|j: int| 0 <= j < rest.len() implies sp.contains(
                            #[trigger] rest[j].1,
                        ) && nested(rest[j]) by {
                            assert(rest[j] == items[j + 2]);
                        }
                    }
                    lemma_body_nested(
                        rest,
                        sp,
                        close_token(sp).1,
                        Some(TokenV::Keyword(Keyword::RParen)),
                        seq![Expected::Definition],
                    );
                    lemma_first_non_ident(sig, 0);
                    assert(is_ident(sig[0]));
                    assert(items[1].1.contains(sig[0].1));
                    let args = idents(sig.drop_first());
                    assert forall|j: int| 0 <= j < args.len() implies sp.contains(
                        #[trigger] args[j].1,
                    ) by {
                        assert(sig.drop_first()[j] == sig[j + 1]);
                        assert(is_ident(sig[j + 1]));
                        assert(args[j].1 == sig[j + 1].1);
                        assert(items[1].1.contains(sig[j + 1].1));
                    }
                }
            },
            _ => {},
        }
    }
}

proof fn lemma_defs_nested(s: Seq<(DatumV, Span)>, sp: Span)
    requires
        all_within(s, sp),
    ensures
        forall|j: int|
            0 <= j < parse_defs(s).0.len() ==> sp.contains(#[trigger] parse_defs(s).0[j].1)
                && def_nested(parse_defs(s).0[j]),
    decreases s, 1int,
{
    if s.len() > 0 {
        let init = s.drop_last();
        assert(all_within(init, sp)) by {
            assert forall|j: int| 0 <= j < init.len() implies sp.contains(#[trigger] init[j].1)
                && nested(init[j]) by {
                assert(init[j] == s[j]);
            }
        }
        lemma_defs_nested(init, sp);
        lemma_def_nested(s.last());
        let r = parse_defs(s).0;
        let ri = parse_defs(init).0;
        assert forall|j: int| 0 <= j < r.len() implies sp.contains(#[trigger] r[j].1) && def_nested(
            r[j],
        ) by {
            if j < ri.len() {
                assert(r[j] == ri[j]);
            }
        }
    }
}

proof fn lemma_body_nested(
    s: Seq<(DatumV, Span)>,
    sp: Span,
    close: Span,
    found: Option<TokenV>,
    outer: Seq<Expected>,
)
    requires
        all_within(s, sp),
    ensures
        parse_body(s, close, found, outer).0 matches Some(b) ==> body_within(b, sp),
    decreases s, 2int,
{
    lemma_def_prefix(s, 0, 0);
    let k = def_prefix(s, 0);
    assert(s.take(s.len() as int) =~= s);
    let a = s.take(k);
    let b = s.skip(k);
    assert(all_within(a, sp)) by {
        assert forall|j: int| 0 <= j < a.len() implies sp.contains(#[trigger] a[j].1) && nested(a[j]) by {
            assert(a[j] == s[j]);
        }
    }
    assert(all_within(b, sp)) by {
        assert forall|j: int| 0 <= j < b.len() implies sp.contains(#[trigger] b[j].1) && nested(b[j]) by {
            assert(b[j] == s[j + k]);
        }
    }
    lemma_defs_nested(a, sp);
    if k < s.len() {
        lemma_exprs_nested(b, sp);
    } else {
        assert(b.len() == 0);
    }
    let es = parse_exprs(b).0;
    if es.len() > 0 {
        let body = parse_body(s, close, found, outer).0->0;
        assert(body.defs == parse_defs(a).0);
        assert forall|j: int| 0 <= j < body.defs.len() implies sp.contains(#[trigger] body.defs[j].1)
            && def_nested(body.defs[j]) by {
        }
        assert forall|j: int| 0 <= j < body.exprs.len() implies sp.contains(
            #[trigger] body.exprs[j].1,
        ) && expr_nested(body.exprs[j]) by {
            assert(body.exprs[j] == es[j]);
        }
        assert(body.last == es[es.len() - 1]);
    }
}

/// Lexing never produces tokens out of source order.
pub proof fn lemma_lex_ordered(cs: Seq<char>, i: int)
    requires
        0 <= i <= cs.len(),
        text_len(cs) < usize::MAX,
    ensures
        ordered(lex_from(cs, i).0, text_len(cs) as usize),
        forall|k: int|
            0 <= k < lex_from(cs, i).0.len() ==> byte_pos(cs, i) <= #[trigger] lex_from(
                cs,
                i,
            ).0[k].1.start,
    decreases cs.len() - i,
{
    lemma_skip_from(cs, i, false);
    let j = skip_from(cs, i, false);
    if j < cs.len() {
        lemma_lex_token_advances(cs, j);
        lemma_byte_pos_mono(cs, i, j);
        let ts = lex_from(cs, i).0;
        match lex_token(cs, j) {
            Some((t, e)) => {
                lemma_lex_ordered(cs, e);
                lemma_byte_pos_mono(cs, j, e);
                lemma_byte_pos_mono(cs, e, cs.len() as int);
                let rest = lex_from(cs, e).0;
                assert(ts == seq![(t, byte_span(cs, j, e))] + rest);
                assert forall|a: int, b: int| 0 <= a < b < ts.len() implies #[trigger] ts[a].1.end
                    <= #[trigger] ts[b].1.start by {
                    assert(ts[b] == rest[b - 1]);
                    if a > 0 {
                        assert(ts[a] == rest[a - 1]);
                    }
                }
                assert forall|a: int| 0 <= a < ts.len() implies ts[a].1.start < #[trigger] ts[a].1.end
                    <= text_len(cs) as usize by {
                    if a > 0 {
                        assert(ts[a] == rest[a - 1]);
                    }
                }
                assert forall|k: int| 0 <= k < ts.len() implies byte_pos(cs, i) <= #[trigger] ts[k].1.start by {
                    if k > 0 {
                        assert(ts[k] == rest[k - 1]);
                    }
                }
            },
            None => {
                lemma_lex_ordered(cs, j + 1);
                lemma_byte_pos_mono(cs, i, j + 1);
            },
        }
    }
}

/// Each definition and expression of a program read from the tokens of a
/// source lies within its parent's span, all the way down; so does each
/// datum read from them.
pub proof fn lemma_spans_nested(cs: Seq<char>)
    requires
        text_len(cs) < usize::MAX,
    ensures
        ({
            let eoi = text_len(cs) as usize;
            let read = read_spec(lex_spec(cs).0, eoi);
            &&& forall|j: int| 0 <= j < read.0.len() ==> nested(#[trigger] read.0[j])
            &&& parse_program(read.0, eoi).0 matches Some(b) ==> body_within(
                b,
                Span { start: 0, end: eoi },
            )
        }),
{
    let eoi = text_len(cs) as usize;
    lemma_lex_ordered(cs, 0);
    let ts = lex_spec(cs).0;
    lemma_read_nested(ts, eoi);
    let read = read_spec(ts, eoi);
    let whole = Span { start: 0, end: eoi };
    assert(all_within(read.0, whole)) by {
        assert forall|j: int| 0 <= j < read.0.len() implies whole.contains(#[trigger] read.0[j].1)
            && nested(read.0[j]) by {
        }
    }
    lemma_body_nested(
        read.0,
        whole,
        Span { start: eoi, end: (eoi + 1) as usize },
        None,
        seq![Expected::Definition, Expected::Expression],
    );
}

proof fn lemma_expand_datum_clean<T: Transformer>(t: T, d: (DatumV, Span))
    requires
        clean_datum(d),
    ensures
        clean_datum(expand_datum(t, d)),
    decreases d, 0int,
{
    match d.0 {
        DatumV::List(items) => {
            lemma_expand_seq_clean(t, items);
            t.lemma_keeps_clean((DatumV::List(expand_seq(t, items)), d.1));
        },
        _ => {
            t.lemma_keeps_clean(d);
        },
    }
}

proof fn lemma_expand_seq_clean<T: Transformer>(t: T, s: Seq<(DatumV, Span)>)
    requires
        clean_seq(s),
    ensures
        clean_seq(expand_seq(t, s)),
    decreases s, 1int,
{
    if s.len() > 0 {
        lemma_expand_seq_clean(t, s.drop_last());
        lemma_expand_datum_clean(t, s.last());
        let e = expand_seq(t, s);
        assert(e.drop_last() =~= expand_seq(t, s.drop_last()));
        assert(e.last() == expand_datum(t, s.last()));
    }
}

proof fn lemma_expand_all_clean<T: Transformer>(ts: Seq<T>, ds: Seq<(DatumV, Span)>)
    requires
        clean_seq(ds),
    ensures
        clean_seq(expand_all(ts, ds)),
    decreases ts.len(),
{
    if ts.len() > 0 {
        lemma_expand_all_clean(ts.drop_last(), ds);
        lemma_expand_seq_clean(ts.last(), expand_all(ts.drop_last(), ds));
    }
}

/// Round trip through the token stream: when the data read from a lexed
/// source meet no failure and the expanded data nest at most `MAX_DEPTH`
/// deep, writing the expanded data back as tokens and reading them again
/// gives the expanded data back, with no failure, and parsing them again
/// gives the same program.
pub proof fn lemma_expansion_round_trip<T: Transformer>(trs: Seq<T>, cs: Seq<char>)
    requires
        text_len(cs) < usize::MAX,
    ensures
        ({
            let eoi = text_len(cs) as usize;
            let r1 = read_spec(lex_spec(cs).0, eoi);
            let expanded = expand_all(trs, r1.0);
            r1.1.len() == 0 && fits_seq(expanded, MAX_DEPTH as nat) ==> {
                &&& read_spec(flatten_seq(expanded), eoi) == (expanded, Seq::<FailureV<TokenV>>::empty())
                &&& parse_program(read_spec(flatten_seq(expanded), eoi).0, eoi) == parse_program(
                    expanded,
                    eoi,
                )
            }
        }),
{
    let eoi = text_len(cs) as usize;
    lemma_lex_ordered(cs, 0);
    let ts = lex_spec(cs).0;
    lemma_read_nested(ts, eoi);
    let r1 = read_spec(ts, eoi);
    if r1.1.len() == 0 && fits_seq(expand_all(trs, r1.0), MAX_DEPTH as nat) {
        lemma_expand_all_clean(trs, r1.0);
        lemma_round_trip(expand_all(trs, r1.0), eoi);
    }
}

/// No list of `d`, at any depth, starts with the identifier `begin`.
pub open spec fn begin_free(d: (DatumV, Span)) -> bool
    decreases d,
{
    match d.0 {
        DatumV::List(items) => !(items.len() > 0 && items[0].0 == DatumV::Primitive(
            PrimitiveV::Ident(begin_word()),
        )) && forall|j: int| 0 <= j < items.len() ==> begin_free(#[trigger] items[j]),
        _ => true,
    }
}

/// The transformers a default parser runs.
pub open spec fn default_transformers() -> Seq<BuiltinTransformer> {
    seq![BuiltinTransformer::Begin(Begin)]
}

proof fn lemma_expand_begin_free(d: (DatumV, Span))
    ensures
        begin_free(expand_datum(BuiltinTransformer::Begin(Begin), d)),
    decreases d, 0int,
{
    let t = BuiltinTransformer::Begin(Begin);
    if let DatumV::List(items) = d.0 {
        lemma_expand_seq_begin_free(items);
        let e = expand_seq(t, items);
        if e.len() > 0 && e[0].0 == DatumV::Primitive(PrimitiveV::Ident(begin_word())) {
            let b = e[0].1;
            let l = seq![(DatumV::Keyword(Keyword::Lambda), b), (DatumV::List(seq![]), b)]
                + e.drop_first();
            assert(begin_free((DatumV::List(seq![]), b)));
            assert(begin_free((DatumV::Keyword(Keyword::Lambda), b)));
            assert forall|j: int| 0 <= j < l.len() implies begin_free(#[trigger] l[j]) by {
                if j >= 2 {
                    assert(l[j] == e[j - 1]);
                }
            }
            assert(begin_free((DatumV::List(l), d.1)));
            let outer = seq![(DatumV::List(l), d.1)];
            assert(begin_free(outer[0]));
        }
    }
}

proof fn lemma_expand_seq_begin_free(s: Seq<(DatumV, Span)>)
    ensures
        forall|j: int|
            0 <= j < expand_seq(BuiltinTransformer::Begin(Begin), s).len() ==> begin_free(
                #[trigger] expand_seq(BuiltinTransformer::Begin(Begin), s)[j],
            ),
    decreases s, 1int,
{
    let t = BuiltinTransformer::Begin(Begin);
    lemma_expand_seq_index(t, s);
    assert forall|j: int| 0 <= j < expand_seq(t, s).len() implies begin_free(
        #[trigger] expand_seq(t, s)[j],
    ) by {
        lemma_expand_begin_free(s[j]);
    }
}

proof fn lemma_expand_begin_free_fixed(d: (DatumV, Span))
    requires
        begin_free(d),
    ensures
        expand_datum(BuiltinTransformer::Begin(Begin), d) == d,
    decreases d, 0int,
{
    if let DatumV::List(items) = d.0 {
        lemma_expand_seq_fixed(items);
    }
}

proof fn lemma_expand_seq_fixed(s: Seq<(DatumV, Span)>)
    requires
        forall|j: int| 0 <= j < s.len() ==> begin_free(#[trigger] s[j]),
    ensures
        expand_seq(BuiltinTransformer::Begin(Begin), s) == s,
    decreases s, 1int,
{
    let t = BuiltinTransformer::Begin(Begin);
    lemma_expand_seq_index(t, s);
    assert forall|j: int| 0 <= j < s.len() implies #[trigger] expand_seq(t, s)[j] == s[j] by {
        lemma_expand_begin_free_fixed(s[j]);
    }
    assert(expand_seq(t, s) =~= s);
}

/// Running the `begin` expansion twice gives what running it once gives.
pub proof fn lemma_expansion_idempotent(ds: Seq<(DatumV, Span)>)
    ensures
        expand_all(default_transformers(), expand_all(default_transformers(), ds)) == expand_all(
            default_transformers(),
            ds,
        ),
{
    let trs = default_transformers();
    let t = BuiltinTransformer::Begin(Begin);
    assert(trs.drop_last() =~= Seq::<BuiltinTransformer>::empty());
    assert(trs.last() == t);
    let e = expand_seq(t, ds);
    assert(trs.len() == 1);
    assert(expand_all(Seq::<BuiltinTransformer>::empty(), ds) == ds);
    assert(expand_all(trs.drop_last(), ds) == ds);
    assert(expand_all(trs, ds) == e);
    lemma_expand_seq_begin_free(ds);
    lemma_expand_seq_fixed(e);
    assert(expand_all(Seq::<BuiltinTransformer>::empty(), e) == e);
    assert(expand_all(trs.drop_last(), e) == e);
    assert(expand_all(trs, e) == expand_seq(t, e));
}

/// Round trip through the parser: when reading a lexed source meets no
/// failure and its expanded data nest at most `MAX_DEPTH` deep, parsing the
/// tokens that the expansion writes back gives the same result as parsing
/// the source's own tokens.
pub proof fn lemma_reparse_expanded(cs: Seq<char>)
    requires
        text_len(cs) < usize::MAX,
    ensures
        ({
            let eoi = text_len(cs) as usize;
            let trs = default_transformers();
            let ts = lex_spec(cs).0;
            let r1 = read_spec(ts, eoi);
            let e = expand_all(trs, r1.0);
            r1.1.len() == 0 && fits_seq(e, MAX_DEPTH as nat) ==> parse_tokens_spec(
                trs,
                flatten_seq(e),
                eoi,
            ) == parse_tokens_spec(trs, ts, eoi)
        }),
{
    let eoi = text_len(cs) as usize;
    let trs = default_transformers();
    let ts = lex_spec(cs).0;
    let r1 = read_spec(ts, eoi);
    let e = expand_all(trs, r1.0);
    if r1.1.len() == 0 && fits_seq(e, MAX_DEPTH as nat) {
        lemma_expansion_round_trip(trs, cs);
        lemma_expansion_idempotent(r1.0);
        assert(read_spec(flatten_seq(e), eoi) == (e, Seq::<FailureV<TokenV>>::empty()));
        assert(expand_all(trs, e) == e);
    }
}

proof fn lemma_expand_nested(d: (DatumV, Span))
    requires
        nested(d),
    ensures
        nested(expand_datum(BuiltinTransformer::Begin(Begin), d)),
        expand_datum(BuiltinTransformer::Begin(Begin), d).1 == d.1,
    decreases d, 0int,
{
    let t = BuiltinTransformer::Begin(Begin);
    if let DatumV::List(items) = d.0 {
        assert(all_within(items, d.1));
        lemma_expand_seq_nested(items, d.1);
        let e = expand_seq(t, items);
        let de = (DatumV::List(e), d.1);
        assert(nested(de)) by {
            reveal_with_fuel(nested, 2);
            assert(de.0 == DatumV::List(e));
            assert forall|j: int| 0 <= j < e.len() implies d.1.contains(#[trigger] e[j].1)
                && nested(e[j]) by {
                assert(all_within(e, d.1));
            }
        }
        if e.len() > 0 && e[0].0 == DatumV::Primitive(PrimitiveV::Ident(begin_word())) {
            let b = e[0].1;
            let l = seq![(DatumV::Keyword(Keyword::Lambda), b), (DatumV::List(seq![]), b)]
                + e.drop_first();
            assert(nested((DatumV::List(seq![]), b)));
            assert forall|j: int| 0 <= j < l.len() implies d.1.contains(#[trigger] l[j].1) && nested(
                l[j],
            ) by {
                if j >= 2 {
                    assert(l[j] == e[j - 1]);
                }
            }
            assert(nested((DatumV::List(l), d.1)));
            let outer = seq![(DatumV::List(l), d.1)];
            assert(d.1.contains(outer[0].1) && nested(outer[0]));
        }
    }
}

proof fn lemma_expand_seq_nested(s: Seq<(DatumV, Span)>, sp: Span)
    requires
        all_within(s, sp),
    ensures
        all_within(expand_seq(BuiltinTransformer::Begin(Begin), s), sp),
        expand_seq(BuiltinTransformer::Begin(Begin), s).len() == s.len(),
    decreases s, 1int,
{
    let t = BuiltinTransformer::Begin(Begin);
    lemma_expand_seq_index(t, s);
    assert forall|j: int| 0 <= j < expand_seq(t, s).len() implies sp.contains(
        #[trigger] expand_seq(t, s)[j].1,
    ) && nested(expand_seq(t, s)[j]) by {
        lemma_expand_nested(s[j]);
    }
}

/// Every definition and expression of the program that a default parser
/// gives for a source lies within its parent's span, all the way down, when
/// the expanded data nest at most `MAX_DEPTH` deep.
pub proof fn lemma_parsed_spans_nested(cs: Seq<char>)
    requires
        text_len(cs) < usize::MAX,
    ensures
        ({
            let eoi = text_len(cs) as usize;
            let trs = default_transformers();
            let ts = lex_spec(cs).0;
            let e = expand_all(trs, read_spec(ts, eoi).0);
            fits_seq(e, MAX_DEPTH as nat) ==> (parse_tokens_spec(trs, ts, eoi) matches Ok(b)
                ==> body_within(b, Span { start: 0, end: eoi }))
        }),
{
    let eoi = text_len(cs) as usize;
    let trs = default_transformers();
    let t = BuiltinTransformer::Begin(Begin);
    let ts = lex_spec(cs).0;
    let r1 = read_spec(ts, eoi);
    let e = expand_all(trs, r1.0);
    let whole = Span { start: 0, end: eoi };
    if fits_seq(e, MAX_DEPTH as nat) && r1.1.len() == 0 {
        lemma_lex_ordered(cs, 0);
        lemma_read_nested(ts, eoi);
        assert(all_within(r1.0, whole)) by {
            assert forall|j: int| 0 <= j < r1.0.len() implies whole.contains(#[trigger] r1.0[j].1)
                && nested(r1.0[j]) by {
            }
        }
        lemma_expand_seq_nested(r1.0, whole);
        assert(trs.drop_last() =~= Seq::<BuiltinTransformer>::empty());
        assert(expand_all(Seq::<BuiltinTransformer>::empty(), r1.0) == r1.0);
        assert(expand_all(trs.drop_last(), r1.0) == r1.0);
        assert(e == expand_seq(t, r1.0));
        lemma_expansion_round_trip(trs, cs);
        lemma_body_nested(
            e,
            whole,
            Span { start: eoi, end: (eoi + 1) as usize },
            None,
            seq![Expected::Definition, Expected::Expression],
        );
    }
}

/// Reading never takes a failure back.
proof fn lemma_read_errs_grow(
    ts: Seq<(TokenV, Span)>,
    eoi: usize,
    i: int,
    stack: Seq<FrameV>,
    top: Seq<(DatumV, Span)>,
    errs: Seq<FailureV<TokenV>>,
    skip: nat,
    skip_start: usize,
)
    ensures
        read_from(ts, eoi, i, stack, top, errs, skip, skip_start).1.len() >= errs.len(),
    decreases ts.len() - i,
{
    if 0 <= i < ts.len() {
        let sp = ts[i].1;
        if skip > 0 {
            match ts[i].0 {
                TokenV::Keyword(Keyword::LParen) => {
                    lemma_read_errs_grow(ts, eoi, i + 1, stack, top, errs, skip + 1, skip_start);
                },
                TokenV::Keyword(Keyword::RParen) => {
                    if skip == 1 {
                        let n = add_item(
                            stack,
                            top,
                            (DatumV::Error, Span { start: skip_start, end: sp.end }),
                        );
                        lemma_read_errs_grow(ts, eoi, i + 1, n.0, n.1, errs, 0, 0);
                    } else {
                        lemma_read_errs_grow(
                            ts,
                            eoi,
                            i + 1,
                            stack,
                            top,
                            errs,
                            (skip - 1) as nat,
                            skip_start,
                        );
                    }
                },
                _ => {
                    lemma_read_errs_grow(ts, eoi, i + 1, stack, top, errs, skip, skip_start);
                },
            }
        } else {
            match ts[i].0 {
                TokenV::Keyword(Keyword::LParen) => {
                    if stack.len() >= MAX_DEPTH {
                        lemma_read_errs_grow(
                            ts,
                            eoi,
                            i + 1,
                            stack,
                            top,
                            errs.push(too_deep_failure(sp)),
                            1,
                            sp.start,
                        );
                    } else {
                        lemma_read_errs_grow(ts, eoi, i + 1, stack.push((sp, seq![])), top, errs, 0, 0);
                    }
                },
                TokenV::Keyword(Keyword::RParen) => {
                    if stack.len() == 0 {
                        lemma_read_errs_grow(
                            ts,
                            eoi,
                            i + 1,
                            stack,
                            top.push((DatumV::Error, sp)),
                            errs.push(crate::transformer::stray_close_failure(sp)),
                            0,
                            0,
                        );
                    } else {
                        let d = (
                            DatumV::List(stack.last().1),
                            Span { start: stack.last().0.start, end: sp.end },
                        );
                        let n = add_item(stack.drop_last(), top, d);
                        lemma_read_errs_grow(ts, eoi, i + 1, n.0, n.1, errs, 0, 0);
                    }
                },
                TokenV::Keyword(k) => {
                    let n = add_item(stack, top, (DatumV::Keyword(k), sp));
                    lemma_read_errs_grow(ts, eoi, i + 1, n.0, n.1, errs, 0, 0);
                },
                TokenV::Primitive(p) => {
                    let n = add_item(stack, top, (DatumV::Primitive(p), sp));
                    lemma_read_errs_grow(ts, eoi, i + 1, n.0, n.1, errs, 0, 0);
                },
            }
        }
    }
}

/// The tokens that the open lists of `stack` have read: each `(` and the
/// items after it.
pub open spec fn frames_tokens(stack: Seq<FrameV>) -> Seq<(TokenV, Span)>
    decreases stack.len(),
{
    if stack.len() == 0 {
        seq![]
    } else {
        frames_tokens(stack.drop_last()) + seq![
            (TokenV::Keyword(Keyword::LParen), stack.last().0),
        ] + flatten_seq(stack.last().1)
    }
}

/// The tokens that a reading state has consumed, written back.
pub open spec fn written(stack: Seq<FrameV>, top: Seq<(DatumV, Span)>) -> Seq<(TokenV, Span)> {
    flatten_seq(top) + frames_tokens(stack)
}

/// Every delimiter token spans exactly one byte.
pub open spec fn one_byte_delimiters(ts: Seq<(TokenV, Span)>) -> bool {
    forall|i: int|
        0 <= i < ts.len() && (ts[i].0 == TokenV::Keyword(Keyword::LParen) || ts[i].0
            == TokenV::Keyword(Keyword::RParen)) ==> #[trigger] ts[i].1.end == ts[i].1.start + 1
}

proof fn lemma_written_add(stack: Seq<FrameV>, top: Seq<(DatumV, Span)>, d: (DatumV, Span))
    ensures
        written(add_item(stack, top, d).0, add_item(stack, top, d).1) == written(stack, top)
            + flatten_datum(d),
{
    crate::datum::lemma_flatten_seq_push(top, d);
    if stack.len() == 0 {
        assert(frames_tokens(stack) =~= seq![]);
        assert(written(stack, top.push(d)) =~= written(stack, top) + flatten_datum(d));
    } else {
        let f = stack.last();
        let st2 = stack.drop_last().push((f.0, f.1.push(d)));
        assert(st2.drop_last() =~= stack.drop_last());
        crate::datum::lemma_flatten_seq_push(f.1, d);
        let a = flatten_seq(top);
        let b = frames_tokens(stack.drop_last());
        let c = seq![(TokenV::Keyword(Keyword::LParen), f.0)];
        assert(frames_tokens(st2) == b + c + flatten_seq(f.1.push(d)));
        assert(a + (b + c + (flatten_seq(f.1) + flatten_datum(d))) =~= a + (b + c + flatten_seq(
            f.1,
        )) + flatten_datum(d));
    }
}

proof fn lemma_read_writes(
    ts: Seq<(TokenV, Span)>,
    eoi: usize,
    i: int,
    stack: Seq<FrameV>,
    top: Seq<(DatumV, Span)>,
    errs: Seq<FailureV<TokenV>>,
    skip: nat,
    skip_start: usize,
)
    requires
        0 <= i <= ts.len(),
        one_byte_delimiters(ts),
        forall|k: int| 0 <= k < stack.len() ==> #[trigger] stack[k].0.end == stack[k].0.start + 1,
        errs.len() == 0 ==> skip == 0 && written(stack, top) == ts.take(i),
    ensures
        read_from(ts, eoi, i, stack, top, errs, skip, skip_start).1.len() == 0 ==> flatten_seq(
            read_from(ts, eoi, i, stack, top, errs, skip, skip_start).0,
        ) == ts,
    decreases ts.len() - i,
{
    let r = read_from(ts, eoi, i, stack, top, errs, skip, skip_start);
    if errs.len() > 0 {
        lemma_read_errs_grow(ts, eoi, i, stack, top, errs, skip, skip_start);
    } else if i >= ts.len() {
        if stack.len() == 0 {
            assert(frames_tokens(stack) =~= seq![]);
            assert(flatten_seq(top) + seq![] =~= flatten_seq(top));
            assert(ts.take(i) =~= ts);
        }
    } else {
        let sp = ts[i].1;
        assert(ts.take(i + 1) =~= ts.take(i).push(ts[i]));
        match ts[i].0 {
            TokenV::Keyword(Keyword::LParen) => {
                assert(sp.end == sp.start + 1);
                if stack.len() >= MAX_DEPTH {
                    lemma_read_errs_grow(
                        ts,
                        eoi,
                        i + 1,
                        stack,
                        top,
                        errs.push(too_deep_failure(sp)),
                        1,
                        sp.start,
                    );
                } else {
                    let st = stack.push((sp, seq![]));
                    assert(st.drop_last() =~= stack);
                    assert(flatten_seq(Seq::<(DatumV, Span)>::empty()) =~= seq![]);
                    assert(written(st, top) =~= written(stack, top).push(ts[i]));
                    assert forall|k: int| 0 <= k < st.len() implies #[trigger] st[k].0.end
                        == st[k].0.start + 1 by {
                        if k < stack.len() {
                            assert(st[k] == stack[k]);
                        }
                    }
                    lemma_read_writes(ts, eoi, i + 1, st, top, errs, 0, 0);
                }
            },
            TokenV::Keyword(Keyword::RParen) => {
                assert(sp.end == sp.start + 1);
                if stack.len() == 0 {
                    lemma_read_errs_grow(
                        ts,
                        eoi,
                        i + 1,
                        stack,
                        top.push((DatumV::Error, sp)),
                        errs.push(crate::transformer::stray_close_failure(sp)),
                        0,
                        0,
                    );
                } else {
                    let f = stack.last();
                    let rest = stack.drop_last();
                    let d = (DatumV::List(f.1), Span { start: f.0.start, end: sp.end });
                    assert(f.0.end == f.0.start + 1) by {
                        assert(f == stack[stack.len() - 1]);
                    }
                    assert(open_token(d.1) == (TokenV::Keyword(Keyword::LParen), f.0));
                    assert(close_token(d.1) == ts[i]);
                    lemma_written_add(rest, top, d);
                    let n = add_item(rest, top, d);
                    let a = flatten_seq(top);
                    let b = frames_tokens(rest);
                    assert(written(stack, top) == a + (b + seq![open_token(d.1)] + flatten_seq(f.1)));
                    assert(written(n.0, n.1) =~= written(stack, top).push(ts[i]));
                    assert forall|k: int| 0 <= k < n.0.len() implies #[trigger] n.0[k].0.end
                        == n.0[k].0.start + 1 by {
                        assert(n.0[k].0 == stack[k].0);
                    }
                    lemma_read_writes(ts, eoi, i + 1, n.0, n.1, errs, 0, 0);
                }
            },
            TokenV::Keyword(k) => {
                let d = (DatumV::Keyword(k), sp);
                lemma_written_add(stack, top, d);
                let n = add_item(stack, top, d);
                assert(flatten_datum(d) == seq![ts[i]]);
                assert(written(n.0, n.1) =~= ts.take(i + 1));
                assert forall|m: int| 0 <= m < n.0.len() implies #[trigger] n.0[m].0.end
                    == n.0[m].0.start + 1 by {
                    assert(n.0[m].0 == stack[m].0);
                }
                lemma_read_writes(ts, eoi, i + 1, n.0, n.1, errs, 0, 0);
            },
            TokenV::Primitive(p) => {
                let d = (DatumV::Primitive(p), sp);
                lemma_written_add(stack, top, d);
                let n = add_item(stack, top, d);
                assert(flatten_datum(d) == seq![ts[i]]);
                assert(written(n.0, n.1) =~= ts.take(i + 1));
                assert forall|m: int| 0 <= m < n.0.len() implies #[trigger] n.0[m].0.end
                    == n.0[m].0.start + 1 by {
                    assert(n.0[m].0 == stack[m].0);
                }
                lemma_read_writes(ts, eoi, i + 1, n.0, n.1, errs, 0, 0);
            },
        }
    }
}

/// Round trip from tokens: when reading tokens whose delimiters each span one
/// byte (as lexing gives them) meets no failure, writing the data back gives
/// the same tokens, in the same order, with the same spans.
pub proof fn lemma_tokens_round_trip(ts: Seq<(TokenV, Span)>, eoi: usize)
    requires
        one_byte_delimiters(ts),
    ensures
        read_spec(ts, eoi).1.len() == 0 ==> flatten_seq(read_spec(ts, eoi).0) == ts,
{
    assert(written(seq![], seq![]) =~= seq![]) by {
        assert(frames_tokens(Seq::<FrameV>::empty()) =~= seq![]);
        assert(flatten_seq(Seq::<(DatumV, Span)>::empty()) =~= seq![]);
    }
    assert(ts.take(0) =~= seq![]);
    lemma_read_writes(ts, eoi, 0, seq![], seq![], seq![], 0, 0);
}

/// Lexing writes each delimiter with a one-byte span.
pub proof fn lemma_lex_one_byte(cs: Seq<char>, i: int)
    requires
        0 <= i <= cs.len(),
        text_len(cs) < usize::MAX,
    ensures
        one_byte_delimiters(lex_from(cs, i).0),
    decreases cs.len() - i,
{
    lemma_skip_from(cs, i, false);
    let j = skip_from(cs, i, false);
    if j < cs.len() {
        lemma_lex_token_advances(cs, j);
        let ts = lex_from(cs, i).0;
        match lex_token(cs, j) {
            Some((t, e)) => {
                lemma_lex_one_byte(cs, e);
                let rest = lex_from(cs, e).0;
                assert(ts == seq![(t, byte_span(cs, j, e))] + rest);
                assert forall|a: int|
                    0 <= a < ts.len() && (ts[a].0 == TokenV::Keyword(Keyword::LParen) || ts[a].0
                        == TokenV::Keyword(Keyword::RParen)) implies #[trigger] ts[a].1.end
                    == ts[a].1.start + 1 by {
                    if a > 0 {
                        assert(ts[a] == rest[a - 1]);
                    } else if cs[j] == '(' || cs[j] == ')' {
                        lemma_byte_pos_mono(cs, j + 1, cs.len() as int);
                        lemma_byte_pos_mono(cs, j, j + 1);
                        assert(e == j + 1);
                        assert(byte_pos(cs, j + 1) == byte_pos(cs, j) + 1);
                    } else {
                        assert(t != TokenV::Keyword(Keyword::LParen));
                        assert(t != TokenV::Keyword(Keyword::RParen));
                    }
                }
            },
            None => {
                lemma_lex_one_byte(cs, j + 1);
            },
        }
    }
}

/// Round trip from the tokens of a source: when reading them meets no
/// failure, writing the data back gives the lexed tokens again.
pub proof fn lemma_lexed_tokens_round_trip(cs: Seq<char>, eoi: usize)
    requires
        text_len(cs) < usize::MAX,
    ensures
        ({
            let ts = lex_spec(cs).0;
            read_spec(ts, eoi).1.len() == 0 ==> flatten_seq(read_spec(ts, eoi).0) == ts
        }),
{
    lemma_lex_one_byte(cs, 0);
    lemma_tokens_round_trip(lex_spec(cs).0, eoi);
}

} // verus!
