use vstd::prelude::*;

use crate::lexer::tokens_view;
use crate::span::{Span, Spanned};
use crate::strings::string_from;
use crate::token::{primitive_string, Keyword, Primitive, PrimitiveV, Token, TokenV};

verus! {

/// A bracket-structured tree read from tokens: an atom, or a parenthesized
/// list; `Error` stands where reading failed.
#[derive(Debug)]
pub enum Datum {
    Error,
    Keyword(Keyword),
    Primitive(Primitive),
    List(Vec<Spanned<Datum>>),
}

/// What a datum denotes, with spans kept.
pub enum DatumV {
    Error,
    Keyword(Keyword),
    Primitive(PrimitiveV),
    List(Seq<(DatumV, Span)>),
}

/// The model of a datum.
pub open spec fn datum_view(d: Datum) -> DatumV
    decreases d,
{
    match d {
        Datum::Error => DatumV::Error,
        Datum::Keyword(k) => DatumV::Keyword(k),
        Datum::Primitive(p) => DatumV::Primitive(p@),
        Datum::List(v) => DatumV::List(datums_view(v@)),
    }
}

/// The models of spanned data, in order.
pub open spec fn datums_view(s: Seq<Spanned<Datum>>) -> Seq<(DatumV, Span)>
    decreases s,
{
    if s.len() == 0 {
        Seq::empty()
    } else {
        datums_view(s.drop_last()).push((datum_view(s.last().0), s.last().1))
    }
}

impl View for Datum {
    type V = DatumV;

    open spec fn view(&self) -> DatumV {
        datum_view(*self)
    }
}

pub proof fn lemma_datums_view_push(s: Seq<Spanned<Datum>>, d: Spanned<Datum>)
    ensures
        datums_view(s.push(d)) == datums_view(s).push((datum_view(d.0), d.1)),
{
    assert(s.push(d).drop_last() =~= s);
}

pub proof fn lemma_datums_view_len(s: Seq<Spanned<Datum>>)
    ensures
        datums_view(s).len() == s.len(),
        forall|i: int|
            0 <= i < s.len() ==> #[trigger] datums_view(s)[i] == (datum_view(s[i].0), s[i].1),
    decreases s.len(),
{
    if s.len() > 0 {
        lemma_datums_view_len(s.drop_last());
    }
}

/// How a datum is named in messages: atoms as written, lists as `( ... )`.
pub open spec fn datum_string(d: DatumV) -> Seq<char> {
    match d {
        DatumV::Error => "<error>"@,
        DatumV::Keyword(k) => k.spec_text(),
        DatumV::Primitive(p) => primitive_string(p),
        DatumV::List(_) => "( ... )"@,
    }
}

impl Datum {
    /// How the datum is named in messages.
    pub fn to_string(&self) -> (r: String)
        ensures
            r@ == datum_string(self@),
    {
        match self {
            Datum::Error => string_from("<error>"),
            Datum::Keyword(k) => string_from(k.text()),
            Datum::Primitive(p) => p.to_string(),
            Datum::List(_) => string_from("( ... )"),
        }
    }
}

/// The token that opens a list spanning `span`.
pub open spec fn open_token(span: Span) -> (TokenV, Span) {
    let end = if span.start < usize::MAX {
        span.start + 1
    } else {
        span.start as int
    };
    (TokenV::Keyword(Keyword::LParen), Span { start: span.start, end: end as usize })
}

/// The token that closes a list spanning `span`.
pub open spec fn close_token(span: Span) -> (TokenV, Span) {
    let start = if span.end > 0 {
        span.end - 1
    } else {
        0
    };
    (TokenV::Keyword(Keyword::RParen), Span { start: start as usize, end: span.end })
}

/// The tokens that write a datum: an `Error` datum writes none (it stands for
/// input that could not be read, and has no tokens of its own), atoms write
/// themselves, lists write their items between their
/// delimiters, which take the first and the last position of the list's span.
pub open spec fn flatten_datum(d: (DatumV, Span)) -> Seq<(TokenV, Span)>
    decreases d,
{
    match d.0 {
        DatumV::Error => seq![],
        DatumV::Keyword(k) => seq![(TokenV::Keyword(k), d.1)],
        DatumV::Primitive(p) => seq![(TokenV::Primitive(p), d.1)],
        DatumV::List(items) => seq![open_token(d.1)] + flatten_seq(items) + seq![close_token(d.1)],
    }
}

/// The tokens that write a sequence of data, one after another.
pub open spec fn flatten_seq(s: Seq<(DatumV, Span)>) -> Seq<(TokenV, Span)>
    decreases s,
{
    if s.len() == 0 {
        seq![]
    } else {
        flatten_seq(s.drop_last()) + flatten_datum(s.last())
    }
}

/// A datum that its tokens write faithfully: it holds no `Error` and no
/// delimiter atom, and every span in it covers at least one position.
pub open spec fn clean_datum(d: (DatumV, Span)) -> bool
    decreases d,
{
    d.1.start < d.1.end && match d.0 {
        DatumV::Error => false,
        DatumV::Keyword(k) => k != Keyword::LParen && k != Keyword::RParen,
        DatumV::Primitive(_) => true,
        DatumV::List(items) => clean_seq(items),
    }
}

/// Every datum of `s` is clean.
pub open spec fn clean_seq(s: Seq<(DatumV, Span)>) -> bool
    decreases s,
{
    if s.len() == 0 {
        true
    } else {
        clean_seq(s.drop_last()) && clean_datum(s.last())
    }
}

/// Appends the tokens that write `d` to `out`.
fn push_datum_tokens(d: &Spanned<Datum>, out: &mut Vec<Spanned<Token>>)
    ensures
        tokens_view(final(out)@) == tokens_view(old(out)@) + flatten_datum((datum_view(d.0), d.1)),
    decreases d.0,
{
    let ghost start = tokens_view(out@);
    match &d.0 {
        Datum::Error => {},
        Datum::Keyword(k) => {
            out.push((Token::Keyword(*k), d.1));
            assert(tokens_view(out@) =~= start + flatten_datum((datum_view(d.0), d.1)));
        },
        Datum::Primitive(p) => {
            out.push((Token::Primitive(p.duplicate()), d.1));
            assert(tokens_view(out@) =~= start + flatten_datum((datum_view(d.0), d.1)));
        },
        Datum::List(items) => {
            let open_end = if d.1.start < usize::MAX {
                d.1.start + 1
            } else {
                d.1.start
            };
            out.push((Token::Keyword(Keyword::LParen), Span { start: d.1.start, end: open_end }));
            assert(tokens_view(out@) =~= start + seq![open_token(d.1)]);
            push_seq_tokens(items, out);
            let ghost mid = tokens_view(out@);
            assert(mid == start + seq![open_token(d.1)] + flatten_seq(datums_view(items@)));
            let close_start = if d.1.end > 0 {
                d.1.end - 1
            } else {
                0
            };
            out.push((Token::Keyword(Keyword::RParen), Span { start: close_start, end: d.1.end }));
            assert(tokens_view(out@) =~= mid.push(close_token(d.1)));
            assert(flatten_datum((datum_view(d.0), d.1)) == seq![open_token(d.1)] + flatten_seq(
                datums_view(items@),
            ) + seq![close_token(d.1)]);
            assert(tokens_view(out@) =~= start + flatten_datum((datum_view(d.0), d.1)));
        },
    }
}

/// Appends the tokens that write each datum of `items` to `out`.
fn push_seq_tokens(items: &Vec<Spanned<Datum>>, out: &mut Vec<Spanned<Token>>)
    ensures
        tokens_view(final(out)@) == tokens_view(old(out)@) + flatten_seq(datums_view(items@)),
    decreases items,
{
    let ghost start = tokens_view(out@);
    let mut k: usize = 0;
    while k < items.len()
        invariant
            k <= items.len(),
            tokens_view(out@) == start + flatten_seq(datums_view(items@.take(k as int))),
        decreases items.len() - k,
    {
        proof {
            lemma_datums_view_len(items@);
            assert(decreases_to!(items => items@[k as int]));
        }
        let ghost before = tokens_view(out@);
        push_datum_tokens(&items[k], out);
        proof {
            lemma_datums_view_push(items@.take(k as int), items@[k as int]);
            assert(items@.take(k + 1) =~= items@.take(k as int).push(items@[k as int]));
            lemma_flatten_seq_push(
                datums_view(items@.take(k as int)),
                (datum_view(items@[k as int].0), items@[k as int].1),
            );
        }
        k = k + 1;
        proof {
            assert(tokens_view(out@) =~= start + flatten_seq(datums_view(items@.take(k as int))));
        }
    }
    assert(items@.take(k as int) =~= items@);
}

pub proof fn lemma_flatten_seq_push(s: Seq<(DatumV, Span)>, d: (DatumV, Span))
    ensures
        flatten_seq(s.push(d)) == flatten_seq(s) + flatten_datum(d),
{
    assert(s.push(d).drop_last() =~= s);
}

pub proof fn lemma_clean_seq_index(s: Seq<(DatumV, Span)>)
    ensures
        clean_seq(s) <==> forall|j: int| 0 <= j < s.len() ==> clean_datum(#[trigger] s[j]),
    decreases s.len(),
{
    if s.len() > 0 {
        lemma_clean_seq_index(s.drop_last());
        assert(s.last() == s[s.len() - 1]);
        if forall|j: int| 0 <= j < s.len() ==> clean_datum(#[trigger] s[j]) {
            assert forall|j: int| 0 <= j < s.drop_last().len() implies clean_datum(
                #[trigger] s.drop_last()[j],
            ) by {
                assert(s.drop_last()[j] == s[j]);
            }
        }
        if clean_seq(s) {
            assert forall|j: int| 0 <= j < s.len() implies clean_datum(#[trigger] s[j]) by {
                if j < s.len() - 1 {
                    assert(s.drop_last()[j] == s[j]);
                }
            }
        }
    }
}

/// Data written back as the tokens they were read from. `Error` data are
/// left out of the tokens: `spec_tokens` writes them as nothing.
pub trait IntoTokens: Sized {
    /// The tokens that write the value.
    spec fn spec_tokens(&self) -> Seq<(TokenV, Span)>;

    fn into_tokens(self) -> (r: Vec<Spanned<Token>>)
        ensures
            tokens_view(r@) == self.spec_tokens(),
    ;
}

impl IntoTokens for Spanned<Datum> {
    open spec fn spec_tokens(&self) -> Seq<(TokenV, Span)> {
        flatten_datum((datum_view(self.0), self.1))
    }

    fn into_tokens(self) -> (r: Vec<Spanned<Token>>) {
        let mut out: Vec<Spanned<Token>> = Vec::new();
        push_datum_tokens(&self, &mut out);
        assert(tokens_view(out@) =~= flatten_datum((datum_view(self.0), self.1)));
        out
    }
}

impl IntoTokens for Vec<Spanned<Datum>> {
    open spec fn spec_tokens(&self) -> Seq<(TokenV, Span)> {
        flatten_seq(datums_view(self@))
    }

    fn into_tokens(self) -> (r: Vec<Spanned<Token>>) {
        let mut out: Vec<Spanned<Token>> = Vec::new();
        push_seq_tokens(&self, &mut out);
        assert(tokens_view(out@) =~= flatten_seq(datums_view(self@)));
        out
    }
}

} // verus!
