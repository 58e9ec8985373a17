use vstd::prelude::*;

use crate::datum::{
    clean_datum, clean_seq, lemma_clean_seq_index, datum_view, datums_view, lemma_datums_view_len, lemma_datums_view_push, Datum, DatumV,
};
use crate::strings::chars_of;
use crate::span::{Span, Spanned};
use crate::token::{Keyword, Primitive, PrimitiveV};
use crate::transformer::Transformer;

verus! {

/// The word `begin`.
pub open spec fn begin_word() -> Seq<char> {
    seq!['b', 'e', 'g', 'i', 'n']
}

/// Rewrites `(begin e1 e2 ...)` to `((lambda () e1 e2 ...))`. The new
/// `lambda` and `()` take the span of `begin`; both lists take the span of the
/// whole form.
pub struct Begin;

impl Transformer for Begin {
    open spec fn spec_transform(&self, d: (DatumV, Span)) -> (DatumV, Span) {
        match d.0 {
            DatumV::List(items) => if items.len() > 0 && items[0].0 == DatumV::Primitive(
                PrimitiveV::Ident(begin_word()),
            ) {
                let b = items[0].1;
                (
                    DatumV::List(
                        seq![
                            (
                                DatumV::List(
                                    seq![(DatumV::Keyword(Keyword::Lambda), b), (DatumV::List(seq![]), b)]
                                        + items.drop_first(),
                                ),
                                d.1,
                            ),
                        ],
                    ),
                    d.1,
                )
            } else {
                d
            },
            _ => d,
        }
    }

    proof fn lemma_keeps_clean(&self, d: (DatumV, Span)) {
        if let DatumV::List(items) = d.0 {
            if items.len() > 0 && items[0].0 == DatumV::Primitive(PrimitiveV::Ident(begin_word())) {
                let b = items[0].1;
                lemma_clean_seq_index(items);
                assert(clean_datum(items[0]));
                let inner = seq![(DatumV::Keyword(Keyword::Lambda), b), (DatumV::List(seq![]), b)]
                    + items.drop_first();
                assert(clean_seq(Seq::<(DatumV, Span)>::empty()));
                assert(clean_datum((DatumV::List(seq![]), b)));
                lemma_clean_seq_index(inner);
                assert forall|j: int| 0 <= j < inner.len() implies clean_datum(#[trigger] inner[j]) by {
                    if j >= 2 {
                        assert(inner[j] == items[j - 1]);
                    }
                }
                let outer = seq![(DatumV::List(inner), d.1)];
                lemma_clean_seq_index(outer);
                assert(clean_datum(outer[0]));
            }
        }
    }

    fn transform(&self, datum: &mut Spanned<Datum>) {
        let span = datum.1;
        let mut is_begin = false;
        let mut begin_span = Span { start: 0, end: 0 };
        if let Datum::List(list) = &datum.0 {
            proof {
                lemma_datums_view_len(list@);
            }
            if list.len() > 0 {
                if let Datum::Primitive(Primitive::Ident(ident)) = &list[0].0 {
                    if is_begin_word(ident) {
                        is_begin = true;
                        begin_span = list[0].1;
                    }
                }
            }
        }
        if !is_begin {
            return;
        }
        let mut taken = (Datum::Error, span);
        std::mem::swap(datum, &mut taken);
        if let Datum::List(list) = taken.0 {
            let ghost orig = list@;
            proof {
                lemma_datums_view_len(orig);
            }
            let ghost head = seq![
                (DatumV::Keyword(Keyword::Lambda), begin_span),
                (DatumV::List(seq![]), begin_span),
            ];
            let mut lambda_list: Vec<Spanned<Datum>> = Vec::new();
            lambda_list.push((Datum::Keyword(Keyword::Lambda), begin_span));
            let empty: Vec<Spanned<Datum>> = Vec::new();
            assert(datums_view(empty@) =~= seq![]);
            lambda_list.push((Datum::List(empty), begin_span));
            proof {
                lemma_datums_view_len(lambda_list@);
                assert(datums_view(lambda_list@) =~= head + datums_view(orig).subrange(1, 1));
            }
            let mut list = list;
            let mut k: usize = 1;
            while k < list.len()
                invariant
                    1 <= k <= list.len(),
                    list@.len() == orig.len(),
                    datums_view(orig).len() == orig.len(),
                    forall|j: int|
                        0 <= j < orig.len() ==> #[trigger] datums_view(orig)[j] == (
                            datum_view(orig[j].0),
                            orig[j].1,
                        ),
                    forall|j: int| k <= j < list@.len() ==> #[trigger] list@[j] == orig[j],
                    datums_view(lambda_list@) == head + datums_view(orig).subrange(1, k as int),
                decreases list.len() - k,
            {
                let mut x = (Datum::Error, span);
                list.set_and_swap(k, &mut x);
                proof {
                    lemma_datums_view_push(lambda_list@, x);
                }
                lambda_list.push(x);
                k = k + 1;
                assert(datums_view(lambda_list@) =~= head + datums_view(orig).subrange(
                    1,
                    k as int,
                ));
            }
            let inner = (Datum::List(lambda_list), span);
            let outer = vec![inner];
            proof {
                lemma_datums_view_len(outer@);
                assert(datums_view(orig).subrange(1, k as int) =~= datums_view(orig).drop_first());
                assert(datums_view(outer@) =~= seq![(datum_view(inner.0), span)]);
            }
            *datum = (Datum::List(outer), span);
        }
    }
}

/// The transformers that come with the library.
pub enum BuiltinTransformer {
    Begin(Begin),
}

impl Transformer for BuiltinTransformer {
    open spec fn spec_transform(&self, d: (DatumV, Span)) -> (DatumV, Span) {
        match self {
            BuiltinTransformer::Begin(b) => b.spec_transform(d),
        }
    }

    proof fn lemma_keeps_clean(&self, d: (DatumV, Span)) {
        match self {
            BuiltinTransformer::Begin(b) => b.lemma_keeps_clean(d),
        }
    }

    fn transform(&self, datum: &mut Spanned<Datum>) {
        match self {
            BuiltinTransformer::Begin(b) => b.transform(datum),
        }
    }
}

/// Whether `s` is the word `begin`.
fn is_begin_word(s: &String) -> (r: bool)
    ensures
        r == (s@ == begin_word()),
{
    let cs = chars_of(s.as_str());
    if cs.len() != 5 {
        return false;
    }
    let r = cs[0] == 'b' && cs[1] == 'e' && cs[2] == 'g' && cs[3] == 'i' && cs[4] == 'n';
    if r {
        assert(cs@ =~= begin_word());
    } else {
        assert(cs@ != begin_word()) by {
            if cs@ == begin_word() {
                assert(cs@[0] == 'b' && cs@[1] == 'e' && cs@[2] == 'g' && cs@[3] == 'i' && cs@[4]
                    == 'n');
            }
        }
    }
    r
}

} // verus!
