use vstd::prelude::*;

use crate::error::{failures_view, option_view, Expected, Failure, FailureV, Label, ParseError, Reason, ReasonV};
use crate::span::Span;
use crate::strings::{push_char, push_str, string_from};
use crate::token::{token_string, Token, TokenV};

verus! {

/// A color that a renderer may give to part of a report.
#[derive(Clone, Copy, Debug, PartialEq, Eq, Structural)]
pub enum Color {
    Red,
    Yellow,
}

/// A run of text, with the color it is shown in when color is on.
#[derive(Debug)]
pub struct Piece {
    pub text: String,
    pub color: Option<Color>,
}

pub type PieceV = (Seq<char>, Option<Color>);

/// A labelled span of the source.
#[derive(Debug)]
pub struct ReportLabel {
    pub span: Span,
    pub message: Vec<Piece>,
    pub color: Color,
}

pub type LabelV = (Span, Seq<PieceV>, Color);

/// What a renderer shows for one failure: a message anchored at `offset`, and
/// labels on the source.
#[derive(Debug)]
pub struct Report {
    pub offset: usize,
    pub message: Vec<Piece>,
    pub labels: Vec<ReportLabel>,
}

/// The model of a `Report`.
pub struct ReportV {
    pub offset: usize,
    pub message: Seq<PieceV>,
    pub labels: Seq<LabelV>,
}

pub open spec fn pieces_view(s: Seq<Piece>) -> Seq<PieceV> {
    s.map_values(|p: Piece| (p.text@, p.color))
}

pub open spec fn labels_view(s: Seq<ReportLabel>) -> Seq<LabelV> {
    s.map_values(|l: ReportLabel| (l.span, pieces_view(l.message@), l.color))
}

impl View for Report {
    type V = ReportV;

    open spec fn view(&self) -> ReportV {
        ReportV { offset: self.offset, message: pieces_view(self.message@), labels: labels_view(self.labels@) }
    }
}

pub open spec fn reports_view(s: Seq<Report>) -> Seq<ReportV> {
    s.map_values(|r: Report| r@)
}

/// An item that failures can report: characters and tokens.
pub trait Item: View + Sized {
    /// How the item is written in a report.
    spec fn spec_text(v: Self::V) -> Seq<char>;

    fn text(&self) -> (r: String)
        ensures
            r@ == Self::spec_text(self@),
    ;
}

impl Item for char {
    open spec fn spec_text(v: char) -> Seq<char> {
        seq![v]
    }

    fn text(&self) -> (r: String) {
        let mut s = String::new();
        push_char(&mut s, *self);
        assert(s@ =~= seq![*self]);
        s
    }
}

impl Item for Token {
    open spec fn spec_text(v: TokenV) -> Seq<char> {
        token_string(v)
    }

    fn text(&self) -> (r: String) {
        self.to_string()
    }
}

/// How an expected alternative is written in messages.
pub open spec fn expected_text(e: Expected) -> Seq<char> {
    match e {
        Expected::OpenParen => seq!['('],
        Expected::CloseParen => seq![')'],
        Expected::Datum => seq!['<', 'd', 'a', 't', 'u', 'm', '>'],
        Expected::Definition => seq!['<', 'd', 'e', 'f', 'i', 'n', 'i', 't', 'i', 'o', 'n', '>'],
        Expected::Expression => seq!['<', 'e', 'x', 'p', 'r', 'e', 's', 's', 'i', 'o', 'n', '>'],
        Expected::Identifier => seq!['<', 'i', 'd', 'e', 'n', 't', 'i', 'f', 'i', 'e', 'r', '>'],
        Expected::EndOfInput => seq!['e', 'n', 'd', ' ', 'o', 'f', ' ', 'i', 'n', 'p', 'u', 't'],
    }
}

fn expected_str(e: Expected) -> (r: &'static str)
    ensures
        r@ == expected_text(e),
{
    match e {
        Expected::OpenParen => {
            proof {
                reveal_strlit("(");
            }
            assert("("@ =~= expected_text(e));
            "("
        },
        Expected::CloseParen => {
            proof {
                reveal_strlit(")");
            }
            assert(")"@ =~= expected_text(e));
            ")"
        },
        Expected::Datum => {
            proof {
                reveal_strlit("<datum>");
            }
            assert("<datum>"@ =~= expected_text(e));
            "<datum>"
        },
        Expected::Definition => {
            proof {
                reveal_strlit("<definition>");
            }
            assert("<definition>"@ =~= expected_text(e));
            "<definition>"
        },
        Expected::Expression => {
            proof {
                reveal_strlit("<expression>");
            }
            assert("<expression>"@ =~= expected_text(e));
            "<expression>"
        },
        Expected::Identifier => {
            proof {
                reveal_strlit("<identifier>");
            }
            assert("<identifier>"@ =~= expected_text(e));
            "<identifier>"
        },
        Expected::EndOfInput => {
            proof {
                reveal_strlit("end of input");
            }
            assert("end of input"@ =~= expected_text(e));
            "end of input"
        },
    }
}

/// Whether `a` comes before `b` in lexicographic order of characters.
pub open spec fn text_less(a: Seq<char>, b: Seq<char>) -> bool
    decreases a.len(),
{
    if a.len() == 0 {
        b.len() > 0
    } else if b.len() == 0 {
        false
    } else if a[0] != b[0] {
        a[0] < b[0]
    } else {
        text_less(a.drop_first(), b.drop_first())
    }
}

/// The alternatives in the order of their texts.
pub open spec fn expected_at(k: nat) -> Expected {
    if k == 0 {
        Expected::OpenParen
    } else if k == 1 {
        Expected::CloseParen
    } else if k == 2 {
        Expected::Datum
    } else if k == 3 {
        Expected::Definition
    } else if k == 4 {
        Expected::Expression
    } else if k == 5 {
        Expected::Identifier
    } else {
        Expected::EndOfInput
    }
}

/// The place of an alternative in the order of their texts.
pub open spec fn expected_rank(e: Expected) -> nat {
    match e {
        Expected::OpenParen => 0,
        Expected::CloseParen => 1,
        Expected::Datum => 2,
        Expected::Definition => 3,
        Expected::Expression => 4,
        Expected::Identifier => 5,
        Expected::EndOfInput => 6,
    }
}

/// The alternatives of `es` from place `k` on, each once, in the order of
/// their texts.
pub open spec fn sorted_from(es: Seq<Expected>, k: nat) -> Seq<Expected>
    decreases 7 - k,
{
    if k >= 7 {
        seq![]
    } else {
        (if es.contains(expected_at(k)) {
            seq![expected_at(k)]
        } else {
            seq![]
        }) + sorted_from(es, k + 1)
    }
}

/// The distinct alternatives of `es`, in ascending order of their texts.
pub open spec fn sorted_expected(es: Seq<Expected>) -> Seq<Expected> {
    sorted_from(es, 0)
}

proof fn lemma_rank_text(a: Expected, b: Expected)
    requires
        expected_rank(a) < expected_rank(b),
    ensures
        text_less(expected_text(a), expected_text(b)),
{
    reveal_with_fuel(text_less, 4);
}

proof fn lemma_sorted_from(es: Seq<Expected>, k: nat)
    requires
        k <= 7,
    ensures
        forall|i: int|
            0 <= i < sorted_from(es, k).len() ==> expected_rank(#[trigger] sorted_from(es, k)[i])
                >= k,
        forall|i: int, j: int|
            0 <= i < j < sorted_from(es, k).len() ==> expected_rank(
                #[trigger] sorted_from(es, k)[i],
            ) < expected_rank(#[trigger] sorted_from(es, k)[j]),
        forall|e: Expected|
            #[trigger] sorted_from(es, k).contains(e) <==> es.contains(e) && expected_rank(e) >= k,
    decreases 7 - k,
{
    if k < 7 {
        lemma_sorted_from(es, k + 1);
        let head = if es.contains(expected_at(k)) {
            seq![expected_at(k)]
        } else {
            Seq::<Expected>::empty()
        };
        let rest = sorted_from(es, k + 1);
        let r = sorted_from(es, k);
        assert(r == head + rest);
        assert(expected_rank(expected_at(k)) == k);
        assert forall|i: int| 0 <= i < r.len() implies expected_rank(#[trigger] r[i]) >= k by {
            if i >= head.len() {
                assert(r[i] == rest[i - head.len()]);
            }
        }
        assert forall|i: int, j: int| 0 <= i < j < r.len() implies expected_rank(#[trigger] r[i])
            < expected_rank(#[trigger] r[j]) by {
            assert(r[j] == rest[j - head.len()]);
            if i >= head.len() {
                assert(r[i] == rest[i - head.len()]);
            }
        }
        assert forall|e: Expected| #[trigger] r.contains(e) <==> es.contains(e) && expected_rank(e)
            >= k by {
            if r.contains(e) {
                let i = choose|i: int| 0 <= i < r.len() && r[i] == e;
                if i >= head.len() {
                    assert(rest[i - head.len()] == e);
                    assert(rest.contains(e));
                }
            }
            if es.contains(e) && expected_rank(e) >= k {
                if expected_rank(e) == k {
                    assert(e == expected_at(k));
                    assert(r[0] == e);
                } else {
                    assert(rest.contains(e));
                    let i = choose|i: int| 0 <= i < rest.len() && rest[i] == e;
                    assert(r[i + head.len()] == e);
                }
            }
        }
    }
}

/// The alternatives a report lists are distinct, in ascending order of their
/// texts, and exactly those of the failure.
pub proof fn lemma_sorted_expected(es: Seq<Expected>)
    ensures
        forall|i: int, j: int|
            0 <= i < j < sorted_expected(es).len() ==> text_less(
                expected_text(#[trigger] sorted_expected(es)[i]),
                expected_text(#[trigger] sorted_expected(es)[j]),
            ) && sorted_expected(es)[i] != sorted_expected(es)[j],
        forall|e: Expected| #[trigger] sorted_expected(es).contains(e) <==> es.contains(e),
{
    lemma_sorted_from(es, 0);
    let r = sorted_expected(es);
    assert forall|i: int, j: int| 0 <= i < j < r.len() implies text_less(
        expected_text(#[trigger] r[i]),
        expected_text(#[trigger] r[j]),
    ) && r[i] != r[j] by {
        lemma_rank_text(r[i], r[j]);
    }
}

fn has_expected(es: &Vec<Expected>, e: Expected) -> (r: bool)
    ensures
        r == es@.contains(e),
{
    let mut k: usize = 0;
    while k < es.len()
        invariant
            k <= es.len(),
            forall|m: int| 0 <= m < k ==> es@[m] != e,
        decreases es.len() - k,
    {
        if es[k] == e {
            assert(es@[k as int] == e);
            return true;
        }
        k = k + 1;
    }
    false
}

fn expected_at_exec(k: usize) -> (r: Expected)
    ensures
        r == expected_at(k as nat),
{
    if k == 0 {
        Expected::OpenParen
    } else if k == 1 {
        Expected::CloseParen
    } else if k == 2 {
        Expected::Datum
    } else if k == 3 {
        Expected::Definition
    } else if k == 4 {
        Expected::Expression
    } else if k == 5 {
        Expected::Identifier
    } else {
        Expected::EndOfInput
    }
}

fn sort_expected(es: &Vec<Expected>) -> (r: Vec<Expected>)
    ensures
        r@ == sorted_expected(es@),
{
    let mut r: Vec<Expected> = Vec::new();
    let mut k: usize = 0;
    assert(r@ + sorted_from(es@, 0) =~= sorted_from(es@, 0));
    while k < 7
        invariant
            k <= 7,
            r@ + sorted_from(es@, k as nat) == sorted_from(es@, 0),
        decreases 7 - k,
    {
        let e = expected_at_exec(k);
        let ghost before = r@;
        if has_expected(es, e) {
            r.push(e);
            assert(before + sorted_from(es@, k as nat) =~= r@ + sorted_from(es@, (k + 1) as nat));
        } else {
            assert(before + sorted_from(es@, k as nat) =~= r@ + sorted_from(es@, (k + 1) as nat));
        }
        k = k + 1;
    }
    assert(r@ + sorted_from(es@, 7) =~= r@);
    r
}

pub open spec fn label_text(l: Label) -> Seq<char> {
    match l {
        Label::Datum => "datum"@,
        Label::Definition => "definition"@,
        Label::Expression => "expression"@,
        Label::ProcedureBody => "procedure body"@,
    }
}

fn label_str(l: Label) -> (r: &'static str)
    ensures
        r@ == label_text(l),
{
    match l {
        Label::Datum => "datum",
        Label::Definition => "definition",
        Label::Expression => "expression",
        Label::ProcedureBody => "procedure body",
    }
}

/// `" while parsing <label>"`, or nothing.
pub open spec fn while_parsing(label: Option<Label>) -> Seq<PieceV> {
    match label {
        Some(l) => seq![(" while parsing "@ + label_text(l), None)],
        None => seq![],
    }
}

/// `", expected "` and the alternatives `es` in yellow, in the order given,
/// separated by `", "`.
pub open spec fn expected_list(es: Seq<Expected>) -> Seq<PieceV>
    decreases es.len(),
{
    if es.len() == 0 {
        seq![]
    } else if es.len() == 1 {
        seq![(", expected "@, None), (expected_text(es[0]), Some(Color::Yellow))]
    } else {
        expected_list(es.drop_last()) + seq![
            (", "@, None),
            (expected_text(es.last()), Some(Color::Yellow)),
        ]
    }
}

/// The report of one failure, for items named `item_name`. The expected
/// alternatives are listed each once, in ascending order of their texts
/// (`sorted_expected`, see `lemma_sorted_expected`).
pub open spec fn report_spec<V>(
    f: FailureV<V>,
    text: spec_fn(V) -> Seq<char>,
    item_name: Seq<char>,
    every_expected: bool,
) -> ReportV {
    let found_piece = match f.found {
        Some(v) => (text(v), Some(Color::Red)),
        None => ("end of file"@, Some(Color::Red)),
    };
    match f.reason {
        ReasonV::Unexpected => ReportV {
            offset: f.span.start,
            message: seq![
                (
                    if f.found is Some {
                        "Unexpected "@ + item_name + " in input"@
                    } else {
                        "Unexpected end of input"@
                    },
                    None,
                ),
            ] + while_parsing(f.label) + (if every_expected {
                expected_list(sorted_expected(f.expected))
            } else {
                seq![]
            }),
            labels: seq![
                (
                    f.span,
                    if f.found is Some {
                        seq![("Unexpected "@ + item_name + " "@, None), found_piece]
                    } else {
                        seq![found_piece]
                    },
                    Color::Red,
                ),
            ],
        },
        ReasonV::Unclosed { span, delimiter } => ReportV {
            offset: f.span.start,
            message: seq![("Unclosed delimiter "@, None), (text(delimiter), Some(Color::Yellow))]
                + while_parsing(f.label),
            labels: seq![
                (
                    span,
                    seq![("Unclosed delimiter "@, None), (text(delimiter), Some(Color::Yellow))],
                    Color::Yellow,
                ),
                (f.span, seq![("Must be closed before this "@, None), found_piece], Color::Red),
            ],
        },
        ReasonV::Custom(m) => ReportV {
            offset: f.span.start,
            message: seq![(m, None)] + while_parsing(f.label),
            labels: seq![(f.span, seq![(m, Some(Color::Red))], Color::Red)],
        },
    }
}

fn piece(text: String, color: Option<Color>) -> (r: Piece)
    ensures
        r.text@ == text@,
        r.color == color,
{
    Piece { text, color }
}

fn piece_of(text: &str, color: Option<Color>) -> (r: Piece)
    ensures
        r.text@ == text@,
        r.color == color,
{
    Piece { text: string_from(text), color }
}

fn push_piece(v: &mut Vec<Piece>, p: Piece)
    ensures
        pieces_view(final(v)@) == pieces_view(old(v)@).push((p.text@, p.color)),
{
    let ghost before = v@;
    v.push(p);
    assert(pieces_view(v@) =~= pieces_view(before).push((p.text@, p.color)));
}

fn push_while_parsing(v: &mut Vec<Piece>, label: Option<Label>)
    ensures
        pieces_view(final(v)@) == pieces_view(old(v)@) + while_parsing(label),
{
    match label {
        Some(l) => {
            let mut s = string_from(" while parsing ");
            push_str(&mut s, label_str(l));
            push_piece(v, piece(s, None));
            assert(pieces_view(v@) =~= pieces_view(old(v)@) + while_parsing(label));
        },
        None => {
            assert(pieces_view(v@) =~= pieces_view(old(v)@) + while_parsing(label));
        },
    }
}

fn push_expected_list(v: &mut Vec<Piece>, es: &Vec<Expected>)
    ensures
        pieces_view(final(v)@) == pieces_view(old(v)@) + expected_list(es@),
{
    let ghost start = pieces_view(v@);
    let mut k: usize = 0;
    assert(es@.take(0) =~= seq![]);
    assert(start + seq![] =~= start);
    while k < es.len()
        invariant
            k <= es.len(),
            pieces_view(v@) == start + expected_list(es@.take(k as int)),
        decreases es.len() - k,
    {
        let ghost before = pieces_view(v@);
        if k == 0 {
            push_piece(v, piece_of(", expected ", None));
        } else {
            push_piece(v, piece_of(", ", None));
        }
        push_piece(v, piece_of(expected_str(es[k]), Some(Color::Yellow)));
        proof {
            let t = es@.take(k + 1);
            assert(t.drop_last() =~= es@.take(k as int));
            assert(t.last() == es@[k as int]);
            if k == 0 {
                assert(t.len() == 1);
                assert(t[0] == es@[0]);
            }
        }
        k = k + 1;
        assert(pieces_view(v@) =~= start + expected_list(es@.take(k as int)));
    }
    assert(es@.take(k as int) =~= es@);
}

fn found_piece<T: Item>(found: &Option<T>) -> (r: Piece)
    ensures
        (r.text@, r.color) == (match option_view(*found) {
            Some(v) => (T::spec_text(v), Some(Color::Red)),
            None => ("end of file"@, Some(Color::Red)),
        }),
{
    match found {
        Some(t) => piece(t.text(), Some(Color::Red)),
        None => piece_of("end of file", Some(Color::Red)),
    }
}

/// The report of one failure.
pub fn report_of<T: Item>(f: &Failure<T>, item_name: &str, every_expected: bool) -> (r: Report)
    ensures
        r@ == report_spec(f@, |v: T::V| T::spec_text(v), item_name@, every_expected),
{
    let ghost spec = report_spec(f@, |v: T::V| T::spec_text(v), item_name@, every_expected);
    let mut message: Vec<Piece> = Vec::new();
    let mut labels: Vec<ReportLabel> = Vec::new();
    match &f.reason {
        Reason::Unexpected => {
            let head = if f.found.is_some() {
                let mut s = string_from("Unexpected ");
                push_str(&mut s, item_name);
                push_str(&mut s, " in input");
                s
            } else {
                string_from("Unexpected end of input")
            };
            push_piece(&mut message, piece(head, None));
            push_while_parsing(&mut message, f.label);
            if every_expected {
                let sorted = sort_expected(&f.expected);
                push_expected_list(&mut message, &sorted);
            }
            let mut lm: Vec<Piece> = Vec::new();
            if f.found.is_some() {
                let mut s = string_from("Unexpected ");
                push_str(&mut s, item_name);
                push_str(&mut s, " ");
                push_piece(&mut lm, piece(s, None));
            }
            push_piece(&mut lm, found_piece(&f.found));
            let ghost lv = pieces_view(lm@);
            labels.push(ReportLabel { span: f.span, message: lm, color: Color::Red });
            proof {
                assert(labels_view(labels@) =~= seq![(f.span, lv, Color::Red)]);
                assert(pieces_view(message@) =~= spec.message);
                assert(lv =~= spec.labels[0].1);
            }
        },
        Reason::Unclosed { span, delimiter } => {
            push_piece(&mut message, piece_of("Unclosed delimiter ", None));
            push_piece(&mut message, piece(delimiter.text(), Some(Color::Yellow)));
            push_while_parsing(&mut message, f.label);
            let mut l1: Vec<Piece> = Vec::new();
            push_piece(&mut l1, piece_of("Unclosed delimiter ", None));
            push_piece(&mut l1, piece(delimiter.text(), Some(Color::Yellow)));
            let mut l2: Vec<Piece> = Vec::new();
            push_piece(&mut l2, piece_of("Must be closed before this ", None));
            push_piece(&mut l2, found_piece(&f.found));
            let ghost v1 = pieces_view(l1@);
            let ghost v2 = pieces_view(l2@);
            labels.push(ReportLabel { span: *span, message: l1, color: Color::Yellow });
            labels.push(ReportLabel { span: f.span, message: l2, color: Color::Red });
            proof {
                assert(labels_view(labels@) =~= seq![(*span, v1, Color::Yellow), (f.span, v2, Color::Red)]);
                assert(pieces_view(message@) =~= spec.message);
                assert(v1 =~= spec.labels[0].1);
                assert(v2 =~= spec.labels[1].1);
            }
        },
        Reason::Custom(m) => {
            push_piece(&mut message, piece(m.clone(), None));
            push_while_parsing(&mut message, f.label);
            let mut lm: Vec<Piece> = Vec::new();
            push_piece(&mut lm, piece(m.clone(), Some(Color::Red)));
            let ghost lv = pieces_view(lm@);
            labels.push(ReportLabel { span: f.span, message: lm, color: Color::Red });
            proof {
                assert(labels_view(labels@) =~= seq![(f.span, lv, Color::Red)]);
                assert(pieces_view(message@) =~= spec.message);
                assert(lv =~= spec.labels[0].1);
            }
        },
    }
    Report { offset: f.span.start, message, labels }
}

/// The reports of a sequence of failures, one each, in order.
pub open spec fn failure_reports<V>(
    fs: Seq<FailureV<V>>,
    text: spec_fn(V) -> Seq<char>,
    item_name: Seq<char>,
    every_expected: bool,
) -> Seq<ReportV> {
    fs.map_values(|f: FailureV<V>| report_spec(f, text, item_name, every_expected))
}

impl<T: Item> ParseError<T> {
    /// One report per failure, in order, for a renderer to draw against the
    /// source text.
    pub fn reports(&self) -> (r: Vec<Report>)
        ensures
            reports_view(r@) == failure_reports(
                self@.failures,
                |v: T::V| T::spec_text(v),
                self@.item_name,
                self@.display_every_expected,
            ),
    {
        let fs = self.failures();
        let ghost fv = self@.failures;
        let ghost spec = failure_reports(
            self@.failures,
            |v: T::V| T::spec_text(v),
            self@.item_name,
            self@.display_every_expected,
        );
        let mut out: Vec<Report> = Vec::new();
        let mut k: usize = 0;
        while k < fs.len()
            invariant
                k <= fs.len(),
                fv == failures_view(fs@),
                spec == failure_reports(
                    fv,
                    |v: T::V| T::spec_text(v),
                    self@.item_name,
                    self@.display_every_expected,
                ),
                reports_view(out@) == spec.take(k as int),
            decreases fs.len() - k,
        {
            let r = report_of(&fs[k], self.item_name(), self.shows_every_expected());
            let ghost before = out@;
            proof {
                assert(fv[k as int] == fs@[k as int]@);
                assert(spec[k as int] == r@);
            }
            out.push(r);
            k = k + 1;
            assert(reports_view(out@) =~= reports_view(before).push(r@));
            assert(spec.take(k as int) =~= spec.take(k - 1).push(spec[k - 1]));
            assert(reports_view(out@) =~= spec.take(k as int));
        }
        assert(spec.take(k as int) =~= spec);
        out
    }
}

} // verus!
