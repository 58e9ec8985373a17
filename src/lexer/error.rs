use vstd::prelude::*;

use crate::error::{failures_view, Failure, FailureV, ReasonV};
use crate::report::{
    pieces_view, labels_view, report_of, report_spec, reports_view, Color, Item, Piece, Report,
    ReportLabel, ReportV,
};
use crate::strings::{push_char, string_from};

verus! {

/// Lexing failures against one named source text, shown as unexpected
/// characters.
#[derive(Debug)]
pub struct TokenizeError {
    simple: Vec<Failure<char>>,
    source: String,
    source_path: String,
    colorful: bool,
}

/// The model of a `TokenizeError`.
pub struct TokenizeErrorV {
    pub failures: Seq<FailureV<char>>,
    pub source: Seq<char>,
    pub source_path: Seq<char>,
    pub colorful: bool,
}

impl View for TokenizeError {
    type V = TokenizeErrorV;

    closed spec fn view(&self) -> TokenizeErrorV {
        TokenizeErrorV {
            failures: failures_view(self.simple@),
            source: self.source@,
            source_path: self.source_path@,
            colorful: self.colorful,
        }
    }
}

/// The report of one lexing failure: an unexpected character names it in the
/// label.
pub open spec fn tokenize_report(f: FailureV<char>) -> ReportV {
    match f.reason {
        ReasonV::Unexpected => ReportV {
            offset: f.span.start,
            message: seq![
                (
                    if f.found is Some {
                        "Unexpected char in input"@
                    } else {
                        "Unexpected end of input"@
                    },
                    None,
                ),
            ],
            labels: seq![
                (
                    f.span,
                    seq![
                        ("Unexpected "@, None),
                        (
                            match f.found {
                                Some(c) => "char "@.push(c),
                                None => "end of file"@,
                            },
                            Some(Color::Red),
                        ),
                    ],
                    Color::Red,
                ),
            ],
        },
        _ => report_spec(f, |c: char| seq![c], "char"@, false),
    }
}

impl TokenizeError {
    /// Collects lexing failures against the source text and its name; shown
    /// without color until told otherwise.
    pub fn new(source: String, source_path: String, failures: Vec<Failure<char>>) -> (r: TokenizeError)
        ensures
            r@ == (TokenizeErrorV {
                failures: failures_view(failures@),
                source: source@,
                source_path: source_path@,
                colorful: false,
            }),
    {
        TokenizeError { simple: failures, source, source_path, colorful: false }
    }

    /// Should display with color or not, default: false
    pub fn with_color(self, colorful: bool) -> (r: Self)
        ensures
            r@ == (TokenizeErrorV { colorful, ..self@ }),
    {
        TokenizeError { colorful, ..self }
    }

    /// One report per failure, in order.
    pub fn reports(&self) -> (r: Vec<Report>)
        ensures
            reports_view(r@) == self@.failures.map_values(|f: FailureV<char>| tokenize_report(f)),
    {
        let ghost spec = self@.failures.map_values(|f: FailureV<char>| tokenize_report(f));
        let mut out: Vec<Report> = Vec::new();
        let mut k: usize = 0;
        while k < self.simple.len()
            invariant
                k <= self.simple.len(),
                spec == failures_view(self.simple@).map_values(
                    |f: FailureV<char>| tokenize_report(f),
                ),
                reports_view(out@) == spec.take(k as int),
            decreases self.simple.len() - k,
        {
            let f = &self.simple[k];
            let r = match f.reason {
                crate::error::Reason::Unexpected => {
                    let head = if f.found.is_some() {
                        string_from("Unexpected char in input")
                    } else {
                        string_from("Unexpected end of input")
                    };
                    let what = match f.found {
                        Some(c) => {
                            let mut s = string_from("char ");
                            push_char(&mut s, c);
                            s
                        },
                        None => string_from("end of file"),
                    };
                    let message = vec![Piece { text: head, color: None }];
                    let lm = vec![
                        Piece { text: string_from("Unexpected "), color: None },
                        Piece { text: what, color: Some(Color::Red) },
                    ];
                    let ghost lv = pieces_view(lm@);
                    let labels = vec![ReportLabel { span: f.span, message: lm, color: Color::Red }];
                    proof {
                        assert(pieces_view(message@) =~= tokenize_report(f@).message);
                        assert(lv =~= tokenize_report(f@).labels[0].1);
                        assert(labels_view(labels@) =~= tokenize_report(f@).labels);
                    }
                    Report { offset: f.span.start, message, labels }
                },
                _ => report_of(f, "char", false),
            };
            proof {
                if !(f.reason is Unexpected) {
                    assert(r@ == report_spec(f@, |v: char| <char as Item>::spec_text(v), "char"@, false));
                    assert((|v: char| <char as Item>::spec_text(v)) =~= (|c: char| seq![c]));
                }
            }
            let ghost before = out@;
            proof {
                assert(failures_view(self.simple@)[k as int] == f@);
                assert(spec[k as int] == tokenize_report(f@));
                assert(r@ == tokenize_report(f@));
            }
            out.push(r);
            k = k + 1;
            assert(reports_view(out@) =~= reports_view(before).push(r@));
            assert(spec.take(k as int) =~= spec.take(k - 1).push(spec[k - 1]));
            assert(reports_view(out@) =~= spec.take(k as int));
        }
        assert(spec.take(k as int) =~= spec);
        out
    }
}

} // verus!
