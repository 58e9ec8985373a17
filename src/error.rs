use vstd::prelude::*;

use crate::span::Span;

verus! {

/// One alternative that the parser would have accepted where it failed.
#[derive(Clone, Copy, Debug, PartialEq, Eq, Structural)]
pub enum Expected {
    OpenParen,
    CloseParen,
    Datum,
    Definition,
    Expression,
    Identifier,
    EndOfInput,
}

/// The construct that was being read when a failure happened.
#[derive(Clone, Copy, Debug, PartialEq, Eq, Structural)]
pub enum Label {
    Datum,
    Definition,
    Expression,
    ProcedureBody,
}

/// Why reading failed.
#[derive(Debug)]
pub enum Reason<T> {
    /// An item (or the end of input) that fits no alternative.
    Unexpected,
    /// A delimiter opened at `span` that was never closed.
    Unclosed { span: Span, delimiter: T },
    /// A failure described by a message.
    Custom(String),
}

/// The model of a `Reason`.
pub enum ReasonV<V> {
    Unexpected,
    Unclosed { span: Span, delimiter: V },
    Custom(Seq<char>),
}

/// One failure: where it happened, why, what was found there (`None` at the
/// end of input), and what would have been accepted.
#[derive(Debug)]
pub struct Failure<T> {
    pub span: Span,
    pub reason: Reason<T>,
    pub expected: Vec<Expected>,
    pub found: Option<T>,
    pub label: Option<Label>,
}

/// The model of a `Failure`.
pub struct FailureV<V> {
    pub span: Span,
    pub reason: ReasonV<V>,
    pub expected: Seq<Expected>,
    pub found: Option<V>,
    pub label: Option<Label>,
}

pub open spec fn option_view<T: View>(o: Option<T>) -> Option<T::V> {
    match o {
        Some(t) => Some(t@),
        None => None,
    }
}

impl<T: View> View for Failure<T> {
    type V = FailureV<T::V>;

    open spec fn view(&self) -> FailureV<T::V> {
        FailureV {
            span: self.span,
            reason: match self.reason {
                Reason::Unexpected => ReasonV::Unexpected,
                Reason::Unclosed { span, delimiter } => ReasonV::Unclosed {
                    span,
                    delimiter: delimiter@,
                },
                Reason::Custom(m) => ReasonV::Custom(m@),
            },
            expected: self.expected@,
            found: option_view(self.found),
            label: self.label,
        }
    }
}

pub open spec fn failures_view<T: View>(s: Seq<Failure<T>>) -> Seq<FailureV<T::V>> {
    s.map_values(|f: Failure<T>| f@)
}

/// The failures found while reading one named source text, with the options
/// that say how they are shown.
#[derive(Debug)]
pub struct ParseError<T> {
    simple: Vec<Failure<T>>,
    source: String,
    source_path: String,
    item_name: &'static str,
    colorful: bool,
    display_every_expected: bool,
}

/// The model of a `ParseError`.
pub struct ParseErrorV<V> {
    pub failures: Seq<FailureV<V>>,
    pub source: Seq<char>,
    pub source_path: Seq<char>,
    pub item_name: Seq<char>,
    pub colorful: bool,
    pub display_every_expected: bool,
}

impl<T: View> View for ParseError<T> {
    type V = ParseErrorV<T::V>;

    closed spec fn view(&self) -> ParseErrorV<T::V> {
        ParseErrorV {
            failures: failures_view(self.simple@),
            source: self.source@,
            source_path: self.source_path@,
            item_name: self.item_name@,
            colorful: self.colorful,
            display_every_expected: self.display_every_expected,
        }
    }
}

impl<T: View> ParseError<T> {
    /// Collects `e` against the source text and its name; shown in color and
    /// with every expected alternative until told otherwise.
    pub fn new(source: String, source_path: String, e: Vec<Failure<T>>, item_name: &'static str) -> (r:
        ParseError<T>)
        ensures
            r@ == (ParseErrorV {
                failures: failures_view(e@),
                source: source@,
                source_path: source_path@,
                item_name: item_name@,
                colorful: true,
                display_every_expected: true,
            }),
    {
        ParseError {
            simple: e,
            source,
            source_path,
            item_name,
            colorful: true,
            display_every_expected: true,
        }
    }

    /// Whether the shown message lists every expected alternative.
    pub fn display_every_expected(self, enable: bool) -> (r: Self)
        ensures
            r@ == (ParseErrorV { display_every_expected: enable, ..self@ }),
    {
        ParseError { display_every_expected: enable, ..self }
    }

    /// Whether the error is shown with color.
    pub fn with_color(self, colorful: bool) -> (r: Self)
        ensures
            r@ == (ParseErrorV { colorful, ..self@ }),
    {
        ParseError { colorful, ..self }
    }

    /// The source text the failures are found in.
    pub fn source(&self) -> (r: &String)
        ensures
            r@ == self@.source,
    {
        &self.source
    }

    /// The name of the source text.
    pub fn source_path(&self) -> (r: &String)
        ensures
            r@ == self@.source_path,
    {
        &self.source_path
    }

    /// What the failing items are called in messages.
    pub fn item_name(&self) -> (r: &'static str)
        ensures
            r@ == self@.item_name,
    {
        self.item_name
    }

    /// Whether the error is shown with color.
    pub fn is_colorful(&self) -> (r: bool)
        ensures
            r == self@.colorful,
    {
        self.colorful
    }

    /// Whether messages list every expected alternative.
    pub fn shows_every_expected(&self) -> (r: bool)
        ensures
            r == self@.display_every_expected,
    {
        self.display_every_expected
    }

    /// The failures, in the order they were found.
    pub fn failures(&self) -> (r: &Vec<Failure<T>>)
        ensures
            failures_view(r@) == self@.failures,
    {
        &self.simple
    }
}

} // verus!
