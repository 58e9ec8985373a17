use vstd::prelude::*;

verus! {

/// A half-open range `[start, end)` of byte offsets into a source text.
#[derive(Clone, Copy, Debug, PartialEq, Eq, Structural)]
pub struct Span {
    pub start: usize,
    pub end: usize,
}

/// A value paired with the span of source text it was read from.
pub type Spanned<T> = (T, Span);

impl Span {
    /// Whether `other` lies within `self`.
    pub open spec fn contains(self, other: Span) -> bool {
        self.start <= other.start && other.end <= self.end
    }

    /// The span `[start, end)`.
    pub fn new(start: usize, end: usize) -> (r: Span)
        ensures
            r.start == start,
            r.end == end,
    {
        Span { start, end }
    }
}

/// Pairs a value with its span.
pub fn spanned<T>(value: T, span: Span) -> (r: Spanned<T>)
    ensures
        r.0 == value,
        r.1 == span,
{
    (value, span)
}

} // verus!
