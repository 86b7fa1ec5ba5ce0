use vstd::prelude::*;

verus! {

/// A half-open byte range `[start, end)` of the source text.
#[derive(Clone, Copy, Debug, PartialEq, Eq, Hash, Structural)]
pub struct Span {
    pub start: usize,
    pub end: usize,
}

impl Span {
    pub open spec fn covers(self, offset: int) -> bool {
        self.start <= offset < self.end
    }

    pub fn new(start: usize, end: usize) -> (r: Span)
        ensures
            r.start == start,
            r.end == end,
    {
        Span { start, end }
    }

    /// Whether `offset` lies inside the span.
    pub fn contains(&self, offset: usize) -> (r: bool)
        ensures
            r == self.covers(offset as int),
    {
        self.start <= offset && offset < self.end
    }
}

} // verus!
