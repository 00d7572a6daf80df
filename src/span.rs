use vstd::prelude::*;

verus! {

/// A half-open interval `[start, end)` of byte positions in a text.
///
/// The value `{0, 0}` is the "no match" marker used in fixed-size result
/// buffers; a real match is never empty, so it cannot be confused with it.
#[derive(Debug, Clone, Copy, PartialEq, Eq, Structural)]
pub struct Match {
    /// Inclusive start index of a match
    pub start: usize,
    /// Exclusive end index of a match
    pub end: usize,
}

impl Match {
    pub fn new(start: usize, end: usize) -> (r: Match)
        ensures
            r.start == start,
            r.end == end,
    {
        Match { start, end }
    }

    /// True exactly for the `{0, 0}` marker.
    pub fn is_empty(self) -> (r: bool)
        ensures
            r == (self.start == 0 && self.end == 0),
    {
        self.start == 0 && self.end == 0
    }

    /// Translates the span into a range relative to a substring that begins
    /// at `offset`. Both ends are clamped so that they never fall below the
    /// substring's start; the end is at least one past it.
    pub fn to_indices(self, offset: usize) -> (r: core::ops::Range<usize>)
        requires
            offset < usize::MAX,
        ensures
            r.start == (if self.start >= offset { self.start - offset } else { 0 }),
            r.end == (if self.end >= offset + 1 { self.end - offset } else { 1 }),
    {
        let s = if self.start >= offset { self.start } else { offset };
        let e = if self.end >= offset + 1 { self.end } else { offset + 1 };
        (s - offset)..(e - offset)
    }
}

} // verus!
