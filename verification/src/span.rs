//! Source positions and spans.
//!
//! A [`CodePoint`] is a 1-indexed `(row, col)` position in the source text,
//! ordered lexicographically. A [`Span`] is a pair of positions with the
//! invariant that the start strictly precedes the end; `merge` returns the
//! smallest span covering both inputs.

use vstd::prelude::*;

verus! {

#[derive(Debug, Clone, Copy, PartialEq, Eq, Structural, Hash)]
pub struct CodePoint {
    pub row: u32,
    pub col: u32,
}

#[derive(Debug, Clone, Copy, PartialEq, Eq, Structural, Hash)]
pub struct Span {
    pub start: CodePoint,
    pub end: CodePoint,
}

impl CodePoint {
    /// Lexicographic order by `(row, col)`.
    pub open spec fn lt_spec(self, other: Self) -> bool {
        self.row < other.row || (self.row == other.row && self.col < other.col)
    }

    /// The earlier of two positions.
    pub open spec fn min_spec(self, other: Self) -> Self {
        if self.lt_spec(other) {
            self
        } else {
            other
        }
    }

    /// The later of two positions.
    pub open spec fn max_spec(self, other: Self) -> Self {
        if self.lt_spec(other) {
            other
        } else {
            self
        }
    }

    pub open spec fn row_spec(self) -> u32 {
        self.row
    }

    pub open spec fn col_spec(self) -> u32 {
        self.col
    }

    /// Builds a position without validating it against any source text.
    pub fn new_unchecked(row: u32, col: u32) -> (r: Self)
        ensures
            r == (CodePoint { row, col }),
    {
        CodePoint { row, col }
    }

    /// Builds the span from `self` to `end`. The end must strictly follow
    /// the start; a call that violates this is a programming error and is
    /// ruled out statically.
    pub fn span(self, end: Self) -> (r: Span)
        requires
            self.lt_spec(end),
        ensures
            r.start_spec() == self,
            r.end_spec() == end,
    {
        Span { start: self, end }
    }

    pub fn row(self) -> (r: u32)
        ensures
            r == self.row_spec(),
    {
        self.row
    }

    pub fn col(self) -> (r: u32)
        ensures
            r == self.col_spec(),
    {
        self.col
    }

    /// Strict lexicographic comparison of two positions.
    pub fn lt(self, other: Self) -> (r: bool)
        ensures
            r == self.lt_spec(other),
    {
        self.row < other.row || (self.row == other.row && self.col < other.col)
    }

    fn min(self, other: Self) -> (r: Self)
        ensures
            r == self.min_spec(other),
    {
        if self.lt(other) {
            self
        } else {
            other
        }
    }

    fn max(self, other: Self) -> (r: Self)
        ensures
            r == self.max_spec(other),
    {
        if self.lt(other) {
            other
        } else {
            self
        }
    }
}

impl Span {
    pub open spec fn start_spec(self) -> CodePoint {
        self.start
    }

    pub open spec fn end_spec(self) -> CodePoint {
        self.end
    }

    /// A span is well formed when its start strictly precedes its end.
    pub open spec fn wf(self) -> bool {
        self.start.lt_spec(self.end)
    }

    /// The convex hull of two spans: componentwise minimum of the starts and
    /// maximum of the ends.
    pub open spec fn merge_spec(self, other: Self) -> Self {
        Span {
            start: self.start.min_spec(other.start),
            end: self.end.max_spec(other.end),
        }
    }

    /// The smallest span covering both `self` and `other`.
    pub fn merge(self, other: Self) -> (r: Self)
        ensures
            r == self.merge_spec(other),
            r.start_spec() == self.start_spec().min_spec(other.start_spec()),
            r.end_spec() == self.end_spec().max_spec(other.end_spec()),
            self.wf() && other.wf() ==> r.wf(),
    {
        Span { start: self.start.min(other.start), end: self.end.max(other.end) }
    }

    pub fn start(&self) -> (r: CodePoint)
        ensures
            r == self.start_spec(),
    {
        self.start
    }

    pub fn end(&self) -> (r: CodePoint)
        ensures
            r == self.end_spec(),
    {
        self.end
    }
}

/// Merging spans is commutative.
pub proof fn lemma_merge_commutative(a: Span, b: Span)
    ensures
        a.merge_spec(b) == b.merge_spec(a),
{
}

/// Merging spans is associative.
pub proof fn lemma_merge_associative(a: Span, b: Span, c: Span)
    ensures
        a.merge_spec(b).merge_spec(c) == a.merge_spec(b.merge_spec(c)),
{
}

/// A merge of well-formed spans is well formed, and its bounds are the
/// componentwise minimum start and maximum end of the inputs.
pub proof fn lemma_merge_bounds(a: Span, b: Span)
    requires
        a.wf(),
        b.wf(),
    ensures
        a.merge_spec(b).wf(),
        a.merge_spec(b).start_spec() == a.start_spec().min_spec(b.start_spec()),
        a.merge_spec(b).end_spec() == a.end_spec().max_spec(b.end_spec()),
{
}

} // verus!
