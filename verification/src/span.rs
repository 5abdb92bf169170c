use crate::render::{decimal, push_decimal};
use vstd::prelude::*;

verus! {

/// A range of bytes in the source text, `start` inclusive, `end` exclusive.
///
/// Offsets are byte offsets, not character indices.
#[derive(Debug, Clone, Copy, PartialEq, Eq, Structural, Hash)]
pub struct Span {
    pub start: usize,
    pub end: usize,
}

impl Span {
    /// A span is well formed when it does not run backwards.
    pub open spec fn is_ordered(self) -> bool {
        self.start <= self.end
    }

    /// The smallest span covering both spans.
    pub open spec fn spec_merge(self, other: Span) -> Span {
        Span {
            start: if self.start <= other.start {
                self.start
            } else {
                other.start
            },
            end: if self.end >= other.end {
                self.end
            } else {
                other.end
            },
        }
    }

    /// Whether byte `offset` lies in `start..end`.
    pub open spec fn spec_contains(self, offset: int) -> bool {
        self.start <= offset < self.end
    }

    /// The span `start..end`.
    pub fn new(start: usize, end: usize) -> (s: Span)
        requires
            start <= end,
        ensures
            s.start == start,
            s.end == end,
    {
        Span { start, end }
    }

    /// A zero-width span at a single byte offset.
    pub fn point(offset: usize) -> (s: Span)
        ensures
            s.start == offset,
            s.end == offset,
    {
        Span { start: offset, end: offset }
    }

    /// Number of bytes covered.
    pub fn len(&self) -> (n: usize)
        requires
            self.is_ordered(),
        ensures
            n == self.end - self.start,
    {
        self.end - self.start
    }

    /// Whether the span covers no byte.
    pub fn is_empty(&self) -> (b: bool)
        ensures
            b == (self.start == self.end),
    {
        self.start == self.end
    }

    /// The smallest span covering both `self` and `other`.
    pub fn merge(self, other: Span) -> (s: Span)
        ensures
            s == self.spec_merge(other),
    {
        let start = if self.start <= other.start { self.start } else { other.start };
        let end = if self.end >= other.end { self.end } else { other.end };
        Span { start, end }
    }

    /// The span written as `start..end`.
    pub fn to_string(&self) -> (s: String)
        ensures
            s@ == decimal(self.start as nat) + ".."@ + decimal(self.end as nat),
    {
        let mut s = String::new();
        push_decimal(&mut s, self.start as u64);
        s.append("..");
        push_decimal(&mut s, self.end as u64);
        s
    }

    /// Whether a byte offset lies in `start..end`.
    pub fn contains_offset(&self, offset: usize) -> (b: bool)
        ensures
            b == self.spec_contains(offset as int),
    {
        offset >= self.start && offset < self.end
    }
}

/// Merging covers both spans: every offset either span contains, the
/// merged span contains too, and the merged span of two ordered spans is
/// ordered.
pub proof fn lemma_merge_covers(a: Span, b: Span, offset: int)
    ensures
        a.spec_contains(offset) || b.spec_contains(offset) ==> a.spec_merge(b).spec_contains(offset),
        a.is_ordered() && b.is_ordered() ==> a.spec_merge(b).is_ordered(),
{
}

/// Merging does not depend on the order of the two spans, and merging a span
/// with itself gives it back.
pub proof fn lemma_merge_symmetric(a: Span, b: Span)
    ensures
        a.spec_merge(b) == b.spec_merge(a),
        a.spec_merge(a) == a,
{
}

/// Merging is associative.
pub proof fn lemma_merge_associative(a: Span, b: Span, c: Span)
    ensures
        a.spec_merge(b).spec_merge(c) == a.spec_merge(b.spec_merge(c)),
{
}

/// No offset lies in a zero-width span.
pub proof fn lemma_point_contains_nothing(at: usize, offset: int)
    ensures
        !(Span { start: at, end: at }).spec_contains(offset),
{
}

impl Default for Span {
    /// The empty span at offset 0.
    fn default() -> (s: Span)
        ensures
            s.start == 0,
            s.end == 0,
    {
        Span { start: 0, end: 0 }
    }
}

/// A position in source text: byte offset plus 1-based line and column.
#[derive(Debug, Clone, Copy, PartialEq, Eq, Structural, Hash)]
pub struct Pos {
    pub offset: usize,
    pub line: u32,
    pub col: u32,
}

impl Pos {
    /// The position at byte `offset`, line `line`, column `col`.
    pub fn new(offset: usize, line: u32, col: u32) -> (p: Pos)
        ensures
            p.offset == offset,
            p.line == line,
            p.col == col,
    {
        Pos { offset, line, col }
    }

    /// The position written as `line:col`.
    pub fn to_string(&self) -> (s: String)
        ensures
            s@ == decimal(self.line as nat) + ":"@ + decimal(self.col as nat),
    {
        let mut s = String::new();
        push_decimal(&mut s, self.line as u64);
        s.append(":");
        push_decimal(&mut s, self.col as u64);
        s
    }

    /// The start of a source file: offset 0, line 1, column 1.
    pub fn start() -> (p: Pos)
        ensures
            p.offset == 0,
            p.line == 1,
            p.col == 1,
    {
        Pos { offset: 0, line: 1, col: 1 }
    }
}

} // verus!
