//! Byte-offset source positions for tracking locations in SQL query strings.

use vstd::prelude::*;

use crate::text::{decimal, decimal_text};

verus! {

/// A half-open byte range `[start, end)` in the source text.
#[derive(Debug, Clone, Copy, PartialEq, Eq, Hash, PartialOrd, Ord, Structural)]
pub struct Span {
    /// First byte of the span.
    pub start: usize,
    /// One past the last byte of the span.
    pub end: usize,
}

impl Span {
    pub fn new(start: usize, end: usize) -> (r: Span)
        ensures
            r.start == start,
            r.end == end,
    {
        Span { start, end }
    }

    /// A zero-width span at `pos`.
    pub fn empty(pos: usize) -> (r: Span)
        ensures
            r.start == pos,
            r.end == pos,
    {
        Span { start: pos, end: pos }
    }

    /// The smallest span that covers both.
    pub fn merge(self, other: Span) -> (r: Span)
        ensures
            r.start == if self.start <= other.start { self.start } else { other.start },
            r.end == if self.end >= other.end { self.end } else { other.end },
    {
        Span {
            start: if self.start <= other.start {
                self.start
            } else {
                other.start
            },
            end: if self.end >= other.end {
                self.end
            } else {
                other.end
            },
        }
    }

    /// `start..end`.
    pub fn to_string(&self) -> (r: String)
        ensures
            r@ == decimal_text(self.start as nat) + ".."@ + decimal_text(self.end as nat),
    {
        let mut out = decimal(self.start as u64);
        out.append("..");
        let end = decimal(self.end as u64);
        out.append(end.as_str());
        out
    }
}

/// A value with the span of the source text that produced it.
#[derive(Debug, Clone, PartialEq, Eq, Hash)]
pub struct Spanned<T> {
    pub value: T,
    pub span: Span,
}

impl<T> std::ops::Deref for Spanned<T> {
    type Target = T;

    fn deref(&self) -> (r: &T)
        ensures
            *r == self.value,
    {
        &self.value
    }
}

impl<T> Spanned<T> {
    pub fn new(value: T, span: Span) -> (r: Spanned<T>)
        ensures
            r.value == value,
            r.span == span,
    {
        Spanned { value, span }
    }

    /// Maps the value and keeps the span.
    pub fn map<U, F: FnOnce(T) -> U>(self, f: F) -> (r: Spanned<U>)
        requires
            call_requires(f, (self.value,)),
        ensures
            call_ensures(f, (self.value,), r.value),
            r.span == self.span,
    {
        Spanned { value: f(self.value), span: self.span }
    }
}

/// Merging is idempotent, commutative and associative, and the result covers
/// both spans.
pub proof fn merge_is_a_join(a: Span, b: Span, c: Span, ab: Span, ba: Span, bc: Span, ab_c: Span, a_bc: Span)
    requires
        merges(a, b, ab),
        merges(b, a, ba),
        merges(b, c, bc),
        merges(ab, c, ab_c),
        merges(a, bc, a_bc),
    ensures
        ab == ba,
        ab_c == a_bc,
        ab.start <= a.start && a.end <= ab.end,
        ab.start <= b.start && b.end <= ab.end,
        merges(a, a, a),
{
}

/// `r` is what `merge` returns for `a` and `b`.
pub open spec fn merges(a: Span, b: Span, r: Span) -> bool {
    &&& r.start == if a.start <= b.start { a.start } else { b.start }
    &&& r.end == if a.end >= b.end { a.end } else { b.end }
}

} // verus!
