use crate::span::Span;
use vstd::prelude::*;

verus! {

/// A value paired with the source span it came from.
#[derive(Debug, Clone, Copy, PartialEq, Eq, Hash)]
pub struct Spanned<T> {
    pub node: T,
    pub span: Span,
}

impl<T> Spanned<T> {
    /// Pairs `node` with `span`.
    pub fn new(node: T, span: Span) -> (s: Self)
        ensures
            s.node == node,
            s.span == span,
    {
        Spanned { node, span }
    }

    /// Applies `f` to the value, keeping the span.
    pub fn map<U>(self, f: impl FnOnce(T) -> U) -> (s: Spanned<U>)
        requires
            call_requires(f, (self.node,)),
        ensures
            call_ensures(f, (self.node,), s.node),
            s.span == self.span,
    {
        Spanned { node: f(self.node), span: self.span }
    }

    /// Borrows the value, keeping the span.
    pub fn as_ref(&self) -> (s: Spanned<&T>)
        ensures
            *s.node == self.node,
            s.span == self.span,
    {
        Spanned { node: &self.node, span: self.span }
    }
}

} // verus!
