use crate::span::Span;
use vstd::prelude::*;

verus! {

/// What every token type provides: where it is in the source, and whether it
/// is the end-of-input sentinel.
///
/// The contracts of `span` and `is_eof` speak of `spec_span` and
/// `spec_is_eof`. An implementation verified with Verus defines those two
/// to say what its methods return, and Verus holds the methods to them. An
/// implementation written in plain Rust is not checked: if it keeps the
/// default bodies (an empty span at 0, `false`), the contracts claim of its
/// methods what they need not return, and whatever is proved through those
/// contracts (the span of the error that `TokenStream::expect` returns, for
/// one) is then trusted of that implementation rather than proved.
pub trait Token {
    /// The span that `span` returns. The default body is an empty span at
    /// 0; see the trait's documentation for what keeping it means.
    open spec fn spec_span(&self) -> Span {
        Span { start: 0, end: 0 }
    }

    /// What `is_eof` returns. The default body is `false`; see the trait's
    /// documentation for what keeping it means.
    open spec fn spec_is_eof(&self) -> bool {
        false
    }

    /// Where the token is in the source.
    fn span(&self) -> (s: Span)
        ensures
            s == self.spec_span(),
    ;

    /// Whether this is the end-of-input sentinel.
    fn is_eof(&self) -> (b: bool)
        ensures
            b == self.spec_is_eof(),
    ;
}

} // verus!
