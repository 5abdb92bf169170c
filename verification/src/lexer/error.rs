use crate::render::{diagnostic_text, render, renderable, Diagnostic};
use crate::source::Source;
use crate::span::Span;
use vstd::prelude::*;

verus! {

/// The diagnostic text of lex error `e` against the source text `src`.
pub open spec fn lex_error_text<E: LexError + ?Sized>(e: &E, src: Seq<char>) -> Seq<char> {
    diagnostic_text(src, e.spec_span(), e.spec_message(), None, seq![], seq![], seq![])
}

/// Implemented by a lexer's error type: where the error is and what went
/// wrong. `render` then gives the same diagnostic format as
/// `ParseError::render`.
///
/// The contracts of `span`, `message` and `render` speak of `spec_span` and
/// `spec_message`. An implementation verified with Verus defines those two
/// to say what its `span` and `message` return, and Verus holds the methods
/// to them; the default `render` is then proved to render exactly that span
/// and message. An implementation written in plain Rust is not checked: if
/// it keeps the default bodies (an empty span at 0, an empty message), the
/// contracts claim of its methods what they need not return, and the
/// contract of `render` is then trusted of that implementation rather than
/// proved.
pub trait LexError {
    /// The span that `span` returns. The default body is an empty span at
    /// 0; see the trait's documentation for what keeping it means.
    open spec fn spec_span(&self) -> Span {
        Span { start: 0, end: 0 }
    }

    /// The text that `message` returns. The default body is the empty text;
    /// see the trait's documentation for what keeping it means.
    open spec fn spec_message(&self) -> Seq<char> {
        seq![]
    }

    /// Where in the source the error is.
    fn span(&self) -> (s: Span)
        ensures
            s == self.spec_span(),
    ;

    /// What went wrong, without position information.
    fn message(&self) -> (m: String)
        ensures
            m@ == self.spec_message(),
    ;

    /// Renders this error as a diagnostic against `source`.
    fn render(&self, source: &Source<'_>) -> (r: String)
        requires
            renderable(source, self.spec_span()),
        ensures
            r@ == diagnostic_text(
                source@,
                self.spec_span(),
                self.spec_message(),
                None,
                seq![],
                seq![],
                seq![],
            ),
    {
        let message = self.message();
        let none: Vec<String> = Vec::new();
        let no_labels: Vec<(Span, String)> = Vec::new();
        let diag = Diagnostic {
            span: self.span(),
            message: message.as_str(),
            found: None,
            expected: none.as_slice(),
            notes: none.as_slice(),
            labels: no_labels.as_slice(),
        };
        proof {
            assert(crate::render::label_views(no_labels@) =~= Seq::empty());
            assert(crate::parser::texts(none@) =~= Seq::empty());
        }
        render(&diag, source)
    }
}

} // verus!
