use crate::render::{
    decimal, diagnostic_text, push_decimal, render, renderable, Diagnostic, opt_str_view,
};
use crate::lexer::{lex_error_text, LexError};
use crate::source::Source;
use crate::span::Span;
use vstd::prelude::*;

verus! {

/// The texts of a list of strings.
pub open spec fn texts(v: Seq<String>) -> Seq<Seq<char>> {
    v.map_values(|s: String| s@)
}

/// A lex error renders exactly as a parse error with the same span and
/// message and no context would.
pub proof fn lemma_lex_error_renders_as_parse_error<L: LexError>(l: &L, e: &ParseError, src: Seq<char>)
    requires
        e.is_plain(l.spec_span(), l.spec_message()),
    ensures
        e.rendered(src) == lex_error_text(l, src),
{
    assert(texts(e.expected@) =~= Seq::empty());
    assert(texts(e.notes@) =~= Seq::empty());
}

/// A parse error: where, what, and optional context.
#[derive(Debug, Clone)]
pub struct ParseError {
    pub span: Span,
    pub message: String,
    /// What was expected at this position (can be several things).
    pub expected: Vec<String>,
    /// What was actually found, if known.
    pub found: Option<String>,
    /// Extra notes shown below the diagnostic.
    pub notes: Vec<String>,
}

impl ParseError {
    /// An error with the given span and message, and no context.
    pub open spec fn is_plain(&self, span: Span, message: Seq<char>) -> bool {
        &&& self.span == span
        &&& self.message@ == message
        &&& self.expected@.len() == 0
        &&& self.found is None
        &&& self.notes@.len() == 0
    }

    /// An error at `span` with `message` and no context.
    pub fn new(span: Span, message: &str) -> (e: ParseError)
        ensures
            e.is_plain(span, message@),
    {
        ParseError {
            span,
            message: message.to_owned(),
            expected: Vec::new(),
            found: None,
            notes: Vec::new(),
        }
    }

    /// Adds one more thing that was expected.
    pub fn with_expected(self, expected: &str) -> (e: ParseError)
        ensures
            e.span == self.span,
            e.message@ == self.message@,
            texts(e.expected@) == texts(self.expected@).push(expected@),
            e.found == self.found,
            e.notes@ == self.notes@,
    {
        let mut e = self;
        e.expected.push(expected.to_owned());
        proof {
            assert(texts(e.expected@) =~= texts(self.expected@).push(expected@));
        }
        e
    }

    /// Records what was found instead.
    pub fn with_found(self, found: &str) -> (e: ParseError)
        ensures
            e.span == self.span,
            e.message@ == self.message@,
            e.expected@ == self.expected@,
            e.found matches Some(f) && f@ == found@,
            e.notes@ == self.notes@,
    {
        let mut e = self;
        e.found = Some(found.to_owned());
        e
    }

    /// Adds a note.
    pub fn with_note(self, note: &str) -> (e: ParseError)
        ensures
            e.span == self.span,
            e.message@ == self.message@,
            e.expected@ == self.expected@,
            e.found == self.found,
            texts(e.notes@) == texts(self.notes@).push(note@),
    {
        let mut e = self;
        e.notes.push(note.to_owned());
        proof {
            assert(texts(e.notes@) =~= texts(self.notes@).push(note@));
        }
        e
    }

    /// What was found, as text.
    pub open spec fn found_text(&self) -> Option<Seq<char>> {
        match self.found {
            Some(f) => Some(f@),
            None => None,
        }
    }

    /// The diagnostic text of this error against the source text `src`.
    pub open spec fn rendered(&self, src: Seq<char>) -> Seq<char> {
        diagnostic_text(
            src,
            self.span,
            self.message@,
            self.found_text(),
            texts(self.expected@),
            texts(self.notes@),
            seq![],
        )
    }

    /// Renders this error as a human-readable diagnostic against `source`,
    /// in the shape of rustc's messages. The underline is cut at the end of
    /// the line holding the span's start.
    pub fn render(&self, source: &Source<'_>) -> (r: String)
        requires
            renderable(source, self.span),
        ensures
            r@ == self.rendered(source@),
    {
        let found: Option<&str> = match &self.found {
            Some(f) => Some(f.as_str()),
            None => None,
        };
        let no_labels: Vec<(Span, String)> = Vec::new();
        let diag = Diagnostic {
            span: self.span,
            message: self.message.as_str(),
            found,
            expected: self.expected.as_slice(),
            notes: self.notes.as_slice(),
            labels: no_labels.as_slice(),
        };
        proof {
            assert(opt_str_view(found) == self.found_text());
            assert(crate::render::label_views(no_labels@) =~= Seq::empty());
        }
        render(&diag, source)
    }

    /// A one-line description: `error at <start>..<end>: <message>`.
    pub fn to_string(&self) -> (s: String)
        ensures
            s@ == "error at "@ + decimal(self.span.start as nat) + ".."@ + decimal(
                self.span.end as nat,
            ) + ": "@ + self.message@,
    {
        let mut s = String::new();
        s.append("error at ");
        push_decimal(&mut s, self.span.start as u64);
        s.append("..");
        push_decimal(&mut s, self.span.end as u64);
        s.append(": ");
        s.append(self.message.as_str());
        s
    }
}

} // verus!
