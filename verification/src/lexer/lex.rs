use crate::lexer::error::LexError;
use crate::token::Token;
use vstd::prelude::*;

verus! {

/// Implemented by a lexer. By convention the tokens come in source order,
/// all errors are collected rather than only the first, and the last token
/// is an end-of-input sentinel, which `TokenStream` relies on.
pub trait Lex {
    type Token: Token;

    type Error: LexError;

    /// The tokens of `source`, or every error found in it.
    fn lex(&mut self, source: &str) -> Result<Vec<Self::Token>, Vec<Self::Error>>;
}

} // verus!
