use super::error::ParseError;
use super::stream::TokenStream;
use crate::token::Token;
use vstd::prelude::*;

verus! {

/// Implemented by AST nodes that can be parsed from a token stream.
pub trait Parse<T: Token>: Sized {
    /// Parses one node from the stream, or reports why it cannot.
    fn parse(stream: &mut TokenStream<T>) -> Result<Self, ParseError>;
}

} // verus!
