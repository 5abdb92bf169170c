//! Parser utilities: a backtracking token stream with combinators, the
//! parse error type and the trait for parsable AST nodes.

mod error;
pub use error::{lemma_lex_error_renders_as_parse_error, texts, ParseError};

mod stream;
pub use stream::{
    advanced, clamp_index, expected_message, lemma_advance_moves_one, lemma_exhausted_stream,
    lemma_lookahead, lemma_lookahead_past_end, lemma_restore_checkpoint, restored, token_at, StreamState, TokenStream,
};

mod parse;
pub use parse::Parse;
