//! Building blocks for hand-written lexers and parsers: byte spans, a source
//! wrapper with line/column lookup, a character cursor, a backtracking token
//! stream and diagnostic rendering.

mod span;
pub use span::{
    lemma_merge_associative, lemma_merge_covers, lemma_merge_symmetric,
    lemma_point_contains_nothing, Pos, Span,
};

pub mod text;

mod source;
pub use source::{
    lemma_pos_in_line, lemma_slice_bytes, lemma_span_of_chars, lemma_start_position, Source,
};

mod token;
pub use token::Token;

mod spanned;
pub use spanned::Spanned;

pub mod lexer;
pub mod parser;

mod render;
pub use render::{
    decimal, diagnostic_text, digit_char, gutter_width, joined, label_views, labels_text,
    lemma_diagnostic_header, lemma_underline_counts_chars, line_col_at, line_or_empty, max_line, notes_text, numbered_line,
    renderable, repeat_char, right_aligned, snippet, underline, underline_len,
};
