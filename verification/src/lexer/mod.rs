//! Lexer utilities: a char cursor with helpers for the common token shapes,
//! and the traits that connect a lexer to the rest of the library.

mod chars;
pub use chars::{
    digit_value, is_ascii_alphanumeric, is_radix_digit, is_white_space, lemma_decimal_digits, lemma_digit_counts, lemma_hex_digits,
    lemma_digits_are_ascii_alphanumeric, lemma_digits_grow_with_radix,
    unicode_alphabetic, unicode_alphanumeric,
};

mod cursor;
pub use cursor::{
    backslashes_before, closes_quote, is_ident_continue, is_ident_start, lemma_ident_run, lemma_ident_start,
    lemma_pos_agrees, lemma_quoted_scan_backslash_delim, lemma_quoted_scan_closes, quoted_scan, run_of, Cursor,
};

mod error;
pub use error::{lex_error_text, LexError};

mod lex;
pub use lex::Lex;
