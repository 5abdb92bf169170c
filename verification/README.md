# syntia

A small toolkit for hand-written lexers and parsers, verified with Verus.

- `Span`, `Pos`, `Spanned`: byte ranges, line/column positions, and values
  tagged with the span they came from.
- `Source`: a source text with slicing by span, line/column lookup and line
  access.
- `lexer::Cursor`: walks a text char by char, tracking offset, line and
  column, with helpers for whitespace, identifiers, digits, line comments and
  quoted strings. `Lex` and `LexError` connect a lexer to the rest.
- `parser::TokenStream`: a backtracking token stream with `many`, `many1`,
  `optional`, `separated_by`, `try_parse` and `expect`; `ParseError` renders
  rustc-style diagnostics; `Parse` is the trait for parsable nodes.

Layout: `src/` is the verified library (contracts state the results over a
char-sequence model of the text, `text.rs`); `tests/` runs it on concrete
inputs; `app/` adds `Display` and `std::error::Error` on copies of `Span`,
`Pos` and `ParseError`.
