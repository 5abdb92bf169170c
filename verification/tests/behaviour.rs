use syntia::lexer::{Cursor, Lex, LexError};
use syntia::parser::{ParseError, TokenStream};
use syntia::{Pos, Source, Span, Spanned, Token};

#[derive(Debug, Clone, Copy, PartialEq)]
enum Kind {
    Number,
    Plus,
    Comma,
    Eof,
}

#[derive(Debug, Clone, Copy)]
struct Tk {
    kind: Kind,
    span: Span,
}

impl Token for Tk {
    fn span(&self) -> Span {
        self.span
    }

    fn is_eof(&self) -> bool {
        self.kind == Kind::Eof
    }
}

fn t(kind: Kind, start: usize, end: usize) -> Tk {
    Tk { kind, span: Span::new(start, end) }
}

#[derive(Debug)]
struct BadChar {
    span: Span,
}

impl LexError for BadChar {
    fn span(&self) -> Span {
        self.span
    }

    fn message(&self) -> String {
        "unexpected character".to_string()
    }
}

struct SumLexer;

impl Lex for SumLexer {
    type Token = Tk;
    type Error = BadChar;

    fn lex(&mut self, source: &str) -> Result<Vec<Tk>, Vec<BadChar>> {
        let mut cursor = Cursor::new(source);
        let mut tokens = Vec::new();
        let mut errors = Vec::new();
        loop {
            cursor.eat_whitespace();
            if cursor.is_at_end() {
                tokens.push(Tk { kind: Kind::Eof, span: Span::point(cursor.offset()) });
                break;
            }
            let start = cursor.offset();
            if cursor.eat_if('+') {
                tokens.push(Tk { kind: Kind::Plus, span: cursor.span_from(start) });
            } else if cursor.eat_if(',') {
                tokens.push(Tk { kind: Kind::Comma, span: cursor.span_from(start) });
            } else if let Some(span) = cursor.eat_digits(10) {
                tokens.push(Tk { kind: Kind::Number, span });
            } else {
                cursor.advance();
                errors.push(BadChar { span: cursor.span_from(start) });
            }
        }
        if errors.is_empty() {
            Ok(tokens)
        } else {
            Err(errors)
        }
    }
}

// ── spans ───────────────────────────────────────────────────────────────────

#[test]
fn merge_covers_both_and_commutes() {
    let a = Span::new(4, 6);
    let b = Span::new(1, 2);
    let m = a.merge(b);
    assert_eq!(m, Span::new(1, 6));
    assert_eq!(b.merge(a), m);
    for o in 0..8 {
        if a.contains_offset(o) || b.contains_offset(o) {
            assert!(m.contains_offset(o));
        }
    }
    assert_eq!(a.merge(a), a);
}

#[test]
fn merge_is_associative() {
    let a = Span::new(3, 5);
    let b = Span::new(8, 9);
    let c = Span::new(0, 1);
    assert_eq!(a.merge(b).merge(c), a.merge(b.merge(c)));
    assert_eq!(a.merge(b).merge(c), Span::new(0, 9));
}

#[test]
fn point_contains_nothing() {
    let p = Span::point(4);
    assert!(!p.contains_offset(4));
    assert!(!p.contains_offset(3));
    assert_eq!(p.len(), 0);
}

#[test]
fn span_and_pos_text() {
    assert_eq!(Span::new(3, 10).to_string(), "3..10");
    assert_eq!(Span::point(0).to_string(), "0..0");
    assert_eq!(Pos::new(42, 12, 7).to_string(), "12:7");
    assert_eq!(Pos::start().to_string(), "1:1");
}

#[test]
fn span_default_is_empty_at_zero() {
    let s = Span::default();
    assert_eq!(s, Span::new(0, 0));
    assert!(s.is_empty());
}

// ── source ──────────────────────────────────────────────────────────────────

#[test]
fn slice_covers_span_bytes() {
    let src = Source::new("héllo wörld");
    let span = Span::new(0, 3);
    let text = src.slice(span);
    assert_eq!(text, "hé");
    assert_eq!(text.len(), span.len());
    assert_eq!(src.slice(Span::new(7, 13)), "wörld");
}

#[test]
fn source_len_counts_bytes() {
    let src = Source::new("héllo");
    assert_eq!(src.len(), 6);
    assert!(!src.is_empty());
    assert!(Source::new("").is_empty());
    assert_eq!(src.as_str(), "héllo");
}

#[test]
fn pos_of_counts_chars_not_bytes() {
    let src = Source::new("é\nxéz");
    let p = src.pos_of(6);
    assert_eq!((p.offset, p.line, p.col), (6, 2, 3));
    let end = src.pos_of(src.len());
    assert_eq!((end.line, end.col), (2, 4));
    let past = src.pos_of(1000);
    assert_eq!((past.line, past.col), (2, 4));
}

#[test]
fn start_position_is_pos_start() {
    let p = Source::new("anything").pos_of(0);
    let s = Pos::start();
    assert_eq!((p.offset, p.line, p.col), (s.offset, s.line, s.col));
}

#[test]
fn pos_of_agrees_with_line_text() {
    let src = Source::new("ab\r\ncd\nxyz");
    for (offset, ch) in src.as_str().char_indices() {
        if ch == '\n' || ch == '\r' {
            continue;
        }
        let p = src.pos_of(offset);
        let line = src.line_text(p.line).unwrap();
        assert_eq!(line.chars().nth(p.col as usize - 1), Some(ch));
    }
}

#[test]
fn line_text_strips_line_endings() {
    let src = Source::new("a\r\nb\n\nc\r");
    assert_eq!(src.line_text(1), Some("a"));
    assert_eq!(src.line_text(2), Some("b"));
    assert_eq!(src.line_text(3), Some(""));
    assert_eq!(src.line_text(4), Some("c\r"));
    assert_eq!(src.line_text(5), None);
}

#[test]
fn line_text_of_trailing_newline_and_empty_text() {
    let src = Source::new("one\n");
    assert_eq!(src.line_text(1), Some("one"));
    assert_eq!(src.line_text(2), None);
    assert_eq!(Source::new("").line_text(1), None);
}

#[test]
fn line_text_zero_is_none() {
    assert_eq!(Source::new("a\nb").line_text(0), None);
    assert_eq!(Source::new("").line_text(0), None);
}

// ── cursor ──────────────────────────────────────────────────────────────────

#[test]
fn cursor_span_gives_back_consumed_text() {
    let src = Source::new("àéî rest");
    let mut c = src.cursor();
    let span = c.eat_while(|ch| ch != ' ');
    assert_eq!(span, Span::new(0, 6));
    assert_eq!(src.slice(span), "àéî");
    assert_eq!(c.peek(), Some(' '));
}

#[test]
fn cursor_pos_agrees_with_pos_of() {
    let text = "ab\nc\u{e9}\n\nxyz";
    let src = Source::new(text);
    let mut c = Cursor::new(text);
    loop {
        let mine = c.pos();
        let theirs = src.pos_of(c.offset());
        assert_eq!((mine.offset, mine.line, mine.col), (theirs.offset, theirs.line, theirs.col));
        if c.advance().is_none() {
            break;
        }
    }
    assert!(c.is_at_end());
}

#[test]
fn advance_moves_by_char_width() {
    let mut c = Cursor::new("é€😀a");
    assert_eq!(c.advance(), Some('é'));
    assert_eq!(c.offset(), 2);
    assert_eq!(c.advance(), Some('€'));
    assert_eq!(c.offset(), 5);
    assert_eq!(c.advance(), Some('😀'));
    assert_eq!(c.offset(), 9);
    assert_eq!(c.advance(), Some('a'));
    assert_eq!(c.advance(), None);
    assert_eq!(c.offset(), 10);
    assert_eq!(c.pos().col, 5);
}

#[test]
fn peek_nth_ascii_and_multibyte() {
    let c = Cursor::new("abc");
    assert_eq!(c.peek_nth(0), Some('a'));
    assert_eq!(c.peek_nth(2), Some('c'));
    assert_eq!(c.peek_nth(3), None);
    assert_eq!(c.peek_nth(usize::MAX), None);
    let m = Cursor::new("aé😀b");
    assert_eq!(m.peek_nth(1), Some('é'));
    assert_eq!(m.peek_nth(2), Some('😀'));
    assert_eq!(m.peek_nth(3), Some('b'));
    assert_eq!(m.peek_nth(4), None);
}

#[test]
fn eat_if_only_on_match() {
    let mut c = Cursor::new("+-");
    assert!(!c.eat_if('-'));
    assert_eq!(c.offset(), 0);
    assert!(c.eat_if('+'));
    assert!(c.eat_if('-'));
    assert!(!c.eat_if('-'));
    assert!(c.is_at_end());
}

#[test]
fn eat_whitespace_unicode() {
    let src = Source::new("\u{3000}\t\u{a0}\r\n x");
    let mut c = src.cursor();
    let span = c.eat_whitespace();
    assert_eq!(src.slice(span), "\u{3000}\t\u{a0}\r\n ");
    assert_eq!(c.peek(), Some('x'));
    assert_eq!(c.eat_whitespace(), Span::point(c.offset()));
}

#[test]
fn eat_whitespace_stops_at_non_white_space() {
    let src = Source::new(" \u{2009}\u{200b} ");
    let mut c = src.cursor();
    let span = c.eat_whitespace();
    assert_eq!(src.slice(span), " \u{2009}");
    assert_eq!(c.peek(), Some('\u{200b}'));
}

#[test]
fn eat_digits_stops_at_letter_beyond_radix() {
    let src = Source::new("789a");
    let mut c = src.cursor();
    assert_eq!(src.slice(c.eat_digits(10).unwrap()), "789");
    assert_eq!(c.peek(), Some('a'));
    let mut d = Source::new("9").cursor();
    assert_eq!(d.eat_digits(8), None);
    assert_eq!(d.offset(), 0);
}

#[test]
fn eat_ident_unicode_letters_and_digits() {
    let src = Source::new("héllo_2x+");
    let mut c = src.cursor();
    let span = c.eat_ident().unwrap();
    assert_eq!(src.slice(span), "héllo_2x");
    assert_eq!(c.peek(), Some('+'));
    let mut d = Source::new("_").cursor();
    assert_eq!(d.eat_ident(), Some(Span::new(0, 1)));
    let mut e = Source::new("+x").cursor();
    assert_eq!(e.eat_ident(), None);
    assert_eq!(e.offset(), 0);
}

#[test]
fn eat_digits_binary_and_upper_hex() {
    let src = Source::new("10120");
    let mut c = src.cursor();
    assert_eq!(src.slice(c.eat_digits(2).unwrap()), "101");
    assert_eq!(c.peek(), Some('2'));
    let hex = Source::new("FFa0x");
    assert_eq!(hex.slice(hex.cursor().eat_digits(16).unwrap()), "FFa0");
    let mut z = Source::new("z").cursor();
    assert_eq!(z.eat_digits(36), Some(Span::new(0, 1)));
}

#[test]
fn eat_line_comment_to_end_of_text() {
    let src = Source::new("// all the rest");
    let mut c = src.cursor();
    assert_eq!(c.eat_line_comment(), Some(Span::new(0, 15)));
    assert!(c.is_at_end());
    let mut single = Source::new("/x").cursor();
    assert_eq!(single.eat_line_comment(), None);
    assert_eq!(single.offset(), 0);
}

#[test]
fn eat_quoted_other_delimiter_and_escapes() {
    let src = Source::new(r"'a\'b' tail");
    let mut c = src.cursor();
    let span = c.eat_quoted('\'').unwrap().unwrap();
    assert_eq!(src.slice(span), r"'a\'b'");
    assert_eq!(c.peek(), Some(' '));
}

#[test]
fn eat_quoted_backslash_at_end() {
    let src = Source::new("\"ab\\");
    let mut c = src.cursor();
    let span = c.eat_quoted('"').unwrap().unwrap_err();
    assert_eq!(span, Span::new(0, 4));
    assert!(c.is_at_end());
}

#[test]
fn line_and_column_tracking_multiline() {
    let mut c = Cursor::new("ab\ncd");
    for _ in 0..4 {
        c.advance();
    }
    let p = c.pos();
    assert_eq!((p.offset, p.line, p.col), (4, 2, 2));
}

// ── token stream ────────────────────────────────────────────────────────────

fn nums() -> TokenStream<Tk> {
    TokenStream::new(vec![
        t(Kind::Number, 0, 1),
        t(Kind::Comma, 1, 2),
        t(Kind::Number, 2, 3),
        t(Kind::Eof, 3, 3),
    ])
}

#[test]
fn restore_undoes_moves() {
    let mut s = nums();
    s.advance();
    let cp = s.checkpoint();
    s.advance();
    s.advance();
    s.advance();
    s.restore(cp);
    assert_eq!(s.checkpoint(), 1);
    assert_eq!(s.peek().kind, Kind::Comma);
}

#[test]
fn exhausted_stream_keeps_returning_eof() {
    let mut s = nums();
    for _ in 0..3 {
        s.advance();
    }
    assert!(s.is_at_end());
    for _ in 0..5 {
        assert_eq!(s.advance().kind, Kind::Eof);
    }
    assert_eq!(s.checkpoint(), 4);
    assert_eq!(s.peek().kind, Kind::Eof);
    assert_eq!(s.peek_nth(100).kind, Kind::Eof);
}

#[test]
fn lookahead_reads_without_moving() {
    let s = nums();
    assert_eq!(s.peek_nth(1).kind, Kind::Comma);
    assert_eq!(s.peek_nth(3).kind, Kind::Eof);
    assert_eq!(s.checkpoint(), 0);
    assert!(!s.is_at_end());
}

#[test]
fn try_parse_keeps_progress_on_ok() {
    let mut s = nums();
    let r: Result<Tk, ParseError> = s.try_parse(|s| {
        s.expect(|t| t.kind == Kind::Number, "number")?;
        s.expect(|t| t.kind == Kind::Comma, ",")
    });
    assert_eq!(r.unwrap().kind, Kind::Comma);
    assert_eq!(s.checkpoint(), 2);
}

#[test]
fn expect_error_message_and_span() {
    let mut s = nums();
    let err = s.expect(|t| t.kind == Kind::Plus, "+").unwrap_err();
    assert_eq!(err.message, "expected `+`");
    assert_eq!(err.span, Span::new(0, 1));
    assert!(err.expected.is_empty());
    assert!(err.found.is_none());
    assert!(err.notes.is_empty());
    assert_eq!(s.checkpoint(), 0);
}

#[test]
fn many_collects_until_failure() {
    let mut s = TokenStream::new(vec![
        t(Kind::Number, 0, 1),
        t(Kind::Number, 2, 3),
        t(Kind::Plus, 4, 5),
        t(Kind::Eof, 5, 5),
    ]);
    let got = s.many(|s| s.expect(|t| t.kind == Kind::Number, "number"));
    assert_eq!(got.len(), 2);
    assert_eq!(got[1].span, Span::new(2, 3));
    assert_eq!(s.peek().kind, Kind::Plus);
}

#[test]
fn many_stops_when_nothing_consumed() {
    let mut s = nums();
    let got = s.many(|_| Ok(7u8));
    assert_eq!(got, vec![7u8]);
    assert_eq!(s.checkpoint(), 0);
}

#[test]
fn many_backtracks_partial_item() {
    let mut s = nums();
    let got = s.many(|s| {
        let n = s.expect(|t| t.kind == Kind::Number, "number")?;
        s.expect(|t| t.kind == Kind::Comma, ",")?;
        Ok(n)
    });
    assert_eq!(got.len(), 1);
    assert_eq!(s.checkpoint(), 2);
}

#[test]
fn many_results_bounded_by_tokens_left() {
    let mut s = TokenStream::new(vec![
        t(Kind::Number, 0, 1),
        t(Kind::Number, 1, 2),
        t(Kind::Number, 2, 3),
        t(Kind::Eof, 3, 3),
    ]);
    s.advance();
    let got = s.many(|s| {
        s.advance();
        Ok(s.checkpoint())
    });
    // three tokens left after position 1: at most four calls succeed
    assert_eq!(got, vec![2, 3, 4, 4]);
    assert_eq!(s.checkpoint(), 4);
}

#[test]
fn many1_is_one_call_then_many() {
    let tokens = vec![
        t(Kind::Number, 0, 1),
        t(Kind::Number, 1, 2),
        t(Kind::Plus, 2, 3),
        t(Kind::Eof, 3, 3),
    ];
    let num = |s: &mut TokenStream<Tk>| s.expect(|t| t.kind == Kind::Number, "number");
    let mut a = TokenStream::new(tokens.clone());
    let got = a.many1(num).unwrap();
    let mut b = TokenStream::new(tokens);
    let first = num(&mut b).unwrap();
    let rest = b.many(num);
    assert_eq!(got.len(), 1 + rest.len());
    assert_eq!(got[0].span, first.span);
    assert_eq!(got[1].span, rest[0].span);
    assert_eq!(a.checkpoint(), b.checkpoint());
    assert_eq!(a.checkpoint(), 2);
}

#[test]
fn many1_requires_one() {
    let mut s = nums();
    let err = s.many1(|s| s.expect(|t| t.kind == Kind::Plus, "+")).unwrap_err();
    assert_eq!(err.message, "expected `+`");
    let ok = s.many1(|s| s.expect(|t| t.kind == Kind::Number, "number")).unwrap();
    assert_eq!(ok.len(), 1);
    assert_eq!(s.peek().kind, Kind::Comma);
}

#[test]
fn optional_keeps_success() {
    let mut s = nums();
    let got = s.optional(|s| s.expect(|t| t.kind == Kind::Number, "number"));
    assert_eq!(got.unwrap().span, Span::new(0, 1));
    assert_eq!(s.checkpoint(), 1);
}

#[test]
fn separated_by_first_item_error() {
    let mut s = TokenStream::new(vec![t(Kind::Comma, 0, 1), t(Kind::Eof, 1, 1)]);
    let err = s
        .separated_by(|s| s.expect(|t| t.kind == Kind::Number, "number"), |t| t.kind == Kind::Comma)
        .unwrap_err();
    assert_eq!(err.message, "expected `number`");
    assert_eq!(err.span, Span::new(0, 1));
}

#[test]
fn separated_by_single_item() {
    let mut s = TokenStream::new(vec![t(Kind::Number, 0, 1), t(Kind::Eof, 1, 1)]);
    let got = s
        .separated_by(|s| s.expect(|t| t.kind == Kind::Number, "number"), |t| t.kind == Kind::Comma)
        .unwrap();
    assert_eq!(got.len(), 1);
    assert!(s.is_at_end());
}

#[test]
fn separated_by_at_end_when_separator_rejects_last_token() {
    let mut s = nums();
    for _ in 0..4 {
        s.advance();
    }
    let got = s.separated_by(|_| Ok(5u8), |t| t.kind == Kind::Comma).unwrap();
    assert_eq!(got, vec![5u8]);
    assert_eq!(s.checkpoint(), 4);
}

// ── spanned ─────────────────────────────────────────────────────────────────

#[test]
fn spanned_as_ref_and_map() {
    let s = Spanned::new(String::from("abc"), Span::new(1, 4));
    let r = s.as_ref();
    assert_eq!(r.node, "abc");
    assert_eq!(r.span, Span::new(1, 4));
    let len = s.map(|x| x.len());
    assert_eq!(len.node, 3);
    assert_eq!(len.span, Span::new(1, 4));
}

// ── errors and rendering ────────────────────────────────────────────────────

#[test]
fn render_exact_output() {
    let src = Source::new("let x = 5 }");
    let rendered = ParseError::new(Span::new(10, 11), "expected `;`")
        .with_found("}")
        .with_expected(";")
        .render(&src);
    let expected = "error: expected `;`\n  --> 1:11\n   |\n 1 | let x = 5 }\n   |           ^ found `}`\n   |\n   = expected `;`\n";
    assert_eq!(rendered, expected);
}

#[test]
fn render_joins_expected_and_lists_notes() {
    let src = Source::new("a b");
    let rendered = ParseError::new(Span::new(2, 3), "bad")
        .with_expected("x")
        .with_expected("y")
        .with_note("first")
        .with_note("second")
        .render(&src);
    let expected = "error: bad\n  --> 1:3\n   |\n 1 | a b\n   |   ^\n   |\n   = expected `x`, `y`\n   = note: first\n   = note: second\n";
    assert_eq!(rendered, expected);
}

#[test]
fn render_clips_multiline_span() {
    let src = Source::new("ab\ncd");
    let rendered = ParseError::new(Span::new(1, 5), "spans lines").render(&src);
    let expected = "error: spans lines\n  --> 1:2\n   |\n 1 | ab\n   |  ^\n   |\n";
    assert_eq!(rendered, expected);
}

#[test]
fn render_empty_span_marks_one_char() {
    let src = Source::new("abc");
    let rendered = ParseError::new(Span::point(3), "end").render(&src);
    let expected = "error: end\n  --> 1:4\n   |\n 1 | abc\n   |    ^\n   |\n";
    assert_eq!(rendered, expected);
}

#[test]
fn render_wide_gutter() {
    let mut text = String::new();
    for _ in 0..120 {
        text.push('\n');
    }
    text.push_str("oops");
    let src = Source::new(&text);
    let rendered = ParseError::new(Span::new(120, 124), "here").render(&src);
    let expected = "error: here\n   --> 121:1\n    |\n121 | oops\n    | ^^^^\n    |\n";
    assert_eq!(rendered, expected);
}

#[test]
fn render_starts_with_message_and_position() {
    let src = Source::new("x\ny");
    let rendered = ParseError::new(Span::new(2, 3), "msg").render(&src);
    assert!(rendered.starts_with("error: msg\n  --> 2:1\n"));
}

#[test]
fn lex_error_renders_as_parse_error() {
    let src = Source::new("1 @ 2");
    let lex = BadChar { span: Span::new(2, 3) };
    let parse = ParseError::new(Span::new(2, 3), "unexpected character");
    assert_eq!(lex.render(&src), parse.render(&src));
    assert!(lex.render(&src).contains("unexpected character"));
}

#[test]
fn parse_error_builders_keep_other_fields() {
    let e = ParseError::new(Span::new(1, 2), "m").with_found("f").with_note("n").with_expected("e");
    assert_eq!(e.span, Span::new(1, 2));
    assert_eq!(e.message, "m");
    assert_eq!(e.found.as_deref(), Some("f"));
    assert_eq!(e.notes, vec!["n".to_string()]);
    assert_eq!(e.expected, vec!["e".to_string()]);
    assert_eq!(e.to_string(), "error at 1..2: m");
}

// ── lexer and parser together ───────────────────────────────────────────────

#[test]
fn lexer_and_parser_sum() {
    let src = Source::new("1 + 22 + 3");
    let tokens = SumLexer.lex(src.as_str()).unwrap();
    assert_eq!(tokens.len(), 6);
    let mut stream = TokenStream::new(tokens);
    let terms = stream
        .separated_by(|s| s.expect(|t| t.kind == Kind::Number, "number"), |t| t.kind == Kind::Plus)
        .unwrap();
    let total: u32 = terms.iter().map(|t| src.slice(t.span).parse::<u32>().unwrap()).sum();
    assert_eq!(total, 26);
    assert!(stream.is_at_end());
}

#[test]
fn lexer_collects_every_error() {
    let errors = SumLexer.lex("1 @ 2 #").unwrap_err();
    assert_eq!(errors.len(), 2);
    assert_eq!(errors[0].span, Span::new(2, 3));
    assert_eq!(errors[1].span, Span::new(6, 7));
}
