use crate::lexer::chars::{
    char_is_alphabetic, char_is_alphanumeric, char_is_digit, char_is_whitespace, is_radix_digit,
    is_white_space, unicode_alphabetic, unicode_alphanumeric,
};
use crate::source::Source;
use crate::span::{Pos, Span};
use crate::text::{
    byte_len, byte_offset, char_width, first_char, lemma_ascii_prefix, lemma_byte_offset_end,
    lemma_byte_offset_mono, lemma_byte_offset_step, lemma_chars_before_offset, lemma_fit_prefix, lemma_line_col_step, lemma_split_bytes,
    line_col, positions_fit, str_byte_len, str_skip,
};
use vstd::prelude::*;
use vstd::utf8::encode_utf8;

verus! {

/// The chars of `s` with index `from` up to `to` satisfy `p`, and the char
/// at `to`, if there is one, does not: `from..to` is the longest run of `p`
/// starting at `from`.
pub open spec fn run_of(s: Seq<char>, from: int, to: int, p: spec_fn(char) -> bool) -> bool {
    &&& 0 <= from <= to <= s.len()
    &&& forall|j: int| from <= j < to ==> #[trigger] p(s[j])
    &&& to < s.len() ==> !p(s[to])
}

/// Chars that may start an identifier.
pub open spec fn is_ident_start(c: char) -> bool {
    unicode_alphabetic(c) || c == '_'
}

/// Chars that may continue an identifier.
pub open spec fn is_ident_continue(c: char) -> bool {
    unicode_alphanumeric(c) || c == '_'
}

/// Where reading a quoted string whose body starts at char `i` of `s` stops,
/// and whether it found the closing `delim`. A `'\\'` makes the char after it
/// part of the body, whatever it is.
pub open spec fn quoted_scan(s: Seq<char>, i: int, delim: char) -> (int, bool)
    decreases s.len() - i,
{
    if i >= s.len() {
        (s.len() as int, false)
    } else if s[i] == '\\' {
        if i + 1 >= s.len() {
            (s.len() as int, false)
        } else {
            quoted_scan(s, i + 2, delim)
        }
    } else if s[i] == delim {
        (i + 1, true)
    } else {
        quoted_scan(s, i + 1, delim)
    }
}

/// The chars an identifier continues with are exactly the Unicode
/// alphanumeric chars and `_`: every char of a run of `is_ident_continue`
/// after the identifier's start is one, and the char that ends the run is
/// neither.
pub proof fn lemma_ident_run(s: Seq<char>, from: int, to: int)
    requires
        run_of(s, from, to, |c: char| is_ident_continue(c)),
    ensures
        forall|j: int| from <= j < to ==> unicode_alphanumeric(#[trigger] s[j]) || s[j] == '_',
        to < s.len() ==> !unicode_alphanumeric(s[to]) && s[to] != '_',
{
    assert forall|j: int| from <= j < to implies unicode_alphanumeric(#[trigger] s[j]) || s[j]
        == '_' by {
        assert((|c: char| is_ident_continue(c))(s[j]));
    }
}

/// An identifier starts with a Unicode alphabetic char or `_`, and with
/// nothing else.
pub proof fn lemma_ident_start(c: char)
    ensures
        is_ident_start(c) <==> (unicode_alphabetic(c) || c == '_'),
{
}

/// The number of backslashes right before index `k` of `s`, counting none
/// before index `lo`.
pub open spec fn backslashes_before(s: Seq<char>, lo: int, k: int) -> nat
    decreases k - lo,
{
    if lo < k && s[k - 1] == '\\' {
        1 + backslashes_before(s, lo, k - 1)
    } else {
        0
    }
}

/// Whether char `k` of `s` closes a quoted body that starts at index `lo`:
/// it is the delimiter, and the backslashes right before it pair up among
/// themselves, so none of them escapes it.
pub open spec fn closes_quote(s: Seq<char>, lo: int, k: int, delim: char) -> bool {
    s[k] == delim && backslashes_before(s, lo, k) % 2 == 0
}

/// What scanning a quoted body from index `lo` finds: the first delimiter
/// that no backslash escapes (the scan ends just past it, closed), or, when
/// there is none, the end of the text (not closed). Each backslash escapes
/// the char after it, whatever that char is.
pub proof fn lemma_quoted_scan_closes(s: Seq<char>, lo: int, delim: char)
    requires
        0 <= lo <= s.len(),
        delim != '\\',
    ensures
        ({
            let (end, closed) = quoted_scan(s, lo, delim);
            &&& closed ==> lo < end <= s.len() && closes_quote(s, lo, end - 1, delim)
                && forall|k: int| lo <= k < end - 1 ==> !#[trigger] closes_quote(s, lo, k, delim)
            &&& !closed ==> end == s.len() && forall|k: int|
                lo <= k < s.len() ==> !#[trigger] closes_quote(s, lo, k, delim)
        }),
{
    lemma_quoted_scan_from(s, lo, lo, delim);
}

/// With `\\` as the delimiter nothing closes a quoted body: every `\\`
/// escapes the char after it, so the scan runs to the end of the text.
pub proof fn lemma_quoted_scan_backslash_delim(s: Seq<char>, i: int)
    requires
        0 <= i,
    ensures
        quoted_scan(s, i, '\\') == (s.len() as int, false),
    decreases s.len() - i,
{
    if i < s.len() {
        if s[i] == '\\' {
            if i + 1 < s.len() {
                lemma_quoted_scan_backslash_delim(s, i + 2);
            }
        } else {
            lemma_quoted_scan_backslash_delim(s, i + 1);
        }
    }
}

/// `lemma_quoted_scan_closes`, from any index `i` the scan reaches: one
/// with an even run of backslashes before it and no closing delimiter
/// between `lo` and it.
proof fn lemma_quoted_scan_from(s: Seq<char>, lo: int, i: int, delim: char)
    requires
        0 <= lo <= i <= s.len(),
        delim != '\\',
        backslashes_before(s, lo, i) % 2 == 0,
        forall|k: int| lo <= k < i ==> !#[trigger] closes_quote(s, lo, k, delim),
    ensures
        ({
            let (end, closed) = quoted_scan(s, i, delim);
            &&& closed ==> lo < end <= s.len() && closes_quote(s, lo, end - 1, delim)
                && forall|k: int| lo <= k < end - 1 ==> !#[trigger] closes_quote(s, lo, k, delim)
            &&& !closed ==> end == s.len() && forall|k: int|
                lo <= k < s.len() ==> !#[trigger] closes_quote(s, lo, k, delim)
        }),
    decreases s.len() - i,
{
    if i >= s.len() {
    } else if s[i] == '\\' {
        if i + 1 >= s.len() {
            assert(!closes_quote(s, lo, i, delim));
        } else {
            assert(backslashes_before(s, lo, i + 1) == 1 + backslashes_before(s, lo, i));
            assert(!closes_quote(s, lo, i, delim));
            assert(!closes_quote(s, lo, i + 1, delim));
            if s[i + 1] == '\\' {
                assert(backslashes_before(s, lo, i + 2) == 1 + backslashes_before(s, lo, i + 1));
            } else {
                assert(backslashes_before(s, lo, i + 2) == 0);
            }
            lemma_quoted_scan_from(s, lo, i + 2, delim);
        }
    } else if s[i] == delim {
    } else {
        assert(backslashes_before(s, lo, i + 1) == 0);
        assert(!closes_quote(s, lo, i, delim));
        lemma_quoted_scan_from(s, lo, i + 1, delim);
    }
}

/// The line and column a cursor tracks are those that `Source::pos_of`
/// computes for the cursor's offset, and computing them there cannot
/// overflow.
pub proof fn lemma_pos_agrees(c: &Cursor, source: &Source)
    requires
        c.text() == source@,
        c.index() <= c.text().len(),
        positions_fit(c.text()),
    ensures
        source.spec_line_col(c.spec_offset() as int) == line_col(c.text().take(c.index() as int)),
        source.pos_fits(c.spec_offset() as int),
{
    lemma_chars_before_offset(c.text(), c.index() as int);
    lemma_fit_prefix(c.text(), c.index() as int);
}

/// A char-by-char cursor over a source text, tracking the byte offset, the
/// line and the column of the next char.
pub struct Cursor<'src> {
    source: &'src str,
    offset: usize,
    line: u32,
    col: u32,
    index: Ghost<nat>,
}

impl<'src> Cursor<'src> {
    #[verifier::type_invariant]
    spec fn inv(self) -> bool {
        &&& self.index@ <= self.source@.len()
        &&& self.offset == byte_offset(self.source@, self.index@ as int)
        &&& (self.line as nat, self.col as nat) == line_col(self.source@.take(self.index@ as int))
        &&& positions_fit(self.source@)
        &&& byte_len(self.source@) <= usize::MAX
    }

    /// The whole text the cursor walks.
    pub closed spec fn text(&self) -> Seq<char> {
        self.source@
    }

    /// Number of chars consumed so far: the index of the next char.
    pub closed spec fn index(&self) -> nat {
        self.index@
    }

    /// The byte offset of the next char.
    pub open spec fn spec_offset(&self) -> nat {
        byte_offset(self.text(), self.index() as int)
    }

    /// The char `n` places ahead (0 is the next char), if the text has it.
    pub open spec fn spec_peek_nth(&self, n: int) -> Option<char> {
        if self.index() + n < self.text().len() {
            Some(self.text()[self.index() + n])
        } else {
            None
        }
    }

    /// The span from byte `start` to the current offset.
    pub open spec fn spec_span_from(&self, start: int) -> Span {
        Span { start: start as usize, end: self.spec_offset() as usize }
    }

    /// `after` is this cursor moved, over the same text, to char index `to`.
    pub open spec fn moved(&self, after: &Self, to: int) -> bool {
        &&& after.text() == self.text()
        &&& after.index() == to
    }

    /// A cursor at the start of `source`.
    pub fn new(source: &'src str) -> (c: Self)
        requires
            positions_fit(source@),
        ensures
            c.text() == source@,
            c.index() == 0,
    {
        let _len = str_byte_len(source);
        proof {
            assert(source@.take(0) =~= Seq::<char>::empty());
            assert(encode_utf8(source@.take(0)) =~= Seq::<u8>::empty());
        }
        Cursor { source, offset: 0, line: 1, col: 1, index: Ghost(0) }
    }

    /// The current byte offset into the source.
    pub fn offset(&self) -> (n: usize)
        ensures
            n == self.spec_offset(),
            self.index() <= self.text().len(),
    {
        proof {
            use_type_invariant(self);
        }
        self.offset
    }

    /// The current position with line and column numbers.
    pub fn pos(&self) -> (p: Pos)
        ensures
            p.offset == self.spec_offset(),
            (p.line as nat, p.col as nat) == line_col(self.text().take(self.index() as int)),
            self.index() <= self.text().len(),
    {
        proof {
            use_type_invariant(self);
        }
        Pos::new(self.offset, self.line, self.col)
    }

    /// The next char, without consuming it.
    pub fn peek(&self) -> (c: Option<char>)
        ensures
            c == self.spec_peek_nth(0),
    {
        proof {
            use_type_invariant(self);
        }
        let rest = str_skip(self.source, self.offset, Ghost(self.index@ as int));
        first_char(rest)
    }

    /// The char `n` places ahead (0 is the next char), without consuming.
    ///
    /// When the bytes up to that char are all ASCII it reads the byte
    /// directly; otherwise it decodes chars one by one.
    pub fn peek_nth(&self, n: usize) -> (c: Option<char>)
        ensures
            c == self.spec_peek_nth(n as int),
    {
        proof {
            use_type_invariant(self);
        }
        let ghost s = self.source@;
        let ghost k = self.index@ as int;
        let ghost rest_chars = s.skip(k);
        let bytes = self.source.as_bytes();
        proof {
            lemma_split_bytes(s, k);
            lemma_byte_offset_mono(s, k, s.len() as int);
            lemma_byte_offset_end(s);
        }
        let avail = bytes.len() - self.offset;
        if n < avail {
            let mut j: usize = 0;
            let mut ascii = true;
            while j <= n
                invariant_except_break
                    ascii,
                invariant
                    self.offset + avail <= usize::MAX,
                    n < avail,
                    avail == bytes@.len() - self.offset,
                    self.offset + avail == bytes@.len(),
                    j <= n + 1,
                    forall|i: int| self.offset <= i < self.offset + j ==> bytes@[i] < 0x80,
                ensures
                    ascii ==> forall|i: int| self.offset <= i <= self.offset + n ==> bytes@[i] < 0x80,
                decreases n + 1 - j,
            {
                if bytes[self.offset + j] >= 0x80 {
                    ascii = false;
                    break;
                }
                j = j + 1;
            }
            if ascii {
                let b = bytes[self.offset + n];
                proof {
                    let e = encode_utf8(rest_chars);
                    assert forall|i: int| 0 <= i < n + 1 implies e[i] < 0x80 by {
                        assert(e[i] == bytes@[self.offset + i]);
                        assert(bytes@[self.offset + i] < 0x80);
                    }
                    lemma_ascii_prefix(rest_chars, n + 1);
                    assert(e[n as int] == b);
                    vstd::utf8::char_u32_cast(rest_chars[n as int], b as u32);
                }
                return Some(b as char);
            }
        }
        let rest = str_skip(self.source, self.offset, Ghost(k));
        let mut it = rest.chars();
        let mut m: usize = 0;
        loop
            invariant
                rest@ == rest_chars,
                s == self.text(),
                k == self.index(),
                rest_chars == s.skip(k),
                0 <= k <= s.len(),
                m <= n,
                m <= rest_chars.len(),
                vstd::std_specs::iter::IteratorSpec::remaining(&it) == rest_chars.skip(m as int),
            decreases rest_chars.len() - m,
        {
            match it.next() {
                None => {
                    return None;
                },
                Some(c) => {
                    proof {
                        assert(rest_chars.skip(m as int)[0] == rest_chars[m as int]);
                        assert(rest_chars.skip(m as int).drop_first() =~= rest_chars.skip(
                            m + 1,
                        ));
                    }
                    if m == n {
                        return Some(c);
                    }
                    m = m + 1;
                },
            }
        }
    }

    /// Consumes and returns the next char, moving line and column along.
    pub fn advance(&mut self) -> (c: Option<char>)
        ensures
            c == old(self).spec_peek_nth(0),
            old(self).moved(
                final(self),
                if c is Some {
                    old(self).index() + 1int
                } else {
                    old(self).index() as int
                },
            ),
    {
        proof {
            use_type_invariant(&*self);
        }
        let ch = match self.peek() {
            Some(c) => c,
            None => {
                return None;
            },
        };
        let ghost s = self.source@;
        let ghost k = self.index@ as int;
        proof {
            lemma_byte_offset_step(s, k);
            lemma_byte_offset_mono(s, k + 1, s.len() as int);
            lemma_byte_offset_end(s);
            lemma_line_col_step(s, k);
            assert(line_col(s.take(k + 1)).0 <= u32::MAX);
        }
        let offset = self.offset + char_width(ch);
        let line = if ch == '\n' {
            self.line + 1
        } else {
            self.line
        };
        let col = if ch == '\n' {
            1
        } else {
            self.col + 1
        };
        *self = Cursor { source: self.source, offset, line, col, index: Ghost((k + 1) as nat) };
        Some(ch)
    }

    /// Whether every char has been consumed.
    pub fn is_at_end(&self) -> (b: bool)
        ensures
            b == (self.index() >= self.text().len()),
    {
        proof {
            use_type_invariant(self);
            lemma_byte_offset_end(self.source@);
            if self.index@ < self.source@.len() {
                lemma_byte_offset_mono(
                    self.source@,
                    self.index@ as int,
                    self.source@.len() as int,
                );
            }
        }
        self.offset >= self.source.len()
    }

    /// The span from byte `start` to the current offset.
    pub fn span_from(&self, start: usize) -> (s: Span)
        requires
            start <= self.spec_offset(),
        ensures
            s == self.spec_span_from(start as int),
    {
        proof {
            use_type_invariant(self);
        }
        Span::new(start, self.offset)
    }

    /// Consumes chars while `pred` holds, returning the span consumed (empty
    /// at the current offset when the next char does not match).
    pub fn eat_while(&mut self, mut pred: impl FnMut(char) -> bool) -> (s: Span)
        requires
            forall|c: char| call_requires(pred, (c,)),
        ensures
            final(self).text() == old(self).text(),
            old(self).index() <= final(self).index() <= old(self).text().len(),
            forall|j: int|
                old(self).index() <= j < final(self).index() ==> call_ensures(
                    pred,
                    (#[trigger] old(self).text()[j],),
                    true,
                ),
            final(self).index() < old(self).text().len() ==> call_ensures(
                pred,
                (old(self).text()[final(self).index() as int],),
                false,
            ),
            s == final(self).spec_span_from(old(self).spec_offset() as int),
    {
        proof {
            use_type_invariant(&*self);
        }
        let ghost pred0 = pred;
        let ghost s0 = self.source@;
        let ghost k0 = self.index@;
        let start = self.offset;
        loop
            invariant_except_break
                pred == pred0,
            invariant
                forall|c: char| call_requires(pred0, (c,)),
                self.text() == s0,
                k0 <= self.index() <= s0.len(),
                start == byte_offset(s0, k0 as int),
                forall|j: int|
                    k0 <= j < self.index() ==> call_ensures(pred0, (#[trigger] s0[j],), true),
            ensures
                self.index() < s0.len() ==> call_ensures(pred0, (s0[self.index() as int],), false),
            decreases s0.len() - self.index(),
        {
            proof {
                use_type_invariant(&*self);
            }
            match self.peek() {
                Some(c) => {
                    if pred(c) {
                        self.advance();
                    } else {
                        break;
                    }
                },
                None => {
                    break;
                },
            }
        }
        proof {
            use_type_invariant(&*self);
            lemma_byte_offset_mono(s0, k0 as int, self.index() as int);
        }
        self.span_from(start)
    }

    /// Consumes the next char if it is `expected`; returns whether it did.
    pub fn eat_if(&mut self, expected: char) -> (b: bool)
        ensures
            b == (old(self).spec_peek_nth(0) == Some(expected)),
            old(self).moved(
                final(self),
                if b {
                    old(self).index() + 1int
                } else {
                    old(self).index() as int
                },
            ),
    {
        match self.peek() {
            Some(c) => {
                if c == expected {
                    self.advance();
                    true
                } else {
                    false
                }
            },
            None => false,
        }
    }

    /// Skips whitespace (chars with the Unicode `White_Space` property) and
    /// returns the span skipped.
    pub fn eat_whitespace(&mut self) -> (s: Span)
        ensures
            final(self).text() == old(self).text(),
            run_of(
                old(self).text(),
                old(self).index() as int,
                final(self).index() as int,
                |c: char| is_white_space(c),
            ),
            s == final(self).spec_span_from(old(self).spec_offset() as int),
    {
        self.eat_while(char_is_whitespace)
    }

    /// Consumes an identifier: a letter (Unicode `Alphabetic`) or `_`,
    /// followed by letters, numbers or `_`. `None`, consuming nothing, when
    /// the next char cannot start one.
    pub fn eat_ident(&mut self) -> (r: Option<Span>)
        ensures
            final(self).text() == old(self).text(),
            match old(self).spec_peek_nth(0) {
                Some(c) if is_ident_start(c) => {
                    &&& run_of(
                        old(self).text(),
                        old(self).index() as int,
                        final(self).index() as int,
                        |c: char| is_ident_continue(c),
                    )
                    &&& r == Some(final(self).spec_span_from(old(self).spec_offset() as int))
                },
                _ => r is None && final(self).index() == old(self).index(),
            },
    {
        let starts = match self.peek() {
            Some(c) => char_is_alphabetic(c) || c == '_',
            None => false,
        };
        if !starts {
            return None;
        }
        let cont = |c: char| -> (b: bool)
            ensures
                b == is_ident_continue(c),
            { char_is_alphanumeric(c) || c == '_' };
        Some(self.eat_while(cont))
    }

    /// Consumes the digits of base `radix` (2 to 36) that come next.
    /// `None`, consuming nothing, when the next char is no such digit.
    /// Prefixes such as `0x` are not handled.
    pub fn eat_digits(&mut self, radix: u32) -> (r: Option<Span>)
        requires
            2 <= radix <= 36,
        ensures
            final(self).text() == old(self).text(),
            match old(self).spec_peek_nth(0) {
                Some(c) if is_radix_digit(c, radix) => {
                    &&& run_of(
                        old(self).text(),
                        old(self).index() as int,
                        final(self).index() as int,
                        |c: char| is_radix_digit(c, radix),
                    )
                    &&& r == Some(final(self).spec_span_from(old(self).spec_offset() as int))
                },
                _ => r is None && final(self).index() == old(self).index(),
            },
    {
        let starts = match self.peek() {
            Some(c) => char_is_digit(c, radix),
            None => false,
        };
        if !starts {
            return None;
        }
        let digit = |c: char| -> (b: bool)
            requires
                2 <= radix <= 36,
            ensures
                b == is_radix_digit(c, radix),
            { char_is_digit(c, radix) };
        Some(self.eat_while(digit))
    }

    /// Consumes a `//` comment up to, not including, the next `'\n'` (or
    /// the end). `None`, consuming nothing, when the next two chars are not
    /// `//`.
    pub fn eat_line_comment(&mut self) -> (r: Option<Span>)
        ensures
            final(self).text() == old(self).text(),
            if old(self).spec_peek_nth(0) == Some('/') && old(self).spec_peek_nth(1) == Some('/') {
                &&& run_of(
                    old(self).text(),
                    old(self).index() + 2int,
                    final(self).index() as int,
                    |c: char| c != '\n',
                )
                &&& r == Some(final(self).spec_span_from(old(self).spec_offset() as int))
            } else {
                r is None && final(self).index() == old(self).index()
            },
    {
        let first = match self.peek() {
            Some(c) => c == '/',
            None => false,
        };
        let second = match self.peek_nth(1) {
            Some(c) => c == '/',
            None => false,
        };
        if !first || !second {
            return None;
        }
        let start = self.offset();
        self.advance();
        self.advance();
        let not_newline = |c: char| -> (b: bool)
            ensures
                b == (c != '\n'),
            { c != '\n' };
        self.eat_while(not_newline);
        proof {
            use_type_invariant(&*self);
            lemma_byte_offset_mono(
                self.text(),
                old(self).index() as int,
                self.index() as int,
            );
        }
        Some(self.span_from(start))
    }

    /// Consumes a string delimited by `delim`, where `'\\'` escapes the char
    /// after it.
    ///
    /// `None`, consuming nothing, when the next char is not `delim`;
    /// `Some(Ok(span))` when the closing delimiter was found, the span
    /// covering both delimiters; `Some(Err(span))` when the text ended first,
    /// the span covering everything from the opening delimiter.
    pub fn eat_quoted(&mut self, delim: char) -> (r: Option<Result<Span, Span>>)
        ensures
            final(self).text() == old(self).text(),
            if old(self).spec_peek_nth(0) == Some(delim) {
                let (end, closed) = quoted_scan(old(self).text(), old(self).index() + 1int, delim);
                &&& final(self).index() == end
                &&& r == Some(
                    if closed {
                        Ok::<Span, Span>(final(self).spec_span_from(old(self).spec_offset() as int))
                    } else {
                        Err::<Span, Span>(final(self).spec_span_from(old(self).spec_offset() as int))
                    },
                )
            } else {
                r is None && final(self).index() == old(self).index()
            },
    {
        let opens = match self.peek() {
            Some(c) => c == delim,
            None => false,
        };
        if !opens {
            return None;
        }
        let ghost s = self.text();
        let ghost goal = quoted_scan(s, old(self).index() + 1int, delim);
        let start = self.offset();
        self.advance();
        loop
            invariant_except_break
                quoted_scan(s, self.index() as int, delim) == goal,
            invariant
                self.text() == s,
                start == old(self).spec_offset(),
                old(self).index() < self.index(),
                old(self).text() == s,
                old(self).spec_peek_nth(0) == Some(delim),
                goal == quoted_scan(s, old(self).index() + 1int, delim),
            ensures
                self.index() == goal.0,
                goal.1,
            decreases s.len() - self.index(),
        {
            proof {
                use_type_invariant(&*self);
                lemma_byte_offset_mono(s, old(self).index() as int, self.index() as int);
            }
            match self.advance() {
                None => {
                    proof {
                        use_type_invariant(&*self);
                        assert(self.index() >= s.len());
                        assert(goal == (s.len() as int, false));
                    }
                    return Some(Err(self.span_from(start)));
                },
                Some(c) => {
                    if c == '\\' {
                        self.advance();
                    } else if c == delim {
                        break;
                    }
                },
            }
        }
        proof {
            use_type_invariant(&*self);
            lemma_byte_offset_mono(s, old(self).index() as int, self.index() as int);
        }
        Some(Ok(self.span_from(start)))
    }
}

} // verus!
