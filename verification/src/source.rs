use crate::lexer::Cursor;
use crate::span::{Pos, Span};
use crate::text::{
    byte_len, byte_offset, char_width, chars_before, is_boundary, is_line_ending,
    lemma_boundary_is_offset, lemma_byte_offset_end, lemma_byte_offset_mono,
    lemma_byte_offset_step, lemma_char_in_line, lemma_chars_before_char, lemma_chars_before_le,
    lemma_chars_before_offset, lemma_first_newline_at, lemma_first_newline_none,
    lemma_line_col_step, lemma_offset_is_boundary, lemma_sub_bytes, line_col, line_pieces, lines,
    positions_fit, str_byte_len, str_sub, strip_line_ending,
};
use vstd::prelude::*;
use vstd::string::StringSliceAdditionalSpecFns;
use vstd::utf8::encode_utf8;

verus! {

/// A source text being lexed or parsed.
///
/// Spans and positions given to its methods are byte offsets into the text.
pub struct Source<'src> {
    inner: &'src str,
}

impl<'src> View for Source<'src> {
    type V = Seq<char>;

    closed spec fn view(&self) -> Seq<char> {
        self.inner@
    }
}

/// A sliceable span covers as many bytes as it is long.
pub proof fn lemma_slice_bytes(source: &Source, span: Span)
    requires
        source.sliceable(span),
    ensures
        byte_len(source.spec_slice(span)) == span.end - span.start,
{
    let s = source@;
    lemma_boundary_is_offset(s, span.start as int);
    lemma_boundary_is_offset(s, span.end as int);
    let i = chars_before(s, span.start as int) as int;
    let j = chars_before(s, span.end as int) as int;
    if j < i {
        lemma_byte_offset_mono(s, j, i);
    }
    lemma_sub_bytes(s, i, j);
    lemma_byte_offset_mono(s, j, s.len() as int);
    lemma_byte_offset_end(s);
}

/// The span between the byte offsets of chars `i` and `j` of the text is
/// sliceable and covers exactly the chars `i..j`: a span built from offsets
/// that a cursor reported gives back the chars the cursor read.
pub proof fn lemma_span_of_chars(source: &Source, i: int, j: int)
    requires
        0 <= i <= j <= source@.len(),
        byte_len(source@) <= usize::MAX,
    ensures
        ({
            let span = Span {
                start: byte_offset(source@, i) as usize,
                end: byte_offset(source@, j) as usize,
            };
            &&& source.sliceable(span)
            &&& source.spec_slice(span) == source@.subrange(i, j)
        }),
{
    let s = source@;
    lemma_offset_is_boundary(s, i);
    lemma_offset_is_boundary(s, j);
    lemma_chars_before_offset(s, i);
    lemma_chars_before_offset(s, j);
    lemma_byte_offset_mono(s, i, j);
    lemma_byte_offset_mono(s, j, s.len() as int);
    lemma_byte_offset_end(s);
    vstd::utf8::encode_utf8_valid_utf8(s);
}

/// `pos_of` and `line_text` agree: the char that starts at byte `offset`
/// is on the line whose number `pos_of(offset)` reports, at the reported
/// column of that line's text, unless the char belongs to a line ending.
pub proof fn lemma_pos_in_line(source: &Source, offset: int)
    requires
        is_boundary(source@, offset),
        offset < byte_len(source@),
    ensures
        ({
            let s = source@;
            let k = chars_before(s, offset) as int;
            let (line, col) = source.spec_line_col(offset);
            &&& 0 <= k < s.len()
            &&& 1 <= line && line - 1 < lines(s).len()
            &&& !is_line_ending(s, k) ==> 1 <= col && col - 1 < lines(s)[line - 1].len()
                && lines(s)[line - 1][col - 1] == s[k]
        }),
{
    let s = source@;
    lemma_boundary_is_offset(s, offset);
    let k = chars_before(s, offset) as int;
    if k == s.len() {
        lemma_byte_offset_end(s);
    }
    lemma_char_in_line(s, k);
}

/// The start of the text is at line 1, column 1.
pub proof fn lemma_start_position(source: &Source)
    ensures
        source.spec_line_col(0) == (1nat, 1nat),
{
    assert(source@.take(0) =~= Seq::<char>::empty());
}

/// The line with index `n` of `s` comes from the first piece that follows the
/// `n` pieces already read.
proof fn lemma_lines_index(s: Seq<char>, done: Seq<Seq<char>>, rest: Seq<char>, n: int)
    requires
        line_pieces(s) == done + line_pieces(rest),
        done.len() == n,
        line_pieces(rest).len() > 0,
    ensures
        n < lines(s).len(),
        lines(s)[n] == strip_line_ending(line_pieces(rest)[0]),
{
}

impl<'src> Source<'src> {
    /// Whether `span` runs forwards between two char boundaries of the text,
    /// so that it can be sliced.
    pub open spec fn sliceable(&self, span: Span) -> bool {
        &&& span.start <= span.end
        &&& is_boundary(self@, span.start as int)
        &&& is_boundary(self@, span.end as int)
    }

    /// The chars that `span` covers.
    pub open spec fn spec_slice(&self, span: Span) -> Seq<char> {
        self@.subrange(
            chars_before(self@, span.start as int) as int,
            chars_before(self@, span.end as int) as int,
        )
    }

    /// Line and column of byte `offset`: those reached after reading every
    /// char that starts before `offset`.
    pub open spec fn spec_line_col(&self, offset: int) -> (nat, nat) {
        line_col(self@.take(chars_before(self@, offset) as int))
    }

    /// `pos_of(offset)` neither overflows its line nor its column counter.
    pub open spec fn pos_fits(&self, offset: int) -> bool {
        positions_fit(self@.take(chars_before(self@, offset) as int))
    }

    /// Wraps `src`.
    pub fn new(src: &'src str) -> (s: Self)
        ensures
            s@ == src@,
    {
        Source { inner: src }
    }

    /// The whole text.
    pub fn as_str(&self) -> (s: &'src str)
        ensures
            s@ == self@,
    {
        self.inner
    }

    /// Length of the text in bytes.
    pub fn len(&self) -> (n: usize)
        ensures
            n == byte_len(self@),
    {
        str_byte_len(self.inner)
    }

    /// Whether the text is empty.
    pub fn is_empty(&self) -> (b: bool)
        ensures
            b == (self@.len() == 0),
    {
        self.inner.is_empty()
    }

    /// The text covered by `span`.
    pub fn slice(&self, span: Span) -> (t: &'src str)
        requires
            self.sliceable(span),
        ensures
            t@ == self.spec_slice(span),
            t.spec_bytes() == encode_utf8(self@).subrange(span.start as int, span.end as int),
    {
        let ghost s = self@;
        let ghost i = chars_before(s, span.start as int) as int;
        let ghost j = chars_before(s, span.end as int) as int;
        proof {
            lemma_boundary_is_offset(s, span.start as int);
            lemma_boundary_is_offset(s, span.end as int);
            if j < i {
                lemma_byte_offset_mono(s, j, i);
            }
            lemma_sub_bytes(s, i, j);
        }
        str_sub(self.inner, span.start, span.end, Ghost(i), Ghost(j))
    }

    /// A cursor at the start of the text.
    pub fn cursor(&self) -> (c: Cursor<'src>)
        requires
            positions_fit(self@),
        ensures
            c.text() == self@,
            c.index() == 0,
    {
        Cursor::new(self.inner)
    }

    /// Line/column position of byte `offset`.
    pub fn pos_of(&self, offset: usize) -> (p: Pos)
        requires
            self.pos_fits(offset as int),
        ensures
            p.offset == offset,
            (p.line as nat, p.col as nat) == self.spec_line_col(offset as int),
    {
        let ghost s = self@;
        let ghost cb = chars_before(s, offset as int) as int;
        let total = str_byte_len(self.inner);
        let mut line: u32 = 1;
        let mut col: u32 = 1;
        let mut it = self.inner.chars();
        let mut i: usize = 0;
        let ghost mut k: int = 0;
        proof {
            lemma_chars_before_le(s, offset as int);
            assert(s.take(0) =~= Seq::<char>::empty());
            assert(encode_utf8(s.take(0)) =~= Seq::<u8>::empty());
            assert(s.skip(0) =~= s);
        }
        loop
            invariant_except_break
                vstd::std_specs::iter::IteratorSpec::remaining(&it) == s.skip(k),
            invariant
                0 <= k <= cb <= s.len(),
                s == self@,
                cb == chars_before(s, offset as int),
                total == byte_len(s),
                i == byte_offset(s, k),
                (line as nat, col as nat) == line_col(s.take(k)),
                positions_fit(s.take(cb)),
            ensures
                k == cb,
                (line as nat, col as nat) == line_col(s.take(k)),
            decreases s.len() - k,
        {
            let next = it.next();
            match next {
                None => {
                    proof {
                        assert(s.skip(k).len() == 0);
                    }
                    break;
                },
                Some(ch) => {
                    proof {
                        assert(s.skip(k)[0] == s[k]);
                        assert(s.skip(k).drop_first() =~= s.skip(k + 1));
                        lemma_chars_before_char(s, offset as int, k);
                    }
                    if i >= offset {
                        break;
                    }
                    proof {
                        lemma_line_col_step(s, k);
                        assert(s.take(cb).take(k + 1) =~= s.take(k + 1));
                        assert(line_col(s.take(cb).take(k + 1)).0 <= u32::MAX);
                        lemma_byte_offset_step(s, k);
                        lemma_byte_offset_mono(s, k + 1, s.len() as int);
                        lemma_byte_offset_end(s);
                    }
                    if ch == '\n' {
                        line = line + 1;
                        col = 1;
                    } else {
                        col = col + 1;
                    }
                    i = i + char_width(ch);
                    proof {
                        k = k + 1;
                    }
                },
            }
        }
        Pos::new(offset, line, col)
    }

    /// The text of line number `line` (1-based), without its line ending;
    /// `None` for line 0 and when the text has fewer lines.
    pub fn line_text(&self, line: u32) -> (r: Option<&'src str>)
        ensures
            match r {
                Some(t) => 1 <= line && line - 1 < lines(self@).len() && t@ == lines(
                    self@,
                )[line - 1],
                None => line == 0 || line - 1 >= lines(self@).len(),
            },
    {
        if line == 0 {
            return None;
        }
        let ghost s = self@;
        let target = (line - 1) as usize;
        let total = str_byte_len(self.inner);
        let mut it = self.inner.chars();
        // `n` pieces are complete; the current one starts at char `ks`, byte `start`.
        let mut n: usize = 0;
        let mut start: usize = 0;
        let ghost mut ks: int = 0;
        let ghost mut done: Seq<Seq<char>> = seq![];
        let mut i: usize = 0;
        let ghost mut k: int = 0;
        let mut prev_cr = false;
        proof {
            assert(s.take(0) =~= Seq::<char>::empty());
            assert(encode_utf8(s.take(0)) =~= Seq::<u8>::empty());
            assert(s.skip(0) =~= s);
            assert(line_pieces(s) =~= done + line_pieces(s.skip(0)));
        }
        loop
            invariant_except_break
                vstd::std_specs::iter::IteratorSpec::remaining(&it) == s.skip(k),
            invariant
                s == self@,
                0 <= ks <= k <= s.len(),
                total == byte_len(s),
                i == byte_offset(s, k),
                start == byte_offset(s, ks),
                n == done.len(),
                n <= ks,
                n <= target,
                target == line - 1,
                line_pieces(s) == done + line_pieces(s.skip(ks)),
                forall|j: int| ks <= j < k ==> s[j] != '\n',
                prev_cr == (k > ks && s[k - 1] == '\r'),
            ensures
                k == s.len(),
            decreases s.len() - k,
        {
            let next = it.next();
            match next {
                None => {
                    proof {
                        assert(s.skip(k).len() == 0);
                    }
                    break;
                },
                Some(ch) => {
                    proof {
                        assert(s.skip(k)[0] == s[k]);
                        assert(s.skip(k).drop_first() =~= s.skip(k + 1));
                        lemma_byte_offset_step(s, k);
                        lemma_byte_offset_mono(s, k + 1, s.len() as int);
                        lemma_byte_offset_end(s);
                    }
                    if ch == '\n' {
                        let ghost rest = s.skip(ks);
                        proof {
                            lemma_first_newline_at(rest, k - ks);
                            assert(line_pieces(rest) == seq![rest.take(k - ks + 1)] + line_pieces(
                                rest.skip(k - ks + 1),
                            ));
                            assert(rest.skip(k - ks + 1) =~= s.skip(k + 1));
                        }
                        if n == target {
                            let end = if prev_cr {
                                i - 1
                            } else {
                                i
                            };
                            let ghost ke = if prev_cr {
                                k - 1
                            } else {
                                k
                            };
                            proof {
                                if prev_cr {
                                    lemma_byte_offset_step(s, k - 1);
                                }
                                lemma_byte_offset_mono(s, ks, ke);
                                lemma_lines_index(s, done, rest, n as int);
                                let piece = rest.take(k - ks + 1);
                                assert(piece.drop_last() =~= s.subrange(ks, k));
                                if prev_cr {
                                    assert(s.subrange(ks, k).drop_last() =~= s.subrange(ks, k - 1));
                                }
                            }
                            return Some(str_sub(self.inner, start, end, Ghost(ks), Ghost(ke)));
                        }
                        proof {
                            done = done.push(rest.take(k - ks + 1));
                            assert(line_pieces(s) =~= done + line_pieces(s.skip(k + 1)));
                            ks = k + 1;
                        }
                        n = n + 1;
                        start = i + 1;
                        prev_cr = false;
                    } else {
                        prev_cr = ch == '\r';
                    }
                    i = i + char_width(ch);
                    proof {
                        k = k + 1;
                    }
                },
            }
        }
        let ghost rest = s.skip(ks);
        proof {
            lemma_first_newline_none(rest);
        }
        if i > start && n == target {
            proof {
                lemma_byte_offset_end(s);
                assert(line_pieces(rest) == seq![rest]);
                lemma_lines_index(s, done, rest, n as int);
                assert(rest =~= s.subrange(ks, s.len() as int));
            }
            Some(str_sub(self.inner, start, total, Ghost(ks), Ghost(s.len() as int)))
        } else {
            proof {
                if ks < s.len() {
                    lemma_byte_offset_mono(s, ks, s.len() as int);
                    assert(line_pieces(rest) == seq![rest]);
                } else {
                    assert(rest.len() == 0);
                }
                assert(lines(s).len() == line_pieces(s).len());
            }
            None
        }
    }
}

} // verus!
