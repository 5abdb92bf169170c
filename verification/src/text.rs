//! The character model shared by `Source` and `Cursor`: how a `str` is seen
//! as a sequence of chars, how char positions map to byte offsets, and how
//! lines and columns are counted.
use vstd::prelude::*;
use vstd::string::StringSliceAdditionalSpecFns;
use vstd::utf8::*;

verus! {

broadcast use vstd::utf8::group_utf8_lib;

/// Number of bytes in the UTF-8 encoding of `c`.
pub open spec fn utf8_width(c: char) -> nat {
    encode_scalar(c as u32).len()
}

/// Number of bytes in the UTF-8 encoding of `s`.
pub open spec fn byte_len(s: Seq<char>) -> nat {
    encode_utf8(s).len()
}

/// Byte offset at which the char with index `k` of `s` starts
/// (the length of `s` in bytes when `k == s.len()`).
pub open spec fn byte_offset(s: Seq<char>, k: int) -> nat {
    byte_len(s.take(k))
}

/// Whether `offset` is a byte offset at which a char of `s` starts, or the
/// end of `s`.
pub open spec fn is_boundary(s: Seq<char>, offset: int) -> bool {
    is_char_boundary(encode_utf8(s), offset)
}

/// Number of chars of `s` that start before byte `offset`.
pub open spec fn chars_before(s: Seq<char>, offset: int) -> nat
    decreases s.len(),
{
    if s.len() == 0 || offset <= 0 {
        0
    } else {
        1 + chars_before(s.drop_first(), offset - utf8_width(s[0]))
    }
}

/// 1-based line and column reached after reading all of `s`: a `'\n'` starts
/// a new line at column 1, any other char moves one column to the right.
pub open spec fn line_col(s: Seq<char>) -> (nat, nat)
    decreases s.len(),
{
    if s.len() == 0 {
        (1, 1)
    } else {
        let (line, col) = line_col(s.drop_last());
        if s.last() == '\n' {
            (line + 1, 1)
        } else {
            (line, col + 1)
        }
    }
}

/// Every prefix of `s` has a line and a column that fit in a `u32`.
pub open spec fn positions_fit(s: Seq<char>) -> bool {
    forall|k: int|
        0 <= k <= s.len() ==> (#[trigger] line_col(s.take(k))).0 <= u32::MAX && line_col(
            s.take(k),
        ).1 <= u32::MAX
}

/// Index of the first `'\n'` in `s`, if any.
pub open spec fn first_newline(s: Seq<char>) -> Option<nat>
    decreases s.len(),
{
    if s.len() == 0 {
        None
    } else if s[0] == '\n' {
        Some(0)
    } else {
        match first_newline(s.drop_first()) {
            Some(i) => Some(i + 1),
            None => None,
        }
    }
}

/// `s` cut into pieces that each end just after a `'\n'`; the last piece
/// has no `'\n'` when `s` does not end with one. An empty `s` has no piece.
pub open spec fn line_pieces(s: Seq<char>) -> Seq<Seq<char>>
    decreases s.len(),
{
    if s.len() == 0 {
        seq![]
    } else {
        match first_newline(s) {
            None => seq![s],
            Some(i) => {
                proof {
                    lemma_first_newline_bound(s);
                }
                seq![s.take(i + 1 as int)] + line_pieces(s.skip(i + 1 as int))
            },
        }
    }
}

/// A piece without its line ending: a final `'\n'`, or a final `"\r\n"`.
pub open spec fn strip_line_ending(piece: Seq<char>) -> Seq<char> {
    if piece.len() > 0 && piece.last() == '\n' {
        let t = piece.drop_last();
        if t.len() > 0 && t.last() == '\r' {
            t.drop_last()
        } else {
            t
        }
    } else {
        piece
    }
}

/// The lines of `s`, as `str::lines` yields them.
pub open spec fn lines(s: Seq<char>) -> Seq<Seq<char>> {
    line_pieces(s).map_values(|p: Seq<char>| strip_line_ending(p))
}

/// The chars of `s` before its first `'\n'` (all of `s` when there is none).
pub open spec fn first_line_piece(s: Seq<char>) -> Seq<char> {
    match first_newline(s) {
        Some(i) => s.take(i as int),
        None => s,
    }
}

// ---------------------------------------------------------------------------
// UTF-8 facts
/// The encoding of a concatenation is the concatenation of the encodings.
pub proof fn lemma_encode_concat(a: Seq<char>, b: Seq<char>)
    ensures
        encode_utf8(a + b) == encode_utf8(a) + encode_utf8(b),
    decreases a.len(),
{
    if a.len() == 0 {
        assert(a + b =~= b);
        assert(encode_utf8(a) =~= Seq::<u8>::empty());
        assert(encode_utf8(a) + encode_utf8(b) =~= encode_utf8(b));
    } else {
        assert((a + b).drop_first() =~= a.drop_first() + b);
        lemma_encode_concat(a.drop_first(), b);
        assert((a + b)[0] == a[0]);
        assert(encode_utf8(a + b) == encode_scalar(a[0] as u32) + encode_utf8(a.drop_first() + b));
        assert(encode_utf8(a + b) =~= encode_utf8(a) + encode_utf8(b));
    }
}

/// A one-char text encodes as that char.
pub proof fn lemma_encode_single(c: char)
    ensures
        encode_utf8(seq![c]) == encode_scalar(c as u32),
{
    assert(seq![c].drop_first() =~= Seq::<char>::empty());
    assert(seq![c][0] == c);
    assert(encode_utf8(Seq::<char>::empty()) =~= Seq::<u8>::empty());
    assert(encode_scalar(c as u32) + Seq::<u8>::empty() =~= encode_scalar(c as u32));
}

/// Every char takes one to four bytes.
pub proof fn lemma_width_bounds(c: char)
    ensures
        1 <= utf8_width(c) <= 4,
{
    char_is_scalar(c);
}

/// The byte offset of char `k + 1` is that of char `k` plus the width of
/// char `k`.
pub proof fn lemma_byte_offset_step(s: Seq<char>, k: int)
    requires
        0 <= k < s.len(),
    ensures
        byte_offset(s, k + 1) == byte_offset(s, k) + utf8_width(s[k]),
{
    assert(s.take(k + 1) =~= s.take(k) + seq![s[k]]);
    lemma_encode_concat(s.take(k), seq![s[k]]);
    lemma_encode_single(s[k]);
}

/// A text has at least as many bytes as chars.
pub proof fn lemma_chars_le_bytes(s: Seq<char>, k: int)
    requires
        0 <= k <= s.len(),
    ensures
        k <= byte_offset(s, k),
    decreases k,
{
    if k == 0 {
        assert(s.take(0) =~= Seq::<char>::empty());
        assert(encode_utf8(s.take(0)) =~= Seq::<u8>::empty());
    } else {
        lemma_chars_le_bytes(s, k - 1);
        lemma_byte_offset_step(s, k - 1);
        lemma_width_bounds(s[k - 1]);
    }
}

/// Byte offsets grow with the char index.
pub proof fn lemma_byte_offset_mono(s: Seq<char>, i: int, j: int)
    requires
        0 <= i <= j <= s.len(),
    ensures
        byte_offset(s, i) <= byte_offset(s, j),
        i < j ==> byte_offset(s, i) < byte_offset(s, j),
    decreases j - i,
{
    if i < j {
        lemma_byte_offset_mono(s, i, j - 1);
        lemma_byte_offset_step(s, j - 1);
        lemma_width_bounds(s[j - 1]);
    }
}

/// The byte offset past the last char is the length in bytes.
pub proof fn lemma_byte_offset_end(s: Seq<char>)
    ensures
        byte_offset(s, s.len() as int) == byte_len(s),
{
    assert(s.take(s.len() as int) =~= s);
}

/// The encoding of `s` split at the byte offset of char `k` gives the
/// encodings of the two halves of `s`.
pub proof fn lemma_split_bytes(s: Seq<char>, k: int)
    requires
        0 <= k <= s.len(),
    ensures
        encode_utf8(s).subrange(0, byte_offset(s, k) as int) == encode_utf8(s.take(k)),
        encode_utf8(s).subrange(byte_offset(s, k) as int, byte_len(s) as int) == encode_utf8(
            s.skip(k),
        ),
        byte_len(s) == byte_offset(s, k) + byte_len(s.skip(k)),
{
    assert(s =~= s.take(k) + s.skip(k));
    lemma_encode_concat(s.take(k), s.skip(k));
    let e = encode_utf8(s);
    assert(e.subrange(0, byte_offset(s, k) as int) =~= encode_utf8(s.take(k)));
    assert(e.subrange(byte_offset(s, k) as int, byte_len(s) as int) =~= encode_utf8(s.skip(k)));
}

/// The encoding of the chars `i..j` of `s` is the bytes between their offsets.
pub proof fn lemma_sub_bytes(s: Seq<char>, i: int, j: int)
    requires
        0 <= i <= j <= s.len(),
    ensures
        encode_utf8(s).subrange(byte_offset(s, i) as int, byte_offset(s, j) as int)
            == encode_utf8(s.subrange(i, j)),
{
    lemma_split_bytes(s, j);
    let t = s.take(j);
    lemma_split_bytes(t, i);
    assert(t.take(i) =~= s.take(i));
    assert(t.skip(i) =~= s.subrange(i, j));
    lemma_byte_offset_end(t);
    let e = encode_utf8(s);
    assert(e.subrange(byte_offset(s, i) as int, byte_offset(s, j) as int) =~= encode_utf8(
        t,
    ).subrange(byte_offset(t, i) as int, byte_len(t) as int));
}

/// Char sequences with the same encoding are equal.
pub proof fn lemma_encode_injective(a: Seq<char>, b: Seq<char>)
    requires
        encode_utf8(a) == encode_utf8(b),
    ensures
        a == b,
{
    encode_utf8_decode_utf8(a);
    encode_utf8_decode_utf8(b);
}

/// The byte offset of every char is a char boundary.
pub proof fn lemma_offset_is_boundary(s: Seq<char>, k: int)
    requires
        0 <= k <= s.len(),
    ensures
        is_boundary(s, byte_offset(s, k) as int),
    decreases k,
{
    let e = encode_utf8(s);
    encode_utf8_valid_utf8(s);
    if k == 0 {
        assert(s.take(0) =~= Seq::<char>::empty());
        assert(encode_utf8(s.take(0)) =~= Seq::<u8>::empty());
    } else {
        let rest = s.drop_first();
        encode_utf8_first_scalar(s);
        assert(s.take(k) =~= seq![s[0]] + rest.take(k - 1));
        lemma_encode_concat(seq![s[0]], rest.take(k - 1));
        lemma_encode_single(s[0]);
        lemma_width_bounds(s[0]);
        lemma_split_bytes(s, k);
        assert(pop_first_scalar(e) =~= encode_utf8(rest));
        lemma_offset_is_boundary(rest, k - 1);
    }
}

/// A char boundary is the byte offset of some char.
pub proof fn lemma_boundary_is_offset(s: Seq<char>, offset: int)
    requires
        is_boundary(s, offset),
    ensures
        0 <= chars_before(s, offset) <= s.len(),
        byte_offset(s, chars_before(s, offset) as int) == offset,
    decreases s.len(),
{
    let e = encode_utf8(s);
    encode_utf8_valid_utf8(s);
    if offset == 0 {
        assert(s.take(0) =~= Seq::<char>::empty());
        assert(encode_utf8(s.take(0)) =~= Seq::<u8>::empty());
    } else if s.len() == 0 {
        assert(e =~= Seq::<u8>::empty());
    } else {
        let rest = s.drop_first();
        encode_utf8_first_scalar(s);
        assert(pop_first_scalar(e) =~= encode_utf8(rest));
        lemma_boundary_is_offset(rest, offset - utf8_width(s[0]));
        let k = chars_before(rest, offset - utf8_width(s[0]));
        assert(s.take(k + 1 as int) =~= seq![s[0]] + rest.take(k as int));
        lemma_encode_concat(seq![s[0]], rest.take(k as int));
        lemma_encode_single(s[0]);
    }
}

/// At the byte offset of char `k`, exactly `k` chars start before.
pub proof fn lemma_chars_before_offset(s: Seq<char>, k: int)
    requires
        0 <= k <= s.len(),
    ensures
        chars_before(s, byte_offset(s, k) as int) == k,
    decreases k,
{
    if k == 0 {
        assert(s.take(0) =~= Seq::<char>::empty());
        assert(encode_utf8(s.take(0)) =~= Seq::<u8>::empty());
    } else {
        let rest = s.drop_first();
        assert(s.take(k) =~= seq![s[0]] + rest.take(k - 1));
        lemma_encode_concat(seq![s[0]], rest.take(k - 1));
        lemma_encode_single(s[0]);
        lemma_width_bounds(s[0]);
        lemma_chars_before_offset(rest, k - 1);
    }
}

/// No more chars start before an offset than the text has.
pub proof fn lemma_chars_before_le(s: Seq<char>, offset: int)
    ensures
        chars_before(s, offset) <= s.len(),
    decreases s.len(),
{
    if s.len() > 0 && offset > 0 {
        lemma_chars_before_le(s.drop_first(), offset - utf8_width(s[0]));
    }
}

/// Char `k` starts before `offset` exactly when `k < chars_before(s, offset)`.
pub proof fn lemma_chars_before_char(s: Seq<char>, offset: int, k: int)
    requires
        0 <= k < s.len(),
    ensures
        (byte_offset(s, k) < offset) == (k < chars_before(s, offset)),
    decreases k,
{
    if k == 0 {
        assert(s.take(0) =~= Seq::<char>::empty());
        assert(encode_utf8(s.take(0)) =~= Seq::<u8>::empty());
    } else {
        let rest = s.drop_first();
        assert(s.take(k) =~= seq![s[0]] + rest.take(k - 1));
        lemma_encode_concat(seq![s[0]], rest.take(k - 1));
        lemma_encode_single(s[0]);
        lemma_width_bounds(s[0]);
        lemma_chars_before_char(rest, offset - utf8_width(s[0]), k - 1);
    }
}

/// When the first `m` bytes of the encoding of `s` are all ASCII, they are
/// the first `m` chars of `s`, one byte each.
pub proof fn lemma_ascii_prefix(s: Seq<char>, m: int)
    requires
        0 <= m <= byte_len(s),
        forall|j: int| 0 <= j < m ==> encode_utf8(s)[j] < 0x80,
    ensures
        m <= s.len(),
        forall|j: int| 0 <= j < m ==> s[j] as u32 == encode_utf8(s)[j] as u32,
    decreases m,
{
    if m > 0 {
        if s.len() == 0 {
            assert(encode_utf8(s) =~= Seq::<u8>::empty());
        }
        let c = s[0];
        let v = c as u32;
        let rest = s.drop_first();
        char_is_scalar(c);
        let e = encode_utf8(s);
        assert(e == encode_scalar(v) + encode_utf8(rest));
        let b0 = encode_scalar(v)[0];
        assert(e[0] == b0);
        if has_width_1_encoding(v) {
            assert((v & 0x7F) == v) by (bit_vector)
                requires
                    v <= 0x7F,
            ;
        } else if has_width_2_encoding(v) {
            assert((0xC0u8 | (((v >> 6) & 0x1F) as u8)) >= 0xC0) by (bit_vector);
        } else if has_width_3_encoding(v) {
            assert((0xE0u8 | (((v >> 12) & 0x0F) as u8)) >= 0xE0) by (bit_vector);
        } else {
            assert((0xF0u8 | (((v >> 18) & 0x7) as u8)) >= 0xF0) by (bit_vector);
        }
        assert(encode_scalar(v).len() == 1);
        assert forall|j: int| 0 <= j < m - 1 implies encode_utf8(rest)[j] < 0x80 by {
            assert(e[j + 1] == encode_utf8(rest)[j]);
        }
        lemma_ascii_prefix(rest, m - 1);
        assert forall|j: int| 0 <= j < m implies s[j] as u32 == e[j] as u32 by {
            if j > 0 {
                assert(e[j] == encode_utf8(rest)[j - 1]);
                assert(s[j] == rest[j - 1]);
            }
        }
    }
}

// ---------------------------------------------------------------------------
// Line and column facts
/// Line and column start at 1 and grow by at most one per char read.
pub proof fn lemma_line_col_bounds(s: Seq<char>)
    ensures
        1 <= line_col(s).0 <= s.len() + 1,
        1 <= line_col(s).1 <= s.len() + 1,
    decreases s.len(),
{
    if s.len() > 0 {
        lemma_line_col_bounds(s.drop_last());
    }
}

/// A text shorter than `u32::MAX` chars never overflows line or column.
pub proof fn lemma_short_text_fits(s: Seq<char>)
    requires
        s.len() < u32::MAX,
    ensures
        positions_fit(s),
{
    assert forall|k: int| 0 <= k <= s.len() implies (#[trigger] line_col(s.take(k))).0
        <= u32::MAX && line_col(s.take(k)).1 <= u32::MAX by {
        lemma_line_col_bounds(s.take(k));
    }
}

/// If all positions of `s` fit, so do those of any prefix.
pub proof fn lemma_fit_prefix(s: Seq<char>, n: int)
    requires
        positions_fit(s),
        0 <= n <= s.len(),
    ensures
        positions_fit(s.take(n)),
{
    assert forall|k: int| 0 <= k <= s.take(n).len() implies (#[trigger] line_col(
        s.take(n).take(k),
    )).0 <= u32::MAX && line_col(s.take(n).take(k)).1 <= u32::MAX by {
        assert(s.take(n).take(k) =~= s.take(k));
        assert(line_col(s.take(k)).0 <= u32::MAX);
    }
}

/// Reading one more char: the line/column step of `line_col`.
pub proof fn lemma_line_col_step(s: Seq<char>, k: int)
    requires
        0 <= k < s.len(),
    ensures
        line_col(s.take(k + 1)) == (if s[k] == '\n' {
            (line_col(s.take(k)).0 + 1, 1nat)
        } else {
            (line_col(s.take(k)).0, line_col(s.take(k)).1 + 1)
        }),
{
    assert(s.take(k + 1).drop_last() =~= s.take(k));
}

/// The first newline found lies inside the text and is a newline.
pub proof fn lemma_first_newline_bound(s: Seq<char>)
    ensures
        first_newline(s) matches Some(i) ==> i < s.len() && s[i as int] == '\n',
    decreases s.len(),
{
    if s.len() > 0 {
        lemma_first_newline_bound(s.drop_first());
    }
}

/// The first newline search: `i` is the first `'\n'` when none comes before.
pub proof fn lemma_first_newline_at(s: Seq<char>, i: int)
    requires
        0 <= i < s.len(),
        s[i] == '\n',
        forall|j: int| 0 <= j < i ==> s[j] != '\n',
    ensures
        first_newline(s) == Some(i as nat),
    decreases i,
{
    if i > 0 {
        lemma_first_newline_at(s.drop_first(), i - 1);
    }
}

/// A text with no `'\n'` has no first newline.
pub proof fn lemma_first_newline_none(s: Seq<char>)
    requires
        forall|j: int| 0 <= j < s.len() ==> s[j] != '\n',
    ensures
        first_newline(s) is None,
    decreases s.len(),
{
    if s.len() > 0 {
        lemma_first_newline_none(s.drop_first());
    }
}

/// Whether char `k` of `s` ends a line: a `'\n'`, or the `'\r'` of a
/// `"\r\n"`.
pub open spec fn is_line_ending(s: Seq<char>, k: int) -> bool {
    s[k] == '\n' || (s[k] == '\r' && k + 1 < s.len() && s[k + 1] == '\n')
}

/// Without a `'\n'`, reading stays on line 1 and moves one column per char.
pub proof fn lemma_line_col_no_newline(p: Seq<char>)
    requires
        forall|j: int| 0 <= j < p.len() ==> p[j] != '\n',
    ensures
        line_col(p) == (1nat, p.len() + 1),
    decreases p.len(),
{
    if p.len() > 0 {
        lemma_line_col_no_newline(p.drop_last());
    }
}

/// Reading `b` after a text `a` that ends with a line end: the lines of `b`
/// come after those of `a`, and the column is that within `b`.
pub proof fn lemma_line_col_after_newline(a: Seq<char>, b: Seq<char>)
    requires
        a.len() > 0,
        a.last() == '\n',
    ensures
        line_col(a + b) == ((line_col(a).0 + line_col(b).0 - 1) as nat, line_col(b).1),
    decreases b.len(),
{
    if b.len() == 0 {
        assert(a + b =~= a);
    } else {
        assert((a + b).drop_last() =~= a + b.drop_last());
        lemma_line_col_after_newline(a, b.drop_last());
    }
}

/// The char with index `k` sits in the line and at the column that reading
/// the chars before it gives, unless it belongs to a line ending.
pub proof fn lemma_char_in_line(s: Seq<char>, k: int)
    requires
        0 <= k < s.len(),
    ensures
        ({
            let (l, c) = line_col(s.take(k));
            &&& 1 <= l
            &&& 1 <= c
            &&& l - 1 < lines(s).len()
            &&& !is_line_ending(s, k) ==> c - 1 < lines(s)[l - 1].len() && lines(s)[l - 1][c
                - 1] == s[k]
        }),
    decreases s.len(),
{
    lemma_first_newline_bound(s);
    lemma_line_col_bounds(s.take(k));
    match first_newline(s) {
        None => {
            assert(line_pieces(s) == seq![s]);
            assert forall|j: int| 0 <= j < s.take(k).len() implies s.take(k)[j] != '\n' by {
                if s[j] == '\n' {
                    lemma_first_newline_first(s, j);
                }
            }
            lemma_line_col_no_newline(s.take(k));
            lemma_first_newline_none_last(s);
            assert(lines(s)[0] == strip_line_ending(s));
        },
        Some(i) => {
            let i = i as int;
            let piece = s.take(i + 1);
            let rest = s.skip(i + 1);
            assert(line_pieces(s) == seq![piece] + line_pieces(rest));
            assert(lines(s) =~= seq![strip_line_ending(piece)] + lines(rest));
            if k <= i {
                assert forall|j: int| 0 <= j < s.take(k).len() implies s.take(k)[j] != '\n' by {
                    if s[j] == '\n' {
                        lemma_first_newline_first(s, j);
                    }
                }
                lemma_line_col_no_newline(s.take(k));
                assert(piece.drop_last() =~= s.take(i));
                if i > 0 && s[i - 1] == '\r' {
                    assert(s.take(i).drop_last() =~= s.take(i - 1));
                }
            } else {
                let k2 = k - i - 1;
                assert forall|j: int| 0 <= j < s.take(i).len() implies s.take(i)[j] != '\n' by {
                    if s[j] == '\n' {
                        lemma_first_newline_first(s, j);
                    }
                }
                lemma_line_col_no_newline(s.take(i));
                assert(piece.drop_last() =~= s.take(i));
                assert(s.take(k) =~= piece + rest.take(k2));
                lemma_line_col_after_newline(piece, rest.take(k2));
                lemma_char_in_line(rest, k2);
                assert(rest[k2] == s[k]);
                if k + 1 < s.len() {
                    assert(rest[k2 + 1] == s[k + 1]);
                }
            }
        },
    }
}

/// No char before the first newline is a newline.
pub proof fn lemma_first_newline_first(s: Seq<char>, j: int)
    requires
        0 <= j < s.len(),
        s[j] == '\n',
    ensures
        first_newline(s) matches Some(i) && i <= j,
    decreases j,
{
    if j > 0 && s[0] != '\n' {
        lemma_first_newline_first(s.drop_first(), j - 1);
    }
}

/// A text without a newline does not end with one.
pub proof fn lemma_first_newline_none_last(s: Seq<char>)
    requires
        first_newline(s) is None,
    ensures
        s.len() > 0 ==> s.last() != '\n',
{
    if s.len() > 0 && s.last() == '\n' {
        lemma_first_newline_first(s, s.len() - 1);
    }
}

// ---------------------------------------------------------------------------
// Executable helpers on `str`
/// Number of bytes `c` takes in UTF-8 (what `char::len_utf8` returns).
pub(crate) fn char_width(c: char) -> (n: usize)
    ensures
        n == utf8_width(c),
        1 <= n <= 4,
{
    proof {
        char_is_scalar(c);
    }
    let v = c as u32;
    if v <= 0x7f {
        1
    } else if v <= 0x7ff {
        2
    } else if v <= 0xffff {
        3
    } else {
        4
    }
}

/// The text of `s` from char index `k`, which starts at byte `offset`.
pub(crate) fn str_skip<'a>(s: &'a str, offset: usize, Ghost(k): Ghost<int>) -> (r: &'a str)
    requires
        0 <= k <= s@.len(),
        offset == byte_offset(s@, k),
    ensures
        r@ == s@.skip(k),
{
    proof {
        lemma_offset_is_boundary(s@, k);
        lemma_split_bytes(s@, k);
    }
    let (_, tail) = s.split_at(offset);
    proof {
        lemma_encode_injective(tail@, s@.skip(k));
    }
    tail
}

/// The text of `s` between char indices `i` and `j`, which start at bytes
/// `from` and `to`.
pub(crate) fn str_sub<'a>(s: &'a str, from: usize, to: usize, Ghost(i): Ghost<int>, Ghost(j): Ghost<int>) -> (r: &'a str)
    requires
        0 <= i <= j <= s@.len(),
        from == byte_offset(s@, i),
        to == byte_offset(s@, j),
    ensures
        r@ == s@.subrange(i, j),
{
    proof {
        lemma_offset_is_boundary(s@, j);
        lemma_split_bytes(s@, j);
    }
    let (head, _) = s.split_at(to);
    proof {
        lemma_encode_injective(head@, s@.take(j));
        assert(head@.take(i) =~= s@.take(i));
    }
    let r = str_skip(head, from, Ghost(i));
    proof {
        assert(head@.skip(i) =~= s@.subrange(i, j));
    }
    r
}

/// Number of bytes of `s` (what `str::len` returns).
pub(crate) fn str_byte_len(s: &str) -> (n: usize)
    ensures
        n == byte_len(s@),
{
    s.as_bytes().len()
}

/// The first char of `s`, if any (what `s.chars().next()` returns).
pub(crate) fn first_char(s: &str) -> (c: Option<char>)
    ensures
        c == (if s@.len() > 0 {
            Some(s@[0])
        } else {
            None
        }),
{
    let mut it = s.chars();
    it.next()
}

} // verus!
