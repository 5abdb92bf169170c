//! Rendering of diagnostics, shared by `ParseError` and `LexError`.
use crate::parser::texts;
use crate::source::Source;
use crate::span::Span;
use crate::text::{
    chars_before, first_line_piece, is_boundary, is_line_ending, lemma_boundary_is_offset,
    lemma_byte_offset_mono, lemma_char_in_line, lemma_first_newline_bound, lemma_line_col_step, first_newline, lemma_first_newline_at,
    lemma_byte_offset_end, lemma_chars_le_bytes, lemma_first_newline_none, lemma_line_col_bounds,
    line_col, lines, str_byte_len,
};
use vstd::prelude::*;

verus! {

/// The char for digit `d` (0 to 9).
pub open spec fn digit_char(d: nat) -> char {
    (d + 48) as char
}

/// The decimal digits of `n`, most significant first, without leading zeros.
pub open spec fn decimal(n: nat) -> Seq<char>
    decreases n,
{
    if n < 10 {
        seq![digit_char(n)]
    } else {
        decimal(n / 10).push(digit_char(n % 10))
    }
}

/// `n` copies of `c`.
pub open spec fn repeat_char(c: char, n: nat) -> Seq<char> {
    Seq::new(n, |_i: int| c)
}

/// `s` padded with spaces on the left to at least `width` chars.
pub open spec fn right_aligned(s: Seq<char>, width: nat) -> Seq<char> {
    if s.len() < width {
        repeat_char(' ', (width - s.len()) as nat) + s
    } else {
        s
    }
}

/// The items with `sep` between each two of them.
pub open spec fn joined(items: Seq<Seq<char>>, sep: Seq<char>) -> Seq<char>
    decreases items.len(),
{
    if items.len() == 0 {
        seq![]
    } else if items.len() == 1 {
        items[0]
    } else {
        joined(items.drop_last(), sep) + sep + items.last()
    }
}

/// Line and column of byte `offset` of `src`.
pub open spec fn line_col_at(src: Seq<char>, offset: int) -> (nat, nat) {
    line_col(src.take(chars_before(src, offset) as int))
}

/// The text of line `line` (1-based) of `src`, or nothing past the last line.
pub open spec fn line_or_empty(src: Seq<char>, line: nat) -> Seq<char> {
    if 1 <= line && line - 1 < lines(src).len() {
        lines(src)[line - 1]
    } else {
        seq![]
    }
}

/// How many chars of the line holding the start of `span` are underlined:
/// the chars of the span up to its first line end, cut to the rest of the
/// line, but at least one.
pub open spec fn underline_len(src: Seq<char>, span: Span) -> nat {
    let (line, col) = line_col_at(src, span.start as int);
    let text = line_or_empty(src, line);
    let col0 = (col - 1) as nat;
    let covered = first_line_piece(
        src.subrange(
            chars_before(src, span.start as int) as int,
            chars_before(src, span.end as int) as int,
        ),
    ).len();
    let available = if text.len() > col0 {
        (text.len() - col0) as nat
    } else {
        0nat
    };
    let count = if covered < available {
        covered
    } else {
        available
    };
    if count == 0 {
        1
    } else {
        count
    }
}

/// Reading chars that are no `'\n'` keeps the line and moves the column
/// one per char.
proof fn lemma_line_col_run(s: Seq<char>, i: int, k: int)
    requires
        0 <= i <= k <= s.len(),
        forall|j: int| i <= j < k ==> s[j] != '\n',
    ensures
        line_col(s.take(k)).0 == line_col(s.take(i)).0,
        line_col(s.take(k)).1 == line_col(s.take(i)).1 + (k - i),
    decreases k - i,
{
    if i < k {
        lemma_line_col_run(s, i, k - 1);
        lemma_line_col_step(s, k - 1);
    }
}

/// The underline counts chars, not bytes: it is never longer than the
/// number of chars of the span (or one, for an empty span), nor than the
/// rest of the line from the span's start when any is left, and when the
/// span holds no line ending it is exactly that number, however many bytes
/// those chars take.
pub proof fn lemma_underline_counts_chars(src: Seq<char>, span: Span)
    requires
        span.start <= span.end,
        is_boundary(src, span.start as int),
        is_boundary(src, span.end as int),
    ensures
        ({
            let first = chars_before(src, span.start as int);
            let n = chars_before(src, span.end as int) - first;
            &&& first <= chars_before(src, span.end as int)
            &&& 1 <= underline_len(src, span)
            &&& underline_len(src, span) <= (if n == 0 {
                1
            } else {
                n
            })
            &&& ({
                let (line, col) = line_col_at(src, span.start as int);
                let rest = line_or_empty(src, line).len() - (col - 1);
                rest >= 1 ==> underline_len(src, span) <= rest
            })
            &&& (forall|k: int|
                first <= k < chars_before(src, span.end as int) ==> !#[trigger] is_line_ending(src, k))
                ==> underline_len(src, span) == (if n == 0 {
                1
            } else {
                n
            })
        }),
{
    let cs = chars_before(src, span.start as int) as int;
    let ce = chars_before(src, span.end as int) as int;
    lemma_boundary_is_offset(src, span.start as int);
    lemma_boundary_is_offset(src, span.end as int);
    if cs > ce {
        lemma_byte_offset_mono(src, ce, cs);
    }
    let sub = src.subrange(cs, ce);
    lemma_first_newline_bound(sub);
    if forall|k: int| cs <= k < ce ==> !#[trigger] is_line_ending(src, k) {
        assert forall|j: int| 0 <= j < sub.len() implies sub[j] != '\n' by {
            assert(!is_line_ending(src, cs + j));
        }
        lemma_first_newline_none(sub);
        if cs < ce {
            let k = ce - 1;
            assert forall|j: int| cs <= j < k implies src[j] != '\n' by {
                assert(!is_line_ending(src, j));
            }
            lemma_line_col_run(src, cs, k);
            lemma_char_in_line(src, k);
            assert(!is_line_ending(src, k));
        }
    }
}

/// A numbered source line: the line number right-aligned in a column of
/// width `gutter`, then the line's text.
pub open spec fn numbered_line(src: Seq<char>, line: nat, gutter: nat) -> Seq<char> {
    right_aligned(decimal(line), gutter) + " | "@ + line_or_empty(src, line) + "\n"@
}

/// An underline: `count` copies of `mark` from column `col0` (0-based),
/// followed by `label`.
pub open spec fn underline(gutter: nat, col0: nat, mark: char, count: nat, label: Seq<char>) -> Seq<char> {
    repeat_char(' ', gutter) + " | "@ + repeat_char(' ', col0) + repeat_char(mark, count) + label
        + "\n"@
}

/// One source line of a diagnostic and its underline: the line holding the
/// start of `span`, then `mark` under the span, followed by `label`.
pub open spec fn snippet(src: Seq<char>, span: Span, mark: char, label: Seq<char>, gutter: nat) -> Seq<char> {
    let (line, col) = line_col_at(src, span.start as int);
    numbered_line(src, line, gutter) + underline(
        gutter,
        (col - 1) as nat,
        mark,
        underline_len(src, span),
        label,
    )
}

/// `snippet` written with the line and column of the span's start.
proof fn lemma_snippet_parts(src: Seq<char>, span: Span, mark: char, label: Seq<char>, gutter: nat, line: nat, col: nat)
    requires
        line_col_at(src, span.start as int) == (line, col),
    ensures
        snippet(src, span, mark, label, gutter) == numbered_line(src, line, gutter) + underline(
            gutter,
            (col - 1) as nat,
            mark,
            underline_len(src, span),
            label,
        ),
{
}

/// The largest line number among `base` and the starts of the label spans.
pub open spec fn max_line(src: Seq<char>, labels: Seq<(Span, Seq<char>)>, base: nat) -> nat
    decreases labels.len(),
{
    if labels.len() == 0 {
        base
    } else {
        let rest = max_line(src, labels.drop_last(), base);
        let line = line_col_at(src, labels.last().0.start as int).0;
        if line > rest {
            line
        } else {
            rest
        }
    }
}

/// The secondary labels, each after a `|` line, underlined with `-`.
pub open spec fn labels_text(src: Seq<char>, labels: Seq<(Span, Seq<char>)>, gutter: nat) -> Seq<char>
    decreases labels.len(),
{
    if labels.len() == 0 {
        seq![]
    } else {
        labels_text(src, labels.drop_last(), gutter) + repeat_char(' ', gutter) + " |\n"@ + snippet(
            src,
            labels.last().0,
            '-',
            " "@ + labels.last().1,
            gutter,
        )
    }
}

/// The note lines.
pub open spec fn notes_text(notes: Seq<Seq<char>>, gutter: nat) -> Seq<char>
    decreases notes.len(),
{
    if notes.len() == 0 {
        seq![]
    } else {
        notes_text(notes.drop_last(), gutter) + repeat_char(' ', gutter) + " = note: "@
            + notes.last() + "\n"@
    }
}

/// Width of the line-number column.
pub open spec fn gutter_width(src: Seq<char>, span: Span, labels: Seq<(Span, Seq<char>)>) -> nat {
    let n = decimal(max_line(src, labels, line_col_at(src, span.start as int).0)).len();
    if n > 2 {
        n
    } else {
        2
    }
}

/// The full diagnostic text:
///
/// ```text
/// error: <message>
///   --> <line>:<col>
///    |
///  3 | <line text>
///    |     ^^^ found `<found>`
///    |
///    = expected `<a>`, `<b>`
///    = note: <note>
/// ```
pub open spec fn diagnostic_text(
    src: Seq<char>,
    span: Span,
    message: Seq<char>,
    found: Option<Seq<char>>,
    expected: Seq<Seq<char>>,
    notes: Seq<Seq<char>>,
    labels: Seq<(Span, Seq<char>)>,
) -> Seq<char> {
    let (line, col) = line_col_at(src, span.start as int);
    let gutter = gutter_width(src, span, labels);
    let pad = repeat_char(' ', gutter);
    let found_label = match found {
        Some(f) => " found `"@ + f + "`"@,
        None => seq![],
    };
    let expected_line = if expected.len() > 0 {
        pad + " = expected `"@ + joined(expected, "`, `"@) + "`\n"@
    } else {
        seq![]
    };
    "error: "@ + message + "\n"@ + pad + "--> "@ + decimal(line) + ":"@ + decimal(col) + "\n"@ + pad
        + " |\n"@ + snippet(src, span, '^', found_label, gutter) + labels_text(src, labels, gutter)
        + pad + " |\n"@ + expected_line + notes_text(notes, gutter)
}

/// Every diagnostic opens with its message and the line and column of the
/// start of its span: `error: <message>`, then `--> <line>:<col>`.
#[verifier::spinoff_prover]
pub proof fn lemma_diagnostic_header(
    src: Seq<char>,
    span: Span,
    message: Seq<char>,
    found: Option<Seq<char>>,
    expected: Seq<Seq<char>>,
    notes: Seq<Seq<char>>,
    labels: Seq<(Span, Seq<char>)>,
)
    ensures
        exists|rest: Seq<char>|
            diagnostic_text(src, span, message, found, expected, notes, labels) == "error: "@
                + message + "\n"@ + repeat_char(' ', gutter_width(src, span, labels)) + "--> "@
                + decimal(line_col_at(src, span.start as int).0) + ":"@ + decimal(
                line_col_at(src, span.start as int).1,
            ) + "\n"@ + rest,
{
    let (line, col) = line_col_at(src, span.start as int);
    let gutter = gutter_width(src, span, labels);
    let pad = repeat_char(' ', gutter);
    let found_label = match found {
        Some(f) => " found `"@ + f + "`"@,
        None => seq![],
    };
    let expected_line = if expected.len() > 0 {
        pad + " = expected `"@ + joined(expected, "`, `"@) + "`\n"@
    } else {
        seq![]
    };
    let head = "error: "@ + message + "\n"@ + pad + "--> "@ + decimal(line) + ":"@ + decimal(col)
        + "\n"@;
    let rest = pad + " |\n"@ + snippet(src, span, '^', found_label, gutter) + labels_text(
        src,
        labels,
        gutter,
    ) + pad + " |\n"@ + expected_line + notes_text(notes, gutter);
    assert(diagnostic_text(src, span, message, found, expected, notes, labels) =~= head + rest);
}

/// A span that a diagnostic can point at in `source`: it can be sliced and
/// its start position can be computed without overflow.
pub open spec fn renderable(source: &Source, span: Span) -> bool {
    source.sliceable(span) && source.pos_fits(span.start as int)
}

/// The labels' spans and messages.
pub open spec fn label_views(labels: Seq<(Span, String)>) -> Seq<(Span, Seq<char>)> {
    labels.map_values(|l: (Span, String)| (l.0, l.1@))
}

// ---------------------------------------------------------------------------
/// A number has at least one digit, and no more digits than its value plus one.
pub proof fn lemma_decimal_len(n: nat)
    ensures
        1 <= decimal(n).len() <= n + 1,
    decreases n,
{
    if n >= 10 {
        lemma_decimal_len(n / 10);
    }
}

/// The string for digit `d`.
fn digit_str(d: u64) -> (s: &'static str)
    requires
        d < 10,
    ensures
        s@ == seq![digit_char(d as nat)],
{
    proof {
        reveal_strlit("0");
        reveal_strlit("1");
        reveal_strlit("2");
        reveal_strlit("3");
        reveal_strlit("4");
        reveal_strlit("5");
        reveal_strlit("6");
        reveal_strlit("7");
        reveal_strlit("8");
        reveal_strlit("9");
    }
    if d == 0 {
        "0"
    } else if d == 1 {
        "1"
    } else if d == 2 {
        "2"
    } else if d == 3 {
        "3"
    } else if d == 4 {
        "4"
    } else if d == 5 {
        "5"
    } else if d == 6 {
        "6"
    } else if d == 7 {
        "7"
    } else if d == 8 {
        "8"
    } else {
        "9"
    }
}

/// Appends the decimal digits of `n` to `out`.
pub(crate) fn push_decimal(out: &mut String, n: u64)
    ensures
        final(out)@ == old(out)@ + decimal(n as nat),
    decreases n,
{
    if n >= 10 {
        push_decimal(out, n / 10);
    }
    out.append(digit_str(n % 10));
    assert(out@ =~= old(out)@ + decimal(n as nat));
}

/// `10` to the power `k`.
pub open spec fn pow10(k: nat) -> nat
    decreases k,
{
    if k == 0 {
        1
    } else {
        10 * pow10((k - 1) as nat)
    }
}

/// A number below `10^k` has at most `k` digits.
pub proof fn lemma_decimal_len_below(n: nat, k: nat)
    requires
        k >= 1,
        n < pow10(k),
    ensures
        decimal(n).len() <= k,
    decreases k,
{
    if n >= 10 {
        if k == 1 {
            assert(pow10(1) == 10 * pow10(0));
        } else {
            assert(pow10(k) == 10 * pow10((k - 1) as nat));
            lemma_decimal_len_below(n / 10, (k - 1) as nat);
        }
    }
}

/// Number of decimal digits of `n`.
pub(crate) fn decimal_len(n: u32) -> (k: usize)
    ensures
        k == decimal(n as nat).len(),
    decreases n,
{
    proof {
        lemma_decimal_len(n as nat);
    }
    if n < 10 {
        1
    } else {
        proof {
            reveal_with_fuel(pow10, 11);
            assert(pow10(10) == 10_000_000_000);
            lemma_decimal_len_below((n / 10) as nat, 10);
        }
        decimal_len(n / 10) + 1
    }
}

/// Appends `n` copies of the one-char string `piece`.
fn push_repeat(out: &mut String, piece: &str, n: usize)
    requires
        piece@.len() == 1,
    ensures
        final(out)@ == old(out)@ + repeat_char(piece@[0], n as nat),
{
    let mut i: usize = 0;
    while i < n
        invariant
            piece@.len() == 1,
            i <= n,
            out@ == old(out)@ + repeat_char(piece@[0], i as nat),
        decreases n - i,
    {
        out.append(piece);
        proof {
            assert(repeat_char(piece@[0], (i + 1) as nat) =~= repeat_char(piece@[0], i as nat)
                + piece@);
            assert(out@ =~= old(out)@ + repeat_char(piece@[0], (i + 1) as nat));
        }
        i = i + 1;
    }
}

/// Appends `n` spaces.
fn push_spaces(out: &mut String, n: usize)
    ensures
        final(out)@ == old(out)@ + repeat_char(' ', n as nat),
{
    proof {
        reveal_strlit(" ");
    }
    push_repeat(out, " ", n);
}

/// Number of chars of `s` before its first `'\n'`.
fn first_line_len(s: &str) -> (n: usize)
    ensures
        n == first_line_piece(s@).len(),
{
    let _bytes = str_byte_len(s);
    proof {
        lemma_chars_le_bytes(s@, s@.len() as int);
        lemma_byte_offset_end(s@);
    }
    let mut it = s.chars();
    let mut n: usize = 0;
    loop
        invariant
            n <= s@.len(),
            s@.len() <= usize::MAX,
            vstd::std_specs::iter::IteratorSpec::remaining(&it) == s@.skip(n as int),
            forall|j: int| 0 <= j < n ==> s@[j] != '\n',
        decreases s@.len() - n,
    {
        match it.next() {
            None => {
                proof {
                    assert(s@.skip(n as int).len() == 0);
                    lemma_first_newline_none(s@);
                }
                return n;
            },
            Some(c) => {
                proof {
                    assert(s@.skip(n as int)[0] == s@[n as int]);
                    assert(s@.skip(n as int).drop_first() =~= s@.skip(n + 1));
                }
                if c == '\n' {
                    proof {
                        lemma_first_newline_at(s@, n as int);
                    }
                    return n;
                }
                n = n + 1;
            },
        }
    }
}

/// The text of an optional label (nothing when absent).
pub open spec fn opt_text(label: Option<String>) -> Seq<char> {
    match label {
        Some(l) => l@,
        None => seq![],
    }
}

/// The text of line `line` of `source`, or nothing when there is no such
/// line.
fn line_or_blank<'src>(source: &Source<'src>, line: u32) -> (t: &'src str)
    ensures
        t@ == line_or_empty(source@, line as nat),
{
    proof {
        reveal_strlit("");
    }
    match source.line_text(line) {
        Some(t) => t,
        None => "",
    }
}

/// Appends line `line` of `source` after its number, right-aligned in
/// `gutter` columns; returns the line's text.
fn push_numbered_line<'src>(out: &mut String, source: &Source<'src>, line: u32, gutter: usize) -> (t: &'src str)
    ensures
        t@ == line_or_empty(source@, line as nat),
        final(out)@ == old(out)@ + numbered_line(source@, line as nat, gutter as nat),
{
    let line_text = line_or_blank(source, line);
    let ghost o0 = out@;
    let digits = decimal_len(line);
    if digits < gutter {
        push_spaces(out, gutter - digits);
    }
    push_decimal(out, line as u64);
    assert(out@ =~= o0 + right_aligned(decimal(line as nat), gutter as nat));
    out.append(" | ");
    out.append(line_text);
    out.append("\n");
    assert(out@ =~= o0 + numbered_line(source@, line as nat, gutter as nat));
    line_text
}

/// Appends an underline: `count` copies of `mark` from column `col0`, after
/// a blank gutter of `gutter` columns, then the label if there is one.
fn push_underline(out: &mut String, gutter: usize, col0: usize, mark: char, count: usize, label: &Option<String>)
    requires
        mark == '^' || mark == '-',
    ensures
        final(out)@ == old(out)@ + underline(
            gutter as nat,
            col0 as nat,
            mark,
            count as nat,
            opt_text(*label),
        ),
{
    let ghost o0 = out@;
    push_spaces(out, gutter);
    out.append(" | ");
    push_spaces(out, col0);
    proof {
        reveal_strlit("^");
        reveal_strlit("-");
    }
    let mark_str = if mark == '^' {
        "^"
    } else {
        "-"
    };
    push_repeat(out, mark_str, count);
    match label {
        Some(l) => {
            out.append(l.as_str());
        },
        None => {},
    }
    out.append("\n");
    assert(out@ =~= o0 + underline(gutter as nat, col0 as nat, mark, count as nat, opt_text(*label)));
}

/// Appends the snippet of `span` to `out`.
fn push_snippet(out: &mut String, source: &Source, span: Span, mark: char, label: Option<String>, gutter: usize)
    requires
        renderable(source, span),
        mark == '^' || mark == '-',
    ensures
        final(out)@ == old(out)@ + snippet(source@, span, mark, opt_text(label), gutter as nat),
{
    let ghost src = source@;
    let start = source.pos_of(span.start);
    proof {
        lemma_line_col_bounds(src.take(chars_before(src, span.start as int) as int));
    }
    let ghost o0 = out@;
    let line_text = push_numbered_line(out, source, start.line, gutter);
    let col0 = start.col as usize - 1;
    let covered = first_line_len(source.slice(span));
    let len = line_text.unicode_len();
    let available = if len > col0 {
        len - col0
    } else {
        0
    };
    let shorter = if covered < available {
        covered
    } else {
        available
    };
    let count = if shorter == 0 {
        1
    } else {
        shorter
    };
    assert(count == underline_len(src, span));
    push_underline(out, gutter, col0, mark, count, &label);
    proof {
        lemma_snippet_parts(
            src,
            span,
            mark,
            opt_text(label),
            gutter as nat,
            start.line as nat,
            start.col as nat,
        );
    }
}

/// Everything needed to render one diagnostic; `ParseError` and `LexError`
/// both go through it.
pub(crate) struct Diagnostic<'a> {
    pub span: Span,
    pub message: &'a str,
    pub found: Option<&'a str>,
    pub expected: &'a [String],
    pub notes: &'a [String],
    pub labels: &'a [(Span, String)],
}

/// The text of an optional string (nothing when absent).
pub open spec fn opt_str_view(found: Option<&str>) -> Option<Seq<char>> {
    match found {
        Some(f) => Some(f@),
        None => None,
    }
}

/// Renders `diag` against `source`.
pub(crate) fn render(diag: &Diagnostic, source: &Source) -> (out: String)
    requires
        renderable(source, diag.span),
        forall|i: int| 0 <= i < diag.labels@.len() ==> renderable(source, #[trigger] diag.labels@[i].0),
    ensures
        out@ == diagnostic_text(
            source@,
            diag.span,
            diag.message@,
            opt_str_view(diag.found),
            texts(diag.expected@),
            texts(diag.notes@),
            label_views(diag.labels@),
        ),
{
    let ghost src = source@;
    let ghost labels = label_views(diag.labels@);
    let start = source.pos_of(diag.span.start);
    let mut max: u32 = start.line;
    let mut i: usize = 0;
    while i < diag.labels.len()
        invariant
            i <= diag.labels@.len(),
            labels == label_views(diag.labels@),
            src == source@,
            forall|i: int|
                0 <= i < diag.labels@.len() ==> renderable(source, #[trigger] diag.labels@[i].0),
            max as nat == max_line(src, labels.take(i as int), start.line as nat),
        decreases diag.labels@.len() - i,
    {
        let line = source.pos_of(diag.labels[i].0.start).line;
        proof {
            assert(labels.take(i + 1).drop_last() =~= labels.take(i as int));
        }
        if line > max {
            max = line;
        }
        i = i + 1;
    }
    proof {
        assert(labels.take(diag.labels@.len() as int) =~= labels);
    }
    let digits = decimal_len(max);
    let gutter = if digits > 2 {
        digits
    } else {
        2
    };
    assert(gutter as nat == gutter_width(src, diag.span, labels));
    let ghost pad = repeat_char(' ', gutter as nat);
    let mut out = String::new();
    out.append("error: ");
    out.append(diag.message);
    out.append("\n");
    push_spaces(&mut out, gutter);
    out.append("--> ");
    push_decimal(&mut out, start.line as u64);
    out.append(":");
    push_decimal(&mut out, start.col as u64);
    out.append("\n");
    push_spaces(&mut out, gutter);
    out.append(" |\n");
    let ghost head = "error: "@ + diag.message@ + "\n"@ + pad + "--> "@ + decimal(start.line as nat)
        + ":"@ + decimal(start.col as nat) + "\n"@ + pad + " |\n"@;
    assert(out@ =~= head);
    let found = match diag.found {
        Some(f) => {
            let mut s = String::new();
            s.append(" found `");
            s.append(f);
            s.append("`");
            Some(s)
        },
        None => None,
    };
    let ghost found_label = match opt_str_view(diag.found) {
        Some(f) => " found `"@ + f + "`"@,
        None => seq![],
    };
    assert(opt_text(found) =~= found_label);
    push_snippet(&mut out, source, diag.span, '^', found, gutter);
    let ghost primary = head + snippet(src, diag.span, '^', found_label, gutter as nat);
    let mut j: usize = 0;
    while j < diag.labels.len()
        invariant
            j <= diag.labels@.len(),
            labels == label_views(diag.labels@),
            src == source@,
            forall|i: int|
                0 <= i < diag.labels@.len() ==> renderable(source, #[trigger] diag.labels@[i].0),
            out@ == primary + labels_text(src, labels.take(j as int), gutter as nat),
        decreases diag.labels@.len() - j,
    {
        let ghost before = out@;
        push_spaces(&mut out, gutter);
        out.append(" |\n");
        let mut label = String::new();
        label.append(" ");
        label.append(diag.labels[j].1.as_str());
        proof {
            assert(labels[j as int] == (diag.labels@[j as int].0, diag.labels@[j as int].1@));
        }
        push_snippet(&mut out, source, diag.labels[j].0, '-', Some(label), gutter);
        proof {
            assert(labels.take(j + 1).drop_last() =~= labels.take(j as int));
            assert(labels.take(j + 1).last() == labels[j as int]);
            assert(out@ =~= primary + labels_text(src, labels.take(j + 1), gutter as nat));
        }
        j = j + 1;
    }
    proof {
        assert(labels.take(diag.labels@.len() as int) =~= labels);
    }
    let ghost body = primary + labels_text(src, labels, gutter as nat);
    push_spaces(&mut out, gutter);
    out.append(" |\n");
    let ghost closed = body + pad + " |\n"@;
    assert(out@ =~= closed);
    let ghost expected = texts(diag.expected@);
    if diag.expected.len() > 0 {
        push_spaces(&mut out, gutter);
        out.append(" = expected `");
        let ghost lead = closed + pad + " = expected `"@;
        let mut k: usize = 0;
        while k < diag.expected.len()
            invariant
                k <= diag.expected@.len(),
                expected == texts(diag.expected@),
                out@ == lead + joined(expected.take(k as int), "`, `"@),
            decreases diag.expected@.len() - k,
        {
            if k > 0 {
                out.append("`, `");
            }
            out.append(diag.expected[k].as_str());
            proof {
                let t = expected.take(k + 1);
                assert(t.drop_last() =~= expected.take(k as int));
                if k == 0 {
                    assert(joined(expected.take(0), "`, `"@) =~= Seq::<char>::empty());
                    assert(out@ =~= lead + joined(t, "`, `"@));
                } else {
                    assert(out@ =~= lead + joined(t, "`, `"@));
                }
            }
            k = k + 1;
        }
        out.append("`\n");
        proof {
            assert(expected.take(diag.expected@.len() as int) =~= expected);
            assert(out@ =~= closed + (pad + " = expected `"@ + joined(expected, "`, `"@) + "`\n"@));
        }
    }
    let ghost with_expected = out@;
    let ghost notes = texts(diag.notes@);
    let mut k: usize = 0;
    while k < diag.notes.len()
        invariant
            k <= diag.notes@.len(),
            notes == texts(diag.notes@),
            out@ == with_expected + notes_text(notes.take(k as int), gutter as nat),
        decreases diag.notes@.len() - k,
    {
        push_spaces(&mut out, gutter);
        out.append(" = note: ");
        out.append(diag.notes[k].as_str());
        out.append("\n");
        proof {
            assert(notes.take(k + 1).drop_last() =~= notes.take(k as int));
            assert(out@ =~= with_expected + notes_text(notes.take(k + 1), gutter as nat));
        }
        k = k + 1;
    }
    proof {
        assert(notes.take(diag.notes@.len() as int) =~= notes);
    }
    out
}

} // verus!
