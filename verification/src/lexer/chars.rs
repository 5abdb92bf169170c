//! Character classes used by the cursor helpers.
use vstd::prelude::*;

verus! {

/// Whether `c` has the Unicode `White_Space` property.
pub open spec fn is_white_space(c: char) -> bool {
    let v = c as u32;
    ||| 0x09 <= v <= 0x0d
    ||| v == 0x20
    ||| v == 0x85
    ||| v == 0xa0
    ||| v == 0x1680
    ||| 0x2000 <= v <= 0x200a
    ||| v == 0x2028
    ||| v == 0x2029
    ||| v == 0x202f
    ||| v == 0x205f
    ||| v == 0x3000
}

/// Whether `c` has the Unicode `Alphabetic` property, as `char::is_alphabetic`
/// reports it.
pub uninterp spec fn unicode_alphabetic(c: char) -> bool;

/// Whether `c` is alphabetic or numeric in Unicode's sense, as
/// `char::is_alphanumeric` reports it.
pub uninterp spec fn unicode_alphanumeric(c: char) -> bool;

/// The value of `c` read as a digit: `0`-`9` are 0 to 9, `a`-`z` and `A`-`Z`
/// are 10 to 35; any other char is no digit.
pub open spec fn digit_value(c: char) -> Option<u32> {
    let v = c as u32;
    if 0x30 <= v <= 0x39 {
        Some((v - 0x30) as u32)
    } else if 0x61 <= v <= 0x7a {
        Some((v - 0x61 + 10) as u32)
    } else if 0x41 <= v <= 0x5a {
        Some((v - 0x41 + 10) as u32)
    } else {
        None
    }
}

/// Whether `c` is a digit in base `radix`.
pub open spec fn is_radix_digit(c: char, radix: u32) -> bool {
    match digit_value(c) {
        Some(d) => d < radix,
        None => false,
    }
}

/// Whether `c` is an ASCII letter or an ASCII decimal digit.
pub open spec fn is_ascii_alphanumeric(c: char) -> bool {
    ||| '0' <= c <= '9'
    ||| 'a' <= c <= 'z'
    ||| 'A' <= c <= 'Z'
}

/// The decimal digits are exactly `0` to `9`.
pub proof fn lemma_decimal_digits(c: char)
    ensures
        is_radix_digit(c, 10) <==> '0' <= c <= '9',
{
}

/// A digit in any radix is an ASCII letter or decimal digit, and in base 36
/// every one of those is a digit.
pub proof fn lemma_digits_are_ascii_alphanumeric(c: char, radix: u32)
    requires
        2 <= radix <= 36,
    ensures
        is_radix_digit(c, radix) ==> is_ascii_alphanumeric(c),
        is_radix_digit(c, 36) <==> is_ascii_alphanumeric(c),
{
}

/// A digit of a radix is a digit of every larger radix too, with the same
/// value.
pub proof fn lemma_digits_grow_with_radix(c: char, radix: u32, larger: u32)
    requires
        radix <= larger,
        is_radix_digit(c, radix),
    ensures
        is_radix_digit(c, larger),
{
}

/// The hexadecimal digits are exactly `0` to `9`, `a` to `f` and `A` to `F`.
pub proof fn lemma_hex_digits(c: char)
    ensures
        is_radix_digit(c, 16) <==> ('0' <= c <= '9' || 'a' <= c <= 'f' || 'A' <= c <= 'F'),
{
}

/// Where each digit sits among the radixes: `0` to `9` count from 0, and the
/// letters from 10, the same in either case; a char is a digit of exactly
/// the radixes above its count.
pub proof fn lemma_digit_counts(c: char, radix: u32)
    ensures
        '0' <= c <= '9' ==> (is_radix_digit(c, radix) <==> (c as u32) - ('0' as u32) < radix),
        'a' <= c <= 'z' ==> (is_radix_digit(c, radix) <==> (c as u32) - ('a' as u32) + 10
            < radix),
        'A' <= c <= 'Z' ==> (is_radix_digit(c, radix) <==> (c as u32) - ('A' as u32) + 10
            < radix),
        !is_ascii_alphanumeric(c) ==> !is_radix_digit(c, radix),
{
}

/// Whether `c` is white space, as `char::is_whitespace` decides it: the
/// code points of the Unicode `White_Space` property.
pub(crate) fn char_is_whitespace(c: char) -> (b: bool)
    ensures
        b == is_white_space(c),
{
    let v = c as u32;
    (0x09 <= v && v <= 0x0d) || v == 0x20 || v == 0x85 || v == 0xa0 || v == 0x1680 || (0x2000
        <= v && v <= 0x200a) || v == 0x2028 || v == 0x2029 || v == 0x202f || v == 0x205f || v
        == 0x3000
}

/// Calls `char::is_alphabetic`; its result is named `unicode_alphabetic`.
#[verifier::external_body]
pub(crate) fn char_is_alphabetic(c: char) -> (b: bool)
    ensures
        b == unicode_alphabetic(c),
{
    c.is_alphabetic()
}

/// Calls `char::is_alphanumeric`; its result is named `unicode_alphanumeric`.
#[verifier::external_body]
pub(crate) fn char_is_alphanumeric(c: char) -> (b: bool)
    ensures
        b == unicode_alphanumeric(c),
{
    c.is_alphanumeric()
}

/// Whether `c` is a digit in base `radix`, as `char::is_digit` decides it:
/// `0`-`9`, `a`-`z` and `A`-`Z` have the values 0 to 35, and a digit is one
/// whose value is below the radix. `char::is_digit` panics on a radix
/// outside `2..=36`, which `requires` leaves out here too.
pub(crate) fn char_is_digit(c: char, radix: u32) -> (b: bool)
    requires
        2 <= radix <= 36,
    ensures
        b == is_radix_digit(c, radix),
{
    let v = c as u32;
    let d: u32 = if 0x30 <= v && v <= 0x39 {
        v - 0x30
    } else if 0x61 <= v && v <= 0x7a {
        v - 0x61 + 10
    } else if 0x41 <= v && v <= 0x5a {
        v - 0x41 + 10
    } else {
        return false;
    };
    d < radix
}

} // verus!
