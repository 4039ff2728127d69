//! The character classes that the lexer tells apart.

use vstd::prelude::*;

verus! {

/// Whether a character beyond ASCII has the Unicode property `White_Space`.
pub uninterp spec fn white_space_beyond_ascii(c: char) -> bool;

/// Whether a character beyond ASCII has the Unicode property `Alphabetic`.
pub uninterp spec fn alphabetic_beyond_ascii(c: char) -> bool;

/// Whether a character beyond ASCII is alphabetic or numeric as Unicode
/// counts it.
pub uninterp spec fn alphanumeric_beyond_ascii(c: char) -> bool;

/// Whether `c` is an ASCII character.
pub open spec fn is_ascii_char(c: char) -> bool {
    (c as u32) < 128
}

/// Whether `c` is ASCII white space as Unicode counts it: the space, or one
/// of the five characters from tab to carriage return.
pub open spec fn is_ascii_white_space(c: char) -> bool {
    c == ' ' || ('\t' <= c && c <= '\r')
}

/// Whether `c` is one of the fifty-two ASCII letters.
pub open spec fn is_ascii_letter(c: char) -> bool {
    ('a' <= c && c <= 'z') || ('A' <= c && c <= 'Z')
}

/// Whether `c` is one of the decimal digits `0` to `9`.
pub open spec fn is_digit(c: char) -> bool {
    '0' <= c && c <= '9'
}

/// Whether `c` is white space.
pub open spec fn is_whitespace(c: char) -> bool {
    if is_ascii_char(c) {
        is_ascii_white_space(c)
    } else {
        white_space_beyond_ascii(c)
    }
}

/// Whether `c` is alphabetic.
pub open spec fn is_alphabetic(c: char) -> bool {
    if is_ascii_char(c) {
        is_ascii_letter(c)
    } else {
        alphabetic_beyond_ascii(c)
    }
}

/// Whether `c` is alphabetic or numeric.
pub open spec fn is_alphanumeric(c: char) -> bool {
    if is_ascii_char(c) {
        is_ascii_letter(c) || is_digit(c)
    } else {
        alphanumeric_beyond_ascii(c)
    }
}

/// Whether `c` may follow the first character of a symbol.
pub open spec fn is_symbol_char(c: char) -> bool {
    is_alphanumeric(c) || c == '_'
}

/// Tells whether `c` is white space: a contract for `char::is_whitespace`,
/// which tests the Unicode property `White_Space`. Among ASCII that property
/// holds of the space and of the five characters from tab to carriage return;
/// beyond ASCII the contract only names the answer.
#[verifier::external_body]
pub(crate) fn char_is_whitespace(c: char) -> (b: bool)
    ensures
        is_ascii_char(c) ==> b == is_ascii_white_space(c),
        !is_ascii_char(c) ==> b == white_space_beyond_ascii(c),
{
    c.is_whitespace()
}

/// Tells whether `c` is alphabetic: a contract for `char::is_alphabetic`,
/// which tests the Unicode property `Alphabetic`. Among ASCII that property
/// holds of the letters; beyond ASCII the contract only names the answer.
#[verifier::external_body]
pub(crate) fn char_is_alphabetic(c: char) -> (b: bool)
    ensures
        is_ascii_char(c) ==> b == is_ascii_letter(c),
        !is_ascii_char(c) ==> b == alphabetic_beyond_ascii(c),
{
    c.is_alphabetic()
}

/// Tells whether `c` is alphabetic or numeric: a contract for
/// `char::is_alphanumeric`, which holds of the alphabetic characters and of
/// those in a Unicode general category for numbers. Among ASCII these are the
/// letters and the digits; beyond ASCII the contract only names the answer.
#[verifier::external_body]
pub(crate) fn char_is_alphanumeric(c: char) -> (b: bool)
    ensures
        is_ascii_char(c) ==> b == (is_ascii_letter(c) || is_digit(c)),
        !is_ascii_char(c) ==> b == alphanumeric_beyond_ascii(c),
{
    c.is_alphanumeric()
}

/// Tells whether `c` is a decimal digit.
pub fn char_is_digit(c: char) -> (b: bool)
    ensures
        b == is_digit(c),
{
    '0' <= c && c <= '9'
}

/// Tells whether `c` may follow the first character of a symbol.
pub fn char_is_symbol_char(c: char) -> (b: bool)
    ensures
        b == is_symbol_char(c),
{
    char_is_alphanumeric(c) || c == '_'
}

} // verus!
