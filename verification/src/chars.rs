//! Character classification.
//!
//! The lexer classifies characters as whitespace, alphabetic, numeric or
//! alphanumeric, by the Unicode properties the standard library implements.
//! Whitespace is a small fixed set and is defined and checked here in full.
//! The three alphabet classes are exact on the ASCII range and named but
//! uninterpreted beyond it, where the standard library's tables decide.

use vstd::prelude::*;

verus! {

/// The Unicode `White_Space` characters.
pub open spec fn whitespace_char(c: char) -> bool {
    ||| c == ' '
    ||| c == '\t'
    ||| c == '\n'
    ||| c == '\u{b}'
    ||| c == '\u{c}'
    ||| c == '\r'
    ||| c == '\u{85}'
    ||| c == '\u{a0}'
    ||| c == '\u{1680}'
    ||| (0x2000 <= c as u32 && c as u32 <= 0x200a)
    ||| c == '\u{2028}'
    ||| c == '\u{2029}'
    ||| c == '\u{202f}'
    ||| c == '\u{205f}'
    ||| c == '\u{3000}'
}

/// Whether `c` is whitespace.
pub fn is_whitespace(c: char) -> (r: bool)
    ensures
        r == whitespace_char(c),
{
    c == ' ' || c == '\t' || c == '\n' || c == '\u{b}' || c == '\u{c}' || c == '\r'
        || c == '\u{85}' || c == '\u{a0}' || c == '\u{1680}' || (0x2000 <= c as u32 && c as u32
        <= 0x200a) || c == '\u{2028}' || c == '\u{2029}' || c == '\u{202f}' || c == '\u{205f}' || c
        == '\u{3000}'
}

/// Alphabetic, with the ASCII range written out; beyond ASCII the standard
/// library's Unicode `Alphabetic` tables decide.
pub open spec fn alphabetic_char(c: char) -> bool {
    if (c as u32) < 0x80 {
        (0x41 <= c as u32 && c as u32 <= 0x5a) || (0x61 <= c as u32 && c as u32 <= 0x7a)
    } else {
        alphabetic_ext(c)
    }
}

/// Whether a character beyond ASCII is alphabetic; what the standard
/// library's `char::is_alphabetic` returns there.
pub uninterp spec fn alphabetic_ext(c: char) -> bool;

/// Numeric, with the ASCII range written out (the decimal digits); beyond
/// ASCII the standard library's Unicode number-category tables decide.
pub open spec fn numeric_char(c: char) -> bool {
    if (c as u32) < 0x80 {
        0x30 <= c as u32 && c as u32 <= 0x39
    } else {
        numeric_ext(c)
    }
}

/// Whether a character beyond ASCII is numeric; what the standard library's
/// `char::is_numeric` returns there.
pub uninterp spec fn numeric_ext(c: char) -> bool;

/// Alphanumeric, with the ASCII range written out; beyond ASCII the standard
/// library's tables decide.
pub open spec fn alphanumeric_char(c: char) -> bool {
    if (c as u32) < 0x80 {
        (0x41 <= c as u32 && c as u32 <= 0x5a) || (0x61 <= c as u32 && c as u32 <= 0x7a) || (0x30
            <= c as u32 && c as u32 <= 0x39)
    } else {
        alphanumeric_ext(c)
    }
}

/// Whether a character beyond ASCII is alphanumeric; what the standard
/// library's `char::is_alphanumeric` returns there.
pub uninterp spec fn alphanumeric_ext(c: char) -> bool;

/// Relies on `char::is_alphabetic`: true exactly for the Unicode `Alphabetic`
/// characters, which on the ASCII range are the letters.
#[verifier::external_body]
pub(crate) fn is_alphabetic(c: char) -> (r: bool)
    ensures
        r == alphabetic_char(c),
        (c as u32) >= 0x80 ==> r == alphabetic_ext(c),
{
    c.is_alphabetic()
}

/// Relies on `char::is_numeric`: true exactly for the Unicode number-category
/// characters, which on the ASCII range are the decimal digits.
#[verifier::external_body]
pub(crate) fn is_numeric(c: char) -> (r: bool)
    ensures
        r == numeric_char(c),
        (c as u32) >= 0x80 ==> r == numeric_ext(c),
{
    c.is_numeric()
}

/// Relies on `char::is_alphanumeric`: alphabetic or numeric, which on the
/// ASCII range are the letters and the decimal digits.
#[verifier::external_body]
pub(crate) fn is_alphanumeric(c: char) -> (r: bool)
    ensures
        r == alphanumeric_char(c),
        (c as u32) >= 0x80 ==> r == alphanumeric_ext(c),
{
    c.is_alphanumeric()
}

/// A character that may continue an identifier or numeric lexeme.
pub open spec fn word_char(c: char) -> bool {
    alphanumeric_char(c) || c == '_'
}

/// Whether `c` may continue an identifier or numeric lexeme.
pub fn is_word_char(c: char) -> (r: bool)
    ensures
        r == word_char(c),
{
    is_alphanumeric(c) || c == '_'
}

} // verus!
