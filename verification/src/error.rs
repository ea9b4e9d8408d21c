//! The failure kinds that decoding or encoding can report.

use vstd::prelude::*;

verus! {

/// Everything that can go wrong while reading or writing an AHI or AHF
/// document.  Any grammar violation aborts the whole operation; there is no
/// partial recovery.
#[derive(Clone, Copy, Debug, PartialEq, Eq, Structural)]
pub enum Error {
    /// The input ended in the middle of a token.
    UnexpectedEnd,
    /// A literal byte sequence (such as a header keyword) did not match.
    UnexpectedToken,
    /// A decimal field held no digits before its terminator.
    MissingDigits,
    /// A minus sign appeared after a digit, or more than once.
    MisplacedSign,
    /// A byte that is neither a digit nor the field's terminator.
    InvalidDigit(u8),
    /// A header integer exceeded the magnitude cap of 0xFFFF.
    ValueTooLarge,
    /// A header field that must be nonnegative carried a minus sign.
    NegativeNotAllowed,
    /// A hex field held no digits before its terminator.
    MissingHexLiteral,
    /// A hex field held more than eight digits.
    HexLiteralTooLarge,
    /// A palette field held more than eight digits.
    TooManyPaletteDigits,
    /// A pixel byte that is not one of the sixteen uppercase hex digits.
    InvalidPixelCharacter(u8),
    /// A backslash escape with an unknown selector byte.
    InvalidCharEscape(u8),
    /// A control byte or non-ASCII byte outside an escape.
    InvalidCharLiteralByte(u8),
    /// A `\u{...}` escape whose value is not a Unicode scalar value.
    InvalidUnicodeScalar(u32),
    /// A quoted character literal with no character in it.
    EmptyCharLiteral,
    /// An integer in a bracketed list outside the signed 16-bit range.
    ListIntegerOutOfRange,
    /// A document version this library does not understand.
    UnsupportedVersion(u32),
}

} // verus!
