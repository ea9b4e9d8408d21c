//! The sixteen palette slots a pixel can name, and their one-byte hex form.

use vstd::prelude::*;
use crate::ascii::{D0, D9, UA, UF};
use crate::error::Error;

verus! {

/// A pixel color: an index into a sixteen-entry palette.  Slot 0 is
/// transparent in the default palette; the other slots are opaque colors.
#[derive(Clone, Copy, Debug, PartialEq, Eq, Structural)]
pub enum Color {
    /// Palette slot 0 (transparent in the default palette).
    C0,
    /// Palette slot 1 (black in the default palette).
    C1,
    /// Palette slot 2 (half-brightness red in the default palette).
    C2,
    /// Palette slot 3 (red in the default palette).
    C3,
    /// Palette slot 4 (half-brightness green in the default palette).
    C4,
    /// Palette slot 5 (green in the default palette).
    C5,
    /// Palette slot 6 (half-brightness yellow in the default palette).
    C6,
    /// Palette slot 7 (yellow in the default palette).
    C7,
    /// Palette slot 8 (half-brightness blue in the default palette).
    C8,
    /// Palette slot 9 (blue in the default palette).
    C9,
    /// Palette slot 10 (half-brightness magenta in the default palette).
    Ca,
    /// Palette slot 11 (magenta in the default palette).
    Cb,
    /// Palette slot 12 (half-brightness cyan in the default palette).
    Cc,
    /// Palette slot 13 (cyan in the default palette).
    Cd,
    /// Palette slot 14 (gray in the default palette).
    Ce,
    /// Palette slot 15 (white in the default palette).
    Cf,
}

/// The palette slot number of a color, in 0..16.
pub open spec fn color_index(c: Color) -> int {
    match c {
        Color::C0 => 0,
        Color::C1 => 1,
        Color::C2 => 2,
        Color::C3 => 3,
        Color::C4 => 4,
        Color::C5 => 5,
        Color::C6 => 6,
        Color::C7 => 7,
        Color::C8 => 8,
        Color::C9 => 9,
        Color::Ca => 10,
        Color::Cb => 11,
        Color::Cc => 12,
        Color::Cd => 13,
        Color::Ce => 14,
        Color::Cf => 15,
    }
}

/// The color with the given palette slot number.
pub open spec fn color_of_index(i: int) -> Color {
    if i == 0 { Color::C0 }
    else if i == 1 { Color::C1 }
    else if i == 2 { Color::C2 }
    else if i == 3 { Color::C3 }
    else if i == 4 { Color::C4 }
    else if i == 5 { Color::C5 }
    else if i == 6 { Color::C6 }
    else if i == 7 { Color::C7 }
    else if i == 8 { Color::C8 }
    else if i == 9 { Color::C9 }
    else if i == 10 { Color::Ca }
    else if i == 11 { Color::Cb }
    else if i == 12 { Color::Cc }
    else if i == 13 { Color::Cd }
    else if i == 14 { Color::Ce }
    else { Color::Cf }
}

/// Whether a byte is one of the sixteen pixel characters `0`-`9`, `A`-`F`.
pub open spec fn is_color_byte(b: u8) -> bool {
    (D0 <= b && b <= D9) || (UA <= b && b <= UF)
}

/// The one-byte hex form of a color: `0`-`9` for slots 0-9, uppercase
/// `A`-`F` for slots 10-15.
pub open spec fn color_byte(c: Color) -> u8 {
    if color_index(c) < 10 {
        (D0 + color_index(c)) as u8
    } else {
        (UA + (color_index(c) - 10)) as u8
    }
}

/// The color a pixel byte names.  Meaningful only when `is_color_byte(b)`.
pub open spec fn color_of_byte(b: u8) -> Color {
    if D0 <= b && b <= D9 {
        color_of_index(b - D0)
    } else {
        color_of_index(b - UA + 10)
    }
}

impl Color {
    /// The palette slot number of this color.
    pub fn index(self) -> (i: usize)
        ensures
            i as int == color_index(self),
            i < 16,
    {
        match self {
            Color::C0 => 0,
            Color::C1 => 1,
            Color::C2 => 2,
            Color::C3 => 3,
            Color::C4 => 4,
            Color::C5 => 5,
            Color::C6 => 6,
            Color::C7 => 7,
            Color::C8 => 8,
            Color::C9 => 9,
            Color::Ca => 10,
            Color::Cb => 11,
            Color::Cc => 12,
            Color::Cd => 13,
            Color::Ce => 14,
            Color::Cf => 15,
        }
    }

    /// The hex character that encodes this color in a pixel grid.
    pub fn to_byte(self) -> (b: u8)
        ensures
            b == color_byte(self),
    {
        match self {
            Color::C0 => 48,
            Color::C1 => 49,
            Color::C2 => 50,
            Color::C3 => 51,
            Color::C4 => 52,
            Color::C5 => 53,
            Color::C6 => 54,
            Color::C7 => 55,
            Color::C8 => 56,
            Color::C9 => 57,
            Color::Ca => 65,
            Color::Cb => 66,
            Color::Cc => 67,
            Color::Cd => 68,
            Color::Ce => 69,
            Color::Cf => 70,
        }
    }

    /// Decodes one pixel byte.  Succeeds exactly on the sixteen bytes
    /// `0`-`9` and uppercase `A`-`F`; any other byte is rejected.
    pub fn from_byte(byte: u8) -> (r: Result<Color, Error>)
        ensures
            match r {
                Ok(c) => is_color_byte(byte) && c == color_of_byte(byte),
                Err(e) => !is_color_byte(byte) && e == Error::InvalidPixelCharacter(byte),
            },
    {
        match byte {
            48 => Ok(Color::C0),
            49 => Ok(Color::C1),
            50 => Ok(Color::C2),
            51 => Ok(Color::C3),
            52 => Ok(Color::C4),
            53 => Ok(Color::C5),
            54 => Ok(Color::C6),
            55 => Ok(Color::C7),
            56 => Ok(Color::C8),
            57 => Ok(Color::C9),
            65 => Ok(Color::Ca),
            66 => Ok(Color::Cb),
            67 => Ok(Color::Cc),
            68 => Ok(Color::Cd),
            69 => Ok(Color::Ce),
            70 => Ok(Color::Cf),
            _ => Err(Error::InvalidPixelCharacter(byte)),
        }
    }
}

/// The color codec is a total bijection between the sixteen colors and the
/// bytes `0`-`9`, `A`-`F`: encoding then decoding gives the color back,
/// decoding then encoding gives the byte back, and no two colors share a
/// byte.
pub proof fn lemma_color_codec_bijective()
    ensures
        forall|c: Color| is_color_byte(#[trigger] color_byte(c)),
        forall|c: Color| color_of_byte(#[trigger] color_byte(c)) == c,
        forall|b: u8| is_color_byte(b) ==> color_byte(#[trigger] color_of_byte(b)) == b,
        forall|c1: Color, c2: Color| color_byte(c1) == color_byte(c2) ==> c1 == c2,
{
    assert forall|c: Color| is_color_byte(#[trigger] color_byte(c))
        && color_of_byte(color_byte(c)) == c by {
        let i = color_index(c);
        assert(0 <= i < 16);
        assert(color_of_index(i) == c);
    }
    assert forall|b: u8| is_color_byte(b) implies color_byte(#[trigger] color_of_byte(b)) == b by {
        if D0 <= b && b <= D9 {
            assert(color_index(color_of_index(b - D0)) == b - D0);
        } else {
            assert(color_index(color_of_index(b - UA + 10)) == b - UA + 10);
        }
    }
}

} // verus!
