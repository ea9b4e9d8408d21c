//! A codec for the AHI (ASCII Hex Image) and AHF (ASCII Hex Font) text
//! formats: collections of small 16-color indexed images and bitmap fonts,
//! stored as human-diffable plain text.
//!
//! Decoding takes a byte slice and produces an in-memory model; encoding
//! appends the textual form to a byte vector.  Both directions are verified
//! against spec-level parsers and printers, and the round-trip laws
//! (decoding an encoded collection gives it back) are proved.

pub mod ascii;
pub mod collect;
pub mod color;
pub mod error;
pub mod font;
pub mod image;
pub mod palette;
pub mod text;
pub mod token;

pub use collect::Collection;
pub use color::Color;
pub use error::Error;
pub use font::{Font, Glyph};
pub use image::Image;
pub use palette::Palette;
