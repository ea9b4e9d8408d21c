//! Names for the ASCII bytes the grammar speaks of.

use vstd::prelude::*;

verus! {

/// The byte `'\n'`.
pub const NL: u8 = 10;
/// The byte `' '`.
pub const SP: u8 = 32;
/// The byte `'"'`.
pub const QUOTE2: u8 = 34;
/// The byte `'\''`.
pub const QUOTE1: u8 = 39;
/// The byte `','`.
pub const COMMA: u8 = 44;
/// The byte `'-'`.
pub const MINUS: u8 = 45;
/// The byte `'0'`.
pub const D0: u8 = 48;
/// The byte `'1'`.
pub const D1: u8 = 49;
/// The byte `'9'`.
pub const D9: u8 = 57;
/// The byte `';'`.
pub const SEMI: u8 = 59;
/// The byte `'A'`.
pub const UA: u8 = 65;
/// The byte `'F'`.
pub const UF: u8 = 70;
/// The byte `'['`.
pub const LBRACKET: u8 = 91;
/// The byte `'\\'`.
pub const BACKSLASH: u8 = 92;
/// The byte `']'`.
pub const RBRACKET: u8 = 93;
/// The byte `'a'`.
pub const LA: u8 = 97;
/// The byte `'b'`.
pub const LB: u8 = 98;
/// The byte `'d'`.
pub const LD: u8 = 100;
/// The byte `'e'`.
pub const LE: u8 = 101;
/// The byte `'f'`.
pub const LF: u8 = 102;
/// The byte `'h'`.
pub const LH: u8 = 104;
/// The byte `'i'`.
pub const LI: u8 = 105;
/// The byte `'l'`.
pub const LL: u8 = 108;
/// The byte `'n'`.
pub const LN: u8 = 110;
/// The byte `'p'`.
pub const LP: u8 = 112;
/// The byte `'r'`.
pub const LR: u8 = 114;
/// The byte `'t'`.
pub const LT: u8 = 116;
/// The byte `'u'`.
pub const LU: u8 = 117;
/// The byte `'w'`.
pub const LW: u8 = 119;
/// The byte `'{'`.
pub const LBRACE: u8 = 123;
/// The byte `'}'`.
pub const RBRACE: u8 = 125;
/// The byte `'~'`, the last printable ASCII byte.
pub const TILDE: u8 = 126;

} // verus!
