//! The bytes that the wire format gives a meaning to.

use vstd::prelude::*;

verus! {

/// The NUL byte that frames the visibility marker of a property name.
pub const NUL: u8 = 0x00;

/// `"`
pub const QUOTE: u8 = 0x22;

/// `*`
pub const STAR: u8 = 0x2a;

/// `-`
pub const MINUS: u8 = 0x2d;

/// `.`
pub const DOT: u8 = 0x2e;

/// `0`
pub const ZERO: u8 = 0x30;

/// `1`
pub const ONE: u8 = 0x31;

/// `9`
pub const NINE: u8 = 0x39;

/// `:`
pub const COLON: u8 = 0x3a;

/// `;`
pub const SEMICOLON: u8 = 0x3b;

/// `A`
pub const UPPER_A: u8 = 0x41;

/// `C`
pub const UPPER_C: u8 = 0x43;

/// `F`
pub const UPPER_F: u8 = 0x46;

/// `I`
pub const UPPER_I: u8 = 0x49;

/// `N`
pub const UPPER_N: u8 = 0x4e;

/// `O`
pub const UPPER_O: u8 = 0x4f;

/// `R`
pub const UPPER_R: u8 = 0x52;

/// `a`
pub const LOWER_A: u8 = 0x61;

/// `b`
pub const LOWER_B: u8 = 0x62;

/// `d`
pub const LOWER_D: u8 = 0x64;

/// `i`
pub const LOWER_I: u8 = 0x69;

/// `r`
pub const LOWER_R: u8 = 0x72;

/// `s`
pub const LOWER_S: u8 = 0x73;

/// `{`
pub const OPEN_BRACE: u8 = 0x7b;

/// `|`
pub const PIPE: u8 = 0x7c;

/// `}`
pub const CLOSE_BRACE: u8 = 0x7d;

} // verus!
