//! The ASCII characters that the formats in this crate are built from.

use vstd::prelude::*;

verus! {

/// `+`
pub const PLUS: u8 = 0x2b;

/// `-`
pub const MINUS: u8 = 0x2d;

/// `0`
pub const ZERO: u8 = 0x30;

/// `9`
pub const NINE: u8 = 0x39;

/// `:`
pub const COLON: u8 = 0x3a;

/// `d`
pub const LOWER_D: u8 = 0x64;

/// `e`
pub const LOWER_E: u8 = 0x65;

/// `i`
pub const LOWER_I: u8 = 0x69;

/// `l`
pub const LOWER_L: u8 = 0x6c;

} // verus!
