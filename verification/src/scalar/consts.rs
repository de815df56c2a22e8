//! Bit patterns of the numbers that the rules use.

use vstd::prelude::*;

verus! {

/// 0
pub const ZERO: u32 = 0;

/// 0.000001
pub const MICRO: u32 = 0x3586_37bd;

/// 0.001
pub const MILLI: u32 = 0x3a83_126f;

/// 0.02
pub const TWO_HUNDREDTHS: u32 = 0x3ca3_d70a;

/// 0.5
pub const HALF: u32 = 0x3f00_0000;

/// 0.6
pub const SIX_TENTHS: u32 = 0x3f19_999a;

/// 0.7
pub const SEVEN_TENTHS: u32 = 0x3f33_3333;

/// 0.8
pub const EIGHT_TENTHS: u32 = 0x3f4c_cccd;

/// 1
pub const ONE: u32 = 0x3f80_0000;

/// 2
pub const TWO: u32 = 0x4000_0000;

/// 7
pub const SEVEN: u32 = 0x40e0_0000;

/// 25
pub const TWENTY_FIVE: u32 = 0x41c8_0000;

/// 100
pub const HUNDRED: u32 = 0x42c8_0000;

/// 3600
pub const SECONDS_PER_HOUR: u32 = 0x4561_0000;

/// Positive infinity
pub const INFINITY: u32 = 0x7f80_0000;

/// Negative infinity
pub const NEG_INFINITY: u32 = 0xff80_0000;

} // verus!
