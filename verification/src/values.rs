//! The numbers that the formulas are made of, by their bit patterns.
use vstd::prelude::*;

verus! {

pub const ZERO: u32 = 0;

/// The most negative finite value.
pub const LEAST: u32 = 0xff7f_ffff;

/// -200
pub const MINUS_200: u32 = 0xc348_0000;

/// -10
pub const MINUS_TEN: u32 = 0xc120_0000;

/// -2
pub const MINUS_TWO: u32 = 0xc000_0000;

/// -0.5
pub const MINUS_HALF: u32 = 0xbf00_0000;

/// -0.1
pub const MINUS_TENTH: u32 = 0xbdcc_cccd;

/// 10 to the power of -10
pub const TINY: u32 = 0x2edb_e6ff;

/// 10 to the power of -9
pub const FLAT: u32 = 0x3089_705f;

/// 0.01
pub const HUNDREDTH: u32 = 0x3c23_d70a;

/// 0.05
pub const TWENTIETH: u32 = 0x3d4c_cccd;

/// 0.06
pub const SIX_HUNDREDTHS: u32 = 0x3d75_c28f;

/// 0.1
pub const TENTH: u32 = 0x3dcc_cccd;

/// 0.15
pub const THREE_TWENTIETHS: u32 = 0x3e19_999a;

/// 0.25
pub const QUARTER: u32 = 0x3e80_0000;

/// 0.3
pub const THREE_TENTHS: u32 = 0x3e99_999a;

/// 0.4
pub const FOUR_TENTHS: u32 = 0x3ecc_cccd;

/// 0.5
pub const HALF: u32 = 0x3f00_0000;

/// 0.6
pub const SIX_TENTHS: u32 = 0x3f19_999a;

/// 0.7
pub const SEVEN_TENTHS: u32 = 0x3f33_3333;

/// 0.75
pub const THREE_QUARTERS: u32 = 0x3f40_0000;

/// 0.8
pub const EIGHT_TENTHS: u32 = 0x3f4c_cccd;

/// 0.9
pub const NINE_TENTHS: u32 = 0x3f66_6666;

pub const ONE: u32 = 0x3f80_0000;

/// 1.5
pub const THREE_HALVES: u32 = 0x3fc0_0000;

pub const TWO: u32 = 0x4000_0000;

pub const THREE: u32 = 0x4040_0000;

pub const FOUR: u32 = 0x4080_0000;

pub const FIVE: u32 = 0x40a0_0000;

pub const SIX: u32 = 0x40c0_0000;

/// A full turn in radians.
pub const TURN: u32 = 0x40c9_0fdb;

pub const TWELVE: u32 = 0x4140_0000;

pub const TWENTY: u32 = 0x41a0_0000;

/// 21
pub const TWENTY_ONE: u32 = 0x41a8_0000;

pub const FORTY: u32 = 0x4220_0000;

/// 69
pub const SIXTY_NINE: u32 = 0x428a_0000;

pub const EIGHTY: u32 = 0x42a0_0000;

pub const HUNDRED: u32 = 0x42c8_0000;

/// 255
pub const BYTE: u32 = 0x437f_0000;

/// 440
pub const A4: u32 = 0x43dc_0000;

} // verus!
