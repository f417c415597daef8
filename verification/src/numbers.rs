//! The bits of the numbers that the library uses.

use vstd::prelude::*;

verus! {

/// The bits of -0.
pub const MINUS_ZERO: u64 = 0x8000000000000000;

/// The bits of 1.
pub const ONE: u64 = 0x3ff0000000000000;

/// The bits of -1.
pub const MINUS_ONE: u64 = 0xbff0000000000000;

/// The bits of 0.05.
pub const TWENTIETH: u64 = 0x3fa999999999999a;

/// The bits of 0.1.
pub const TENTH: u64 = 0x3fb999999999999a;

/// The bits of 0.2.
pub const FIFTH: u64 = 0x3fc999999999999a;

/// The bits of 0.3.
pub const THREE_TENTHS: u64 = 0x3fd3333333333333;

/// The bits of 0.5.
pub const HALF: u64 = 0x3fe0000000000000;

/// The bits of 0.7.
pub const SEVEN_TENTHS: u64 = 0x3fe6666666666666;

/// The bits of 0.8.
pub const FOUR_FIFTHS: u64 = 0x3fe999999999999a;

/// The bits of 10.
pub const TEN: u64 = 0x4024000000000000;

/// The bits of 20.
pub const TWENTY: u64 = 0x4034000000000000;

/// The bits of 1.1.
pub const ELEVEN_TENTHS: u64 = 0x3ff199999999999a;

/// The bits of 2.
pub const TWO: u64 = 0x4000000000000000;

/// The bits of 3600.
pub const SECONDS_PER_HOUR: u64 = 0x40ac200000000000;

/// The bits of negative infinity.
pub const MINUS_INFINITY: u64 = 0xfff0000000000000;

/// The bits of -0 in single precision.
pub const SINGLE_MINUS_ZERO: u32 = 0x80000000;

/// The bits of 1e-10 in single precision.
pub const SINGLE_TINY: u32 = 0x2edbe6ff;

} // verus!
