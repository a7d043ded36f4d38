//! Doubles as bit patterns.
//!
//! The library carries every scalar as the 64-bit pattern of an IEEE-754
//! double. It writes three constants, compares with zero, and moves
//! patterns around; all other arithmetic is the caller's.

use vstd::prelude::*;

verus! {

/// Bit pattern of the double zero: the gradient of a fresh node.
pub const ZERO: u64 = 0;

/// Bit pattern of the double one: the seed of a backward pass.
pub const ONE: u64 = 0x3FF0_0000_0000_0000;

/// Bit pattern of the double minus one: the exponent that turns a divisor
/// into its reciprocal.
pub const NEG_ONE: u64 = 0xBFF0_0000_0000_0000;

/// Bit pattern of plus infinity: the largest pattern that is a number with
/// the sign bit clear. Above it, up to the sign bit, lie the NaNs.
pub const INFINITY: u64 = 0x7FF0_0000_0000_0000;

/// Bit pattern of minus zero: the sign bit alone.
pub const NEG_ZERO: u64 = 0x8000_0000_0000_0000;

/// Whether the double with this bit pattern compares greater than zero: a
/// positive number or plus infinity, and neither a zero nor a NaN.
pub open spec fn positive(bits: u64) -> bool {
    0 < bits <= INFINITY
}

/// Whether the double with this bit pattern compares greater than or equal
/// to zero: plus or minus zero, a positive number or plus infinity, and no
/// NaN.
pub open spec fn non_negative(bits: u64) -> bool {
    bits <= INFINITY || bits == NEG_ZERO
}

/// The greater of the double `x` and zero: `x` where `x` is greater than
/// zero, and plus zero for every other `x`, a NaN and minus zero among them.
pub open spec fn rectified(bits: u64) -> u64 {
    if positive(bits) {
        bits
    } else {
        ZERO
    }
}

/// Whether the double with this bit pattern compares greater than or equal
/// to zero.
pub fn is_non_negative(bits: u64) -> (r: bool)
    ensures
        r == non_negative(bits),
{
    bits <= INFINITY || bits == NEG_ZERO
}

/// The greater of the double with this bit pattern and zero.
pub fn rectify(bits: u64) -> (r: u64)
    ensures
        r == rectified(bits),
{
    if 0 < bits && bits <= INFINITY {
        bits
    } else {
        ZERO
    }
}

} // verus!
