//! Rounding modes, status flags and the encoding masks of decimal128.

use vstd::prelude::*;

verus! {

/// Rounding to nearest, ties to even.
pub const BID_ROUNDING_TO_NEAREST: u32 = 0x0;

/// Rounding towards minus infinity.
pub const BID_ROUNDING_DOWN: u32 = 0x1;

/// Rounding towards plus infinity.
pub const BID_ROUNDING_UP: u32 = 0x2;

/// Rounding towards zero.
pub const BID_ROUNDING_TO_ZERO: u32 = 0x3;

/// Rounding to nearest, ties away from zero.
pub const BID_ROUNDING_TIES_AWAY: u32 = 0x4;

/// Flag value meaning that no exception occurred.
pub const BID_EXACT_STATUS: u32 = 0x00000000;

/// No exception.
pub const BID_NO_EXCEPTION: u32 = 0x00;

/// Invalid operation.
pub const BID_INVALID_EXCEPTION: u32 = 0x01;

/// Denormal operand.
pub const BID_DENORMAL_EXCEPTION: u32 = 0x02;

/// Division by zero.
pub const BID_ZERO_DIVIDE_EXCEPTION: u32 = 0x04;

/// Overflow.
pub const BID_OVERFLOW_EXCEPTION: u32 = 0x08;

/// Underflow.
pub const BID_UNDERFLOW_EXCEPTION: u32 = 0x10;

/// Inexact result.
pub const BID_INEXACT_EXCEPTION: u32 = 0x20;

/// Underflow together with an inexact result.
pub const BID_UNDERFLOW_INEXACT_EXCEPTION: u32 = 0x30;

/// Overflow together with an inexact result.
pub const BID_OVERFLOW_INEXACT_EXCEPTION: u32 = 0x28;

/// The sign bit of the high word.
pub const MASK_SIGN: u64 = 0x8000000000000000;

/// The bits that mark a NaN.
pub const MASK_NAN: u64 = 0x7c00000000000000;

/// The bits that mark a signaling NaN.
pub const MASK_SNAN: u64 = 0x7e00000000000000;

/// The bits that mark infinity or NaN.
pub const MASK_SPECIAL: u64 = 0x7800000000000000;

/// The bits of the high word tested when telling infinity from NaN.
pub const MASK_ANY_INF: u64 = 0x7c00000000000000;

/// The pattern of infinity.
pub const MASK_INF: u64 = 0x7800000000000000;

/// The two steering bits of the combination field.
pub const MASK_STEERING_BITS: u64 = 0x6000000000000000;

/// The coefficient bits of the high word.
pub const MASK_COEFF: u64 = 0x0001ffffffffffff;

/// The exponent bits of the high word.
pub const MASK_EXP: u64 = 0x7ffe000000000000;

/// Bias of the decimal128 exponent.
pub const DECIMAL_EXPONENT_BIAS_128: i32 = 6176;

/// Largest biased decimal128 exponent.
pub const DECIMAL_MAX_EXPON_128: i32 = 12287;

/// Precision of decimal128 in decimal digits.
pub const MAX_FORMAT_DIGITS_128: i32 = 34;

} // verus!
