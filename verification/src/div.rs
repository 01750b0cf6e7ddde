//! Division of decimal128 values.

use vstd::prelude::*;
use crate::math::two64;
use crate::bignum::big_from_u128;
use crate::types::BidUint128;
use crate::consts::{MASK_SIGN, MASK_SPECIAL, MASK_NAN, MASK_SNAN, MASK_ANY_INF, MASK_INF};
use crate::model::{lemma_classes, is_special, is_nan, is_snan, is_inf, is_neg, coeff, exp_field, encode, infinity, qnan_indefinite, ten34, lemma_ten34, pack};
use crate::rounding::round_bid;
use crate::finish::round_to_bid;
use crate::unpack::unpack_finite;
use crate::add::{quiet_nan, quiet_nan_of, zero_with_exp};
use crate::internal::lemma_or_zero;

verus! {

/// The biased exponent of a zero quotient: the difference of the
/// exponents, clamped to the range of decimal128.
pub open spec fn div_zero_exp(x: BidUint128, y: BidUint128) -> nat {
    let d = exp_field(x) - exp_field(y) + 6176;
    if d < 0 {
        0
    } else if d > 12287 {
        12287
    } else {
        d as nat
    }
}

/// The status flag that division adds when the coefficient of `x` is a
/// multiple of that of `y` and the quotient's exponent lies below the
/// range: underflow, when the incoming flags already hold inexact.
pub open spec fn div_extra_flag(x: BidUint128, y: BidUint128, old: u32) -> u32 {
    if coeff(x) % coeff(y) == 0 && exp_field(x) - exp_field(y) + 6176 < 0 && old & 0x20 != 0 {
        0x10
    } else {
        0
    }
}

/// The result and the status flags of `x / y` in rounding `mode`, given
/// the incoming flags `old`.
///
/// A finite nonzero quotient is correctly rounded and, when exact, takes
/// the representable exponent closest to the difference of the exponents.
pub open spec fn div_result(x: BidUint128, y: BidUint128, mode: u32, old: u32) -> (BidUint128, u32) {
    let s = is_neg(x) != is_neg(y);
    if is_nan(x) {
        (quiet_nan(x), if is_snan(x) || is_snan(y) { 1u32 } else { 0u32 })
    } else if is_special(x) {
        if is_inf(y) {
            (qnan_indefinite(), 1u32)
        } else if is_nan(y) {
            (quiet_nan(y), if is_snan(y) { 1u32 } else { 0u32 })
        } else {
            (infinity(s), 0u32)
        }
    } else if is_nan(y) {
        (quiet_nan(y), if is_snan(y) { 1u32 } else { 0u32 })
    } else if is_special(y) {
        (encode(s, 0, 0), 0u32)
    } else if coeff(x) == 0 {
        if coeff(y) == 0 {
            (qnan_indefinite(), 1u32)
        } else {
            (encode(s, 0, div_zero_exp(x, y)), 0u32)
        }
    } else if coeff(y) == 0 {
        (infinity(s), 4u32)
    } else {
        let e = exp_field(x) - exp_field(y);
        let r = round_bid(s, coeff(x), coeff(y), e, e, mode);
        (r.0, r.1 | div_extra_flag(x, y, old))
    }
}

/// The quotient when an operand is infinite or NaN, or `x` is zero, or
/// `y` is zero.
fn div_special_exec(x: BidUint128, y: BidUint128, sx: bool, fx: u64, cx: u128, sy: bool, fy: u64, cy: u128) -> (res: (BidUint128, u32))
    requires
        is_special(x) || is_special(y) || coeff(x) == 0 || coeff(y) == 0,
        sx == is_neg(x) && fx == exp_field(x) && cx == coeff(x),
        sy == is_neg(y) && fy == exp_field(y) && cy == coeff(y),
        fx <= 16383 && fy <= 16383,
    ensures
        res.0 == div_result(x, y, 0, 0).0,
        res.1 == div_result(x, y, 0, 0).1,
{
    let xw1: u64 = x.w[1];
    let yw1: u64 = y.w[1];
    let s: bool = sx != sy;
    let sgn: u64 = if s { MASK_SIGN } else { 0 };
    let qnan: BidUint128 = BidUint128 { w: [0, 0x7c00000000000000u64] };
    let inf: BidUint128 = BidUint128 { w: [0, if s { 0xf800000000000000u64 } else { 0x7800000000000000u64 }] };
    if (xw1 & MASK_NAN) == MASK_NAN {
        let f: u32 = if (xw1 & MASK_SNAN) == MASK_SNAN || (yw1 & MASK_SNAN) == MASK_SNAN { 1 } else { 0 };
        (quiet_nan_of(x), f)
    } else if (xw1 & MASK_SPECIAL) == MASK_SPECIAL {
        if (yw1 & MASK_ANY_INF) == MASK_INF {
            (qnan, 1)
        } else if (yw1 & MASK_NAN) == MASK_NAN {
            let f: u32 = if (yw1 & MASK_SNAN) == MASK_SNAN { 1 } else { 0 };
            (quiet_nan_of(y), f)
        } else {
            (inf, 0)
        }
    } else if (yw1 & MASK_NAN) == MASK_NAN {
        let f: u32 = if (yw1 & MASK_SNAN) == MASK_SNAN { 1 } else { 0 };
        (quiet_nan_of(y), f)
    } else if (yw1 & MASK_SPECIAL) == MASK_SPECIAL {
        (zero_with_exp(s, 0), 0)
    } else if cx == 0 {
        if cy == 0 {
            (qnan, 1)
        } else {
            let d: i64 = fx as i64 - fy as i64 + 6176;
            let de: u64 = if d < 0 { 0 } else if d > 12287 { 12287 } else { d as u64 };
            (zero_with_exp(s, de), 0)
        }
    } else {
        (inf, 4)
    }
}

/// Divides `x` by `y` in rounding mode `rnd_mode`, and raises the status
/// flags of the operation in `pfpsf`.
pub fn bid128_div(x: BidUint128, y: BidUint128, rnd_mode: u32, pfpsf: &mut u32) -> (res: BidUint128)
    requires
        rnd_mode <= 4,
    ensures
        res == div_result(x, y, rnd_mode, *old(pfpsf)).0,
        *final(pfpsf) == *old(pfpsf) | div_result(x, y, rnd_mode, *old(pfpsf)).1,
{
    proof {
        lemma_ten34();
        lemma_classes(x);
        lemma_classes(y);
    }
    let (sx, fx, cx) = unpack_finite(x);
    let (sy, fy, cy) = unpack_finite(y);
    if (x.w[1] & MASK_SPECIAL) == MASK_SPECIAL || (y.w[1] & MASK_SPECIAL) == MASK_SPECIAL || cx == 0 || cy == 0 {
        let (r, f) = div_special_exec(x, y, sx, fx, cx, sy, fy, cy);
        *pfpsf = *pfpsf | f;
        return r;
    }
    let old: u32 = *pfpsf;
    let n = big_from_u128(cx);
    let e: i64 = fx as i64 - fy as i64;
    let (r, f) = round_to_bid(sx != sy, &n, cy, e, e, rnd_mode);
    let extra: u32 = if cx % cy == 0 && (fx as i64) - (fy as i64) + 6176 < 0 && old & 0x20 != 0 { 0x10 } else { 0 };
    *pfpsf = old | (f | extra);
    r
}

} // verus!
