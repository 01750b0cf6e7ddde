//! Addition of decimal128 values.

use vstd::prelude::*;
use crate::math::{pow10, two64, lemma_pow10_pos};
use vstd::arithmetic::power2::{pow2, lemma_pow2_unfold, lemma_pow2_strictly_increases};
use crate::bignum::{Big, big_from_u128, big_mul_pow10, big_add, big_sub, big_lt, big_is_zero};
use crate::types::BidUint128;
use crate::consts::{MASK_SIGN, MASK_SPECIAL, MASK_NAN, MASK_SNAN, MASK_ANY_INF, MASK_INF};
use crate::model::{is_special, is_nan, is_snan, is_inf, is_neg, coeff, exp_field, encode, infinity, qnan_indefinite, ten34, ten33, lemma_ten34, sign_word};
use crate::rounding::round_bid;
use crate::finish::round_to_bid;
use crate::unpack::unpack_finite;

verus! {

/// A NaN operand as it is returned: quiet, with a payload of `10^33` or
/// more replaced by zero and the bits between the class bits and the
/// payload cleared.
pub open spec fn quiet_nan(x: BidUint128) -> BidUint128 {
    if (x.w[1] & 0x00003fffffffffff) as nat * two64() + x.w[0] as nat >= ten33() {
        BidUint128 { w: [0, x.w[1] & 0xfc00000000000000] }
    } else {
        BidUint128 { w: [x.w[0], x.w[1] & 0xfc003fffffffffff] }
    }
}

/// The sum when an operand is infinite or NaN, with the status flags.
pub open spec fn add_special(x: BidUint128, y: BidUint128) -> (BidUint128, u32) {
    if is_nan(x) {
        (quiet_nan(x), if is_snan(x) || is_snan(y) { 1u32 } else { 0u32 })
    } else if is_nan(y) {
        (quiet_nan(y), if is_snan(y) { 1u32 } else { 0u32 })
    } else if is_inf(x) {
        if is_inf(y) && is_neg(x) != is_neg(y) {
            (qnan_indefinite(), 1u32)
        } else {
            (infinity(is_neg(x)), 0u32)
        }
    } else {
        (infinity(is_neg(y)), 0u32)
    }
}

/// The correctly rounded sum of `(-1)^sx * cx * 10^(fx - 6176)` and
/// `(-1)^sy * cy * 10^(fy - 6176)`, with the status flags.
///
/// An exact sum takes the exponent closest to the smaller of the two
/// exponents. A zero sum has that smaller exponent; it is negative when
/// both operands are, or, for operands of opposite signs, when rounding
/// down.
pub open spec fn add_finite(sx: bool, cx: nat, fx: nat, sy: bool, cy: nat, fy: nat, mode: u32) -> (BidUint128, u32) {
    let m: nat = if fx < fy { fx } else { fy };
    let ax = cx * pow10((fx - m) as nat);
    let ay = cy * pow10((fy - m) as nat);
    let e = m - 6176;
    if sx == sy {
        if ax + ay == 0 {
            (encode(sx, 0, m), 0u32)
        } else {
            round_bid(sx, ax + ay, 1, e, e, mode)
        }
    } else if ax > ay {
        round_bid(sx, (ax - ay) as nat, 1, e, e, mode)
    } else if ay > ax {
        round_bid(sy, (ay - ax) as nat, 1, e, e, mode)
    } else {
        (encode(mode == 1, 0, m), 0u32)
    }
}

/// The result and the status flags of `x + y` in rounding `mode`.
pub open spec fn add_result(x: BidUint128, y: BidUint128, mode: u32) -> (BidUint128, u32) {
    if is_special(x) || is_special(y) {
        add_special(x, y)
    } else {
        add_finite(is_neg(x), coeff(x), exp_field(x) as nat, is_neg(y), coeff(y), exp_field(y) as nat, mode)
    }
}

/// Returns a NaN operand as a quiet NaN with a canonical payload.
pub fn quiet_nan_of(x: BidUint128) -> (r: BidUint128)
    ensures
        r == quiet_nan(x),
{
    let w1: u64 = x.w[1];
    let w0: u64 = x.w[0];
    let p: u64 = w1 & 0x00003fffffffffffu64;
    proof {
        lemma_ten34();
        assert(ten33() == 0x0000314dc6448d93nat * two64() + 0x38c15b0a00000000nat);
    }
    if p > 0x0000314dc6448d93u64 || (p == 0x0000314dc6448d93u64 && w0 > 0x38c15b09ffffffffu64) {
        BidUint128 { w: [0, w1 & 0xfc00000000000000u64] }
    } else {
        BidUint128 { w: [w0, w1 & 0xfc003fffffffffffu64] }
    }
}

/// Encodes a zero with biased exponent field `bexp`, which may exceed
/// the canonical range when it was read from the long form.
pub fn zero_with_exp(neg: bool, bexp: u64) -> (r: BidUint128)
    requires
        bexp <= 16383,
    ensures
        r == encode(neg, 0, bexp as nat),
{
    let sign: u64 = if neg { MASK_SIGN } else { 0 };
    assert(sign | (bexp << 49u64) == sign + bexp * 0x2000000000000u64) by (bit_vector)
        requires
            sign == 0 || sign == 0x8000000000000000u64,
            bexp <= 16383,
    ;
    BidUint128 { w: [0, sign | (bexp << 49u64)] }
}

/// The sum when an operand is infinite or NaN.
fn add_special_exec(x: BidUint128, y: BidUint128) -> (res: (BidUint128, u32))
    requires
        is_special(x) || is_special(y),
    ensures
        res == add_special(x, y),
{
    let xw1: u64 = x.w[1];
    let yw1: u64 = y.w[1];
    assert(((xw1 & 0x8000000000000000u64 != 0) != (yw1 & 0x8000000000000000u64 != 0))
        == (xw1 & 0x8000000000000000u64 != yw1 & 0x8000000000000000u64)) by (bit_vector);
    if (xw1 & MASK_NAN) == MASK_NAN {
        let f: u32 = if (xw1 & MASK_SNAN) == MASK_SNAN || (yw1 & MASK_SNAN) == MASK_SNAN { 1 } else { 0 };
        (quiet_nan_of(x), f)
    } else if (yw1 & MASK_NAN) == MASK_NAN {
        let f: u32 = if (yw1 & MASK_SNAN) == MASK_SNAN { 1 } else { 0 };
        (quiet_nan_of(y), f)
    } else if (xw1 & MASK_ANY_INF) == MASK_INF {
        if (yw1 & MASK_ANY_INF) == MASK_INF && (xw1 & MASK_SIGN) != (yw1 & MASK_SIGN) {
            (BidUint128 { w: [0, 0x7c00000000000000u64] }, 1)
        } else {
            let s: u64 = xw1 & MASK_SIGN;
            assert(s | 0x7800000000000000u64 == s + 0x7800000000000000u64
                && (s == 0 || s == 0x8000000000000000u64)) by (bit_vector)
                requires s == xw1 & 0x8000000000000000u64;
            (BidUint128 { w: [0, s | MASK_INF] }, 0)
        }
    } else {
        let s: u64 = yw1 & MASK_SIGN;
        assert(s | 0x7800000000000000u64 == s + 0x7800000000000000u64
            && (s == 0 || s == 0x8000000000000000u64)) by (bit_vector)
            requires s == yw1 & 0x8000000000000000u64;
        (BidUint128 { w: [0, s | MASK_INF] }, 0)
    }
}

/// The correctly rounded sum of two finite values given by their parts.
pub fn add_finite_exec(sx: bool, cx: u128, fx: u64, sy: bool, cy: u128, fy: u64, mode: u32) -> (res: (BidUint128, u32))
    requires
        cx < ten34(),
        cy < ten34(),
        fx <= 16383,
        fy <= 16383,
        cx > 0 ==> fx <= 12287,
        cy > 0 ==> fy <= 12287,
        mode <= 4,
    ensures
        res == add_finite(sx, cx as nat, fx as nat, sy, cy as nat, fy as nat, mode),
{
    let m: u64 = if fx < fy { fx } else { fy };
    let bx = big_from_u128(cx);
    let ax = big_mul_pow10(&bx, fx - m);
    let by = big_from_u128(cy);
    let ay = big_mul_pow10(&by, fy - m);
    let ghost vx = ax.value();
    let ghost vy = ay.value();
    proof {
        lemma_pow10_pos((fx - m) as nat);
        lemma_pow10_pos((fy - m) as nat);
        assert(vx == cx * pow10((fx - m) as nat));
        assert(vy == cy * pow10((fy - m) as nat));
        assert(cx > 0 ==> vx > 0) by (nonlinear_arith)
            requires vx == cx * pow10((fx - m) as nat), pow10((fx - m) as nat) >= 1;
        assert(cy > 0 ==> vy > 0) by (nonlinear_arith)
            requires vy == cy * pow10((fy - m) as nat), pow10((fy - m) as nat) >= 1;
        assert(vx == 0 ==> cx == 0) by (nonlinear_arith)
            requires vx == cx * pow10((fx - m) as nat), pow10((fx - m) as nat) >= 1;
        assert(vy == 0 ==> cy == 0) by (nonlinear_arith)
            requires vy == cy * pow10((fy - m) as nat), pow10((fy - m) as nat) >= 1;
    }
    if sx == sy {
        let s = big_add(&ax, &ay);
        if big_is_zero(&s) {
            return (zero_with_exp(sx, m), 0);
        }
        let e: i64 = m as i64 - 6176;
        round_to_bid(sx, &s, 1, e, e, mode)
    } else if big_lt(&ay, &ax) {
        let s = big_sub(&ax, &ay);
        let e: i64 = m as i64 - 6176;
        round_to_bid(sx, &s, 1, e, e, mode)
    } else if big_lt(&ax, &ay) {
        let s = big_sub(&ay, &ax);
        let e: i64 = m as i64 - 6176;
        round_to_bid(sy, &s, 1, e, e, mode)
    } else {
        (zero_with_exp(mode == 1, m), 0)
    }
}

/// Adds two decimal128 values in rounding mode `rnd_mode`, and raises the
/// status flags of the operation in `pfpsf`.
pub fn bid128_add(x: BidUint128, y: BidUint128, rnd_mode: u32, pfpsf: &mut u32) -> (res: BidUint128)
    requires
        rnd_mode <= 4,
    ensures
        res == add_result(x, y, rnd_mode).0,
        *final(pfpsf) == *old(pfpsf) | add_result(x, y, rnd_mode).1,
{
    if (x.w[1] & MASK_SPECIAL) == MASK_SPECIAL || (y.w[1] & MASK_SPECIAL) == MASK_SPECIAL {
        let (r, f) = add_special_exec(x, y);
        *pfpsf = *pfpsf | f;
        return r;
    }
    let (sx, fx, cx) = unpack_finite(x);
    let (sy, fy, cy) = unpack_finite(y);
    proof {
        lemma_ten34();
    }
    let (r, f) = add_finite_exec(sx, cx, fx, sy, cy, fy, rnd_mode);
    *pfpsf = *pfpsf | f;
    r
}

/// The index of the highest set bit of `value` (its binary logarithm,
/// rounded down), for a value below `2^53`.
pub fn bits(value: u64) -> (r: usize)
    requires
        0 < value < 0x20000000000000,
    ensures
        r < 53,
        pow2(r as nat) <= value < pow2((r + 1) as nat),
{
    proof {
        vstd::arithmetic::power2::lemma2_to64_rest();
    }
    let mut r: usize = 0;
    let mut p: u64 = 1;
    proof {
        vstd::arithmetic::power2::lemma2_to64();
    }
    while p <= value / 2
        invariant
            0 < value < 0x20000000000000,
            p == pow2(r as nat),
            0 < p <= value,
            r < 53,
            pow2(53) == 0x20000000000000,
        decreases value - p,
    {
        proof {
            lemma_pow2_unfold((r + 1) as nat);
        }
        p = p * 2;
        r = r + 1;
        proof {
            if r >= 53 {
                if r > 53 {
                    lemma_pow2_strictly_increases(53, r as nat);
                }
            }
        }
    }
    proof {
        lemma_pow2_unfold((r + 1) as nat);
    }
    r
}

} // verus!
