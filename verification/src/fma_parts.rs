//! Pieces of the fused multiply-add: 256-bit sums and differences, digit
//! counts of 256-bit numbers, and the correction of a result rounded to
//! nearest into one rounded in another mode.

use vstd::prelude::*;
use crate::math::{pow10, two64, ndig, lemma_pow10_pos};
use crate::bignum::{Big, val, wpow, big_add, big_sub, big_lt, big_is_zero, big_from_u128, big_mul_pow10, big_ndigits, big_words, lemma_val4};
use crate::internal::double_word;
use crate::add::zero_with_exp;
use crate::rounding::{round_bid, round_class, carry_class};
use crate::finish::{round_to_bid_ext, emin_band_exec};
use crate::types::{BidUint128, BidUint256};
use crate::consts::{MASK_SIGN, MASK_COEFF};
use crate::model::{encode, infinity, ten34, ten33, lemma_ten34, pack};

verus! {

/// `2^256`.
pub open spec fn two256() -> nat {
    two64() * two64() * two64() * two64()
}

/// The number that four words spell, as a `Big`.
pub(crate) fn big_of256(x: BidUint256) -> (r: Big)
    ensures
        r.value() == x.value(),
        r.limbs.len() == 4,
{
    let mut v: Vec<u64> = Vec::new();
    v.push(x.w[0]);
    v.push(x.w[1]);
    v.push(x.w[2]);
    v.push(x.w[3]);
    proof {
        lemma_val4(v@);
    }
    Big { limbs: v }
}

/// Four words for a number below `2^256`.
fn words256(a: &Big) -> (r: BidUint256)
    requires
        a.value() < two256(),
    ensures
        r.value() == a.value(),
{
    proof {
        reveal_with_fuel(wpow, 5);
        assert(wpow(4) == two256());
    }
    let w = big_words(a, 4);
    proof {
        lemma_val4(w@);
    }
    BidUint256 { w: [w[0], w[1], w[2], w[3]] }
}

/// Stores `x + y` in `*pz`; the sum must fit in 256 bits.
pub fn bid_add256(x: BidUint256, y: BidUint256, pz: &mut BidUint256)
    requires
        x.value() + y.value() < two256(),
    ensures
        final(pz).value() == x.value() + y.value(),
{
    let a = big_of256(x);
    let b = big_of256(y);
    let s = big_add(&a, &b);
    *pz = words256(&s);
}

/// Stores `x - y` in `*pz`; `x` must not be smaller than `y`.
pub fn bid_sub256(x: BidUint256, y: BidUint256, pz: &mut BidUint256)
    requires
        x.value() >= y.value(),
    ensures
        final(pz).value() == x.value() - y.value(),
{
    let a = big_of256(x);
    let b = big_of256(y);
    proof {
        assert(x.value() < two256()) by {
            lemma_val4(a.limbs@);
            crate::bignum::lemma_val_bound(a.limbs@);
            reveal_with_fuel(wpow, 5);
        }
    }
    let s = big_sub(&a, &b);
    *pz = words256(&s);
}

/// The number of decimal digits of a 256-bit number, counting zero as
/// one digit and capped at 69.
pub open spec fn nr_digits256(v: nat) -> int {
    if v == 0 {
        1
    } else if ndig(v) > 68 {
        69
    } else {
        ndig(v) as int
    }
}

/// The number of decimal digits of `r256`, as `nr_digits256` says.
pub fn bid_bid_nr_digits256(r256: BidUint256) -> (r: i32)
    ensures
        r == nr_digits256(r256.value()),
{
    let a = big_of256(r256);
    let d: u64 = big_ndigits(&a);
    if d == 0 {
        1
    } else if d > 68 {
        69
    } else {
        d as i32
    }
}

/// Whether the correction from rounding to nearest moves the coefficient
/// up by one: the value lay above the result and the mode rounds away
/// from zero for this sign.
pub open spec fn correction_up(rnd_mode: u32, neg: bool, lt_mid: bool, mid_gt_even: bool) -> bool {
    (!neg && ((rnd_mode == 2 && lt_mid) || ((rnd_mode == 4 || rnd_mode == 2) && mid_gt_even)))
        || (neg && ((rnd_mode == 1 && lt_mid) || ((rnd_mode == 4 || rnd_mode == 1) && mid_gt_even)))
}

/// Whether the correction moves the coefficient down by one: the value lay
/// below the result and the mode rounds towards zero for this sign.
pub open spec fn correction_down(rnd_mode: u32, neg: bool, mid_lt_even: bool, gt_mid: bool) -> bool {
    (mid_lt_even || gt_mid) && ((neg && (rnd_mode == 2 || rnd_mode == 3)) || (!neg && (rnd_mode == 1 || rnd_mode == 3)))
}

/// The corrected coefficient, unbiased exponent and the flags raised on
/// the way (before an overflow is looked at).
pub open spec fn corrected(rnd_mode: u32, neg: bool, c: nat, e: int, mid_lt_even: bool, mid_gt_even: bool, lt_mid: bool, gt_mid: bool) -> (nat, int, u32) {
    let inexact: u32 = if lt_mid || gt_mid || mid_lt_even || mid_gt_even { 0x20 } else { 0 };
    if correction_up(rnd_mode, neg, lt_mid, mid_gt_even) {
        if c + 1 == ten34() {
            (ten33(), e + 1, inexact)
        } else {
            (c + 1, e, inexact)
        }
    } else if correction_down(rnd_mode, neg, mid_lt_even, gt_mid) {
        if c - 1 == ten33() - 1 {
            if e > -6176 {
                ((ten34() - 1) as nat, e - 1, inexact)
            } else {
                ((c - 1) as nat, e, inexact | 0x10)
            }
        } else {
            ((c - 1) as nat, e, inexact)
        }
    } else {
        (c, e, inexact)
    }
}

/// The result of the correction and the flags it raises: the corrected
/// value, or, when its exponent exceeds the range, infinity when the mode
/// rounds away from zero for this sign and the largest finite magnitude
/// otherwise. Taking one from a zero coefficient wraps both words round
/// to all ones.
pub open spec fn correction_result(rnd_mode: u32, neg: bool, c: nat, e: int, mid_lt_even: bool, mid_gt_even: bool, lt_mid: bool, gt_mid: bool) -> (BidUint128, u32) {
    let (c2, e2, f) = corrected(rnd_mode, neg, c, e, mid_lt_even, mid_gt_even, lt_mid, gt_mid);
    if e2 > 6111 {
        if (!neg && (rnd_mode == 2 || rnd_mode == 4)) || (neg && (rnd_mode == 1 || rnd_mode == 4)) {
            (infinity(neg), f | 0x28)
        } else {
            (encode(neg, (ten34() - 1) as nat, 12287), f | 0x28)
        }
    } else if c == 0 && !correction_up(rnd_mode, neg, lt_mid, mid_gt_even) && correction_down(rnd_mode, neg, mid_lt_even, gt_mid) {
        (BidUint128 { w: [0xffff_ffff_ffff_ffff, 0xffff_ffff_ffff_ffff] }, f)
    } else {
        (encode(neg, c2, (e2 + 6176) as nat), f)
    }
}

/// The corrected coefficient and exponent, with the flags raised on the way.
fn correct_coeff(rnd_mode: u32, neg: bool, c: u128, unbexp: i32, is_midpoint_lt_even: bool, is_midpoint_gt_even: bool, is_inexact_lt_midpoint: bool, is_inexact_gt_midpoint: bool) -> (res: (u128, i32, u32))
    requires
        rnd_mode <= 4,
        -6176 <= unbexp <= 1_000_000,
        c < ten34(),
    ensures
        !(c == 0 && !correction_up(rnd_mode, neg, is_inexact_lt_midpoint, is_midpoint_gt_even)
            && correction_down(rnd_mode, neg, is_midpoint_lt_even, is_inexact_gt_midpoint))
            ==> res.0 == corrected(rnd_mode, neg, c as nat, unbexp as int, is_midpoint_lt_even, is_midpoint_gt_even, is_inexact_lt_midpoint, is_inexact_gt_midpoint).0,
        res.1 == corrected(rnd_mode, neg, c as nat, unbexp as int, is_midpoint_lt_even, is_midpoint_gt_even, is_inexact_lt_midpoint, is_inexact_gt_midpoint).1,
        res.2 == corrected(rnd_mode, neg, c as nat, unbexp as int, is_midpoint_lt_even, is_midpoint_gt_even, is_inexact_lt_midpoint, is_inexact_gt_midpoint).2,
        res.0 < ten34(),
        -6176 <= res.1 <= 1_000_001,
{
    proof {
        lemma_ten34();
    }
    let inexact: u32 = if is_inexact_lt_midpoint || is_inexact_gt_midpoint || is_midpoint_lt_even || is_midpoint_gt_even { 0x20 } else { 0 };
    let mut f: u32 = inexact;
    let mut c2: u128 = c;
    let mut e: i32 = unbexp;
    if (!neg && ((rnd_mode == 2 && is_inexact_lt_midpoint) || ((rnd_mode == 4 || rnd_mode == 2) && is_midpoint_gt_even)))
        || (neg && ((rnd_mode == 1 && is_inexact_lt_midpoint) || ((rnd_mode == 4 || rnd_mode == 1) && is_midpoint_gt_even))) {
        c2 = c + 1;
        if c2 == 10000000000000000000000000000000000u128 {
            c2 = 1000000000000000000000000000000000u128;
            e = e + 1;
        }
    } else if (is_midpoint_lt_even || is_inexact_gt_midpoint) && ((neg && (rnd_mode == 2 || rnd_mode == 3)) || (!neg && (rnd_mode == 1 || rnd_mode == 3))) {
        c2 = if c == 0 { 0 } else { c - 1 };
        if c2 == 999999999999999999999999999999999u128 {
            if e > -6176 {
                c2 = 9999999999999999999999999999999999u128;
                e = e - 1;
            } else {
                f = f | 0x10;
            }
        }
    }
    (c2, e, f)
}

/// Corrects `*ptrres`, a result rounded to nearest with coefficient `c`
/// (at most `10^34 - 1`, possibly zero),
/// its sign, and unbiased exponent `unbexp` (which may exceed the range),
/// into the result rounded in `rnd_mode`, using the four indicators of
/// where the exact value lay; raises inexact, underflow and overflow as
/// they apply.
pub fn bid_rounding_correction(
    rnd_mode: u32,
    is_inexact_lt_midpoint: bool,
    is_inexact_gt_midpoint: bool,
    is_midpoint_lt_even: bool,
    is_midpoint_gt_even: bool,
    unbexp: i32,
    ptrres: &mut BidUint128,
    ptrfpsf: &mut u32,
)
    requires
        rnd_mode <= 4,
        -6176 <= unbexp <= 1_000_000,
        ((old(ptrres).w[1] & MASK_COEFF) as nat) * two64() + old(ptrres).w[0] as nat <= ten34() - 1,
    ensures
        *final(ptrres) == correction_result(rnd_mode, old(ptrres).w[1] & MASK_SIGN != 0,
            ((old(ptrres).w[1] & MASK_COEFF) as nat) * two64() + old(ptrres).w[0] as nat, unbexp as int,
            is_midpoint_lt_even, is_midpoint_gt_even, is_inexact_lt_midpoint, is_inexact_gt_midpoint).0,
        *final(ptrfpsf) == *old(ptrfpsf) | correction_result(rnd_mode, old(ptrres).w[1] & MASK_SIGN != 0,
            ((old(ptrres).w[1] & MASK_COEFF) as nat) * two64() + old(ptrres).w[0] as nat, unbexp as int,
            is_midpoint_lt_even, is_midpoint_gt_even, is_inexact_lt_midpoint, is_inexact_gt_midpoint).1,
{
    proof {
        lemma_ten34();
    }
    let w1: u64 = ptrres.w[1];
    let sign: u64 = w1 & MASK_SIGN;
    let neg: bool = sign != 0;
    assert(sign == 0 || sign == 0x8000000000000000u64) by (bit_vector)
        requires sign == w1 & 0x8000000000000000u64;
    let hi: u64 = w1 & MASK_COEFF;
    let lo: u64 = ptrres.w[0];
    let c: u128 = ((hi as u128) << 64u128) | (lo as u128);
    assert(c == (hi as u128) * 0x1_0000_0000_0000_0000u128 + (lo as u128)) by (bit_vector)
        requires c == ((hi as u128) << 64u128) | (lo as u128), hi == w1 & 0x0001ffffffffffffu64;
    let (c2, e, f0) = correct_coeff(rnd_mode, neg, c, unbexp, is_midpoint_lt_even, is_midpoint_gt_even, is_inexact_lt_midpoint, is_inexact_gt_midpoint);
    let mut f: u32 = f0;
    let r: BidUint128;
    if e > 6111 {
        f = f | 0x28;
        if (sign == 0 && (rnd_mode == 2 || rnd_mode == 4)) || (sign != 0 && (rnd_mode == 1 || rnd_mode == 4)) {
            assert(sign | 0x7800000000000000u64 == sign + 0x7800000000000000u64) by (bit_vector)
                requires sign == 0 || sign == 0x8000000000000000u64;
            r = BidUint128 { w: [0, sign | 0x7800000000000000u64] };
        } else {
            r = pack(sign, 12287, 9999999999999999999999999999999999u128);
        }
    } else if c == 0 && !((!neg && ((rnd_mode == 2 && is_inexact_lt_midpoint) || ((rnd_mode == 4 || rnd_mode == 2) && is_midpoint_gt_even)))
        || (neg && ((rnd_mode == 1 && is_inexact_lt_midpoint) || ((rnd_mode == 4 || rnd_mode == 1) && is_midpoint_gt_even))))
        && (is_midpoint_lt_even || is_inexact_gt_midpoint) && ((neg && (rnd_mode == 2 || rnd_mode == 3)) || (!neg && (rnd_mode == 1 || rnd_mode == 3))) {
        r = BidUint128 { w: [0xffff_ffff_ffff_ffffu64, 0xffff_ffff_ffff_ffffu64] };
    } else {
        r = pack(sign, (e + 6176) as u64, c2);
    }
    *ptrres = r;
    *ptrfpsf = *ptrfpsf | f;
}

/// The magnitude and sign of `c4 +/- c3 * 10^scale`: added when the signs
/// agree, else the smaller taken from the larger, with the sign of `z`
/// when `c3 * 10^scale` is not the smaller.
pub open spec fn add_and_round_sum(c3: nat, scale: nat, c4: nat, z_neg: bool, p_neg: bool) -> (nat, bool) {
    let r = c3 * pow10(scale);
    if p_neg == z_neg {
        (c4 + r, p_neg)
    } else if r >= c4 {
        ((r - c4) as nat, z_neg)
    } else {
        ((c4 - r) as nat, p_neg)
    }
}

/// Adds or subtracts `c4 * 10^e4` (the product, with sign `p_sign`) and
/// `c3 * 10^(e4 + scale)` (the addend, with sign `z_sign`), where
/// `scale = q4 - delta - q3`, and rounds the sum to decimal128 in
/// `rnd_mode`, keeping the exponent `e4` when the sum is exact there.
/// The result goes to `*ptrres`, the flags it raises to `*ptrfpsf`, and
/// the four indicators tell where the sum lay against its rounding to
/// nearest (at 34 digits with the exponent unbounded, when that rounding
/// carries into the least exponent). An exact cancellation gives a zero with the exponent `e4`
/// (at least the least one), negative only when rounding down, and
/// leaves the flags and the indicators alone.
pub fn bid_add_and_round(
    q3: i32,
    q4: i32,
    e4: i32,
    delta: i32,
    p34: i32,
    z_sign: u64,
    p_sign: u64,
    c3: BidUint128,
    c4: BidUint256,
    rnd_mode: u32,
    ptr_is_midpoint_lt_even: &mut bool,
    ptr_is_midpoint_gt_even: &mut bool,
    ptr_is_inexact_lt_midpoint: &mut bool,
    ptr_is_inexact_gt_midpoint: &mut bool,
    ptrfpsf: &mut u32,
    ptrres: &mut BidUint128,
)
    requires
        p34 == 34,
        0 <= q4 - delta - q3 <= 68,
        -1_000_000 <= q4 && q4 <= 1_000_000 && -1_000_000 <= q3 && q3 <= 1_000_000 && -1_000_000 <= delta && delta <= 1_000_000,
        z_sign == 0 || z_sign == MASK_SIGN,
        p_sign == 0 || p_sign == MASK_SIGN,
        c3.value() * pow10((q4 - delta - q3) as nat) < pow10(69),
        0 < c4.value() < pow10(69),
        -1_000_000 <= e4 <= 6111,
        rnd_mode <= 4,
    ensures
        ({
            let (n, neg) = add_and_round_sum(c3.value(), (q4 - delta - q3) as nat, c4.value(), z_sign != 0, p_sign != 0);
            if n == 0 {
                &&& *final(ptrres) == encode(rnd_mode == 1, 0, (if e4 < -6176 { 0 } else { e4 + 6176 }) as nat)
                &&& *final(ptrfpsf) == *old(ptrfpsf)
                &&& *final(ptr_is_midpoint_lt_even) == *old(ptr_is_midpoint_lt_even)
                &&& *final(ptr_is_midpoint_gt_even) == *old(ptr_is_midpoint_gt_even)
                &&& *final(ptr_is_inexact_lt_midpoint) == *old(ptr_is_inexact_lt_midpoint)
                &&& *final(ptr_is_inexact_gt_midpoint) == *old(ptr_is_inexact_gt_midpoint)
            } else {
                &&& *final(ptrres) == round_bid(neg, n, 1, e4 as int, e4 as int, rnd_mode).0
                &&& *final(ptrfpsf) == *old(ptrfpsf) | round_bid(neg, n, 1, e4 as int, e4 as int, rnd_mode).1
                &&& (*final(ptr_is_midpoint_lt_even), *final(ptr_is_midpoint_gt_even), *final(ptr_is_inexact_lt_midpoint),
                    *final(ptr_is_inexact_gt_midpoint)) == carry_class(n, e4 as int)
            }
        }),
{
    proof {
        lemma_ten34();
        reveal_with_fuel(pow10, 2);
    }
    let scale: u64 = (q4 - delta - q3) as u64;
    let b3 = big_from_u128(double_word(c3));
    let r = big_mul_pow10(&b3, scale);
    let b4 = big_of256(c4);
    let ghost rv = r.value();
    proof {
        assert(scale as nat == (q4 - delta - q3) as nat);
    }
    let z_neg: bool = z_sign != 0;
    let p_neg: bool = p_sign != 0;
    let n: Big;
    let neg: bool;
    if p_neg == z_neg {
        n = big_add(&b4, &r);
        neg = p_neg;
    } else if !big_lt(&r, &b4) {
        n = big_sub(&r, &b4);
        neg = z_neg;
    } else {
        n = big_sub(&b4, &r);
        neg = p_neg;
    }
    if big_is_zero(&n) {
        let ez: u64 = if e4 < -6176 { 0 } else { (e4 + 6176) as u64 };
        *ptrres = zero_with_exp(rnd_mode == 1, ez);
        return;
    }
    proof {
        assert(n.limbs.len() <= 10);
    }
    let (res, cls0) = round_to_bid_ext(neg, &n, 1, e4 as i64, e4 as i64, rnd_mode);
    let (top, _half, _carry, tie) = emin_band_exec(&n, e4 as i64);
    let cls: (bool, bool, bool, bool) = if top && tie { (true, false, false, false) } else { cls0 };
    *ptrres = res.0;
    *ptrfpsf = *ptrfpsf | res.1;
    *ptr_is_midpoint_lt_even = cls.0;
    *ptr_is_midpoint_gt_even = cls.1;
    *ptr_is_inexact_lt_midpoint = cls.2;
    *ptr_is_inexact_gt_midpoint = cls.3;
}

} // verus!
