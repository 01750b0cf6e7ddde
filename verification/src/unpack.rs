//! Reading the fields of a decimal128 encoding.

use vstd::prelude::*;
use crate::math::two64;
use crate::types::BidUint128;
use crate::consts::{MASK_SIGN, MASK_SPECIAL, MASK_STEERING_BITS, MASK_EXP, MASK_COEFF};
use crate::model::{is_special, is_neg, is_steered, exp_field, raw_coeff, coeff, ten34, ten33, lemma_ten34};

verus! {

/// What the coefficient output of `unpack_bid128_value` holds for an
/// infinity or a NaN: the sign and class bits, and a canonical payload.
pub open spec fn special_payload(x: BidUint128) -> BidUint128 {
    if x.w[1] & 0x7c00000000000000 == 0x7800000000000000 {
        BidUint128 { w: [0, x.w[1] & 0xf800000000000000] }
    } else if (x.w[1] & 0x00003fffffffffff) as nat * two64() + x.w[0] as nat >= ten33() {
        BidUint128 { w: [0, x.w[1] & 0xfe00000000000000] }
    } else {
        BidUint128 { w: [x.w[0], x.w[1] & 0xfe003fffffffffff] }
    }
}

/// The biased exponent field of `x`, read where the combination field puts it.
fn exp_field_of(w1: u64) -> (r: u64)
    ensures
        r == (if w1 & MASK_STEERING_BITS == MASK_STEERING_BITS {
            ((w1 << 2u64) & MASK_EXP) >> 49u64
        } else {
            (w1 & MASK_EXP) >> 49u64
        }),
        r <= 16383,
        w1 & MASK_STEERING_BITS != MASK_STEERING_BITS ==> r <= 12287,
{
    if (w1 & MASK_STEERING_BITS) == MASK_STEERING_BITS {
        let r: u64 = ((w1 << 2u64) & MASK_EXP) >> 49u64;
        assert(r <= 16383) by (bit_vector)
            requires r == ((w1 << 2u64) & 0x7ffe000000000000u64) >> 49u64;
        r
    } else {
        let r: u64 = (w1 & MASK_EXP) >> 49u64;
        assert(r <= 12287) by (bit_vector)
            requires
                r == (w1 & 0x7ffe000000000000u64) >> 49u64,
                w1 & 0x6000000000000000u64 != 0x6000000000000000u64,
        ;
        r
    }
}

/// The two words of the short coefficient field as one integer.
fn raw_coeff_of(x: BidUint128) -> (r: u128)
    ensures
        r == raw_coeff(x),
{
    let w1: u64 = x.w[1];
    let hi: u64 = w1 & MASK_COEFF;
    let lo: u64 = x.w[0];
    let r: u128 = ((hi as u128) << 64u128) | (lo as u128);
    assert(r == (hi as u128) * 0x1_0000_0000_0000_0000u128 + (lo as u128)) by (bit_vector)
        requires
            r == ((hi as u128) << 64u128) | (lo as u128),
            hi == w1 & 0x0001ffffffffffffu64,
    ;
    r
}

/// The sign, the biased exponent field and the coefficient of an
/// encoding, read as for a finite value.
pub fn unpack_finite(x: BidUint128) -> (res: (bool, u64, u128))
    ensures
        res.0 == is_neg(x),
        res.1 == exp_field(x),
        res.2 == coeff(x),
        res.2 < ten34(),
        res.1 <= 16383,
        !is_steered(x) ==> res.1 <= 12287,
{
    proof {
        lemma_ten34();
    }
    let w1: u64 = x.w[1];
    let neg: bool = (w1 & MASK_SIGN) != 0;
    let f: u64 = exp_field_of(w1);
    let raw: u128 = raw_coeff_of(x);
    let c: u128 = if (w1 & MASK_STEERING_BITS) == MASK_STEERING_BITS
        || raw >= 10000000000000000000000000000000000u128 {
        0
    } else {
        raw
    };
    (neg, f, c)
}

/// Unpacks `x` into its sign bit, biased exponent and coefficient, and
/// returns a nonzero word exactly when the coefficient is nonzero.
///
/// A non-canonical finite encoding reads as a zero coefficient. For an
/// infinity or a NaN the exponent is 0, the coefficient output holds the
/// class bits and the canonical payload, and the result is 0.
pub fn unpack_bid128_value(psign_x: &mut u64, pexponent_x: &mut i32, pcoefficient_x: &mut BidUint128, x: BidUint128) -> (r: u64)
    ensures
        *final(psign_x) == x.w[1] & MASK_SIGN,
        !is_special(x) ==> *final(pexponent_x) == exp_field(x),
        !is_special(x) ==> final(pcoefficient_x).value() == coeff(x),
        !is_special(x) ==> r == ((coeff(x) % two64()) as u64 | (coeff(x) / two64()) as u64),
        !is_special(x) ==> ((r == 0) == (coeff(x) == 0)),
        is_special(x) ==> *final(pexponent_x) == 0,
        is_special(x) ==> *final(pcoefficient_x) == special_payload(x),
        is_special(x) ==> r == 0,
{
    proof {
        lemma_ten34();
    }
    let w1: u64 = x.w[1];
    *psign_x = w1 & MASK_SIGN;
    if (w1 & MASK_SPECIAL) == MASK_SPECIAL {
        let p: BidUint128 = BidUint128 { w: [x.w[0], w1 & 0x00003fffffffffffu64] };
        if (w1 & 0x7c00000000000000u64) == 0x7800000000000000u64 {
            *pcoefficient_x = BidUint128 { w: [0, w1 & 0xf800000000000000u64] };
        } else if p.w[1] > 0x0000314dc6448d93u64 || (p.w[1] == 0x0000314dc6448d93u64 && p.w[0] >= 0x38c15b0a00000000u64) {
            proof {
                assert(ten33() == 0x0000314dc6448d93nat * two64() + 0x38c15b0a00000000nat);
            }
            *pcoefficient_x = BidUint128 { w: [0, w1 & 0xfe00000000000000u64] };
        } else {
            proof {
                assert(ten33() == 0x0000314dc6448d93nat * two64() + 0x38c15b0a00000000nat);
            }
            *pcoefficient_x = BidUint128 { w: [x.w[0], w1 & 0xfe003fffffffffffu64] };
        }
        *pexponent_x = 0;
        return 0;
    }
    let (_neg, f, c) = unpack_finite(x);
    let lo: u64 = c as u64;
    let hi: u64 = (c >> 64u128) as u64;
    proof {
        assert(lo == c % 0x1_0000_0000_0000_0000u128 && hi == c / 0x1_0000_0000_0000_0000u128) by (bit_vector)
            requires
                lo == c as u64,
                hi == (c >> 64u128) as u64,
        ;
        assert((lo | hi == 0) == (lo == 0 && hi == 0)) by (bit_vector);
    }
    *pcoefficient_x = BidUint128 { w: [lo, hi] };
    *pexponent_x = f as i32;
    lo | hi
}

} // verus!
