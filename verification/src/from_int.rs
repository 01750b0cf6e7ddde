//! Conversion of machine integers to decimal128.

use vstd::prelude::*;
use crate::types::BidUint128;
use crate::model::{encode, is_special, is_neg, coeff, exponent, lemma_encode_decode};

verus! {

/// The absolute value of a 32-bit integer.
pub open spec fn abs_i32(x: i32) -> nat {
    if x < 0 { (-x) as nat } else { x as nat }
}

/// Converts a signed 32-bit integer into a 128-bit decimal floating-point
/// value with exponent 0; the conversion is always exact.
pub fn bid128_from_int32(x: i32) -> (res: BidUint128)
    ensures
        res == encode(x < 0, abs_i32(x), 6176),
        !is_special(res) && is_neg(res) == (x < 0),
        coeff(res) == abs_i32(x) && exponent(res) == 0,
{
    let u: u32 = x as u32;
    proof {
        lemma_encode_decode(x < 0, abs_i32(x), 6176);
    }
    if (u & 0x80000000u32) == 0x80000000u32 {
        assert(x < 0) by (bit_vector)
            requires
                u == x as u32,
                u & 0x80000000u32 == 0x80000000u32,
        ;
        let m: u32 = (!u).wrapping_add(1);
        assert(m as int == -x) by (bit_vector)
            requires
                u == x as u32,
                m == (!u).wrapping_add(1),
                x < 0,
        ;
        BidUint128 { w: [m as u64, 0xb040000000000000u64] }
    } else {
        assert(x >= 0 && u as int == x) by (bit_vector)
            requires
                u == x as u32,
                u & 0x80000000u32 != 0x80000000u32,
        ;
        BidUint128 { w: [u as u64, 0x3040000000000000u64] }
    }
}

} // verus!
