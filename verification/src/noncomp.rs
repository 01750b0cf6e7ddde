//! Non-computational queries on decimal128 values.

use vstd::prelude::*;
use crate::math::two64;
use crate::types::BidUint128;
use crate::consts::{MASK_INF, MASK_STEERING_BITS};
use crate::model::{is_inf, is_nan, coeff, raw_coeff, ten34, lemma_ten34};

verus! {

/// Returns `true` if the value is a zero (+0 or -0), including the
/// non-canonical encodings that read as zero.
pub fn bid128_is_zero(x: BidUint128) -> (r: bool)
    ensures
        r == (!is_inf(x) && !is_nan(x) && coeff(x) == 0),
{
    let w1: u64 = x.w[1];
    if (w1 & MASK_INF) == MASK_INF {
        assert(w1 & 0x7c00000000000000u64 == 0x7800000000000000u64
            || w1 & 0x7c00000000000000u64 == 0x7c00000000000000u64) by (bit_vector)
            requires w1 & 0x7800000000000000u64 == 0x7800000000000000u64;
        return false;
    }
    assert(w1 & 0x7c00000000000000u64 != 0x7800000000000000u64
        && w1 & 0x7c00000000000000u64 != 0x7c00000000000000u64) by (bit_vector)
        requires w1 & 0x7800000000000000u64 != 0x7800000000000000u64;
    let hi: u64 = x.w[1] & 0x0001ffffffffffffu64;
    let lo: u64 = x.w[0];
    proof {
        lemma_ten34();
        assert(ten34() == 0x0001ed09bead87c0nat * two64() + 0x378d8e6400000000nat);
        assert(raw_coeff(x) == hi as nat * two64() + lo as nat);
    }
    if hi > 0x0001ed09bead87c0u64 || (hi == 0x0001ed09bead87c0u64 && lo > 0x378d8e63ffffffffu64)
        || (x.w[1] & MASK_STEERING_BITS) == MASK_STEERING_BITS || (hi == 0 && lo == 0) {
        return true;
    }
    false
}

} // verus!
