//! What a decimal128 encoding means: its class, sign, exponent and
//! coefficient, and how a finite value is packed back into two words.

use vstd::prelude::*;
use crate::math::{pow10, two64};
use crate::types::BidUint128;
use crate::consts::{MASK_SPECIAL, MASK_NAN, MASK_SNAN, MASK_ANY_INF, MASK_INF, MASK_SIGN, MASK_STEERING_BITS, MASK_EXP, MASK_COEFF};

verus! {

/// `10^34`, one more than the largest decimal128 coefficient.
pub open spec fn ten34() -> nat {
    10000000000000000000000000000000000
}

/// `10^33`, the smallest coefficient with the full 34 digits.
pub open spec fn ten33() -> nat {
    1000000000000000000000000000000000
}

/// Smallest unbiased exponent of decimal128.
pub open spec fn emin() -> int {
    -6176
}

/// Largest unbiased exponent of decimal128.
pub open spec fn emax() -> int {
    6111
}

/// `10^34` and `10^33` as powers of ten.
pub proof fn lemma_ten34()
    ensures
        pow10(34) == ten34(),
        pow10(33) == ten33(),
        ten34() == 10 * ten33(),
{
    reveal_with_fuel(pow10, 35);
}

/// The encoding is infinity or NaN.
pub open spec fn is_special(x: BidUint128) -> bool {
    x.w[1] & MASK_SPECIAL == MASK_SPECIAL
}

/// The encoding is a NaN (quiet or signaling).
pub open spec fn is_nan(x: BidUint128) -> bool {
    x.w[1] & MASK_NAN == MASK_NAN
}

/// The encoding is a signaling NaN.
pub open spec fn is_snan(x: BidUint128) -> bool {
    x.w[1] & MASK_SNAN == MASK_SNAN
}

/// The encoding is an infinity.
pub open spec fn is_inf(x: BidUint128) -> bool {
    x.w[1] & MASK_ANY_INF == MASK_INF
}

/// The sign bit is set.
pub open spec fn is_neg(x: BidUint128) -> bool {
    x.w[1] & MASK_SIGN != 0
}

/// The combination field starts with `11`: the coefficient field is the
/// long one, which no canonical finite value uses.
pub open spec fn is_steered(x: BidUint128) -> bool {
    x.w[1] & MASK_STEERING_BITS == MASK_STEERING_BITS
}

/// The biased exponent field of a finite encoding, read where the form of
/// the combination field puts it.
pub open spec fn exp_field(x: BidUint128) -> u64 {
    if is_steered(x) {
        ((x.w[1] << 2u64) & MASK_EXP) >> 49u64
    } else {
        (x.w[1] & MASK_EXP) >> 49u64
    }
}

/// The coefficient bits of the short form, as an integer.
pub open spec fn raw_coeff(x: BidUint128) -> nat {
    (x.w[1] & MASK_COEFF) as nat * two64() + x.w[0] as nat
}

/// The coefficient of a finite encoding; non-canonical coefficients
/// (the long form, or at least `10^34`) read as zero.
pub open spec fn coeff(x: BidUint128) -> nat {
    if is_steered(x) || raw_coeff(x) >= ten34() {
        0
    } else {
        raw_coeff(x)
    }
}

/// The unbiased exponent of a finite encoding.
pub open spec fn exponent(x: BidUint128) -> int {
    exp_field(x) - 6176
}

/// The sign bit as a word.
pub open spec fn sign_word(neg: bool) -> nat {
    if neg { 0x8000000000000000 } else { 0 }
}

/// The encoding of the finite value `(-1)^neg * c * 10^(bexp - 6176)`
/// with the short coefficient field.
pub open spec fn encode(neg: bool, c: nat, bexp: nat) -> BidUint128 {
    BidUint128 {
        w: [
            (c % two64()) as u64,
            (sign_word(neg) + bexp * 0x2000000000000 + c / two64()) as u64,
        ],
    }
}

/// The encoding of an infinity.
pub open spec fn infinity(neg: bool) -> BidUint128 {
    BidUint128 { w: [0, (sign_word(neg) + 0x7800000000000000) as u64] }
}

/// The default quiet NaN returned by invalid operations.
pub open spec fn qnan_indefinite() -> BidUint128 {
    BidUint128 { w: [0, 0x7c00000000000000] }
}

/// How the classes of an encoding nest: NaNs and infinities are the
/// special encodings, and signaling NaNs are NaNs.
pub proof fn lemma_classes(x: BidUint128)
    ensures
        is_nan(x) ==> is_special(x),
        is_inf(x) ==> is_special(x),
        is_special(x) ==> (is_nan(x) || is_inf(x)),
        !(is_nan(x) && is_inf(x)),
        is_snan(x) ==> is_nan(x),
{
    let w1: u64 = x.w[1];
    assert(((w1 & 0x7c00000000000000u64 == 0x7c00000000000000u64) ==> (w1 & 0x7800000000000000u64 == 0x7800000000000000u64))
        && ((w1 & 0x7c00000000000000u64 == 0x7800000000000000u64) ==> (w1 & 0x7800000000000000u64 == 0x7800000000000000u64))
        && ((w1 & 0x7800000000000000u64 == 0x7800000000000000u64) ==> (w1 & 0x7c00000000000000u64 == 0x7c00000000000000u64
            || w1 & 0x7c00000000000000u64 == 0x7800000000000000u64))
        && ((w1 & 0x7e00000000000000u64 == 0x7e00000000000000u64) ==> (w1 & 0x7c00000000000000u64 == 0x7c00000000000000u64)))
        by (bit_vector);
}

/// Decoding a packed canonical value gives back its parts.
pub proof fn lemma_encode_decode(neg: bool, c: nat, bexp: nat)
    requires
        c < ten34(),
        bexp <= 12287,
    ensures
        !is_special(encode(neg, c, bexp)),
        !is_steered(encode(neg, c, bexp)),
        is_neg(encode(neg, c, bexp)) == neg,
        exp_field(encode(neg, c, bexp)) == bexp,
        coeff(encode(neg, c, bexp)) == c,
        raw_coeff(encode(neg, c, bexp)) == c,
{
    let hi: u64 = (c / two64()) as u64;
    let lo: u64 = (c % two64()) as u64;
    assert(c / two64() < 0x2000000000000) by {
        assert(ten34() <= 0x2000000000000 * two64());
    }
    let e: u64 = bexp as u64;
    let s: u64 = if neg { 0x8000000000000000u64 } else { 0u64 };
    let w1: u64 = encode(neg, c, bexp).w[1];
    assert(w1 == s + e * 0x2000000000000u64 + hi);
    assert(w1 & MASK_SPECIAL != MASK_SPECIAL && w1 & MASK_STEERING_BITS != MASK_STEERING_BITS
        && ((w1 & MASK_SIGN != 0) == (s != 0)) && (w1 & MASK_EXP) >> 49u64 == e
        && w1 & MASK_COEFF == hi) by (bit_vector)
        requires
            w1 == s + e * 0x2000000000000u64 + hi,
            s == 0 || s == 0x8000000000000000u64,
            e <= 12287,
            hi < 0x2000000000000u64,
    ;
    assert(c == hi as nat * two64() + lo as nat);
}

/// Packs a sign word, a biased exponent and a coefficient.
pub fn pack(sign: u64, bexp: u64, c: u128) -> (r: BidUint128)
    requires
        sign == 0 || sign == MASK_SIGN,
        bexp <= 12287,
        c < ten34(),
    ensures
        r == encode(sign != 0, c as nat, bexp as nat),
{
    let hi: u64 = (c >> 64u128) as u64;
    let lo: u64 = c as u64;
    assert(hi == c / 0x1_0000_0000_0000_0000u128 && lo == c % 0x1_0000_0000_0000_0000u128)
        by (bit_vector)
        requires
            hi == (c >> 64u128) as u64,
            lo == c as u64,
    ;
    assert(c / 0x1_0000_0000_0000_0000u128 < 0x2000000000000) by {
        assert(ten34() <= 0x2000000000000 * two64());
    }
    assert(sign | (bexp << 49u64) | hi == sign + bexp * 0x2000000000000u64 + hi) by (bit_vector)
        requires
            sign == 0 || sign == 0x8000000000000000u64,
            bexp <= 12287,
            hi < 0x2000000000000u64,
    ;
    BidUint128 { w: [lo, sign | (bexp << 49u64) | hi] }
}

/// The opposite of an encoding: the same words with the sign bit flipped.
pub open spec fn negate(x: BidUint128) -> BidUint128 {
    BidUint128 {
        w: [
            x.w[0],
            if x.w[1] >= 0x8000000000000000u64 {
                (x.w[1] - 0x8000000000000000u64) as u64
            } else {
                (x.w[1] + 0x8000000000000000u64) as u64
            },
        ],
    }
}

/// Negating flips the sign and keeps the class, the exponent and the
/// coefficient; negating twice gives the encoding back. (Also: a finite
/// encoding has a biased exponent of at most 12287.)
pub proof fn lemma_negate(x: BidUint128)
    ensures
        is_neg(negate(x)) == !is_neg(x),
        is_special(negate(x)) == is_special(x),
        is_nan(negate(x)) == is_nan(x),
        is_snan(negate(x)) == is_snan(x),
        is_inf(negate(x)) == is_inf(x),
        is_steered(negate(x)) == is_steered(x),
        exp_field(negate(x)) == exp_field(x),
        raw_coeff(negate(x)) == raw_coeff(x),
        coeff(negate(x)) == coeff(x),
        negate(negate(x)) == x,
        !is_special(x) ==> exp_field(x) <= 12287,
{
    let w1: u64 = x.w[1];
    let v1: u64 = negate(x).w[1];
    assert(((v1 & 0x8000000000000000u64 != 0) == !(w1 & 0x8000000000000000u64 != 0))
        && v1 & 0x7800000000000000u64 == w1 & 0x7800000000000000u64
        && v1 & 0x7c00000000000000u64 == w1 & 0x7c00000000000000u64
        && v1 & 0x7e00000000000000u64 == w1 & 0x7e00000000000000u64
        && v1 & 0x6000000000000000u64 == w1 & 0x6000000000000000u64
        && v1 & 0x7ffe000000000000u64 == w1 & 0x7ffe000000000000u64
        && (v1 << 2u64) & 0x7ffe000000000000u64 == (w1 << 2u64) & 0x7ffe000000000000u64
        && v1 & 0x0001ffffffffffffu64 == w1 & 0x0001ffffffffffffu64
        && (w1 & 0x8000000000000000u64 != 0) == (w1 >= 0x8000000000000000u64)
        && (v1 & 0x8000000000000000u64 != 0) == (v1 >= 0x8000000000000000u64)
        && (w1 & 0x7800000000000000u64 != 0x7800000000000000u64 ==> (
            (w1 & 0x6000000000000000u64 != 0x6000000000000000u64 ==> (w1 & 0x7ffe000000000000u64) >> 49u64 <= 12287)
            && (w1 & 0x6000000000000000u64 == 0x6000000000000000u64 ==> ((w1 << 2u64) & 0x7ffe000000000000u64) >> 49u64 <= 12287)))) by (bit_vector)
        requires
            v1 == if w1 >= 0x8000000000000000u64 { (w1 - 0x8000000000000000u64) as u64 } else { (w1 + 0x8000000000000000u64) as u64 },
    ;
    assert(negate(negate(x)).w =~= x.w);
}

/// The encoding of the opposite value is the opposite encoding.
pub proof fn lemma_negate_encode(neg: bool, c: nat, bexp: nat)
    requires
        c <= ten34(),
        bexp <= 12287,
    ensures
        encode(!neg, c, bexp) == negate(encode(neg, c, bexp)),
        infinity(!neg) == negate(infinity(neg)),
{
    assert(c / two64() < 0x2000000000000) by {
        assert(ten34() < 0x2000000000000 * two64());
    }
    assert(bexp * 0x2000000000000 + c / two64() < 0x8000000000000000);
    assert(encode(!neg, c, bexp).w =~= negate(encode(neg, c, bexp)).w);
    assert(infinity(!neg).w =~= negate(infinity(neg)).w);
}

} // verus!
