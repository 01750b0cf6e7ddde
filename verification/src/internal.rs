//! Packing a coefficient and an exponent into decimal128, with the
//! handling of exponents outside the range of the format.

use vstd::prelude::*;
use crate::math::{pow10, two64, lemma_pow10_pos, lemma_pow10_mono};
use crate::bignum::{big_from_u128, pow10_u128};
use crate::types::BidUint128;
use crate::consts::MASK_SIGN;
use crate::model::{encode, infinity, sign_word, ten34, ten33, lemma_ten34, pack};
use crate::rounding::{round_bid, overflow_result, round_up};
use vstd::arithmetic::div_mod::lemma_fundamental_div_mod;
use crate::finish::round_to_bid;

verus! {

/// A coefficient `c` at a biased exponent `expon` below zero rounded to
/// the least exponent in rounding `mode`: the digits below it are removed
/// and the rest is rounded by them. The rounded coefficient is packed
/// with the least exponent as it is, even when it reaches `10^34`.
pub open spec fn uf_round(neg: bool, expon: int, c: nat, mode: u32) -> BidUint128 {
    let p = pow10((-expon) as nat);
    let q = c / p;
    encode(neg, q + if round_up(mode, neg, q, c % p, p) { 1nat } else { 0nat }, 0)
}

/// The status flags of that rounding: underflow and inexact, except that
/// when the incoming flags already hold inexact only underflow is raised,
/// even for an exact result; an exact result raises nothing otherwise.
pub open spec fn uf_round_flags(expon: int, c: nat, old: u32) -> u32 {
    if old & 0x20 != 0 {
        0x10
    } else if c % pow10((-expon) as nat) != 0 {
        0x30
    } else {
        0
    }
}

/// The result of packing a coefficient `c` at a biased exponent `expon`
/// below zero: a value too small for any digit to survive gives zero, or
/// the smallest magnitude when rounding away from zero in the direction
/// of its sign; otherwise `c` is rounded to the least exponent.
pub open spec fn uf_result(neg: bool, expon: int, c: nat, mode: u32) -> BidUint128 {
    if expon + 34 < 0 {
        BidUint128 {
            w: [if (neg && mode == 1) || (!neg && mode == 2) { 1 } else { 0 }, sign_word(neg) as u64],
        }
    } else {
        uf_round(neg, expon, c, mode)
    }
}

/// The status flags raised by that packing.
pub open spec fn uf_flags(expon: int, c: nat, old: u32) -> u32 {
    if expon + 34 < 0 {
        0x30
    } else {
        uf_round_flags(expon, c, old)
    }
}

/// The result and the status flags of packing a coefficient `c` with
/// biased exponent `expon`.
pub open spec fn get_bid128_result(sgn: u64, expon: int, c: nat, mode: u32, old: u32) -> (BidUint128, u32) {
    let neg = sgn != 0;
    let c2: nat = if c == ten34() { ten33() } else { c };
    let e2: int = if c == ten34() { expon + 1 } else { expon };
    if e2 < 0 {
        (uf_result(neg, e2, c2, mode), uf_flags(e2, c2, old))
    } else if e2 <= 12287 {
        (encode(neg, c2, e2 as nat), 0u32)
    } else if c2 == 0 {
        (encode(neg, 0, 12287), 0u32)
    } else if e2 <= 12287 + 34 {
        round_bid(neg, c2, 1, e2 - 6176, e2 - 6176, mode)
    } else {
        (overflow_result(neg, mode), 0x28u32)
    }
}

/// `x | 0` is `x`.
pub proof fn lemma_or_zero(x: u32)
    ensures
        x | 0 == x,
{
    assert(x | 0 == x) by (bit_vector);
}

/// The two words of a double word.
pub fn words(c: u128) -> (r: BidUint128)
    ensures
        r.value() == c,
        r.w[0] == (c as nat % two64()) as u64,
        r.w[1] == (c as nat / two64()) as u64,
{
    let lo: u64 = c as u64;
    let hi: u64 = (c >> 64u128) as u64;
    assert(lo == c % 0x1_0000_0000_0000_0000u128 && hi == c / 0x1_0000_0000_0000_0000u128
        && c == (hi as u128) * 0x1_0000_0000_0000_0000u128 + lo as u128) by (bit_vector)
        requires
            lo == c as u64,
            hi == (c >> 64u128) as u64,
    ;
    BidUint128 { w: [lo, hi] }
}

/// The double word that two words spell.
pub fn double_word(x: BidUint128) -> (r: u128)
    ensures
        r == x.value(),
{
    let hi: u64 = x.w[1];
    let lo: u64 = x.w[0];
    let r: u128 = ((hi as u128) << 64u128) | (lo as u128);
    assert(r == (hi as u128) * 0x1_0000_0000_0000_0000u128 + (lo as u128)) by (bit_vector)
        requires r == ((hi as u128) << 64u128) | (lo as u128);
    r
}

/// Rounds a coefficient `c` at a biased exponent below zero to the least
/// exponent, as `uf_round` and `uf_round_flags` say.
fn underflow_core(sgn: u64, e: i32, c: u128, rnd_mode: u32, flags: &mut u32) -> (r: BidUint128)
    requires
        sgn == 0 || sgn == MASK_SIGN,
        -35 <= e < 0,
        c < 10 * ten34(),
        rnd_mode <= 4,
    ensures
        r == uf_round(sgn != 0, e as int, c as nat, rnd_mode),
        *final(flags) == *old(flags) | uf_round_flags(e as int, c as nat, *old(flags)),
{
    proof {
        lemma_ten34();
    }
    let ed2: u32 = (0 - e) as u32;
    let p: u128 = pow10_u128(ed2);
    proof {
        lemma_pow10_pos(ed2 as nat);
        assert(ed2 as nat == (-e) as nat);
    }
    let q: u128 = c / p;
    let r: u128 = c % p;
    let old: u32 = *flags;
    let f: u32 = if old & 0x20 != 0 { 0x10 } else if r != 0 { 0x30 } else { 0 };
    *flags = old | f;
    let neg: bool = sgn != 0;
    proof {
        lemma_pow10_mono(ed2 as nat, 35);
        assert(pow10(35) == 10 * pow10(34));
    }
    let up: bool = if r == 0 {
        false
    } else if rnd_mode == 0 {
        2 * r > p || (2 * r == p && q % 2 == 1)
    } else if rnd_mode == 4 {
        2 * r >= p
    } else if rnd_mode == 1 {
        neg
    } else if rnd_mode == 2 {
        !neg
    } else {
        false
    };
    proof {
        lemma_fundamental_div_mod(c as int, p as int);
        lemma_pow10_mono(1, ed2 as nat);
        reveal_with_fuel(pow10, 2);
        assert(q < ten34()) by (nonlinear_arith)
            requires c == p * q + r, r >= 0, c < 10 * ten34(), p >= 10;
    }
    let v: u128 = if up { q + 1 } else { q };
    let w = words(v);
    let hi: u64 = w.w[1];
    proof {
        assert(v as nat / two64() < 0x2000000000000) by {
            assert(ten34() <= 0x2000000000000 * two64());
        }
        assert(sgn | hi == sgn + hi) by (bit_vector)
            requires
                sgn == 0 || sgn == 0x8000000000000000u64,
                hi < 0x2000000000000u64,
        ;
        assert(sgn as nat == sign_word(neg));
    }
    BidUint128 { w: [w.w[0], sgn | hi] }
}

/// Packs the coefficient `cq` with a biased exponent `*expon` below zero:
/// rounds it to the least exponent and sets `*expon` to zero, or, when no
/// digit of it can survive, returns zero or the smallest magnitude and
/// leaves `*expon` as it is. The result is also stored in `*pres`.
pub fn handle_uf_128(pres: &mut BidUint128, sgn: u64, expon: &mut i32, cq: BidUint128, rnd_mode: u32, flags: &mut u32) -> (r: BidUint128)
    requires
        sgn == 0 || sgn == MASK_SIGN,
        *old(expon) < 0,
        cq.value() < 10 * ten34(),
        rnd_mode <= 4,
    ensures
        r == uf_result(sgn != 0, *old(expon) as int, cq.value(), rnd_mode),
        *final(flags) == *old(flags) | uf_flags(*old(expon) as int, cq.value(), *old(flags)),
        *final(pres) == r,
        *final(expon) == if *old(expon) + 34 < 0 { *old(expon) } else { 0 },
{
    proof {
        lemma_ten34();
    }
    let e: i32 = *expon;
    if e + 34 < 0 {
        *flags = *flags | 0x30;
        let lo: u64 = if (sgn != 0 && rnd_mode == 1) || (sgn == 0 && rnd_mode == 2) { 1 } else { 0 };
        proof {
            assert(sgn as nat == sign_word(sgn != 0));
        }
        let r = BidUint128 { w: [lo, sgn] };
        *pres = r;
        return r;
    }
    let c: u128 = double_word(cq);
    let r = underflow_core(sgn, e, c, rnd_mode, flags);
    *expon = 0;
    *pres = r;
    r
}

/// Packs the coefficient `cq`, followed by a sticky digit that is nonzero
/// when the remainder `r` is, with a biased exponent `expon` at most zero:
/// the value `cq * 10 + sticky` at exponent `expon - 1` is rounded to the
/// least exponent. The result is also stored in `*pres`.
pub fn bid_handle_uf_128_rem(pres: &mut BidUint128, sgn: u64, expon: i32, cq: BidUint128, r: u64, prounding_mode: u32, fpsc: &mut u32) -> (res: BidUint128)
    requires
        sgn == 0 || sgn == MASK_SIGN,
        expon <= 0,
        cq.value() < ten34(),
        prounding_mode <= 4,
    ensures
        expon + 34 < 0 ==> res == uf_result(sgn != 0, expon as int, 0, prounding_mode),
        expon + 34 < 0 ==> *final(fpsc) == *old(fpsc) | 0x30,
        expon + 34 >= 0 ==> res == uf_round(sgn != 0, expon - 1, cq.value() * 10 + if r > 0 { 1nat } else { 0nat }, prounding_mode),
        expon + 34 >= 0 ==> *final(fpsc) == *old(fpsc) | uf_round_flags(expon - 1, cq.value() * 10 + if r > 0 { 1nat } else { 0nat }, *old(fpsc)),
        *final(pres) == res,
{
    proof {
        lemma_ten34();
    }
    if expon + 34 < 0 {
        *fpsc = *fpsc | 0x30;
        let lo: u64 = if (sgn != 0 && prounding_mode == 1) || (sgn == 0 && prounding_mode == 2) { 1 } else { 0 };
        proof {
            assert(sgn as nat == sign_word(sgn != 0));
        }
        let res = BidUint128 { w: [lo, sgn] };
        *pres = res;
        return res;
    }
    let c: u128 = double_word(cq);
    let c10: u128 = c * 10 + if r > 0 { 1 } else { 0 };
    let res = underflow_core(sgn, expon - 1, c10, prounding_mode, fpsc);
    *pres = res;
    res
}

/// Packs a sign word, a biased exponent and a coefficient of at most
/// `10^34` (below `10^35` with a negative exponent) into decimal128: a coefficient of `10^34` becomes `10^33` one
/// exponent higher, an exponent below zero is handled by `handle_uf_128`,
/// and one above the range is brought down by appending zeros to the
/// coefficient while it has fewer than 34 digits, or overflows. The
/// result is also stored in `*pres`.
pub fn bid_get_bid128(pres: &mut BidUint128, sgn: u64, expon: i32, coeff: BidUint128, rnd_mode: u32, pfpsf: &mut u32) -> (r: BidUint128)
    requires
        sgn == 0 || sgn == MASK_SIGN,
        coeff.value() <= ten34() || (expon < 0 && coeff.value() < 10 * ten34()),
        coeff.value() == ten34() ==> expon < 0x7fff_ffff,
        rnd_mode <= 4,
    ensures
        r == get_bid128_result(sgn, expon as int, coeff.value(), rnd_mode, *old(pfpsf)).0,
        *final(pfpsf) == *old(pfpsf) | get_bid128_result(sgn, expon as int, coeff.value(), rnd_mode, *old(pfpsf)).1,
        *final(pres) == r,
{
    proof {
        lemma_ten34();
        lemma_or_zero(*old(pfpsf));
    }
    let mut c: u128 = double_word(coeff);
    let mut e: i32 = expon;
    if c == 10000000000000000000000000000000000u128 {
        c = 1000000000000000000000000000000000u128;
        e = e + 1;
    }
    if e < 0 {
        let cq = words(c);
        let mut ex: i32 = e;
        return handle_uf_128(pres, sgn, &mut ex, cq, rnd_mode, pfpsf);
    }
    let r: BidUint128;
    if e <= 12287 {
        r = pack(sgn, e as u64, c);
    } else if c == 0 {
        r = pack(sgn, 12287, 0);
    } else if e <= 12287 + 34 {
        let n = big_from_u128(c);
        let ee: i64 = e as i64 - 6176;
        let (rr, f) = round_to_bid(sgn != 0, &n, 1, ee, ee, rnd_mode);
        *pfpsf = *pfpsf | f;
        r = rr;
    } else {
        *pfpsf = *pfpsf | 0x28;
        if rnd_mode == 3 || (sgn != 0 && rnd_mode == 2) || (sgn == 0 && rnd_mode == 1) {
            r = pack(sgn, 12287, 9999999999999999999999999999999999u128);
        } else {
            proof {
                assert(sgn | 0x7800000000000000u64 == sgn + 0x7800000000000000u64) by (bit_vector)
                    requires sgn == 0 || sgn == 0x8000000000000000u64;
            }
            r = BidUint128 { w: [0, sgn | 0x7800000000000000u64] };
        }
    }
    *pres = r;
    r
}

} // verus!
