//! Fused multiply-add and multiplication of decimal128 values.

use vstd::prelude::*;
use crate::math::{pow10, two64, ndig, lemma_pow10_pos};
use crate::bignum::{Big, big_ndigits, ndigits_u128, big_from_u64, big_from_u128, big_mul_u128, big_mul_small, big_mul_pow10, big_div_pow10, big_add, big_sub, big_lt};
use crate::types::BidUint128;
use crate::consts::{MASK_SIGN, MASK_SPECIAL, MASK_NAN, MASK_SNAN, MASK_ANY_INF, MASK_INF};
use crate::model::{is_special, is_nan, is_snan, is_inf, is_neg, coeff, exp_field, encode, infinity, qnan_indefinite, ten34, ten33, emin, lemma_ten34};
use crate::rounding::{round_bid, round_class, round_up, num_at, den_at, quot_at, rem_at, carry_tie, carry_class};
use vstd::arithmetic::div_mod::lemma_fundamental_div_mod;
use vstd::arithmetic::mul::lemma_mul_is_commutative;
use crate::finish::{round_to_bid_ext, emin_band_exec};
use crate::unpack::unpack_finite;
use crate::add::{quiet_nan, quiet_nan_of, zero_with_exp};

verus! {

/// The sign bit of the product `x * y` as a flag.
pub open spec fn prod_neg(x: BidUint128, y: BidUint128) -> bool {
    is_neg(x) != is_neg(y)
}

/// The exponent word of the product: the biased exponent field of
/// `x * y` shifted into place, with exponents below the least one taken
/// as the least one. The field is not bounded above; the shift drops
/// what does not fit in the word.
pub open spec fn prod_exp_word(x: BidUint128, y: BidUint128) -> u64 {
    let tp = (exp_field(x) - 6176) + (exp_field(y) - 6176);
    if tp < -6176 {
        0
    } else {
        ((tp + 6176) as u64) << 49u64
    }
}

/// The smaller of the product's exponent word and `z`'s.
pub open spec fn fma_min_word(x: BidUint128, y: BidUint128, z: BidUint128) -> u64 {
    let zw = (exp_field(z) as u64) << 49u64;
    if prod_exp_word(x, y) < zw {
        prod_exp_word(x, y)
    } else {
        zw
    }
}

/// The preferred exponent of an exact fused multiply-add, unbiased.
pub open spec fn fma_pref(x: BidUint128, y: BidUint128, z: BidUint128) -> int {
    (fma_min_word(x, y, z) >> 49u64) - 6176
}

/// The result of a fused multiply-add when an operand is infinite or NaN,
/// with the status flags. A NaN in `y` is looked at first, then in `z`,
/// then in `x`.
pub open spec fn fma_special(x: BidUint128, y: BidUint128, z: BidUint128) -> (BidUint128, u32) {
    let ps = prod_neg(x, y);
    let zs = is_neg(z);
    if is_nan(y) {
        (quiet_nan(y), if is_snan(y) || is_snan(z) || is_snan(x) { 1u32 } else { 0u32 })
    } else if is_nan(z) {
        (quiet_nan(z), if is_snan(z) || is_snan(x) { 1u32 } else { 0u32 })
    } else if is_nan(x) {
        (quiet_nan(x), if is_snan(x) { 1u32 } else { 0u32 })
    } else if is_inf(x) {
        if is_inf(y) || coeff(y) != 0 {
            if is_inf(z) && ps != zs {
                (qnan_indefinite(), 1u32)
            } else if is_inf(z) {
                (infinity(zs), 0u32)
            } else {
                (infinity(ps), 0u32)
            }
        } else {
            (qnan_indefinite(), 1u32)
        }
    } else if is_inf(y) {
        if is_inf(z) {
            if ps != zs || coeff(x) == 0 {
                (qnan_indefinite(), 1u32)
            } else {
                (infinity(zs), 0u32)
            }
        } else if coeff(x) == 0 {
            (qnan_indefinite(), 1u32)
        } else {
            (infinity(ps), 0u32)
        }
    } else {
        (infinity(zs), 0u32)
    }
}

/// The exact value of `x * y + z` for finite operands with a nonzero
/// product, as a sign, a magnitude and an exponent: `None` when the value
/// is zero.
pub open spec fn fma_exact(x: BidUint128, y: BidUint128, z: BidUint128) -> Option<(bool, nat, int)> {
    let ep = (exp_field(x) - 6176) + (exp_field(y) - 6176);
    let ez = exp_field(z) - 6176;
    let m = if ep < ez { ep } else { ez };
    let ap = coeff(x) * coeff(y) * pow10((ep - m) as nat);
    let az = coeff(z) * pow10((ez - m) as nat);
    let ps = prod_neg(x, y);
    let zs = is_neg(z);
    if ps == zs {
        Some((ps, ap + az, m))
    } else if ap > az {
        Some((ps, (ap - az) as nat, m))
    } else if az > ap {
        Some((zs, (az - ap) as nat, m))
    } else {
        None
    }
}

/// How the tininess of an inexact result just below `10^33 * 10^emin` is
/// judged.
#[derive(Clone, Copy)]
pub enum TinyRule {
    /// Tiny when the exact value is below `10^33 * 10^emin`.
    BeforeRounding,
    /// Not tiny when the result is `10^33 * 10^emin` and the exact value
    /// rounds to it to nearest at 34 digits with the exponent unbounded:
    /// the value is at least `(10^33 - 1/20) * 10^emin`.
    CarryAt34,
    /// Not tiny when the result is `10^33 * 10^emin` and the exact value
    /// rounds to it to nearest at the least exponent: the value is at
    /// least `(10^33 - 1/2) * 10^emin`.
    NearestAtEmin,
}

/// Whether the inexact result of `(-1)^neg * n * 10^e` in `mode` is
/// `10^33 * 10^emin`, rounded up from below, from a value that `rule`
/// does not take as tiny.
pub open spec fn exempt_from_tiny(neg: bool, n: nat, e: int, mode: u32, rule: TinyRule) -> bool {
    let rem = rem_at(n, 1, e, emin());
    let den = den_at(1, e, emin());
    &&& e < emin()
    &&& quot_at(n, 1, e, emin()) + 1 == ten33()
    &&& round_up(mode, neg, (ten33() - 1) as nat, rem, den)
    &&& match rule {
        TinyRule::BeforeRounding => false,
        TinyRule::CarryAt34 => 20 * rem >= 19 * den,
        TinyRule::NearestAtEmin => 2 * rem >= den,
    }
}

/// The correctly rounded result of the nonzero value `(-1)^neg * n * 10^e`
/// and its status flags, with tininess judged by `rule`.
pub open spec fn round_tiny(neg: bool, n: nat, e: int, pref: int, mode: u32, rule: TinyRule) -> (BidUint128, u32) {
    let r = round_bid(neg, n, 1, e, pref, mode);
    if exempt_from_tiny(neg, n, e, mode, rule) {
        (r.0, 0x20u32)
    } else {
        r
    }
}

/// The number of digits of `z` and its exponent, less those of the
/// product `x * y`: how far the leading digit of `z` lies above that of
/// the product.
pub open spec fn fma_delta(x: BidUint128, y: BidUint128, z: BidUint128) -> int {
    (ndig(coeff(z)) + (exp_field(z) - 6176)) - (ndig(coeff(x) * coeff(y)) + ((exp_field(x) - 6176) + (exp_field(y) - 6176)))
}

/// The tininess rule for `x * y + z` with a nonzero product and a nonzero
/// `z`: when the leading digits lie fewer than 34 places apart, the larger
/// operand has at most 34 digits, and they lie more than one place apart
/// or have the same sign, the sum is rounded at 34 digits and then
/// checked; otherwise tininess is judged before rounding.
pub open spec fn fma_tiny_rule(x: BidUint128, y: BidUint128, z: BidUint128) -> TinyRule {
    let delta = fma_delta(x, y, z);
    let d = if delta >= 0 { delta } else { -delta };
    let opp = prod_neg(x, y) != is_neg(z);
    if (delta >= 0 || ndig(coeff(x) * coeff(y)) <= 34) && d < 34 && !(d <= 1 && opp) {
        if opp {
            TinyRule::NearestAtEmin
        } else {
            TinyRule::CarryAt34
        }
    } else {
        TinyRule::BeforeRounding
    }
}

/// Whether `z` is `10^34 * 10^emin` in magnitude and the product, of the
/// other sign, lies strictly between half of `10^emin` and `10^emin` in
/// magnitude: then underflow is raised although the result is not tiny.
pub open spec fn fma_spurious_underflow(x: BidUint128, y: BidUint128, z: BidUint128) -> bool {
    let ep = (exp_field(x) - 6176) + (exp_field(y) - 6176);
    let p = coeff(x) * coeff(y);
    &&& prod_neg(x, y) != is_neg(z)
    &&& coeff(z) * pow10(exp_field(z) as nat) == ten34()
    &&& ep < emin()
    &&& pow10((emin() - ep) as nat) < 2 * p
    &&& p < pow10((emin() - ep) as nat)
}

/// The result and the status flags of `x * y + z` for finite operands.
///
/// A zero product with a zero `z` gives a zero with the smaller of the two
/// exponent words; an inexact result is correctly rounded, with tininess
/// judged as `fma_tiny_rule` says (for a zero `z`, at 34 digits), and
/// underflow added as `fma_spurious_underflow` says; an exact result takes the representable exponent
/// closest to the smaller of the product's and `z`'s exponents; an exact
/// cancellation gives a zero with that exponent, negative only when
/// rounding down.
pub open spec fn fma_finite(x: BidUint128, y: BidUint128, z: BidUint128, mode: u32) -> (BidUint128, u32) {
    let ps = prod_neg(x, y);
    let zs = is_neg(z);
    let pref = fma_pref(x, y, z);
    if (coeff(x) == 0 || coeff(y) == 0) && coeff(z) == 0 {
        let sgn: u64 = if ps == zs {
            if zs { 0x8000000000000000 } else { 0 }
        } else if mode == 1 {
            0x8000000000000000
        } else {
            0
        };
        (BidUint128 { w: [0, fma_min_word(x, y, z) | sgn] }, 0u32)
    } else if coeff(x) == 0 || coeff(y) == 0 {
        round_bid(zs, coeff(z), 1, exp_field(z) - 6176, pref, mode)
    } else {
        match fma_exact(x, y, z) {
            Some((s, n, e)) => if coeff(z) == 0 {
                round_tiny(s, n, e, pref, mode, TinyRule::CarryAt34)
            } else {
                let r = round_tiny(s, n, e, pref, mode, fma_tiny_rule(x, y, z));
                if fma_spurious_underflow(x, y, z) {
                    (r.0, r.1 | 0x10u32)
                } else {
                    r
                }
            },
            None => (encode(mode == 1, 0, (pref + 6176) as nat), 0u32),
        }
    }
}

/// The result and the status flags of `x * y + z` in rounding `mode`.
pub open spec fn fma_result(x: BidUint128, y: BidUint128, z: BidUint128, mode: u32) -> (BidUint128, u32) {
    if is_special(x) || is_special(y) || is_special(z) {
        fma_special(x, y, z)
    } else {
        fma_finite(x, y, z, mode)
    }
}

/// Where the exact `x * y + z` lies against its rounding to nearest (see
/// `round_class`); all false when an operand is infinite or NaN, or when
/// the product is zero.
pub open spec fn fma_class(x: BidUint128, y: BidUint128, z: BidUint128) -> (bool, bool, bool, bool) {
    if is_special(x) || is_special(y) || is_special(z) || coeff(x) == 0 || coeff(y) == 0 {
        (false, false, false, false)
    } else {
        match fma_exact(x, y, z) {
            Some((s, n, e)) => if coeff(z) == 0 || fma_tiny_rule(x, y, z) is BeforeRounding {
                carry_class(n, e)
            } else {
                round_class(n, 1, e)
            },
            None => (false, false, false, false),
        }
    }
}

/// The sign word of an infinity of the given sign bit, as a result.
fn inf_of(s: u64) -> (r: BidUint128)
    requires
        s == 0 || s == MASK_SIGN,
    ensures
        r == infinity(s != 0),
{
    assert(s | 0x7800000000000000u64 == s + 0x7800000000000000u64) by (bit_vector)
        requires s == 0 || s == 0x8000000000000000u64;
    BidUint128 { w: [0, s | MASK_INF] }
}

/// The result of a fused multiply-add when an operand is infinite or NaN.
fn fma_special_exec(x: BidUint128, y: BidUint128, z: BidUint128) -> (res: (BidUint128, u32))
    requires
        is_special(x) || is_special(y) || is_special(z),
    ensures
        res == fma_special(x, y, z),
{
    let xw1: u64 = x.w[1];
    let yw1: u64 = y.w[1];
    let zw1: u64 = z.w[1];
    let xs: u64 = xw1 & MASK_SIGN;
    let ys: u64 = yw1 & MASK_SIGN;
    let zs: u64 = zw1 & MASK_SIGN;
    let ps: u64 = xs ^ ys;
    assert((xs == 0 || xs == 0x8000000000000000u64) && (ys == 0 || ys == 0x8000000000000000u64)
        && (zs == 0 || zs == 0x8000000000000000u64) && (ps == 0 || ps == 0x8000000000000000u64)
        && ((ps != 0) == ((xs != 0) != (ys != 0))) && ((ps != zs) == ((ps != 0) != (zs != 0)))) by (bit_vector)
        requires
            xs == xw1 & 0x8000000000000000u64,
            ys == yw1 & 0x8000000000000000u64,
            zs == zw1 & 0x8000000000000000u64,
            ps == xs ^ ys,
    ;
    let qnan: BidUint128 = BidUint128 { w: [0, 0x7c00000000000000u64] };
    if (yw1 & MASK_NAN) == MASK_NAN {
        let f: u32 = if (yw1 & MASK_SNAN) == MASK_SNAN || (zw1 & MASK_SNAN) == MASK_SNAN || (xw1 & MASK_SNAN) == MASK_SNAN { 1 } else { 0 };
        (quiet_nan_of(y), f)
    } else if (zw1 & MASK_NAN) == MASK_NAN {
        let f: u32 = if (zw1 & MASK_SNAN) == MASK_SNAN || (xw1 & MASK_SNAN) == MASK_SNAN { 1 } else { 0 };
        (quiet_nan_of(z), f)
    } else if (xw1 & MASK_NAN) == MASK_NAN {
        let f: u32 = if (xw1 & MASK_SNAN) == MASK_SNAN { 1 } else { 0 };
        (quiet_nan_of(x), f)
    } else if (xw1 & MASK_ANY_INF) == MASK_INF {
        let (_s2, _f2, c2) = unpack_finite(y);
        if (yw1 & MASK_ANY_INF) == MASK_INF || c2 != 0 {
            if (zw1 & MASK_ANY_INF) == MASK_INF && ps != zs {
                (qnan, 1)
            } else if (zw1 & MASK_ANY_INF) == MASK_INF {
                (inf_of(zs), 0)
            } else {
                (inf_of(ps), 0)
            }
        } else {
            (qnan, 1)
        }
    } else if (yw1 & MASK_ANY_INF) == MASK_INF {
        let (_s1, _f1, c1) = unpack_finite(x);
        if (zw1 & MASK_ANY_INF) == MASK_INF {
            if ps != zs || c1 == 0 {
                (qnan, 1)
            } else {
                (inf_of(zs), 0)
            }
        } else if c1 == 0 {
            (qnan, 1)
        } else {
            (inf_of(ps), 0)
        }
    } else {
        (inf_of(zs), 0)
    }
}

/// Rounds the nonzero value `(-1)^neg * n * 10^e` with tininess judged by
/// `rule`, and tells where it lies against its rounding to nearest and
/// whether it is the value of `carry_tie`.
fn round_tiny_exec(neg: bool, n: &Big, e: i64, pref: i64, mode: u32, rule: TinyRule) -> (res: ((BidUint128, u32), (bool, bool, bool, bool), bool))
    requires
        n.value() > 0,
        mode <= 4,
        -1_000_000 <= e <= 1_000_000,
        -1_000_000 <= pref <= 1_000_000,
        n.limbs.len() < 10000,
    ensures
        res.0 == round_tiny(neg, n.value(), e as int, pref as int, mode, rule),
        res.1 == round_class(n.value(), 1, e as int),
        res.2 == carry_tie(n.value(), e as int),
{
    proof {
        lemma_ten34();
    }
    let ((r, f), cls) = round_to_bid_ext(neg, n, 1, e, pref, mode);
    let (top, half, carry, tie) = emin_band_exec(n, e);
    let up: bool = mode == 0 || mode == 4 || (mode == 1 && neg) || (mode == 2 && !neg);
    let band: bool = match rule {
        TinyRule::BeforeRounding => false,
        TinyRule::CarryAt34 => carry,
        TinyRule::NearestAtEmin => half,
    };
    proof {
        if top && band {
            let rem = rem_at(n.value(), 1, e as int, emin());
            let den = den_at(1, e as int, emin());
            lemma_pow10_pos((emin() - e) as nat);
            assert(den > 0);
            assert(2 * rem >= den);
            assert(rem > 0) by (nonlinear_arith)
                requires 2 * rem >= den, den > 0;
            assert(((ten33() - 1) as nat) % 2 == 1);
            assert(up == round_up(mode, neg, (ten33() - 1) as nat, rem, den));
        }
    }
    let exempt: bool = top && band && up;
    let f2: u32 = if exempt { 0x20 } else { f };
    ((r, f2), cls, top && tie)
}

/// Whether `fma_spurious_underflow` holds, given the parts of the operands
/// and the product's coefficient `p`.
fn spurious_underflow_exec(x: BidUint128, y: BidUint128, z: BidUint128, ps: bool, sz: bool, p: &Big, c3: u128, fz: u64, ep: i64) -> (r: bool)
    requires
        ps == prod_neg(x, y),
        sz == is_neg(z),
        p.value() == coeff(x) * coeff(y),
        p.limbs.len() < 10000,
        c3 == coeff(z),
        fz == exp_field(z),
        fz <= 16383,
        ep == (exp_field(x) - 6176) + (exp_field(y) - 6176),
        -20000 <= ep <= 20000,
    ensures
        r == fma_spurious_underflow(x, y, z),
{
    if ps == sz || ep >= -6176 {
        return false;
    }
    let b3 = big_from_u128(c3);
    let zb = big_mul_pow10(&b3, fz);
    let t34 = big_from_u128(10000000000000000000000000000000000u128);
    let z_ok: bool = !big_lt(&zb, &t34) && !big_lt(&t34, &zb);
    let k: u64 = (-6176 - ep) as u64;
    let one = big_from_u64(1);
    let pk = big_mul_pow10(&one, k);
    let p2 = big_mul_small(p, 2);
    proof {
        lemma_ten34();
        assert(k as nat == (emin() - ep) as nat);
    }
    z_ok && big_lt(&pk, &p2) && big_lt(p, &pk)
}

/// `x * y + z` for finite operands with a nonzero product, given their
/// parts and the preferred exponent.
fn fma_general(x: BidUint128, y: BidUint128, z: BidUint128, ps: bool, c1: u128, c2: u128, sz: bool, c3: u128, ep: i64, ez: i64, pref: i64, mode: u32) -> (res: ((BidUint128, u32), (bool, bool, bool, bool)))
    requires
        !is_special(x) && !is_special(y) && !is_special(z),
        mode <= 4,
        ps == prod_neg(x, y),
        sz == is_neg(z),
        c1 == coeff(x),
        c2 == coeff(y),
        c3 == coeff(z),
        c1 > 0 && c2 > 0,
        ep == (exp_field(x) - 6176) + (exp_field(y) - 6176),
        ez == exp_field(z) - 6176,
        pref == fma_pref(x, y, z),
        -6176 <= pref <= 10207,
        exp_field(x) <= 12287,
        exp_field(y) <= 12287,
        exp_field(z) <= 16383,
    ensures
        res.0 == fma_finite(x, y, z, mode),
        res.1 == fma_class(x, y, z),
{
    proof {
        lemma_ten34();
    }
    let none: (bool, bool, bool, bool) = (false, false, false, false);
    let m: i64 = if ep < ez { ep } else { ez };
    let b1 = big_from_u128(c1);
    let p = big_mul_u128(&b1, c2);
    let ap = big_mul_pow10(&p, (ep - m) as u64);
    let b3 = big_from_u128(c3);
    let az = big_mul_pow10(&b3, (ez - m) as u64);
    let ghost vp = ap.value();
    let ghost vz = az.value();
    proof {
        lemma_pow10_pos((ep - m) as nat);
        assert(((ep - m) as u64) as nat == (ep - m) as nat);
        assert(((ez - m) as u64) as nat == (ez - m) as nat);
        assert(vp == (c1 * c2) * pow10((ep - m) as nat));
        assert(vz == c3 * pow10((ez - m) as nat));
        assert(vp > 0) by (nonlinear_arith)
            requires vp == (c1 * c2) * pow10((ep - m) as nat), pow10((ep - m) as nat) >= 1, c1 > 0, c2 > 0;
    }
    if c3 == 0 {
        proof {
            assert(vz == 0);
        }
        let (r, cls, tie) = round_tiny_exec(ps, &ap, m, pref, mode, TinyRule::CarryAt34);
        let cls2: (bool, bool, bool, bool) = if tie { (true, false, false, false) } else { cls };
        return (r, cls2);
    }
    let q3: u64 = ndigits_u128(c3);
    let q4: u64 = big_ndigits(&p);
    let delta: i64 = (q3 as i64 + ez) - (q4 as i64 + ep);
    let d: i64 = if delta >= 0 { delta } else { -delta };
    let opp: bool = ps != sz;
    let rule: TinyRule = if (delta >= 0 || q4 <= 34) && d < 34 && !(d <= 1 && opp) {
        if opp { TinyRule::NearestAtEmin } else { TinyRule::CarryAt34 }
    } else {
        TinyRule::BeforeRounding
    };
    proof {
        assert(delta == fma_delta(x, y, z));
        assert(rule == fma_tiny_rule(x, y, z));
    }
    let spurious: bool = spurious_underflow_exec(x, y, z, ps, sz, &p, c3, (ez + 6176) as u64, ep);
    let (r, cls, tie) = if ps == sz {
        let s = big_add(&ap, &az);
        round_tiny_exec(ps, &s, m, pref, mode, rule)
    } else if big_lt(&az, &ap) {
        let s = big_sub(&ap, &az);
        round_tiny_exec(ps, &s, m, pref, mode, rule)
    } else if big_lt(&ap, &az) {
        let s = big_sub(&az, &ap);
        round_tiny_exec(sz, &s, m, pref, mode, rule)
    } else {
        return ((zero_with_exp(mode == 1, (pref + 6176) as u64), 0), none);
    };
    let f: u32 = if spurious { r.1 | 0x10 } else { r.1 };
    let before: bool = match rule {
        TinyRule::BeforeRounding => true,
        _ => false,
    };
    let cls2: (bool, bool, bool, bool) = if before && tie { (true, false, false, false) } else { cls };
    ((r.0, f), cls2)
}

/// `x * y + z` for finite operands, with the indicators of `fma_class`.
fn fma_finite_exec(x: BidUint128, y: BidUint128, z: BidUint128, mode: u32) -> (res: ((BidUint128, u32), (bool, bool, bool, bool)))
    requires
        !is_special(x) && !is_special(y) && !is_special(z),
        mode <= 4,
    ensures
        res.0 == fma_finite(x, y, z, mode),
        res.1 == fma_class(x, y, z),
{
    proof {
        lemma_ten34();
    }
    let none: (bool, bool, bool, bool) = (false, false, false, false);
    let (sx, fx, c1) = unpack_finite(x);
    let (sy, fy, c2) = unpack_finite(y);
    let (sz, fz, c3) = unpack_finite(z);
    let ps: bool = sx != sy;
    let tp: i64 = (fx as i64 - 6176) + (fy as i64 - 6176);
    let pw: u64 = if tp < -6176 { 0 } else { ((tp + 6176) as u64) << 49u64 };
    let zw: u64 = fz << 49u64;
    let minw: u64 = if pw < zw { pw } else { zw };
    let pf: u64 = minw >> 49u64;
    assert(pf <= 16383) by (bit_vector)
        requires
            pf == minw >> 49u64,
            minw <= zw,
            zw == fz << 49u64,
            fz <= 16383,
    ;
    let pref: i64 = pf as i64 - 6176;
    if (c1 == 0 || c2 == 0) && c3 == 0 {
        let sgn: u64 = if ps == sz {
            if sz { MASK_SIGN } else { 0 }
        } else if mode == 1 {
            MASK_SIGN
        } else {
            0
        };
        return ((BidUint128 { w: [0, minw | sgn] }, 0), none);
    }
    if c1 == 0 || c2 == 0 {
        let n = big_from_u128(c3);
        let ez: i64 = fz as i64 - 6176;
        let r = round_to_bid_ext(sz, &n, 1, ez, pref, mode);
        return (r.0, none);
    }
    let ez: i64 = fz as i64 - 6176;
    fma_general(x, y, z, ps, c1, c2, sz, c3, tp, ez, pref, mode)
}

/// Computes `x * y + z` with a single rounding in rounding mode
/// `rounding`, raises the status flags of the operation in `flags`, and
/// tells through the four indicators where the exact value lies against
/// its rounding to nearest.
pub fn bid128_ext_fma(
    ptr_is_midpoint_lt_even: &mut bool,
    ptr_is_midpoint_gt_even: &mut bool,
    ptr_is_inexact_lt_midpoint: &mut bool,
    ptr_is_inexact_gt_midpoint: &mut bool,
    x: BidUint128,
    y: BidUint128,
    z: BidUint128,
    rounding: u32,
    flags: &mut u32,
) -> (res: BidUint128)
    requires
        rounding <= 4,
    ensures
        res == fma_result(x, y, z, rounding).0,
        *final(flags) == *old(flags) | fma_result(x, y, z, rounding).1,
        (*final(ptr_is_midpoint_lt_even), *final(ptr_is_midpoint_gt_even), *final(ptr_is_inexact_lt_midpoint),
            *final(ptr_is_inexact_gt_midpoint)) == fma_class(x, y, z),
{
    if (x.w[1] & MASK_SPECIAL) == MASK_SPECIAL || (y.w[1] & MASK_SPECIAL) == MASK_SPECIAL || (z.w[1] & MASK_SPECIAL) == MASK_SPECIAL {
        let (r, f) = fma_special_exec(x, y, z);
        *flags = *flags | f;
        *ptr_is_midpoint_lt_even = false;
        *ptr_is_midpoint_gt_even = false;
        *ptr_is_inexact_lt_midpoint = false;
        *ptr_is_inexact_gt_midpoint = false;
        return r;
    }
    let ((r, f), c) = fma_finite_exec(x, y, z, rounding);
    *flags = *flags | f;
    *ptr_is_midpoint_lt_even = c.0;
    *ptr_is_midpoint_gt_even = c.1;
    *ptr_is_inexact_lt_midpoint = c.2;
    *ptr_is_inexact_gt_midpoint = c.3;
    r
}

/// Computes `x * y + z` with a single rounding in rounding mode
/// `rounding`, and raises the status flags of the operation in `flags`.
pub fn bid128_fma(x: BidUint128, y: BidUint128, z: BidUint128, rounding: u32, flags: &mut u32) -> (res: BidUint128)
    requires
        rounding <= 4,
    ensures
        res == fma_result(x, y, z, rounding).0,
        *final(flags) == *old(flags) | fma_result(x, y, z, rounding).1,
{
    let mut is_midpoint_lt_even: bool = false;
    let mut is_midpoint_gt_even: bool = false;
    let mut is_inexact_lt_midpoint: bool = false;
    let mut is_inexact_gt_midpoint: bool = false;
    bid128_ext_fma(&mut is_midpoint_lt_even, &mut is_midpoint_gt_even, &mut is_inexact_lt_midpoint, &mut is_inexact_gt_midpoint, x, y, z, rounding, flags)
}

/// `+0 * 10^6111`, the addend through which a product is rounded.
pub open spec fn mul_addend() -> BidUint128 {
    BidUint128 { w: [0, 0x5ffe000000000000] }
}

/// The exponent word of a zero product: the product's exponent clamped to
/// the range of decimal128.
pub open spec fn mul_zero_exp_word(x: BidUint128, y: BidUint128) -> u64 {
    let tp = (exp_field(x) - 6176) + (exp_field(y) - 6176);
    if tp < -6176 {
        0
    } else if tp > 6111 {
        0x5ffe000000000000
    } else {
        ((tp + 6176) as u64) << 49u64
    }
}

/// The result and the status flags of `x * y` in rounding `mode`: a zero
/// product of finite operands is a zero with the product's exponent
/// clamped to the range, anything else is `y * x + 0 * 10^6111`.
pub open spec fn mul_result(x: BidUint128, y: BidUint128, mode: u32) -> (BidUint128, u32) {
    if !is_special(x) && !is_special(y) && (coeff(x) == 0 || coeff(y) == 0) {
        let sgn: u64 = if prod_neg(x, y) { 0x8000000000000000 } else { 0 };
        (BidUint128 { w: [0, sgn | mul_zero_exp_word(x, y)] }, 0u32)
    } else {
        fma_result(y, x, mul_addend(), mode)
    }
}

/// Multiplies two decimal128 values in rounding mode `rnd_mode`, and
/// raises the status flags of the operation in `pfpsf`.
pub fn bid128_mul(x: BidUint128, y: BidUint128, rnd_mode: u32, pfpsf: &mut u32) -> (res: BidUint128)
    requires
        rnd_mode <= 4,
    ensures
        res == mul_result(x, y, rnd_mode).0,
        *final(pfpsf) == *old(pfpsf) | mul_result(x, y, rnd_mode).1,
{
    let z: BidUint128 = BidUint128 { w: [0, 0x5ffe000000000000u64] };
    if (x.w[1] & MASK_SPECIAL) != MASK_SPECIAL && (y.w[1] & MASK_SPECIAL) != MASK_SPECIAL {
        let (sx, fx, c1) = unpack_finite(x);
        let (sy, fy, c2) = unpack_finite(y);
        if c1 == 0 || c2 == 0 {
            let tp: i64 = (fx as i64 - 6176) + (fy as i64 - 6176);
            let pw: u64 = if tp < -6176 {
                0
            } else if tp > 6111 {
                0x5ffe000000000000u64
            } else {
                ((tp + 6176) as u64) << 49u64
            };
            let sgn: u64 = if sx != sy { MASK_SIGN } else { 0 };
            proof {
                crate::internal::lemma_or_zero(*pfpsf);
            }
            return BidUint128 { w: [0, sgn | pw] };
        }
    }
    bid128_fma(y, x, z, rnd_mode, pfpsf)
}

} // verus!
