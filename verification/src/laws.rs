//! Properties of the operations as a whole.

use vstd::prelude::*;
use crate::math::{pow10, two64, ndig, lemma_pow10_pos, lemma_pow10_mono, lemma_ndig_bounds};
use vstd::arithmetic::mul::lemma_mul_is_associative;
use crate::types::BidUint128;
use crate::consts::{MASK_SIGN, MASK_EXP, MASK_COEFF};
use crate::model::{is_special, is_nan, is_inf, is_steered, is_neg, coeff, raw_coeff, exp_field, encode, infinity, ten34, ten33, lemma_ten34, lemma_encode_decode, lemma_classes, negate, lemma_negate, lemma_negate_encode};
use crate::rounding::{num_at, den_at, quot_at, rem_at, first_fit, tmin, last_exact, round_bid, rounded_at, round_up, overflow_result, lemma_quot_high};
use crate::add::add_result;
use crate::fma::{fma_result, mul_result, mul_addend, prod_neg, prod_exp_word, fma_special, fma_finite};
use crate::div::div_result;

verus! {

/// From a start at or below an exponent where the value fits, the first
/// fitting exponent is no higher.
proof fn lemma_first_fit_le(n: nat, d: nat, e: int, t: int, tc: int)
    requires
        d > 0,
        t <= tc,
        quot_at(n, d, e, tc) < ten34(),
    ensures
        first_fit(n, d, e, t) <= tc,
    decreases tc - t,
{
    if t < tc && !(t >= e + ndig(n) || quot_at(n, d, e, t) < ten34()) {
        lemma_first_fit_le(n, d, e, t + 1, tc);
    }
}

/// At an exponent not above `e`, the value `n * 10^e` is an integer: the
/// remainder is zero.
proof fn lemma_rem_below(n: nat, e: int, t: int)
    requires
        t <= e,
    ensures
        rem_at(n, 1, e, t) == 0,
        quot_at(n, 1, e, t) == n * pow10((e - t) as nat),
{
    assert(den_at(1, e, t) == 1);
    vstd::arithmetic::div_mod::lemma_small_mod(0, 1);
    let a = n * pow10((e - t) as nat);
    assert(a % 1 == 0);
    assert(a / 1 == a);
}

/// Climbing through exact exponents from `t` reaches at least `e` when
/// every exponent up to `e` is exact.
proof fn lemma_last_exact_ge(n: nat, e: int, t: int)
    requires
        t <= e <= 6111,
    ensures
        last_exact(n, 1, e, t) >= e,
    decreases e - t,
{
    if t < e {
        lemma_rem_below(n, e, t + 1);
        lemma_last_exact_ge(n, e, t + 1);
        assert(last_exact(n, 1, e, t) == last_exact(n, 1, e, t + 1));
    } else {
        lemma_last_exact_up(n, 1, e, t);
    }
}

/// Climbing never goes down.
proof fn lemma_last_exact_up(n: nat, d: nat, e: int, t: int)
    ensures
        last_exact(n, d, e, t) >= t,
    decreases 6111 - t,
{
    if t < 6111 && rem_at(n, d, e, t + 1) == 0 {
        lemma_last_exact_up(n, d, e, t + 1);
    }
}

/// Rounding a coefficient of at most 34 digits at an exponent of the range,
/// with that exponent preferred, gives back its own encoding and raises no
/// flag, in every rounding mode.
pub proof fn lemma_round_exact(neg: bool, c: nat, e: int, mode: u32)
    requires
        0 < c < ten34(),
        -6176 <= e <= 6111,
    ensures
        round_bid(neg, c, 1, e, e, mode) == (encode(neg, c, (e + 6176) as nat), 0u32),
{
    lemma_rem_below(c, e, e);
    assert(pow10(0) == 1);
    assert((e - e) as nat == 0);
    assert(c * pow10(0) == c) by (nonlinear_arith)
        requires pow10(0) == 1;
    assert(quot_at(c, 1, e, e) == c);
    lemma_first_fit_le(c, 1, e, -6176, e);
    let t = tmin(c, 1, e);
    assert(t >= -6176) by {
        lemma_first_fit_ge(c, 1, e, -6176);
    }
    lemma_rem_below(c, e, t);
    lemma_last_exact_ge(c, e, t);
}

/// The first fitting exponent is not below the start.
proof fn lemma_first_fit_ge(n: nat, d: nat, e: int, t: int)
    ensures
        first_fit(n, d, e, t) >= t,
    decreases e + ndig(n) - t,
{
    if !(t >= e + ndig(n) || quot_at(n, d, e, t) < ten34()) {
        lemma_first_fit_ge(n, d, e, t + 1);
    }
}

/// A canonical finite encoding is the encoding of its own parts.
pub proof fn lemma_canonical(x: BidUint128)
    requires
        !is_special(x),
        !is_steered(x),
        raw_coeff(x) < ten34(),
    ensures
        x == encode(is_neg(x), coeff(x), exp_field(x) as nat),
        exp_field(x) <= 12287,
{
    lemma_ten34();
    let w1: u64 = x.w[1];
    let w0: u64 = x.w[0];
    let f: u64 = (w1 & 0x7ffe000000000000u64) >> 49u64;
    let hi: u64 = w1 & 0x0001ffffffffffffu64;
    let s: u64 = w1 & 0x8000000000000000u64;
    assert(w1 == s + f * 0x2000000000000u64 + hi && f <= 12287 && (s == 0 || s == 0x8000000000000000u64)) by (bit_vector)
        requires
            f == (w1 & 0x7ffe000000000000u64) >> 49u64,
            hi == w1 & 0x0001ffffffffffffu64,
            s == w1 & 0x8000000000000000u64,
            w1 & 0x6000000000000000u64 != 0x6000000000000000u64,
    ;
    assert(raw_coeff(x) == hi as nat * two64() + w0 as nat);
    let c = coeff(x);
    assert(c == hi as nat * two64() + w0 as nat);
    assert(c % two64() == w0 as nat && c / two64() == hi as nat) by {
        vstd::arithmetic::div_mod::lemma_fundamental_div_mod_converse(c as int, two64() as int, hi as int, w0 as int);
    }
    let en = encode(is_neg(x), c, exp_field(x) as nat);
    assert(en.w[0] == w0);
    assert(en.w[1] == w1);
    assert(en.w =~= x.w);
}

/// Addition is commutative, except when both operands are NaNs (the first
/// NaN is the one returned).
pub proof fn law_add_commutative(x: BidUint128, y: BidUint128, mode: u32)
    requires
        !(is_nan(x) && is_nan(y)),
    ensures
        add_result(x, y, mode) == add_result(y, x, mode),
{
    lemma_classes(x);
    lemma_classes(y);
    vstd::arithmetic::mul::lemma_mul_is_commutative(1, 1);
}

/// Adding a zero whose exponent is not below that of a canonical nonzero
/// finite `x` gives `x` itself and raises no flag.
pub proof fn law_add_zero(x: BidUint128, z: BidUint128, mode: u32)
    requires
        !is_special(x),
        coeff(x) > 0,
        !is_special(z),
        coeff(z) == 0,
        exp_field(z) >= exp_field(x),
    ensures
        add_result(x, z, mode) == (x, 0u32),
{
    lemma_canonical(x);
    let fx = exp_field(x) as nat;
    assert(pow10(0) == 1);
    assert((fx - fx) as nat == 0);
    assert(coeff(x) * pow10(0) == coeff(x));
    assert(0 * pow10((exp_field(z) - fx) as nat) == 0);
    lemma_round_exact(is_neg(x), coeff(x), fx - 6176, mode);
}

/// Multiplication is commutative, except when both operands are NaNs.
pub proof fn law_mul_commutative(x: BidUint128, y: BidUint128, mode: u32)
    requires
        !(is_nan(x) && is_nan(y)),
    ensures
        mul_result(x, y, mode) == mul_result(y, x, mode),
{
    lemma_classes(x);
    lemma_classes(y);
    let z = mul_addend();
    lemma_classes(z);
    let zw1: u64 = z.w[1];
    assert(zw1 & 0x7800000000000000u64 != 0x7800000000000000u64) by (bit_vector)
        requires zw1 == 0x5ffe000000000000u64;
    assert(prod_neg(x, y) == prod_neg(y, x));
    assert(prod_exp_word(x, y) == prod_exp_word(y, x));
    vstd::arithmetic::mul::lemma_mul_is_commutative(coeff(x) as int, coeff(y) as int);
    if is_special(x) || is_special(y) {
        assert(fma_special(y, x, z) == fma_special(x, y, z));
    } else {
        assert(fma_finite(y, x, z, mode) == fma_finite(x, y, z, mode));
    }
}

/// The encoding of `+1`.
pub open spec fn one() -> BidUint128 {
    encode(false, 1, 6176)
}

/// Multiplying a canonical nonzero finite `x` by one gives `x` itself and
/// raises no flag.
pub proof fn law_mul_one(x: BidUint128, mode: u32)
    requires
        !is_special(x),
        coeff(x) > 0,
    ensures
        mul_result(x, one(), mode) == (x, 0u32),
{
    lemma_ten34();
    lemma_canonical(x);
    lemma_encode_decode(false, 1, 6176);
    let z = mul_addend();
    lemma_classes(z);
    let zw1: u64 = z.w[1];
    assert(zw1 & 0x7800000000000000u64 != 0x7800000000000000u64 && zw1 & 0x6000000000000000u64 != 0x6000000000000000u64
        && (zw1 & 0x7ffe000000000000u64) >> 49u64 == 12287 && zw1 & 0x8000000000000000u64 == 0
        && zw1 & 0x0001ffffffffffffu64 == 0) by (bit_vector)
        requires zw1 == 0x5ffe000000000000u64;
    let fx = exp_field(x);
    let ep = (fx - 6176) + (6176 - 6176);
    assert(ep == fx - 6176);
    let f12: u64 = 12287;
    let fxu: u64 = fx;
    assert(((fxu as u64) << 49u64) <= (f12 << 49u64) && ((fxu as u64) << 49u64) >> 49u64 == fxu) by (bit_vector)
        requires fxu <= 12287, f12 == 12287;
    assert(prod_exp_word(one(), x) == (fx as u64) << 49u64);
    assert(pow10(0) == 1);
    assert(1 * coeff(x) == coeff(x));
    assert(coeff(x) * pow10(0) == coeff(x));
    assert(0 * pow10((6111 - (fx - 6176)) as nat) == 0);
    assert(!crate::fma::exempt_from_tiny(is_neg(x), coeff(x), ep, mode, crate::fma::TinyRule::CarryAt34));
    lemma_round_exact(is_neg(x), coeff(x), fx - 6176, mode);
}

/// Dividing a canonical nonzero finite `x` by one gives `x` itself and
/// raises no flag.
pub proof fn law_div_one(x: BidUint128, mode: u32, old: u32)
    requires
        !is_special(x),
        coeff(x) > 0,
    ensures
        div_result(x, one(), mode, old) == (x, 0u32),
{
    lemma_ten34();
    lemma_canonical(x);
    lemma_encode_decode(false, 1, 6176);
    lemma_classes(x);
    lemma_classes(one());
    lemma_round_exact(is_neg(x), coeff(x), exp_field(x) - 6176, mode);
    assert(coeff(x) % 1 == 0);
    crate::internal::lemma_or_zero(0u32);
}

/// Scaling numerator and denominator alike keeps the integer part and
/// scales the remainder and its denominator.
proof fn lemma_scale_at(n: nat, d: nat, k: nat, e: int, t: int)
    requires
        d > 0,
        k > 0,
    ensures
        quot_at(k * n, k * d, e, t) == quot_at(n, d, e, t),
        rem_at(k * n, k * d, e, t) == k * rem_at(n, d, e, t),
        den_at(k * d, e, t) == k * den_at(d, e, t),
        den_at(d, e, t) > 0,
{
    let a = num_at(n, e, t);
    let b = den_at(d, e, t);
    if t <= e {
        lemma_mul_is_associative(k as int, n as int, pow10((e - t) as nat) as int);
    } else {
        lemma_pow10_pos((t - e) as nat);
        lemma_mul_is_associative(k as int, d as int, pow10((t - e) as nat) as int);
        vstd::arithmetic::mul::lemma_mul_strictly_positive(d as int, pow10((t - e) as nat) as int);
    }
    assert(num_at(k * n, e, t) == k * a);
    assert(den_at(k * d, e, t) == k * b);
    vstd::arithmetic::div_mod::lemma_div_multiples_vanish_quotient(k as int, a as int, b as int);
    vstd::arithmetic::div_mod::lemma_truncate_middle(a as int, k as int, b as int);
}

/// The first fitting exponent does not change under scaling.
proof fn lemma_first_fit_scale(n: nat, d: nat, k: nat, e: int, t: int)
    requires
        d > 0,
        k > 0,
    ensures
        first_fit(k * n, k * d, e, t) == first_fit(n, d, e, t),
    decreases e + ndig(n) - t,
{
    lemma_scale_at(n, d, k, e, t);
    assert(k * d > 0) by (nonlinear_arith)
        requires k > 0, d > 0;
    if t >= e + ndig(k * n) {
        lemma_quot_high(k * n, k * d, e, t);
    }
    if t >= e + ndig(n) {
        lemma_quot_high(n, d, e, t);
    }
    if !(quot_at(n, d, e, t) < ten34()) {
        lemma_first_fit_scale(n, d, k, e, t + 1);
    }
}

/// Climbing through exact exponents does not change under scaling.
proof fn lemma_last_exact_scale(n: nat, d: nat, k: nat, e: int, t: int)
    requires
        d > 0,
        k > 0,
    ensures
        last_exact(k * n, k * d, e, t) == last_exact(n, d, e, t),
    decreases 6111 - t,
{
    lemma_scale_at(n, d, k, e, t + 1);
    assert((k * rem_at(n, d, e, t + 1) == 0) == (rem_at(n, d, e, t + 1) == 0)) by (nonlinear_arith)
        requires k > 0;
    if t < 6111 && rem_at(n, d, e, t + 1) == 0 {
        lemma_last_exact_scale(n, d, k, e, t + 1);
    }
}

/// Correct rounding depends on the value `n / d * 10^e` alone: scaling
/// numerator and denominator alike gives the same result and flags.
pub proof fn lemma_round_scale(neg: bool, n: nat, d: nat, k: nat, e: int, pref: int, mode: u32)
    requires
        d > 0,
        k > 0,
    ensures
        round_bid(neg, k * n, k * d, e, pref, mode) == round_bid(neg, n, d, e, pref, mode),
{
    lemma_first_fit_scale(n, d, k, e, -6176);
    let t = tmin(n, d, e);
    lemma_scale_at(n, d, k, e, t);
    lemma_scale_at(n, d, k, e, -6176);
    lemma_last_exact_scale(n, d, k, e, t);
    let hi = last_exact(n, d, e, t);
    let ts = if pref < t { t } else if pref > hi { hi } else { pref };
    lemma_scale_at(n, d, k, e, ts);
    let r = rem_at(n, d, e, t);
    let b = den_at(d, e, t);
    assert((k * r == 0) == (r == 0)
        && ((2 * (k * r) > k * b) == (2 * r > b))
        && ((2 * (k * r) == k * b) == (2 * r == b))
        && ((2 * (k * r) >= k * b) == (2 * r >= b))) by (nonlinear_arith)
        requires k > 0;
    assert(rounded_at(k * n, k * d, e, t, mode, neg) == rounded_at(n, d, e, t, mode, neg));
}

/// Adding to a finite `x` its opposite (same coefficient and exponent,
/// the other sign) gives zero at the exponent of `x`, negative only when
/// rounding towards negative infinity, and raises no flag.
pub proof fn law_add_opposite(x: BidUint128, y: BidUint128, mode: u32)
    requires
        !is_special(x),
        !is_special(y),
        is_neg(y) != is_neg(x),
        coeff(y) == coeff(x),
        exp_field(y) == exp_field(x),
    ensures
        add_result(x, y, mode) == (encode(mode == 1, 0, exp_field(x) as nat), 0u32),
{
    let fx = exp_field(x) as nat;
    assert((fx - fx) as nat == 0);
    assert(pow10(0) == 1);
    assert(coeff(x) * pow10(0) == coeff(x));
}

/// Dividing a finite nonzero `x` by a value of the same coefficient and
/// exponent gives exactly one, with the sign of the quotient, and raises
/// no flag.
pub proof fn law_div_self(x: BidUint128, y: BidUint128, mode: u32, old: u32)
    requires
        !is_special(x),
        !is_special(y),
        coeff(x) > 0,
        coeff(y) == coeff(x),
        exp_field(y) == exp_field(x),
    ensures
        div_result(x, y, mode, old) == (encode(is_neg(x) != is_neg(y), 1, 6176), 0u32),
{
    lemma_ten34();
    lemma_classes(x);
    lemma_classes(y);
    let c = coeff(x);
    let s = is_neg(x) != is_neg(y);
    assert(exp_field(x) - exp_field(y) == 0);
    assert(c * 1 == c);
    lemma_round_scale(s, 1, 1, c, 0, 0, mode);
    lemma_round_exact(s, 1, 0, mode);
    vstd::arithmetic::div_mod::lemma_mod_self_0(c as int);
    crate::internal::lemma_or_zero(0u32);
}

/// The rounding direction seen from the other sign: down and up swap.
pub open spec fn mirror(mode: u32) -> u32 {
    if mode == 1 {
        2
    } else if mode == 2 {
        1
    } else {
        mode
    }
}

/// At the first fitting exponent the integer part fits in 34 digits.
proof fn lemma_first_fit_fits(n: nat, d: nat, e: int, t: int)
    requires
        d > 0,
    ensures
        quot_at(n, d, e, first_fit(n, d, e, t)) < ten34(),
    decreases e + ndig(n) - t,
{
    lemma_ten34();
    if t >= e + ndig(n) {
        lemma_quot_high(n, d, e, t);
    } else if quot_at(n, d, e, t) >= ten34() {
        lemma_first_fit_fits(n, d, e, t + 1);
    }
}

/// Climbing through exact exponents from at most `emax` stays at most `emax`.
proof fn lemma_last_exact_le(n: nat, d: nat, e: int, t: int)
    requires
        t <= 6111,
    ensures
        last_exact(n, d, e, t) <= 6111,
    decreases 6111 - t,
{
    if t < 6111 && rem_at(n, d, e, t + 1) == 0 {
        lemma_last_exact_le(n, d, e, t + 1);
    }
}

/// Correct rounding is symmetric: rounding the opposite value in the
/// mirrored direction gives the opposite result and the same flags.
pub proof fn lemma_round_mirror(neg: bool, n: nat, d: nat, e: int, pref: int, mode: u32)
    requires
        d > 0,
    ensures
        round_bid(!neg, n, d, e, pref, mirror(mode)) == (negate(round_bid(neg, n, d, e, pref, mode).0), round_bid(neg, n, d, e, pref, mode).1),
{
    lemma_ten34();
    let t = tmin(n, d, e);
    lemma_first_fit_ge(n, d, e, -6176);
    lemma_first_fit_fits(n, d, e, -6176);
    if t <= 6111 && rem_at(n, d, e, t) == 0 {
        let hi = last_exact(n, d, e, t);
        lemma_last_exact_le(n, d, e, t);
        lemma_last_exact_up(n, d, e, t);
        let ts = if pref < t { t } else if pref > hi { hi } else { pref };
        crate::finish::lemma_quot_anti(n, d, e, t, ts);
        lemma_negate_encode(neg, quot_at(n, d, e, ts), (ts + 6176) as nat);
    } else {
        let q = quot_at(n, d, e, t);
        let rm = rem_at(n, d, e, t);
        let den = den_at(d, e, t);
        assert(round_up(mirror(mode), !neg, q, rm, den) == round_up(mode, neg, q, rm, den));
        assert(rounded_at(n, d, e, t, mirror(mode), !neg) == rounded_at(n, d, e, t, mode, neg));
        let r = rounded_at(n, d, e, t, mode, neg);
        assert(r <= ten34());
        let c = if r == ten34() { ten33() } else { r };
        let t2 = if r == ten34() { t + 1 } else { t };
        if t2 > 6111 {
            lemma_negate_encode(neg, (ten34() - 1) as nat, 12287);
            assert(overflow_result(!neg, mirror(mode)) == negate(overflow_result(neg, mode)));
        } else {
            lemma_negate_encode(neg, c, (t2 + 6176) as nat);
        }
    }
}

/// Whether `x + y` cancels exactly: the signs differ and the magnitudes
/// are equal.
pub open spec fn add_cancels(x: BidUint128, y: BidUint128) -> bool {
    let fx = exp_field(x) as nat;
    let fy = exp_field(y) as nat;
    let m: nat = if fx < fy { fx } else { fy };
    &&& is_neg(x) != is_neg(y)
    &&& coeff(x) * pow10((fx - m) as nat) == coeff(y) * pow10((fy - m) as nat)
}

/// Adding the opposites of two finite values in the mirrored rounding
/// direction gives the opposite of their sum and the same flags, unless
/// the sum cancels exactly (then both sums are `+0`, or `-0` when rounding
/// down).
pub proof fn law_add_mirror(x: BidUint128, y: BidUint128, mode: u32)
    requires
        !is_special(x),
        !is_special(y),
        !add_cancels(x, y),
    ensures
        add_result(negate(x), negate(y), mirror(mode)) == (negate(add_result(x, y, mode).0), add_result(x, y, mode).1),
{
    lemma_negate(x);
    lemma_negate(y);
    let fx = exp_field(x) as nat;
    let fy = exp_field(y) as nat;
    let m: nat = if fx < fy { fx } else { fy };
    let e = m - 6176;
    let ax = coeff(x) * pow10((fx - m) as nat);
    let ay = coeff(y) * pow10((fy - m) as nat);
    if is_neg(x) == is_neg(y) {
        if ax + ay == 0 {
            lemma_negate_encode(is_neg(x), 0, m);
        } else {
            lemma_round_mirror(is_neg(x), ax + ay, 1, e, e, mode);
        }
    } else if ax > ay {
        lemma_round_mirror(is_neg(x), (ax - ay) as nat, 1, e, e, mode);
    } else {
        lemma_round_mirror(is_neg(y), (ay - ax) as nat, 1, e, e, mode);
    }
}

/// Multiplying the opposite of a finite nonzero `x` by a finite nonzero
/// `y` in the mirrored rounding direction gives the opposite of their
/// product and the same flags.
pub proof fn law_mul_mirror(x: BidUint128, y: BidUint128, mode: u32)
    requires
        !is_special(x),
        !is_special(y),
        coeff(x) > 0,
        coeff(y) > 0,
    ensures
        mul_result(negate(x), y, mirror(mode)) == (negate(mul_result(x, y, mode).0), mul_result(x, y, mode).1),
{
    lemma_negate(x);
    let z = mul_addend();
    assert(z.w =~= encode(false, 0, 12287).w);
    lemma_encode_decode(false, 0, 12287);
    lemma_classes(z);
    let nx = negate(x);
    assert(prod_neg(y, nx) == !prod_neg(y, x));
    assert(prod_exp_word(y, nx) == prod_exp_word(y, x));
    assert(crate::fma::fma_pref(y, nx, z) == crate::fma::fma_pref(y, x, z));
    let ep = (exp_field(y) - 6176) + (exp_field(x) - 6176);
    let ez = exp_field(z) - 6176;
    let mm = if ep < ez { ep } else { ez };
    let n = coeff(y) * coeff(x) * pow10((ep - mm) as nat);
    let pref = crate::fma::fma_pref(y, x, z);
    assert(coeff(z) == 0);
    assert(0 * pow10((ez - mm) as nat) == 0);
    let ps = prod_neg(y, x);
    assert(crate::fma::exempt_from_tiny(!ps, n, mm, mirror(mode), crate::fma::TinyRule::CarryAt34)
        == crate::fma::exempt_from_tiny(ps, n, mm, mode, crate::fma::TinyRule::CarryAt34));
    lemma_pow10_pos((ep - mm) as nat);
    assert(n > 0) by (nonlinear_arith)
        requires n == coeff(y) * coeff(x) * pow10((ep - mm) as nat), coeff(y) > 0, coeff(x) > 0, pow10((ep - mm) as nat) >= 1;
    assert(crate::fma::fma_exact(y, nx, z) == Some((!ps, n, mm)));
    assert(crate::fma::fma_exact(y, x, z) == Some((ps, n, mm)));
    lemma_round_mirror(ps, n, 1, mm, pref, mode);
    assert(crate::fma::fma_finite(y, nx, z, mirror(mode)) == crate::fma::round_tiny(!ps, n, mm, pref, mirror(mode), crate::fma::TinyRule::CarryAt34));
    assert(crate::fma::fma_finite(y, x, z, mode) == crate::fma::round_tiny(ps, n, mm, pref, mode, crate::fma::TinyRule::CarryAt34));
}

/// An infinity plus a finite value is that infinity, with no flag; and
/// a finite value plus an infinity is that infinity.
pub proof fn law_add_infinite(x: BidUint128, y: BidUint128, mode: u32)
    requires
        is_inf(x) && !is_special(y) || !is_special(x) && is_inf(y),
    ensures
        add_result(x, y, mode) == (if is_inf(x) { infinity(is_neg(x)) } else { infinity(is_neg(y)) }, 0u32),
        add_result(x, y, mode) == add_result(y, x, mode),
{
    lemma_classes(x);
    lemma_classes(y);
}

/// Adding the opposites of two operands, neither a NaN and at least one
/// infinite, gives the opposite of their sum and the same flags, unless
/// they are infinities of opposite signs (then both sums are the invalid
/// NaN).
pub proof fn law_add_mirror_infinite(x: BidUint128, y: BidUint128, mode: u32)
    requires
        !is_nan(x),
        !is_nan(y),
        is_inf(x) || is_inf(y),
        !(is_inf(x) && is_inf(y) && is_neg(x) != is_neg(y)),
    ensures
        add_result(negate(x), negate(y), mirror(mode)) == (negate(add_result(x, y, mode).0), add_result(x, y, mode).1),
{
    lemma_classes(x);
    lemma_classes(y);
    lemma_negate(x);
    lemma_negate(y);
    lemma_negate_encode(is_neg(x), 0, 0);
    lemma_negate_encode(is_neg(y), 0, 0);
}

/// A finite nonzero value divided by a finite zero is the infinity whose
/// sign is the exclusive or of the operands' signs, with the
/// division-by-zero flag.
pub proof fn law_div_by_zero(x: BidUint128, y: BidUint128, mode: u32, old: u32)
    requires
        !is_special(x),
        coeff(x) > 0,
        !is_special(y),
        coeff(y) == 0,
    ensures
        div_result(x, y, mode, old) == (infinity(is_neg(x) != is_neg(y)), 4u32),
{
    lemma_classes(x);
    lemma_classes(y);
}

/// Dividing the opposite of `x` by `y` in the mirrored rounding direction
/// gives the opposite quotient and the same flags, whenever neither
/// operand is a NaN and the quotient is not the invalid NaN (both
/// operands infinite, or both zero).
pub proof fn law_div_mirror(x: BidUint128, y: BidUint128, mode: u32, old: u32)
    requires
        !is_nan(x),
        !is_nan(y),
        !(is_inf(x) && is_inf(y)),
        !(!is_special(x) && !is_special(y) && coeff(x) == 0 && coeff(y) == 0),
    ensures
        div_result(negate(x), y, mirror(mode), old) == (negate(div_result(x, y, mode, old).0), div_result(x, y, mode, old).1),
{
    lemma_classes(x);
    lemma_classes(y);
    lemma_negate(x);
    let s = is_neg(x) != is_neg(y);
    lemma_negate_encode(s, 0, 0);
    if !is_special(x) && !is_special(y) {
        if coeff(x) == 0 {
            lemma_negate_encode(s, 0, crate::div::div_zero_exp(x, y));
            assert(crate::div::div_zero_exp(negate(x), y) == crate::div::div_zero_exp(x, y));
        } else if coeff(y) > 0 {
            let e = exp_field(x) - exp_field(y);
            lemma_round_mirror(s, coeff(x), coeff(y), e, e, mode);
            assert(crate::div::div_extra_flag(negate(x), y, old) == crate::div::div_extra_flag(x, y, old));
        }
    }
}

/// Dividing `x` by the opposite of `y` in the mirrored rounding
/// direction gives the opposite quotient and the same flags, under the
/// conditions of `law_div_mirror`.
pub proof fn law_div_mirror_divisor(x: BidUint128, y: BidUint128, mode: u32, old: u32)
    requires
        !is_nan(x),
        !is_nan(y),
        !(is_inf(x) && is_inf(y)),
        !(!is_special(x) && !is_special(y) && coeff(x) == 0 && coeff(y) == 0),
    ensures
        div_result(x, negate(y), mirror(mode), old) == (negate(div_result(x, y, mode, old).0), div_result(x, y, mode, old).1),
{
    lemma_classes(x);
    lemma_classes(y);
    lemma_negate(y);
    let s = is_neg(x) != is_neg(y);
    lemma_negate_encode(s, 0, 0);
    if !is_special(x) && !is_special(y) {
        if coeff(x) == 0 {
            lemma_negate_encode(s, 0, crate::div::div_zero_exp(x, y));
            assert(crate::div::div_zero_exp(x, negate(y)) == crate::div::div_zero_exp(x, y));
        } else if coeff(y) > 0 {
            let e = exp_field(x) - exp_field(y);
            lemma_round_mirror(s, coeff(x), coeff(y), e, e, mode);
            assert(crate::div::div_extra_flag(x, negate(y), old) == crate::div::div_extra_flag(x, y, old));
        }
    }
}

/// Rounding a coefficient of at most 34 digits at an exponent of the
/// range, with a preferred exponent not above it, is exact: no flag is
/// raised and the result is a finite value of the given sign equal to
/// `c * 10^e`.
pub proof fn lemma_round_exact_low_pref(neg: bool, c: nat, e: int, pref: int, mode: u32)
    requires
        0 < c < ten34(),
        -6176 <= e <= 6111,
        pref <= e,
    ensures
        round_bid(neg, c, 1, e, pref, mode).1 == 0,
        !is_special(round_bid(neg, c, 1, e, pref, mode).0),
        is_neg(round_bid(neg, c, 1, e, pref, mode).0) == neg,
        coeff(round_bid(neg, c, 1, e, pref, mode).0) * pow10(exp_field(round_bid(neg, c, 1, e, pref, mode).0) as nat)
            == c * pow10((e + 6176) as nat),
{
    lemma_ten34();
    lemma_rem_below(c, e, e);
    assert(pow10(0) == 1);
    assert((e - e) as nat == 0);
    assert(c * pow10(0) == c) by (nonlinear_arith)
        requires pow10(0) == 1;
    lemma_first_fit_le(c, 1, e, -6176, e);
    lemma_first_fit_ge(c, 1, e, -6176);
    lemma_first_fit_fits(c, 1, e, -6176);
    let t = tmin(c, 1, e);
    lemma_rem_below(c, e, t);
    let hi = last_exact(c, 1, e, t);
    lemma_last_exact_le(c, 1, e, t);
    lemma_last_exact_up(c, 1, e, t);
    let ts = if pref < t { t } else if pref > hi { hi } else { pref };
    assert(t <= ts <= e);
    lemma_rem_below(c, e, ts);
    let q = quot_at(c, 1, e, ts);
    lemma_pow10_mono((e - ts) as nat, (e - t) as nat);
    assert(q <= quot_at(c, 1, e, t)) by (nonlinear_arith)
        requires
            q == c * pow10((e - ts) as nat),
            quot_at(c, 1, e, t) == c * pow10((e - t) as nat),
            pow10((e - ts) as nat) <= pow10((e - t) as nat);
    assert(round_bid(neg, c, 1, e, pref, mode) == (encode(neg, q, (ts + 6176) as nat), 0u32));
    lemma_encode_decode(neg, q, (ts + 6176) as nat);
    crate::math::lemma_pow10_add((e - ts) as nat, (ts + 6176) as nat);
    assert((e - ts) as nat + (ts + 6176) as nat == (e + 6176) as nat);
    assert(q * pow10((ts + 6176) as nat) == c * pow10((e + 6176) as nat)) by (nonlinear_arith)
        requires
            q == c * pow10((e - ts) as nat),
            pow10((e + 6176) as nat) == pow10((e - ts) as nat) * pow10((ts + 6176) as nat);
}

/// The preferred exponent of a fused multiply-add is not above the
/// exponent of `z`.
proof fn lemma_fma_pref_le(x: BidUint128, y: BidUint128, z: BidUint128)
    requires
        exp_field(z) <= 12287,
    ensures
        crate::fma::fma_pref(x, y, z) <= exp_field(z) - 6176,
{
    let fz: u64 = exp_field(z);
    let zw: u64 = fz << 49u64;
    let mw: u64 = crate::fma::fma_min_word(x, y, z);
    vstd::arithmetic::power2::lemma2_to64_rest();
    assert(fz * vstd::arithmetic::power2::pow2(49) <= u64::MAX);
    vstd::bits::lemma_u64_shl_is_mul(fz, 49);
    vstd::bits::lemma_u64_shr_is_div(mw, 49);
    assert(mw <= zw);
    vstd::arithmetic::div_mod::lemma_div_is_ordered(mw as int, zw as int, vstd::arithmetic::power2::pow2(49) as int);
    vstd::arithmetic::div_mod::lemma_div_multiples_vanish(fz as int, vstd::arithmetic::power2::pow2(49) as int);
}

/// When the product `x * y` of finite operands is zero and `z` is finite
/// and nonzero, the fused multiply-add gives the value of `z`: its sign,
/// its magnitude (possibly with a smaller exponent and a longer
/// coefficient), and no flag, whatever the sign of the product.
pub proof fn law_fma_zero_product(x: BidUint128, y: BidUint128, z: BidUint128, mode: u32)
    requires
        !is_special(x),
        !is_special(y),
        !is_special(z),
        coeff(x) == 0 || coeff(y) == 0,
        coeff(z) > 0,
    ensures
        fma_result(x, y, z, mode).1 == 0,
        !is_special(fma_result(x, y, z, mode).0),
        is_neg(fma_result(x, y, z, mode).0) == is_neg(z),
        coeff(fma_result(x, y, z, mode).0) * pow10(exp_field(fma_result(x, y, z, mode).0) as nat)
            == coeff(z) * pow10(exp_field(z) as nat),
        fma_result(negate(x), y, z, mode) == fma_result(x, y, z, mode),
{
    lemma_ten34();
    lemma_canonical(z);
    lemma_negate(x);
    lemma_fma_pref_le(x, y, z);
    let e = exp_field(z) - 6176;
    lemma_round_exact_low_pref(is_neg(z), coeff(z), e, crate::fma::fma_pref(x, y, z), mode);
    assert((e + 6176) as nat == exp_field(z) as nat);
    assert(crate::fma::fma_pref(negate(x), y, z) == crate::fma::fma_pref(x, y, z));
}

/// Rounding with a tininess rule is symmetric like correct rounding.
proof fn lemma_round_tiny_mirror(neg: bool, n: nat, e: int, pref: int, mode: u32, rule: crate::fma::TinyRule)
    ensures
        crate::fma::round_tiny(!neg, n, e, pref, mirror(mode), rule)
            == (negate(crate::fma::round_tiny(neg, n, e, pref, mode, rule).0), crate::fma::round_tiny(neg, n, e, pref, mode, rule).1),
{
    lemma_round_mirror(neg, n, 1, e, pref, mode);
    let rem = rem_at(n, 1, e, -6176);
    let den = den_at(1, e, -6176);
    assert(round_up(mirror(mode), !neg, (ten33() - 1) as nat, rem, den) == round_up(mode, neg, (ten33() - 1) as nat, rem, den));
    assert(crate::fma::exempt_from_tiny(!neg, n, e, mirror(mode), rule) == crate::fma::exempt_from_tiny(neg, n, e, mode, rule));
}

/// Taking the opposites of `x` and `z` in a fused multiply-add of finite
/// operands, in the mirrored rounding direction, gives the opposite result
/// and the same flags, unless the exact value is zero (then the sign of
/// the zero follows the rounding direction).
pub proof fn law_fma_mirror(x: BidUint128, y: BidUint128, z: BidUint128, mode: u32)
    requires
        !is_special(x),
        !is_special(y),
        !is_special(z),
        (coeff(x) == 0 || coeff(y) == 0) ==> coeff(z) > 0,
        (coeff(x) > 0 && coeff(y) > 0) ==> crate::fma::fma_exact(x, y, z) is Some,
    ensures
        fma_result(negate(x), y, negate(z), mirror(mode))
            == (negate(fma_result(x, y, z, mode).0), fma_result(x, y, z, mode).1),
{
    lemma_negate(x);
    lemma_negate(z);
    let nx = negate(x);
    let nz = negate(z);
    assert(prod_neg(nx, y) == !prod_neg(x, y));
    assert(prod_exp_word(nx, y) == prod_exp_word(x, y));
    assert(crate::fma::fma_min_word(nx, y, nz) == crate::fma::fma_min_word(x, y, z));
    assert(crate::fma::fma_pref(nx, y, nz) == crate::fma::fma_pref(x, y, z));
    let pref = crate::fma::fma_pref(x, y, z);
    if coeff(x) == 0 || coeff(y) == 0 {
        lemma_round_mirror(is_neg(z), coeff(z), 1, exp_field(z) - 6176, pref, mode);
    } else {
        let (sg, n, e) = crate::fma::fma_exact(x, y, z).unwrap();
        assert(crate::fma::fma_exact(nx, y, nz) == Some((!sg, n, e)));
        assert(crate::fma::fma_delta(nx, y, nz) == crate::fma::fma_delta(x, y, z));
        assert(crate::fma::fma_tiny_rule(nx, y, nz) == crate::fma::fma_tiny_rule(x, y, z));
        assert(crate::fma::fma_spurious_underflow(nx, y, nz) == crate::fma::fma_spurious_underflow(x, y, z));
        lemma_round_tiny_mirror(sg, n, e, pref, mode, crate::fma::TinyRule::CarryAt34);
        lemma_round_tiny_mirror(sg, n, e, pref, mode, crate::fma::fma_tiny_rule(x, y, z));
    }
}

} // verus!
