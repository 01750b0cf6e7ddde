//! The rounding step shared by all arithmetic operations: from an exact
//! value `n / d * 10^e` to its decimal128 encoding and status flags.

use vstd::prelude::*;
use vstd::arithmetic::div_mod::{lemma_fundamental_div_mod, lemma_fundamental_div_mod_converse, lemma_div_denominator, lemma_small_mod, lemma_basic_div};
use vstd::arithmetic::mul::{lemma_mul_is_associative, lemma_mul_is_commutative, lemma_mul_strictly_positive, lemma_mul_inequality};
use crate::math::{pow10, ndig, lemma_pow10_pos, lemma_pow10_add, lemma_pow10_mono, lemma_ndig_bounds, lemma_ndig_div_pow10, lemma_div_pow10_twice};
use crate::bignum::{Big, big_from_u128, big_mul_small, big_from_u64, big_ndigits, ndigits_u128, big_mul_pow10, big_div_pow10, big_div_u128, big_sub, big_lt, big_is_zero, big_to_u128, pow10_u128, lemma_ndig_le};
use crate::types::BidUint128;
use crate::consts::MASK_SIGN;
use crate::model::{encode, infinity, ten34, ten33, emin, emax, pack, lemma_ten34};
use crate::rounding::{carry_tie, num_at, den_at, quot_at, rem_at, round_up, rounded_at, first_fit, tmin, last_exact, overflow_result, round_bid, round_class, lemma_at_base, lemma_quot_step, lemma_first_fit, lemma_cancel};

verus! {

/// The integer part at the next exponent is the integer part here over ten.
pub proof fn lemma_quot_next(n: nat, d: nat, e: int, t: int)
    requires
        d > 0,
    ensures
        quot_at(n, d, e, t + 1) == quot_at(n, d, e, t) / 10,
{
    let b = if t < e { t } else { e };
    lemma_at_base(n, d, e, b, t);
    lemma_at_base(n, d, e, b, t + 1);
    let g = (n * pow10((e - b) as nat)) / d;
    lemma_div_pow10_twice(g, (t - b) as nat, 1);
    reveal_with_fuel(pow10, 2);
    assert(((t - b) as nat + 1) as nat == (t + 1 - b) as nat);
}

/// Integer parts do not grow with the exponent.
pub proof fn lemma_quot_anti(n: nat, d: nat, e: int, s: int, t: int)
    requires
        d > 0,
        s <= t,
    ensures
        quot_at(n, d, e, s) >= quot_at(n, d, e, t),
    decreases t - s,
{
    if s < t {
        lemma_quot_anti(n, d, e, s + 1, t);
        lemma_quot_step(n, d, e, s);
    }
}

/// Once exact at `t`, the value is exact at `t + 1` exactly when the
/// integer part at `t` ends in a zero.
pub proof fn lemma_rem_next(n: nat, d: nat, e: int, t: int)
    requires
        d > 0,
        rem_at(n, d, e, t) == 0,
    ensures
        (rem_at(n, d, e, t + 1) == 0) == (quot_at(n, d, e, t) % 10 == 0),
{
    let b = if t < e { t } else { e };
    lemma_at_base(n, d, e, b, t);
    lemma_at_base(n, d, e, b, t + 1);
    let a = n * pow10((e - b) as nat);
    let g = a / d;
    let k: nat = (t - b) as nat;
    let f0 = pow10((if t <= e { t } else { e } - b) as nat);
    let f1 = pow10((if t + 1 <= e { t + 1 } else { e } - b) as nat);
    lemma_pow10_pos((if t <= e { t } else { e } - b) as nat);
    lemma_pow10_pos((if t + 1 <= e { t + 1 } else { e } - b) as nat);
    lemma_pow10_pos(k);
    // rem_at(t) * f0 == d * (g % 10^k) + a % d == 0
    assert(rem_at(n, d, e, t) * f0 == 0);
    assert(d * (g % pow10(k)) + a % d == 0);
    assert(a % d == 0);
    let p = pow10(k);
    let gm: nat = g % p;
    assert(gm == 0) by (nonlinear_arith)
        requires d * gm == 0, d > 0;
    reveal_with_fuel(pow10, 2);
    lemma_pow10_add(k, 1);
    assert((k + 1) as nat == (t + 1 - b) as nat);
    lemma_fundamental_div_mod(g as int, pow10(k) as int);
    let q = g / pow10(k);
    assert(g == pow10(k) * q);
    lemma_mod_mul_pow10(q, k);
    // g % 10^(k+1) == (q % 10) * 10^k
    assert(rem_at(n, d, e, t + 1) * f1 == d * ((q % 10) * pow10(k)));
    assert(quot_at(n, d, e, t) == q);
    if q % 10 == 0 {
        let z: nat = q % 10;
        assert(z * pow10(k) == 0) by (nonlinear_arith)
            requires z == 0;
        assert(d * 0 == 0);
        assert(rem_at(n, d, e, t + 1) * f1 == 0);
        assert(rem_at(n, d, e, t + 1) == 0) by (nonlinear_arith)
            requires rem_at(n, d, e, t + 1) * f1 == 0, f1 > 0;
    } else {
        assert(d * ((q % 10) * pow10(k)) > 0) by (nonlinear_arith)
            requires d > 0, q % 10 > 0, pow10(k) > 0;
    }
}

/// `(q * 10^k) % 10^(k+1) == (q % 10) * 10^k`.
pub proof fn lemma_mod_mul_pow10(q: nat, k: nat)
    ensures
        (pow10(k) * q) % pow10(k + 1) == (q % 10) * pow10(k),
{
    lemma_pow10_pos(k);
    lemma_pow10_add(k, 1);
    reveal_with_fuel(pow10, 2);
    lemma_cancel(q, 10, pow10(k));
    lemma_mul_is_commutative(q as int, pow10(k) as int);
    lemma_mul_is_commutative(10, pow10(k) as int);
}

/// How `2 * rem` compares with `den`, read off the scaled parts.
pub proof fn lemma_classify(rem: nat, den: nat, f: nat, d: nat, m: nat, r0: nat, p: nat)
    requires
        f > 0,
        d > 0,
        r0 < d,
        m < p,
        rem * f == d * m + r0,
        den * f == d * p,
    ensures
        (rem == 0) == (m == 0 && r0 == 0),
        p == 1 ==> ((2 * rem < den) == (2 * r0 < d) && (2 * rem == den) == (2 * r0 == d)),
        p % 2 == 0 && m < p / 2 ==> 2 * rem < den,
        p % 2 == 0 && m > p / 2 ==> 2 * rem > den,
        p % 2 == 0 && m == p / 2 ==> ((2 * rem == den) == (r0 == 0) && 2 * rem >= den),
{
    assert((rem == 0) == (d * m + r0 == 0)) by (nonlinear_arith)
        requires rem * f == d * m + r0, f > 0;
    assert((d * m + r0 == 0) == (m == 0 && r0 == 0)) by (nonlinear_arith)
        requires d > 0, r0 >= 0, m >= 0;
    assert((2 * rem < den) == (2 * rem * f < den * f)) by (nonlinear_arith)
        requires f > 0;
    assert((2 * rem == den) == (2 * rem * f == den * f)) by (nonlinear_arith)
        requires f > 0;
    assert((2 * rem > den) == (2 * rem * f > den * f)) by (nonlinear_arith)
        requires f > 0;
    assert(2 * rem * f == 2 * (d * m + r0)) by (nonlinear_arith)
        requires rem * f == d * m + r0;
    if p == 1 {
        assert(m == 0);
    }
    if p % 2 == 0 {
        let h = p / 2;
        assert(p == 2 * h);
        if m < h {
            assert(2 * (d * m + r0) < d * p) by (nonlinear_arith)
                requires m + 1 <= h, r0 < d, p == 2 * h, d > 0;
        }
        if m > h {
            assert(2 * (d * m + r0) > d * p) by (nonlinear_arith)
                requires m >= h + 1, r0 >= 0, p == 2 * h, d > 0;
        }
        if m == h {
            assert(2 * (d * m + r0) == d * p + 2 * r0) by (nonlinear_arith)
                requires m == h, p == 2 * h;
        }
    }
}

/// A number with at least `j + 33` digits over a divisor below `10^j`
/// keeps at least 34 digits.
pub proof fn lemma_big_quot(a: nat, d: nat, j: nat)
    requires
        a >= pow10(j + 33),
        0 < d < pow10(j),
    ensures
        a / d >= ten33(),
{
    lemma_ten34();
    lemma_pow10_add(j, 33);
    lemma_fundamental_div_mod(a as int, d as int);
    let q = a / d;
    if q < ten33() {
        assert(a < pow10(j + 33)) by (nonlinear_arith)
            requires
                a == d * q + a % d,
                a % d < d,
                q + 1 <= ten33(),
                d < pow10(j),
                pow10(j + 33) == pow10(j) * ten33(),
                d > 0,
        ;
    }
}

/// `x / 10^j` has at most 34 digits exactly when `x` has at most `34 + j`.
pub proof fn lemma_fits_digits(x: nat, j: nat)
    ensures
        (x / pow10(j) < ten34()) == (ndig(x) <= 34 + j),
{
    lemma_ndig_div_pow10(x, j);
    lemma_ten34();
    let y = x / pow10(j);
    lemma_ndig_bounds(y);
    if y < ten34() {
        lemma_ndig_le(y, 34);
    } else {
        if ndig(y) <= 34 {
            lemma_pow10_mono(ndig(y), 34);
        }
    }
}

/// Finds where the value is rounded. Returns the value scaled to a base
/// exponent `b` as an integer part `g` and a remainder `r0` over `d`,
/// then `b`, and the least exponent `tc` of decimal128 at which the
/// integer part of the value fits in 34 digits.
fn locate(n: &Big, d: u128, e: i64) -> (res: (Big, u128, i64, i64))
    requires
        n.value() > 0,
        0 < d < ten34(),
        -1_000_000 <= e <= 1_000_000,
        n.limbs.len() < 10000,
    ensures
        res.2 <= e,
        res.2 <= res.3,
        -1_000_000 <= res.2,
        -6176 <= res.3 <= 1_300_000,
        res.3 == tmin(n.value(), d as nat, e as int),
        res.0.value() == (n.value() * pow10((e - res.2) as nat)) / (d as nat),
        res.1 as nat == (n.value() * pow10((e - res.2) as nat)) % (d as nat),
        res.1 < d,
        res.0.limbs.len() <= n.limbs.len() + 4,
        quot_at(n.value(), d as nat, e as int, res.3 as int) < ten34(),
{
    let ghost nv = n.value();
    let ghost dv = d as nat;
    proof {
        lemma_ten34();
    }
    let dn: u64 = big_ndigits(n);
    let dd: u64 = ndigits_u128(d);
    proof {
        lemma_ndig_le(dv, 34);
        lemma_ndig_bounds(dv);
        lemma_ndig_bounds(nv);
    }
    let l0: i64 = e + dn as i64 - dd as i64 - 34;
    let lb: i64 = if l0 > -6176 { l0 } else { -6176 };
    let b: i64 = if e < lb { e } else { lb };
    let sh: u64 = (e - b) as u64;
    assert(sh <= 68);
    let a = big_mul_pow10(n, sh);
    assert(ten34() < 0x8000_0000_0000_0000_0000_0000_0000_0000u128);
    let (g, r0) = big_div_u128(&a, d);
    let ghost av = a.value();
    let ghost gv = g.value();
    proof {
        lemma_fundamental_div_mod_converse(av as int, d as int, gv as int, r0 as int);
        assert(sh as nat == (e - b) as nat);
        if b > -6176 {
            lemma_pow10_pos(sh as nat);
            lemma_pow10_add((dn - 1) as nat, sh as nat);
            let p = pow10(sh as nat);
            let lo = pow10((dn - 1) as nat);
            assert(nv * p >= lo * p) by (nonlinear_arith)
                requires nv >= lo, p >= 1;
            assert(((dn - 1) as nat + sh as nat) as nat >= (dd + 33) as nat);
            lemma_pow10_mono((dd + 33) as nat, ((dn - 1) as nat + sh as nat) as nat);
            lemma_big_quot(av, dv, dd as nat);
        }
        assert(b > -6176 ==> gv >= ten33());
    }
    let dg: u64 = big_ndigits(&g);
    let t0: i64 = b + dg as i64 - 34;
    let tc: i64 = if t0 > -6176 { t0 } else { -6176 };
    proof {
        lemma_ndig_bounds(gv);
        if b > -6176 && dg < 34 {
            lemma_pow10_mono(dg as nat, 33);
        }
    }
    let k: u64 = (tc - b) as u64;
    proof {
        lemma_at_base(nv, dv, e as int, b as int, tc as int);
        lemma_fits_digits(gv, k as nat);
        assert(k as nat == (tc - b) as nat);
        assert forall|s: int| emin() <= s < tc implies quot_at(nv, dv, e as int, s) >= ten34() by {
            if s >= b {
                lemma_at_base(nv, dv, e as int, b as int, s);
                lemma_fits_digits(gv, (s - b) as nat);
            } else {
                lemma_at_base(nv, dv, e as int, b as int, b as int);
                assert(pow10(0) == 1);
                assert(gv / 1 == gv);
                lemma_quot_step(nv, dv, e as int, b - 1);
                lemma_quot_anti(nv, dv, e as int, s, b - 1);
            }
        }
        lemma_first_fit(nv, dv, e as int, emin(), tc as int);
    }
    (g, r0, b, tc)
}

/// Compares the remainder `rem / den` with one half, from its parts
/// `m / 10^k` and `r0 / d`: returns whether it is below, and whether
/// it is equal.
fn half_compare(m: &Big, k: u64, r0: u128, d: u128, Ghost(rem): Ghost<nat>, Ghost(den): Ghost<nat>, Ghost(f): Ghost<nat>) -> (res: (bool, bool))
    requires
        f > 0,
        0 < d < ten34(),
        r0 < d,
        k <= 10_000_000,
        m.value() < pow10(k as nat),
        rem * f == d * m.value() + r0,
        den * f == d * pow10(k as nat),
    ensures
        res.0 == (2 * rem < den),
        res.1 == (2 * rem == den),
{
    proof {
        lemma_classify(rem, den, f, d as nat, m.value(), r0 as nat, pow10(k as nat));
    }
    if k == 0 {
        proof {
            assert(pow10(0) == 1);
        }
        (2 * r0 < d, 2 * r0 == d)
    } else {
        let five = big_from_u64(5);
        let half = big_mul_pow10(&five, k - 1);
        proof {
            reveal_with_fuel(pow10, 2);
            lemma_pow10_add(1, (k - 1) as nat);
            assert((1 + (k - 1) as nat) as nat == k as nat);
            assert(pow10(k as nat) == 2 * half.value());
        }
        let mlt = big_lt(m, &half);
        let mgt = big_lt(&half, m);
        (mlt, !mlt && !mgt && r0 == 0)
    }
}

/// The result when the value is exactly representable: the coefficient at
/// the representable exponent closest to `pref`.
fn exact_result(neg: bool, Ghost(nv): Ghost<nat>, d: u128, e: i64, tc: i64, pref: i64, mode: u32, q128: u128) -> (res: (BidUint128, u32))
    requires
        0 < d,
        -6176 <= tc <= 6111,
        tc == tmin(nv, d as nat, e as int),
        rem_at(nv, d as nat, e as int, tc as int) == 0,
        q128 == quot_at(nv, d as nat, e as int, tc as int),
        q128 < ten34(),
        -1_000_000 <= pref <= 1_000_000,
    ensures
        res == round_bid(neg, nv, d as nat, e as int, pref as int, mode),
{
    let ghost dv = d as nat;
    let mut h: i64 = tc;
    let mut qq: u128 = q128;
    while h < 6111 && qq % 10 == 0
        invariant
            tc <= h <= 6111,
            qq == quot_at(nv, dv, e as int, h as int),
            rem_at(nv, dv, e as int, h as int) == 0,
            last_exact(nv, dv, e as int, tc as int) == last_exact(nv, dv, e as int, h as int),
            dv > 0,
        decreases 6111 - h,
    {
        proof {
            lemma_rem_next(nv, dv, e as int, h as int);
            lemma_quot_next(nv, dv, e as int, h as int);
        }
        qq = qq / 10;
        h = h + 1;
    }
    proof {
        if h < 6111 {
            lemma_rem_next(nv, dv, e as int, h as int);
        }
        assert(last_exact(nv, dv, e as int, h as int) == h);
    }
    let ts: i64 = if pref < tc { tc } else if pref > h { h } else { pref };
    let mut j: i64 = tc;
    let mut c: u128 = q128;
    while j < ts
        invariant
            tc <= j <= ts,
            c == quot_at(nv, dv, e as int, j as int),
            c <= q128,
            dv > 0,
        decreases ts - j,
    {
        proof {
            lemma_quot_next(nv, dv, e as int, j as int);
        }
        c = c / 10;
        j = j + 1;
    }
    let sign: u64 = if neg { MASK_SIGN } else { 0 };
    (pack(sign, (ts + 6176) as u64, c), 0)
}

/// The result when the value is not representable at the least fitting
/// exponent `tc`: `q128` rounded up by `up`, carried into the next
/// exponent, or overflowed.
fn inexact_result(neg: bool, Ghost(nv): Ghost<nat>, d: u128, e: i64, tc: i64, pref: i64, mode: u32, q128: u128, up: bool) -> (res: (BidUint128, u32))
    requires
        0 < d,
        -6176 <= tc <= 1_300_000,
        tc == tmin(nv, d as nat, e as int),
        !(tc <= emax() && rem_at(nv, d as nat, e as int, tc as int) == 0),
        q128 == quot_at(nv, d as nat, e as int, tc as int),
        q128 < ten34(),
        up == round_up(mode, neg, q128 as nat, rem_at(nv, d as nat, e as int, tc as int), den_at(d as nat, e as int, tc as int)),
    ensures
        res == round_bid(neg, nv, d as nat, e as int, pref as int, mode),
{
    proof {
        lemma_ten34();
    }
    let sign: u64 = if neg { MASK_SIGN } else { 0 };
    let r: u128 = if up { q128 + 1 } else { q128 };
    let c: u128 = if r == 10000000000000000000000000000000000u128 { 1000000000000000000000000000000000u128 } else { r };
    let t2: i64 = if r == 10000000000000000000000000000000000u128 { tc + 1 } else { tc };
    if t2 > 6111 {
        if mode == 3 || (neg && mode == 2) || (!neg && mode == 1) {
            (pack(sign, 12287, 9999999999999999999999999999999999u128), 0x28)
        } else {
            proof {
                assert(sign | 0x7800000000000000u64 == sign + 0x7800000000000000u64) by (bit_vector)
                    requires sign == 0 || sign == 0x8000000000000000u64;
            }
            (BidUint128 { w: [0, sign | 0x7800000000000000u64] }, 0x28)
        }
    } else if tc == -6176 && q128 < 1000000000000000000000000000000000u128 {
        (pack(sign, (t2 + 6176) as u64, c), 0x30)
    } else {
        (pack(sign, (t2 + 6176) as u64, c), 0x20)
    }
}

/// Rounds the exact value `(-1)^neg * n / d * 10^e` to decimal128 in
/// rounding `mode`, as `round_to_bid` does, and also tells where the value
/// lies against its rounding to nearest.
pub fn round_to_bid_ext(neg: bool, n: &Big, d: u128, e: i64, pref: i64, mode: u32) -> (res: ((BidUint128, u32), (bool, bool, bool, bool)))
    requires
        n.value() > 0,
        0 < d < ten34(),
        mode <= 4,
        -1_000_000 <= e <= 1_000_000,
        -1_000_000 <= pref <= 1_000_000,
        n.limbs.len() < 10000,
    ensures
        res.0 == round_bid(neg, n.value(), d as nat, e as int, pref as int, mode),
        res.1 == round_class(n.value(), d as nat, e as int),
{
    let ghost nv = n.value();
    let ghost dv = d as nat;
    let (g, r0, b, tc) = locate(n, d, e);
    let ghost gv = g.value();
    let k: u64 = (tc - b) as u64;
    let q = big_div_pow10(&g, k);
    let qk = big_mul_pow10(&q, k);
    let ghost qv = q.value();
    proof {
        lemma_ten34();
        lemma_pow10_pos(k as nat);
        lemma_fundamental_div_mod(gv as int, pow10(k as nat) as int);
        lemma_mul_is_commutative(qv as int, pow10(k as nat) as int);
        lemma_at_base(nv, dv, e as int, b as int, tc as int);
        assert(k as nat == (tc - b) as nat);
        assert(qv == quot_at(nv, dv, e as int, tc as int));
    }
    let m = big_sub(&g, &qk);
    let ghost mv = m.value();
    let q128: u128 = big_to_u128(&q);
    let m_zero: bool = big_is_zero(&m);
    let ghost f: nat = pow10((if tc <= e { tc } else { e } - b) as nat);
    let ghost rem: nat = rem_at(nv, dv, e as int, tc as int);
    let ghost den: nat = den_at(dv, e as int, tc as int);
    proof {
        assert(mv == gv % pow10(k as nat));
        lemma_pow10_pos((if tc <= e { tc } else { e } - b) as nat);
        lemma_classify(rem, den, f, dv, mv, r0 as nat, pow10(k as nat));
    }
    let none: (bool, bool, bool, bool) = (false, false, false, false);
    if tc <= 6111 && m_zero && r0 == 0 {
        (exact_result(neg, Ghost(nv), d, e, tc, pref, mode, q128), none)
    } else {
        let (below, equal) = half_compare(&m, k, r0, d, Ghost(rem), Ghost(den), Ghost(f));
        let inexact: bool = !(m_zero && r0 == 0);
        let up: bool = if !inexact {
            false
        } else if mode == 0 {
            !below && (!equal || q128 % 2 == 1)
        } else if mode == 4 {
            !below
        } else if mode == 1 {
            neg
        } else if mode == 2 {
            !neg
        } else {
            false
        };
        let cls: (bool, bool, bool, bool) = if !inexact {
            none
        } else if below {
            (false, false, true, false)
        } else if !equal {
            (false, false, false, true)
        } else if q128 % 2 == 1 {
            (true, false, false, false)
        } else {
            (false, true, false, false)
        };
        (inexact_result(neg, Ghost(nv), d, e, tc, pref, mode, q128, up), cls)
    }
}

/// Rounds the exact value `(-1)^neg * n / d * 10^e` to decimal128 in
/// rounding `mode`; an exact result takes the exponent closest to `pref`.
pub fn round_to_bid(neg: bool, n: &Big, d: u128, e: i64, pref: i64, mode: u32) -> (res: (BidUint128, u32))
    requires
        n.value() > 0,
        0 < d < ten34(),
        mode <= 4,
        -1_000_000 <= e <= 1_000_000,
        -1_000_000 <= pref <= 1_000_000,
        n.limbs.len() < 10000,
    ensures
        res == round_bid(neg, n.value(), d as nat, e as int, pref as int, mode),
{
    round_to_bid_ext(neg, n, d, e, pref, mode).0
}

/// Where the value `n * 10^e` lies against `10^33 * 10^emin`: whether it
/// is below the least exponent with integer part `10^33 - 1` there, and
/// then whether its remainder is at least a half, at least nineteen
/// twentieths, and exactly nineteen twentieths of a unit.
pub fn emin_band_exec(n: &Big, e: i64) -> (res: (bool, bool, bool, bool))
    requires
        -1_000_000 <= e <= 1_000_000,
        n.limbs.len() < 10000,
    ensures
        res.0 == (e < emin() && quot_at(n.value(), 1, e as int, emin()) + 1 == ten33()),
        res.0 ==> res.1 == (2 * rem_at(n.value(), 1, e as int, emin()) >= den_at(1, e as int, emin())),
        res.0 ==> res.2 == (20 * rem_at(n.value(), 1, e as int, emin()) >= 19 * den_at(1, e as int, emin())),
        res.0 ==> res.3 == (20 * rem_at(n.value(), 1, e as int, emin()) == 19 * den_at(1, e as int, emin())),
{
    if e >= -6176 {
        return (false, false, false, false);
    }
    let k: u64 = (-6176 - e) as u64;
    let ghost nv = n.value();
    let ghost pk: nat = pow10(k as nat);
    let q = big_div_pow10(n, k);
    let one = big_from_u64(1);
    let p = big_mul_pow10(&one, k);
    let qk = big_mul_pow10(&q, k);
    proof {
        lemma_pow10_pos(k as nat);
        lemma_fundamental_div_mod(nv as int, pk as int);
        lemma_mul_is_commutative(q.value() as int, pk as int);
        assert(k as nat == (emin() - e) as nat);
        assert(den_at(1, e as int, emin()) == pk);
        assert(num_at(nv, e as int, emin()) == nv);
        assert(qk.value() <= nv);
    }
    let r = big_sub(n, &qk);
    proof {
        assert(r.value() == rem_at(nv, 1, e as int, emin()));
        assert(q.value() == quot_at(nv, 1, e as int, emin()));
        assert(p.value() == pk);
    }
    let t = big_from_u128(999999999999999999999999999999999u128);
    let q_ok: bool = !big_lt(&q, &t) && !big_lt(&t, &q);
    let r2 = big_mul_small(&r, 2);
    let r20 = big_mul_small(&r, 20);
    let p19 = big_mul_small(&p, 19);
    let half: bool = !big_lt(&r2, &p);
    let carry: bool = !big_lt(&r20, &p19);
    let tie: bool = carry && !big_lt(&p19, &r20);
    proof {
        lemma_ten34();
    }
    (q_ok, half, carry, tie)
}

} // verus!
