//! Correct rounding of an exact value `n / d * 10^e` to decimal128: which
//! exponent the result takes, what coefficient it has and which status
//! flags the operation raises.

use vstd::prelude::*;
use vstd::arithmetic::div_mod::{lemma_fundamental_div_mod, lemma_fundamental_div_mod_converse, lemma_div_denominator, lemma_mod_breakdown, lemma_small_mod, lemma_basic_div};
use vstd::arithmetic::mul::{lemma_mul_is_associative, lemma_mul_is_commutative, lemma_mul_strictly_positive};
use crate::math::{pow10, ndig, lemma_pow10_pos, lemma_pow10_add, lemma_pow10_mono, lemma_ndig_bounds};
use crate::types::BidUint128;
use crate::model::{encode, infinity, ten34, ten33, emin, emax};

verus! {

/// The numerator of the value scaled to exponent `t`.
pub open spec fn num_at(n: nat, e: int, t: int) -> nat {
    if t <= e {
        n * pow10((e - t) as nat)
    } else {
        n
    }
}

/// The denominator of the value scaled to exponent `t`.
pub open spec fn den_at(d: nat, e: int, t: int) -> nat {
    if t <= e {
        d
    } else {
        d * pow10((t - e) as nat)
    }
}

/// The integer part of `n / d * 10^e / 10^t`.
pub open spec fn quot_at(n: nat, d: nat, e: int, t: int) -> nat {
    num_at(n, e, t) / den_at(d, e, t)
}

/// The remainder left by `quot_at`, over the denominator `den_at`.
pub open spec fn rem_at(n: nat, d: nat, e: int, t: int) -> nat {
    num_at(n, e, t) % den_at(d, e, t)
}

/// Whether rounding the magnitude `q + r/den` (`r < den`) in `mode` goes
/// up to `q + 1`; `neg` is the sign of the value.
pub open spec fn round_up(mode: u32, neg: bool, q: nat, r: nat, den: nat) -> bool {
    if r == 0 {
        false
    } else if mode == 0 {
        2 * r > den || (2 * r == den && q % 2 == 1)
    } else if mode == 4 {
        2 * r >= den
    } else if mode == 1 {
        neg
    } else if mode == 2 {
        !neg
    } else {
        false
    }
}

/// The magnitude rounded to an integer multiple of `10^t`, in units of `10^t`.
pub open spec fn rounded_at(n: nat, d: nat, e: int, t: int, mode: u32, neg: bool) -> nat {
    quot_at(n, d, e, t) + if round_up(mode, neg, quot_at(n, d, e, t), rem_at(n, d, e, t), den_at(d, e, t)) {
        1nat
    } else {
        0nat
    }
}

/// The first exponent from `t` on at which the integer part has at most 34 digits.
pub open spec fn first_fit(n: nat, d: nat, e: int, t: int) -> int
    decreases e + ndig(n) - t,
{
    if t >= e + ndig(n) || quot_at(n, d, e, t) < ten34() {
        t
    } else {
        first_fit(n, d, e, t + 1)
    }
}

/// The least exponent of decimal128 at which the value fits in 34 digits.
pub open spec fn tmin(n: nat, d: nat, e: int) -> int {
    first_fit(n, d, e, emin())
}

/// The greatest exponent up to `emax` reached from `t` through exponents
/// at which the value is exactly representable.
pub open spec fn last_exact(n: nat, d: nat, e: int, t: int) -> int
    decreases emax() - t,
{
    if t < emax() && rem_at(n, d, e, t + 1) == 0 {
        last_exact(n, d, e, t + 1)
    } else {
        t
    }
}

/// The result of an overflow: infinity, or the largest finite value when
/// the rounding direction is towards zero for this sign.
pub open spec fn overflow_result(neg: bool, mode: u32) -> BidUint128 {
    if mode == 3 || (neg && mode == 2) || (!neg && mode == 1) {
        encode(neg, (ten34() - 1) as nat, 12287)
    } else {
        infinity(neg)
    }
}

/// The decimal128 result and the status flags of the correctly rounded
/// value `(-1)^neg * n / d * 10^e`, `n > 0`, in rounding `mode`.
///
/// An exact result takes the representable exponent closest to `pref`;
/// an inexact one has the smallest exponent at which the coefficient fits
/// in 34 digits. Tininess is detected before rounding.
pub open spec fn round_bid(neg: bool, n: nat, d: nat, e: int, pref: int, mode: u32) -> (BidUint128, u32) {
    let t = tmin(n, d, e);
    if t <= emax() && rem_at(n, d, e, t) == 0 {
        let hi = last_exact(n, d, e, t);
        let ts = if pref < t {
            t
        } else if pref > hi {
            hi
        } else {
            pref
        };
        (encode(neg, quot_at(n, d, e, ts), (ts + 6176) as nat), 0u32)
    } else {
        let r = rounded_at(n, d, e, t, mode, neg);
        let c = if r == ten34() { ten33() } else { r };
        let t2 = if r == ten34() { t + 1 } else { t };
        if t2 > emax() {
            (overflow_result(neg, mode), 0x28u32)
        } else if t == emin() && quot_at(n, d, e, emin()) < ten33() {
            (encode(neg, c, (t2 + 6176) as nat), 0x30u32)
        } else {
            (encode(neg, c, (t2 + 6176) as nat), 0x20u32)
        }
    }
}

/// Where the magnitude `n / d * 10^e` lies against its rounding to nearest
/// at the least fitting exponent, as four indicators: a midpoint below an
/// even result (rounded up), a midpoint above an even result (rounded
/// down), inexact below a midpoint (rounded down), and inexact above a
/// midpoint (rounded up). All are false for an exact value.
pub open spec fn round_class(n: nat, d: nat, e: int) -> (bool, bool, bool, bool) {
    let t = tmin(n, d, e);
    let r = rem_at(n, d, e, t);
    let den = den_at(d, e, t);
    if r == 0 {
        (false, false, false, false)
    } else if 2 * r < den {
        (false, false, true, false)
    } else if 2 * r > den {
        (false, false, false, true)
    } else if quot_at(n, d, e, t) % 2 == 1 {
        (true, false, false, false)
    } else {
        (false, true, false, false)
    }
}

/// Scaling numerator and denominator by a common positive factor keeps
/// the quotient and scales the remainder.
pub proof fn lemma_cancel(x: nat, y: nat, f: nat)
    requires
        y > 0,
        f > 0,
    ensures
        (x * f) / (y * f) == x / y,
        (x * f) % (y * f) == (x % y) * f,
{
    lemma_fundamental_div_mod(x as int, y as int);
    let q = x / y;
    let r = x % y;
    assert(x * f == q * (y * f) + r * f) by (nonlinear_arith)
        requires x == y * q + r;
    assert(r * f < y * f) by (nonlinear_arith)
        requires r < y, f > 0;
    assert(y * f > 0) by (nonlinear_arith)
        requires y > 0, f > 0;
    lemma_fundamental_div_mod_converse((x * f) as int, (y * f) as int, q as int, (r * f) as int);
}

/// The value at exponent `t` against the value scaled once to a base
/// exponent `b` below both `e` and `t`: with `a = n * 10^(e - b)`, the
/// integer part at `t` is `(a / d) / 10^(t - b)`, and the remainder
/// scaled by `f = 10^(min(e, t) - b)` is `d * ((a / d) % 10^(t - b)) + a % d`.
pub proof fn lemma_at_base(n: nat, d: nat, e: int, b: int, t: int)
    requires
        d > 0,
        b <= e,
        b <= t,
    ensures
        quot_at(n, d, e, t) == (n * pow10((e - b) as nat)) / d / pow10((t - b) as nat),
        rem_at(n, d, e, t) * pow10((if t <= e { t } else { e } - b) as nat) == d * ((n * pow10((e - b) as nat)) / d
            % pow10((t - b) as nat)) + (n * pow10((e - b) as nat)) % d,
        den_at(d, e, t) * pow10((if t <= e { t } else { e } - b) as nat) == d * pow10((t - b) as nat),
        den_at(d, e, t) > 0,
{
    let a = n * pow10((e - b) as nat);
    let k: nat = (t - b) as nat;
    let m: int = if t <= e { t } else { e };
    let f = pow10((m - b) as nat);
    lemma_pow10_pos((m - b) as nat);
    lemma_pow10_pos(k);
    if t <= e {
        lemma_pow10_add((e - t) as nat, (t - b) as nat);
        assert(((e - t) as nat + (t - b) as nat) as nat == (e - b) as nat);
        lemma_mul_is_associative(n as int, pow10((e - t) as nat) as int, pow10((t - b) as nat) as int);
        assert(num_at(n, e, t) * f == a);
        assert(den_at(d, e, t) * f == d * pow10(k));
    } else {
        lemma_pow10_pos((t - e) as nat);
        lemma_pow10_add((t - e) as nat, (e - b) as nat);
        assert(((t - e) as nat + (e - b) as nat) as nat == k);
        lemma_mul_is_associative(d as int, pow10((t - e) as nat) as int, pow10((e - b) as nat) as int);
        assert(num_at(n, e, t) * f == a);
        assert(den_at(d, e, t) * f == d * pow10(k));
        lemma_mul_strictly_positive(d as int, pow10((t - e) as nat) as int);
    }
    lemma_cancel(num_at(n, e, t), den_at(d, e, t), f);
    lemma_div_denominator(a as int, d as int, pow10(k) as int);
    lemma_mod_breakdown(a as int, d as int, pow10(k) as int);
}

/// The integer part shrinks at least tenfold per exponent step up.
pub proof fn lemma_quot_step(n: nat, d: nat, e: int, t: int)
    requires
        d > 0,
    ensures
        quot_at(n, d, e, t) >= 10 * quot_at(n, d, e, t + 1),
{
    reveal_with_fuel(pow10, 2);
    if t + 1 <= e {
        let j: nat = (e - t - 1) as nat;
        lemma_pow10_add(1, j);
        assert((1 + j) as nat == (e - t) as nat);
        let p = pow10(j);
        let x = n * p;
        assert(num_at(n, e, t + 1) == x);
        assert(num_at(n, e, t) == n * (10 * p));
        assert(n * (10 * p) == 10 * (n * p)) by (nonlinear_arith);
        assert(den_at(d, e, t) == d && den_at(d, e, t + 1) == d);
        lemma_fundamental_div_mod(x as int, d as int);
        let q = x / d;
        assert((10 * x) / d >= 10 * q) by (nonlinear_arith)
            requires x == d * q + x % d, x % d >= 0, d > 0, q >= 0;
    } else {
        let den = den_at(d, e, t);
        let j: nat = (t - e) as nat;
        if t == e {
            assert(j == 0);
            assert(pow10(j) == 1);
            assert(den == d);
            assert(d * 1 == d);
            assert(num_at(n, e, t) == n * pow10(0));
            assert(n * 1 == n);
        }
        assert(den == d * pow10(j));
        assert(num_at(n, e, t) == n);
        lemma_pow10_pos(j);
        lemma_mul_strictly_positive(d as int, pow10(j) as int);
        lemma_pow10_add(j, 1);
        assert((j + 1) as nat == (t + 1 - e) as nat);
        assert(den_at(d, e, t + 1) == d * (pow10(j) * 10));
        assert(d * (pow10(j) * 10) == den * 10) by (nonlinear_arith)
            requires den == d * pow10(j);
        assert(num_at(n, e, t + 1) == n);
        lemma_div_denominator(n as int, den as int, 10);
        lemma_fundamental_div_mod((n / den) as int, 10);
    }
}

/// Above the digits of `n`, the integer part is zero.
pub proof fn lemma_quot_high(n: nat, d: nat, e: int, t: int)
    requires
        d > 0,
        t >= e + ndig(n),
    ensures
        quot_at(n, d, e, t) == 0,
{
    lemma_ndig_bounds(n);
    if t > e {
        lemma_pow10_mono(ndig(n), (t - e) as nat);
        lemma_pow10_pos((t - e) as nat);
        let p = pow10((t - e) as nat);
        assert(d * p >= p) by (nonlinear_arith)
            requires d >= 1, p >= 0;
        lemma_basic_div(n as int, (d * p) as int);
    } else {
        assert(ndig(n) == 0);
        assert(n == 0) by {
            if n > 0 {
                assert(ndig(n) >= 1);
            }
        }
        lemma_basic_div(0, d as int);
        assert(0 * pow10((e - t) as nat) == 0);
    }
}

/// `first_fit` finds the first fitting exponent.
pub proof fn lemma_first_fit(n: nat, d: nat, e: int, t: int, tc: int)
    requires
        d > 0,
        t <= tc,
        quot_at(n, d, e, tc) < ten34(),
        forall|s: int| t <= s < tc ==> quot_at(n, d, e, s) >= ten34(),
    ensures
        first_fit(n, d, e, t) == tc,
    decreases tc - t,
{
    if t < tc {
        if t >= e + ndig(n) {
            lemma_quot_high(n, d, e, t);
            assert(quot_at(n, d, e, t) >= ten34());
        }
        assert(quot_at(n, d, e, t) >= ten34());
        lemma_first_fit(n, d, e, t + 1, tc);
    }
}

/// Whether the value `n * 10^e` is exactly `(10^33 - 1/20) * 10^emin`, the
/// midpoint at 34 digits, with the exponent unbounded, between
/// `10^34 - 1` and `10^34` times `10^(emin - 1)`.
pub open spec fn carry_tie(n: nat, e: int) -> bool {
    &&& e < emin()
    &&& quot_at(n, 1, e, emin()) + 1 == ten33()
    &&& 20 * rem_at(n, 1, e, emin()) == 19 * den_at(1, e, emin())
}

/// Where the value lies against its rounding to nearest, as `round_class`
/// says, except that the value of `carry_tie` is classed at 34 digits with
/// the exponent unbounded, as a midpoint below an even result.
pub open spec fn carry_class(n: nat, e: int) -> (bool, bool, bool, bool) {
    if carry_tie(n, e) {
        (true, false, false, false)
    } else {
        round_class(n, 1, e)
    }
}

} // verus!
