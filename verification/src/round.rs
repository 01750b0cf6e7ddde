//! Removing decimal digits from a coefficient, rounding to nearest with
//! ties to even, and telling where the dropped part lay.

use vstd::prelude::*;
use vstd::arithmetic::div_mod::{lemma_fundamental_div_mod, lemma_fundamental_div_mod_converse};
use crate::math::{pow10, two64, lemma_pow10_pos, lemma_pow10_add, lemma_pow10_mono};
use crate::bignum::{Big, val, wpow, big_from_u64, big_from_u128, big_div_pow10, big_mul_pow10, big_sub, big_add, big_lt, big_is_zero, big_is_odd, big_copy, big_to_u128, big_words, lemma_val3, lemma_val4};
use crate::types::{BidUint128, BidUint192, BidUint256};
use crate::internal::{words, double_word};

verus! {

/// Half a unit of the last removed digit position: `5 * 10^(x-1)`.
pub open spec fn half_pow10(x: nat) -> nat {
    5 * pow10((x - 1) as nat)
}

/// `c` with its last `x` digits removed, rounded to nearest, ties to even.
pub open spec fn rne(c: nat, x: nat) -> nat {
    let q = c / pow10(x);
    let r = c % pow10(x);
    q + if r > half_pow10(x) || (r == half_pow10(x) && q % 2 == 1) { 1nat } else { 0nat }
}

/// Whether rounding a `q`-digit number to `q - x` digits carried into a
/// new digit.
pub open spec fn rne_carry(q: nat, x: nat, c: nat) -> bool {
    rne(c, x) == pow10((q - x) as nat)
}

/// The rounded coefficient, with a carry into a new digit dropped again.
pub open spec fn rne_star(q: nat, x: nat, c: nat) -> nat {
    if rne_carry(q, x, c) { pow10((q - x - 1) as nat) } else { rne(c, x) }
}

/// The exponent increment that goes with `rne_star`.
pub open spec fn rne_incr(q: nat, x: nat, c: nat) -> i32 {
    if rne_carry(q, x, c) { 1 } else { 0 }
}

/// Where the removed part `r` lay, as four indicators: a midpoint rounded
/// up to an even result, a midpoint rounded down to an even result,
/// inexact below the midpoint, inexact above the midpoint.
pub open spec fn rne_class(c: nat, x: nat) -> (bool, bool, bool, bool) {
    let q = c / pow10(x);
    let r = c % pow10(x);
    let h = half_pow10(x);
    (r == h && q % 2 == 1, r == h && q % 2 == 0, 0 < r && r < h, r > h)
}

/// The indicators after a rounding that found `cls`, given those passed in
/// as `a`, `b`, `c`, `d`: the indicator that applies is set, a midpoint
/// clears both inexact indicators, and the others are left as they were.
pub open spec fn merge_class(cls: (bool, bool, bool, bool), a: bool, b: bool, c: bool, d: bool) -> (bool, bool, bool, bool) {
    let mid = cls.0 || cls.1;
    (cls.0 || a, cls.1 || b, !mid && (cls.2 || c), !mid && (cls.3 || d))
}

/// Removes `x` digits from `c`, rounding to nearest with ties to even.
fn round_big(c: &Big, x: u64) -> (res: (Big, (bool, bool, bool, bool)))
    requires
        1 <= x <= 100,
        c.limbs.len() <= 8,
    ensures
        res.0.value() == rne(c.value(), x as nat),
        res.1 == rne_class(c.value(), x as nat),
{
    let ghost cv = c.value();
    let ghost p = pow10(x as nat);
    let qb = big_div_pow10(c, x);
    let qx = big_mul_pow10(&qb, x);
    proof {
        lemma_pow10_pos(x as nat);
        lemma_fundamental_div_mod(cv as int, p as int);
        vstd::arithmetic::mul::lemma_mul_is_commutative(qb.value() as int, p as int);
    }
    let rb = big_sub(c, &qx);
    let five = big_from_u64(5);
    let hb = big_mul_pow10(&five, x - 1);
    proof {
        assert(rb.value() == cv % p);
        assert(hb.value() == half_pow10(x as nat));
    }
    let r_lt_h = big_lt(&rb, &hb);
    let h_lt_r = big_lt(&hb, &rb);
    let r_zero = big_is_zero(&rb);
    let q_odd = big_is_odd(&qb);
    let tie: bool = !r_lt_h && !h_lt_r;
    let up: bool = h_lt_r || (tie && q_odd);
    let s = if up {
        let one = big_from_u64(1);
        big_add(&qb, &one)
    } else {
        big_copy(&qb)
    };
    (s, (tie && q_odd, tie && !q_odd, !r_zero && r_lt_h, h_lt_r))
}

/// A number below `10^q` loses `x` digits: its quotient is below `10^(q-x)`.
proof fn lemma_quot_digits(c: nat, q: nat, x: nat)
    requires
        x <= q,
        c < pow10(q),
    ensures
        c / pow10(x) < pow10((q - x) as nat),
        rne(c, x) <= pow10((q - x) as nat),
{
    lemma_pow10_pos(x);
    lemma_pow10_add(x, (q - x) as nat);
    assert((x + (q - x) as nat) as nat == q);
    lemma_fundamental_div_mod(c as int, pow10(x) as int);
    let qq = c / pow10(x);
    let p = pow10(x);
    let pp = pow10((q - x) as nat);
    if qq >= pp {
        assert(c >= p * pp) by (nonlinear_arith)
            requires c == p * qq + c % p, c % p >= 0, qq >= pp, p >= 1;
    }
}

/// Removes `x` digits from a `q`-digit `c`, rounding to nearest with ties
/// to even; a carry into a new digit is dropped again and reported.
fn round_star(c: &Big, q: u64, x: u64) -> (res: (Big, i32, (bool, bool, bool, bool)))
    requires
        1 <= x < q <= 76,
        c.value() < pow10(q as nat),
        c.limbs.len() <= 8,
    ensures
        res.0.value() == rne_star(q as nat, x as nat, c.value()),
        res.1 == rne_incr(q as nat, x as nat, c.value()),
        res.2 == rne_class(c.value(), x as nat),
        res.0.value() < pow10((q - x) as nat),
{
    let (s, cls) = round_big(c, x);
    let one = big_from_u64(1);
    let top = big_mul_pow10(&one, q - x);
    proof {
        lemma_quot_digits(c.value(), q as nat, x as nat);
        assert(((q - x) as u64) as nat == (q - x) as nat);
    }
    if !big_lt(&s, &top) && !big_lt(&top, &s) {
        let lower = big_mul_pow10(&one, q - x - 1);
        proof {
            lemma_pow10_mono((q - x - 1) as nat, (q - x) as nat);
            assert(((q - x - 1) as u64) as nat == (q - x - 1) as nat);
        }
        (lower, 1, cls)
    } else {
        (s, 0, cls)
    }
}

/// Rounds the `q`-digit number `c`, `2 <= q <= 18`, to `q - x` digits,
/// `1 <= x <= q - 1`, to nearest with ties to even. `*ptr_c_star` gets
/// the result, `10^(q-x-1)` with `*incr_exp` set to 1 when rounding
/// carried into a new digit; of the four indicators, the one that tells
/// where the removed digits lay is set (a midpoint also clears both
/// inexact ones), and the others are left as they were.
pub fn bid_round64_2_18(
    q: i32,
    x: i32,
    c: u64,
    ptr_c_star: &mut u64,
    incr_exp: &mut i32,
    ptr_is_midpoint_lt_even: &mut bool,
    ptr_is_midpoint_gt_even: &mut bool,
    ptr_is_inexact_lt_midpoint: &mut bool,
    ptr_is_inexact_gt_midpoint: &mut bool,
)
    requires
        2 <= q <= 18,
        1 <= x <= q - 1,
        c < pow10(q as nat),
    ensures
        *final(ptr_c_star) == rne_star(q as nat, x as nat, c as nat),
        *final(incr_exp) == rne_incr(q as nat, x as nat, c as nat),
        (*final(ptr_is_midpoint_lt_even), *final(ptr_is_midpoint_gt_even), *final(ptr_is_inexact_lt_midpoint),
            *final(ptr_is_inexact_gt_midpoint)) == merge_class(rne_class(c as nat, x as nat), *old(ptr_is_midpoint_lt_even),
            *old(ptr_is_midpoint_gt_even), *old(ptr_is_inexact_lt_midpoint), *old(ptr_is_inexact_gt_midpoint)),
{
    let cb = big_from_u64(c);
    let (s, inc, cls) = round_star(&cb, q as u64, x as u64);
    proof {
        lemma_pow10_mono((q - x) as nat, 18);
        reveal_with_fuel(pow10, 19);
    }
    let sv: u128 = big_to_u128(&s);
    *ptr_c_star = sv as u64;
    *incr_exp = inc;
    let mid: bool = cls.0 || cls.1;
    *ptr_is_midpoint_lt_even = cls.0 || *ptr_is_midpoint_lt_even;
    *ptr_is_midpoint_gt_even = cls.1 || *ptr_is_midpoint_gt_even;
    *ptr_is_inexact_lt_midpoint = !mid && (cls.2 || *ptr_is_inexact_lt_midpoint);
    *ptr_is_inexact_gt_midpoint = !mid && (cls.3 || *ptr_is_inexact_gt_midpoint);
}

/// Rounds the `q`-digit number `c`, `19 <= q <= 38`, to `q - x` digits,
/// `1 <= x <= q - 1`, as `bid_round64_2_18` does.
pub fn bid_round128_19_38(
    q: i32,
    x: i32,
    c: BidUint128,
    ptr_c_star: &mut BidUint128,
    incr_exp: &mut i32,
    ptr_is_midpoint_lt_even: &mut bool,
    ptr_is_midpoint_gt_even: &mut bool,
    ptr_is_inexact_lt_midpoint: &mut bool,
    ptr_is_inexact_gt_midpoint: &mut bool,
)
    requires
        19 <= q <= 38,
        1 <= x <= q - 1,
        c.value() < pow10(q as nat),
    ensures
        final(ptr_c_star).value() == rne_star(q as nat, x as nat, c.value()),
        *final(incr_exp) == rne_incr(q as nat, x as nat, c.value()),
        (*final(ptr_is_midpoint_lt_even), *final(ptr_is_midpoint_gt_even), *final(ptr_is_inexact_lt_midpoint),
            *final(ptr_is_inexact_gt_midpoint)) == merge_class(rne_class(c.value(), x as nat), *old(ptr_is_midpoint_lt_even),
            *old(ptr_is_midpoint_gt_even), *old(ptr_is_inexact_lt_midpoint), *old(ptr_is_inexact_gt_midpoint)),
{
    let cv: u128 = double_word(c);
    let cb = big_from_u128(cv);
    let (s, inc, cls) = round_star(&cb, q as u64, x as u64);
    proof {
        lemma_pow10_mono((q - x) as nat, 38);
        crate::bignum::lemma_pow10_39();
        reveal_with_fuel(pow10, 2);
        assert(pow10(39) == 10 * pow10(38));
    }
    let sv: u128 = big_to_u128(&s);
    *ptr_c_star = words(sv);
    *incr_exp = inc;
    let mid: bool = cls.0 || cls.1;
    *ptr_is_midpoint_lt_even = cls.0 || *ptr_is_midpoint_lt_even;
    *ptr_is_midpoint_gt_even = cls.1 || *ptr_is_midpoint_gt_even;
    *ptr_is_inexact_lt_midpoint = !mid && (cls.2 || *ptr_is_inexact_lt_midpoint);
    *ptr_is_inexact_gt_midpoint = !mid && (cls.3 || *ptr_is_inexact_gt_midpoint);
}

/// `10^56 < 2^192` and `10^75 < 2^256`.
proof fn lemma_wide_bounds()
    ensures
        pow10(56) < wpow(3),
        pow10(75) < wpow(4),
{
    reveal_with_fuel(pow10, 77);
    reveal_with_fuel(wpow, 5);
}

/// Rounds the `q`-digit number `c`, `39 <= q <= 57`, to `q - x` digits,
/// `1 <= x <= q - 1`, as `bid_round64_2_18` does.
pub fn bid_round192_39_57(
    q: i32,
    x: i32,
    c: BidUint192,
    ptr_c_star: &mut BidUint192,
    incr_exp: &mut i32,
    ptr_is_midpoint_lt_even: &mut bool,
    ptr_is_midpoint_gt_even: &mut bool,
    ptr_is_inexact_lt_midpoint: &mut bool,
    ptr_is_inexact_gt_midpoint: &mut bool,
)
    requires
        39 <= q <= 57,
        1 <= x <= q - 1,
        c.value() < pow10(q as nat),
    ensures
        final(ptr_c_star).value() == rne_star(q as nat, x as nat, c.value()),
        *final(incr_exp) == rne_incr(q as nat, x as nat, c.value()),
        (*final(ptr_is_midpoint_lt_even), *final(ptr_is_midpoint_gt_even), *final(ptr_is_inexact_lt_midpoint),
            *final(ptr_is_inexact_gt_midpoint)) == merge_class(rne_class(c.value(), x as nat), *old(ptr_is_midpoint_lt_even),
            *old(ptr_is_midpoint_gt_even), *old(ptr_is_inexact_lt_midpoint), *old(ptr_is_inexact_gt_midpoint)),
{
    let mut v: Vec<u64> = Vec::new();
    v.push(c.w[0]);
    v.push(c.w[1]);
    v.push(c.w[2]);
    proof {
        lemma_val3(v@);
    }
    let cb = Big { limbs: v };
    let (s, inc, cls) = round_star(&cb, q as u64, x as u64);
    proof {
        lemma_pow10_mono((q - x) as nat, 56);
        lemma_wide_bounds();
    }
    let w = big_words(&s, 3);
    proof {
        lemma_val3(w@);
    }
    *ptr_c_star = BidUint192 { w: [w[0], w[1], w[2]] };
    *incr_exp = inc;
    let mid: bool = cls.0 || cls.1;
    *ptr_is_midpoint_lt_even = cls.0 || *ptr_is_midpoint_lt_even;
    *ptr_is_midpoint_gt_even = cls.1 || *ptr_is_midpoint_gt_even;
    *ptr_is_inexact_lt_midpoint = !mid && (cls.2 || *ptr_is_inexact_lt_midpoint);
    *ptr_is_inexact_gt_midpoint = !mid && (cls.3 || *ptr_is_inexact_gt_midpoint);
}

/// Rounds the `q`-digit number `c`, `58 <= q <= 76`, to `q - x` digits,
/// `1 <= x <= q - 1`, as `bid_round64_2_18` does.
pub fn bid_round256_58_76(
    q: i32,
    x: i32,
    c: BidUint256,
    ptr_c_star: &mut BidUint256,
    incr_exp: &mut i32,
    ptr_is_midpoint_lt_even: &mut bool,
    ptr_is_midpoint_gt_even: &mut bool,
    ptr_is_inexact_lt_midpoint: &mut bool,
    ptr_is_inexact_gt_midpoint: &mut bool,
)
    requires
        58 <= q <= 76,
        1 <= x <= q - 1,
        c.value() < pow10(q as nat),
    ensures
        final(ptr_c_star).value() == rne_star(q as nat, x as nat, c.value()),
        *final(incr_exp) == rne_incr(q as nat, x as nat, c.value()),
        (*final(ptr_is_midpoint_lt_even), *final(ptr_is_midpoint_gt_even), *final(ptr_is_inexact_lt_midpoint),
            *final(ptr_is_inexact_gt_midpoint)) == merge_class(rne_class(c.value(), x as nat), *old(ptr_is_midpoint_lt_even),
            *old(ptr_is_midpoint_gt_even), *old(ptr_is_inexact_lt_midpoint), *old(ptr_is_inexact_gt_midpoint)),
{
    let mut v: Vec<u64> = Vec::new();
    v.push(c.w[0]);
    v.push(c.w[1]);
    v.push(c.w[2]);
    v.push(c.w[3]);
    proof {
        lemma_val4(v@);
    }
    let cb = Big { limbs: v };
    let (s, inc, cls) = round_star(&cb, q as u64, x as u64);
    proof {
        lemma_pow10_mono((q - x) as nat, 75);
        lemma_wide_bounds();
    }
    let w = big_words(&s, 4);
    proof {
        lemma_val4(w@);
    }
    *ptr_c_star = BidUint256 { w: [w[0], w[1], w[2], w[3]] };
    *incr_exp = inc;
    let mid: bool = cls.0 || cls.1;
    *ptr_is_midpoint_lt_even = cls.0 || *ptr_is_midpoint_lt_even;
    *ptr_is_midpoint_gt_even = cls.1 || *ptr_is_midpoint_gt_even;
    *ptr_is_inexact_lt_midpoint = !mid && (cls.2 || *ptr_is_inexact_lt_midpoint);
    *ptr_is_inexact_gt_midpoint = !mid && (cls.3 || *ptr_is_inexact_gt_midpoint);
}

} // verus!
