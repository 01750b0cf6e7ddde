//! The constants of decimal rounding: powers of ten, rounding constants
//! and scaled reciprocals of powers of ten, as 128-bit words.

use vstd::prelude::*;
use vstd::arithmetic::power2::{pow2, lemma_pow2_unfold, lemma_pow2_adds, lemma2_to64};
use crate::math::{pow10, two64, lemma_pow10_pos, lemma_pow10_mono};
use crate::bignum::{big_from_u64, big_mul_u128, big_shl_word, big_div_pow10, big_to_u128, pow10_u128, lemma_pow10_39};
use crate::types::BidUint128;
use crate::internal::words;

verus! {

/// What is added to a coefficient before `index` digits are cut off, so
/// that the cut rounds in mode `rnd_mode`: half a unit of the cut for the
/// two modes to nearest, a unit less one for rounding up, nothing for
/// rounding down or towards zero.
pub open spec fn round_const(rnd_mode: u32, index: nat) -> nat {
    if rnd_mode == 0 || rnd_mode == 4 {
        if index == 0 { 0 } else { 5 * pow10((index - 1) as nat) }
    } else if rnd_mode == 2 {
        (pow10(index) - 1) as nat
    } else {
        0
    }
}

/// The scale of the reciprocal of `10^index`: it is `10^(-index)` times
/// `2^(128 + scale)`.
pub open spec fn recip_scale_table() -> Seq<i32> {
    seq![
        1, 1, 1, 1, 3, 6, 9, 13, 16, 19, 23, 26, 29, 33, 36, 39, 43, 46, 49, 53, 56, 59, 63, 66,
        69, 73, 76, 79, 83, 86, 89, 92, 96, 99, 102, 109,
    ]
}

/// The reciprocal of `10^index` scaled by `2^(128 + scale)` and rounded up
/// (`0` for `index` 0).
pub open spec fn reciprocal10(index: nat) -> nat {
    if index == 0 {
        0
    } else {
        pow2((128 + recip_scale_table()[index as int]) as nat) / pow10(index) + 1
    }
}

/// No power of two is a multiple of five.
proof fn lemma_pow2_mod5(n: nat)
    ensures
        pow2(n) % 5 != 0,
    decreases n,
{
    if n == 0 {
        lemma2_to64();
    } else {
        lemma_pow2_mod5((n - 1) as nat);
        lemma_pow2_unfold(n);
        let x = pow2((n - 1) as nat);
        assert((2 * x) % 5 != 0) by (nonlinear_arith)
            requires x % 5 != 0, x >= 0;
    }
}

/// No power of two is a multiple of `10^i` for `i >= 1`.
proof fn lemma_pow2_not_multiple(k: nat, i: nat)
    requires
        i >= 1,
    ensures
        pow2(k) % pow10(i) != 0,
{
    lemma_pow2_mod5(k);
    lemma_pow10_pos(i);
    reveal_with_fuel(pow10, 2);
    let t = pow10((i - 1) as nat);
    let p = pow10(i);
    let a = pow2(k);
    assert(p == 10 * t);
    vstd::arithmetic::div_mod::lemma_fundamental_div_mod(a as int, p as int);
    if a % p == 0 {
        let q = a / p;
        assert(a == 5 * (2 * t * q)) by (nonlinear_arith)
            requires a == p * q + 0, p == 10 * t;
        vstd::arithmetic::div_mod::lemma_mod_multiples_basic((2 * t * q) as int, 5);
        assert(a % 5 == 0) by (nonlinear_arith)
            requires a == 5 * (2 * t * q), ((2 * t * q) * 5) % 5 == 0;
    }
}

/// Each entry of the reciprocal table, `1 <= index <= 35`, is
/// `2^(128 + scale) / 10^index` rounded up: the smallest number whose
/// product with `10^index` is at least the power of two.
pub proof fn law_reciprocal_ceiling(index: nat)
    requires
        1 <= index <= 35,
    ensures
        ({
            let k = (128 + recip_scale_table()[index as int]) as nat;
            &&& reciprocal10(index) == (pow2(k) + pow10(index) - 1) / (pow10(index) as int)
            &&& pow2(k) <= reciprocal10(index) * pow10(index)
            &&& (reciprocal10(index) - 1) * pow10(index) < pow2(k)
        }),
{
    let k = (128 + recip_scale_table()[index as int]) as nat;
    let a = pow2(k) as int;
    let b = pow10(index) as int;
    lemma_pow10_pos(index);
    lemma_pow2_not_multiple(k, index);
    vstd::arithmetic::div_mod::lemma_fundamental_div_mod(a, b);
    let q = a / b;
    let r = a % b;
    assert(0 < r < b);
    assert(a + b - 1 == (q + 1) * b + (r - 1)) by (nonlinear_arith)
        requires a == b * q + r;
    vstd::arithmetic::div_mod::lemma_fundamental_div_mod_converse(a + b - 1, b, q + 1, r - 1);
    assert(reciprocal10(index) == q + 1);
    assert(a <= (q + 1) * b) by (nonlinear_arith)
        requires a == b * q + r, r < b;
    assert(q * b < a) by (nonlinear_arith)
        requires a == b * q + r, r > 0;
}

/// `2^(3i) < 10^i` for `i >= 1`.
proof fn lemma_pow2_3i(i: nat)
    requires
        i >= 1,
    ensures
        pow2(3 * i) < pow10(i),
    decreases i,
{
    lemma2_to64();
    if i == 1 {
        reveal_with_fuel(pow10, 2);
    } else {
        lemma_pow2_3i((i - 1) as nat);
        lemma_pow2_adds(3 * (i - 1) as nat, 3);
        assert(3 * (i - 1) as nat + 3 == 3 * i);
        reveal_with_fuel(pow10, 2);
        assert(pow10(i) == 10 * pow10((i - 1) as nat));
    }
}

/// `2^(3i + 4) < 10^i` for `i >= 13`.
proof fn lemma_pow2_3i4(i: nat)
    requires
        i >= 13,
    ensures
        pow2(3 * i + 4) < pow10(i),
    decreases i,
{
    lemma2_to64();
    if i == 13 {
        lemma_pow2_adds(32, 11);
        reveal_with_fuel(pow10, 14);
    } else {
        lemma_pow2_3i4((i - 1) as nat);
        lemma_pow2_adds(3 * (i - 1) as nat + 4, 3);
        assert(3 * (i - 1) as nat + 4 + 3 == 3 * i + 4);
        reveal_with_fuel(pow10, 2);
        assert(pow10(i) == 10 * pow10((i - 1) as nat));
    }
}

/// Each scale is small enough that the scaled reciprocal stays below
/// `2^127`: `2^scale < 10^index`.
proof fn lemma_scale_bound(i: nat)
    requires
        1 <= i <= 35,
    ensures
        pow2(recip_scale_table()[i as int] as nat) < pow10(i),
{
    let t = recip_scale_table();
    let s = t[i as int] as nat;
        if i == 1 {
            assert(t[1] == 1);
        } else if i == 2 {
            assert(t[2] == 1);
        } else if i == 3 {
            assert(t[3] == 1);
        } else if i == 4 {
            assert(t[4] == 3);
        } else if i == 5 {
            assert(t[5] == 6);
        } else if i == 6 {
            assert(t[6] == 9);
        } else if i == 7 {
            assert(t[7] == 13);
        } else if i == 8 {
            assert(t[8] == 16);
        } else if i == 9 {
            assert(t[9] == 19);
        } else if i == 10 {
            assert(t[10] == 23);
        } else if i == 11 {
            assert(t[11] == 26);
        } else if i == 12 {
            assert(t[12] == 29);
        } else if i == 13 {
            assert(t[13] == 33);
        } else if i == 14 {
            assert(t[14] == 36);
        } else if i == 15 {
            assert(t[15] == 39);
        } else if i == 16 {
            assert(t[16] == 43);
        } else if i == 17 {
            assert(t[17] == 46);
        } else if i == 18 {
            assert(t[18] == 49);
        } else if i == 19 {
            assert(t[19] == 53);
        } else if i == 20 {
            assert(t[20] == 56);
        } else if i == 21 {
            assert(t[21] == 59);
        } else if i == 22 {
            assert(t[22] == 63);
        } else if i == 23 {
            assert(t[23] == 66);
        } else if i == 24 {
            assert(t[24] == 69);
        } else if i == 25 {
            assert(t[25] == 73);
        } else if i == 26 {
            assert(t[26] == 76);
        } else if i == 27 {
            assert(t[27] == 79);
        } else if i == 28 {
            assert(t[28] == 83);
        } else if i == 29 {
            assert(t[29] == 86);
        } else if i == 30 {
            assert(t[30] == 89);
        } else if i == 31 {
            assert(t[31] == 92);
        } else if i == 32 {
            assert(t[32] == 96);
        } else if i == 33 {
            assert(t[33] == 99);
        } else if i == 34 {
            assert(t[34] == 102);
        } else if i == 35 {
            assert(t[35] == 109);
        }
    if i < 13 {
        assert(s <= 3 * i);
        lemma_pow2_3i(i);
        if s < 3 * i {
            vstd::arithmetic::power2::lemma_pow2_strictly_increases(s, 3 * i);
        }
    } else {
        assert(s <= 3 * i + 4);
        lemma_pow2_3i4(i);
        if s < 3 * i + 4 {
            vstd::arithmetic::power2::lemma_pow2_strictly_increases(s, 3 * i + 4);
        }
    }
}

/// `10^index` for `0 <= index <= 38`.
pub fn bid_power10_table_128(index: i32) -> (r: BidUint128)
    requires
        0 <= index <= 38,
    ensures
        r.value() == pow10(index as nat),
{
    words(pow10_u128(index as u32))
}

/// The rounding constant for `index` cut digits, `0 <= index <= 35`, in
/// rounding mode `rnd_mode`.
pub fn bid_round_const_table_128(rnd_mode: u32, index: i32) -> (r: BidUint128)
    requires
        rnd_mode <= 4,
        0 <= index <= 35,
    ensures
        r.value() == round_const(rnd_mode, index as nat),
{
    if rnd_mode == 0 || rnd_mode == 4 {
        if index == 0 {
            words(0)
        } else {
            let p: u128 = pow10_u128((index - 1) as u32);
            proof {
                lemma_pow10_mono((index - 1) as nat, 34);
                reveal_with_fuel(pow10, 36);
            }
            words(5 * p)
        }
    } else if rnd_mode == 2 {
        let p: u128 = pow10_u128(index as u32);
        proof {
            lemma_pow10_pos(index as nat);
        }
        words(p - 1)
    } else {
        words(0)
    }
}

/// The scale of the reciprocal of `10^index`, `0 <= index <= 35`.
pub fn bid_recip_scale(index: i32) -> (r: i32)
    requires
        0 <= index <= 35,
    ensures
        r == recip_scale_table()[index as int],
{
    let t: [i32; 36] = [
        1, 1, 1, 1, 3, 6, 9, 13, 16, 19, 23, 26, 29, 33, 36, 39, 43, 46, 49, 53, 56, 59, 63, 66,
        69, 73, 76, 79, 83, 86, 89, 92, 96, 99, 102, 109,
    ];
    assert(t@ =~= recip_scale_table());
    t[index as usize]
}

/// `2^s` for `s` below 128.
fn pow2_u128(s: u32) -> (r: u128)
    requires
        s < 128,
    ensures
        r == pow2(s as nat),
{
    let mut r: u128 = 1;
    let mut i: u32 = 0;
    proof {
        lemma2_to64();
    }
    while i < s
        invariant
            i <= s < 128,
            r == pow2(i as nat),
        decreases s - i,
    {
        proof {
            lemma2_to64();
            lemma_pow2_unfold((i + 1) as nat);
            vstd::arithmetic::power2::lemma_pow2_strictly_increases((i + 1) as nat, 128);
            lemma_pow2_adds(64, 64);
            assert(pow2(64) * pow2(64) == 0x1_0000_0000_0000_0000_0000_0000_0000_0000);
            assert(pow2(128) == 0x1_0000_0000_0000_0000_0000_0000_0000_0000);
        }
        r = r * 2;
        i = i + 1;
    }
    r
}

/// The scaled reciprocal before rounding up is the power of two over the
/// power of ten, and stays below `2^128 - 1`.
proof fn lemma_recip_bound(index: nat, s: nat, p2: nat, cv: nat)
    requires
        1 <= index <= 35,
        s == recip_scale_table()[index as int],
        p2 == pow2(s),
        cv == p2 * two64() * two64(),
    ensures
        cv == pow2(128 + s),
        cv / pow10(index) < 0x1_0000_0000_0000_0000_0000_0000_0000_0000 - 1,
{
    lemma2_to64();
    lemma_pow2_adds(64, 64);
    lemma_pow2_adds(128, s);
    let w2 = pow2(128);
    assert(pow2(64) * pow2(64) == 0x1_0000_0000_0000_0000_0000_0000_0000_0000);
    assert(w2 == 0x1_0000_0000_0000_0000_0000_0000_0000_0000);
    assert(p2 * two64() * two64() == w2 * p2) by (nonlinear_arith)
        requires w2 == two64() * two64();
    lemma_scale_bound(index);
    lemma_pow10_pos(index);
    let p = pow10(index);
    lemma_pow10_mono(index, 38);
    reveal_with_fuel(pow10, 39);
    vstd::arithmetic::div_mod::lemma_fundamental_div_mod((w2 * p2) as int, p as int);
    let qq = (w2 * p2) / p;
    let rr = (w2 * p2) % p;
    assert(qq < w2 - 1) by (nonlinear_arith)
        requires p2 + 1 <= p, p < w2, w2 * p2 == p * qq + rr, rr >= 0, p >= 1;
}

/// The reciprocal of `10^index`, `0 <= index <= 35`, scaled by
/// `2^(128 + scale)` and rounded up.
pub fn bid_reciprocals10_128(index: i32) -> (r: BidUint128)
    requires
        0 <= index <= 35,
    ensures
        r.value() == reciprocal10(index as nat),
{
    if index == 0 {
        return words(0);
    }
    let s: i32 = bid_recip_scale(index);
    let p2: u128 = pow2_u128(s as u32);
    let one = big_from_u64(1);
    let a = big_mul_u128(&one, p2);
    let b = big_shl_word(&a);
    let c = big_shl_word(&b);
    let q = big_div_pow10(&c, index as u64);
    proof {
        lemma_recip_bound(index as nat, s as nat, p2 as nat, c.value());
    }
    let v: u128 = big_to_u128(&q);
    words(v + 1)
}

} // verus!
