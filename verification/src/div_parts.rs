//! Integer division of a double word and of a quadruple word by a double
//! word, as decimal128 division uses them.

use vstd::prelude::*;
use vstd::arithmetic::power2::{pow2, lemma_pow2_unfold, lemma_pow2_pos};
use vstd::arithmetic::div_mod::lemma_fundamental_div_mod_converse;
use crate::math::two64;
use crate::bignum::{Big, big_from_u128, big_mul_u128, big_sub, big_lt, big_to_u128};
use crate::types::{BidUint128, BidUint256};
use crate::internal::{words, double_word};
use crate::fma_parts::big_of256;

verus! {

/// Divides `cx0` by `cy`: the quotient goes to `*p_cq` and the remainder
/// to `*p_cr`.
pub fn bid_div_128_by_128(p_cq: &mut BidUint128, p_cr: &mut BidUint128, cx0: BidUint128, cy: BidUint128)
    requires
        cy.value() > 0,
    ensures
        final(p_cq).value() == cx0.value() / cy.value(),
        final(p_cr).value() == cx0.value() % cy.value(),
{
    let x: u128 = double_word(cx0);
    let y: u128 = double_word(cy);
    *p_cq = words(x / y);
    *p_cr = words(x % y);
}

/// The quotient of `a` by `d`, when it has at most 113 bits: found bit by
/// bit from the top, keeping `q * d <= a < (q + 2^i) * d`.
fn big_quotient_113(a: &Big, d: u128) -> (q: u128)
    requires
        d > 0,
        a.value() / (d as nat) < pow2(113),
        a.limbs.len() < 100,
    ensures
        q == a.value() / (d as nat),
{
    let ghost av = a.value();
    let ghost dv = d as nat;
    let bd = big_from_u128(d);
    let mut q: u128 = 0;
    let mut p: u128 = 0x2_0000_0000_0000_0000_0000_0000_0000u128;
    let ghost mut i: nat = 113;
    proof {
        vstd::arithmetic::power2::lemma2_to64();
        vstd::arithmetic::power2::lemma2_to64_rest();
        assert(pow2(113) == 0x2_0000_0000_0000_0000_0000_0000_0000nat) by {
            vstd::arithmetic::power2::lemma_pow2_adds(64, 49);
        }
        vstd::arithmetic::div_mod::lemma_fundamental_div_mod(av as int, dv as int);
        assert((av / dv + 1) * dv == (av / dv) * dv + dv) by (nonlinear_arith);
        assert(av / dv < p);
        assert(av < (0 + p) * dv) by (nonlinear_arith)
            requires av == dv * (av / dv) + av % dv, av % dv < dv, av / dv < p, dv > 0;
    }
    while p > 1
        invariant
            d > 0,
            dv == d as nat,
            av == a.value(),
            bd.value() == d as nat,
            bd.limbs.len() == 2,
            p as nat == pow2(i),
            q + p <= 0x2_0000_0000_0000_0000_0000_0000_0000u128,
            q * dv <= av,
            av < (q + p) * dv,
        decreases i,
    {
        proof {
            vstd::arithmetic::power2::lemma2_to64();
            assert(i > 0);
            lemma_pow2_unfold(i);
            lemma_pow2_pos((i - 1) as nat);
        }
        let h: u128 = p / 2;
        let cand: u128 = q + h;
        let prod = big_mul_u128(&bd, cand);
        if !big_lt(a, &prod) {
            q = cand;
        } else {
            assert(av < (q + h) * dv);
        }
        p = h;
        proof {
            i = (i - 1) as nat;
            assert((q + p) * dv <= (q + 2 * p) * dv) by (nonlinear_arith)
                requires dv >= 0, p >= 0;
        }
    }
    proof {
        assert(p == 1) by {
            lemma_pow2_pos(i);
        }
        assert((q + 1) * dv == q * dv + dv) by (nonlinear_arith);
        lemma_fundamental_div_mod_converse(av as int, dv as int, q as int, (av - q * dv) as int);
    }
    q
}

/// Divides the quadruple word `*p_ca4` by `cy`, adds the quotient to
/// `*p_cq` (modulo `2^128`), and leaves the remainder in the two low words
/// of `*p_ca4`, whose two high words are left as they were. The quotient
/// has at most 113 bits, as decimal128 division needs.
pub fn bid_div_256_by_128(p_cq: &mut BidUint128, p_ca4: &mut BidUint256, cy: BidUint128)
    requires
        cy.value() > 0,
        old(p_ca4).value() / cy.value() < pow2(113),
    ensures
        final(p_cq).value() == (old(p_cq).value() + old(p_ca4).value() / cy.value()) % (two64() * two64()),
        final(p_ca4).w[1] as nat * two64() + final(p_ca4).w[0] as nat == old(p_ca4).value() % cy.value(),
        final(p_ca4).w[2] == old(p_ca4).w[2],
        final(p_ca4).w[3] == old(p_ca4).w[3],
{
    let a = big_of256(*p_ca4);
    let d: u128 = double_word(cy);
    let q: u128 = big_quotient_113(&a, d);
    let bd = big_from_u128(d);
    let qd = big_mul_u128(&bd, q);
    proof {
        vstd::arithmetic::div_mod::lemma_fundamental_div_mod(a.value() as int, d as int);
        vstd::arithmetic::mul::lemma_mul_is_commutative(d as int, q as int);
    }
    let rb = big_sub(&a, &qd);
    proof {
        assert(rb.value() == a.value() % (d as nat));
        assert(rb.value() < 0x1_0000_0000_0000_0000_0000_0000_0000_0000);
    }
    let r: u128 = big_to_u128(&rb);
    let c: u128 = double_word(*p_cq);
    let s: u128 = if c > u128::MAX - q { c - (u128::MAX - q) - 1 } else { c + q };
    proof {
        assert(two64() * two64() == 0x1_0000_0000_0000_0000_0000_0000_0000_0000nat);
        if c > u128::MAX - q {
            vstd::arithmetic::div_mod::lemma_fundamental_div_mod_converse((c + q) as int, (two64() * two64()) as int, 1, s as int);
        } else {
            vstd::arithmetic::div_mod::lemma_small_mod((c + q) as nat, two64() * two64());
        }
    }
    *p_cq = words(s);
    let rw = words(r);
    p_ca4.w[0] = rw.w[0];
    p_ca4.w[1] = rw.w[1];
}

} // verus!
