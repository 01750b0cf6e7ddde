//! Powers of ten, decimal digit counts and the arithmetic facts about them.

use vstd::prelude::*;
use vstd::arithmetic::div_mod::*;
use vstd::arithmetic::mul::*;

verus! {

/// `10^k`.
pub open spec fn pow10(k: nat) -> nat
    decreases k,
{
    if k == 0 {
        1
    } else {
        10 * pow10((k - 1) as nat)
    }
}

/// `2^64`, the radix of one 64-bit word.
pub open spec fn two64() -> nat {
    0x1_0000_0000_0000_0000
}

/// The number of decimal digits of `n` (zero has none).
pub open spec fn ndig(n: nat) -> nat
    decreases n,
{
    if n == 0 {
        0
    } else {
        1 + ndig(n / 10)
    }
}

/// Powers of ten are positive.
pub proof fn lemma_pow10_pos(k: nat)
    ensures
        pow10(k) >= 1,
    decreases k,
{
    if k > 0 {
        lemma_pow10_pos((k - 1) as nat);
    }
}

/// `10^(a + b) == 10^a * 10^b`.
pub proof fn lemma_pow10_add(a: nat, b: nat)
    ensures
        pow10(a + b) == pow10(a) * pow10(b),
    decreases a,
{
    if a == 0 {
        assert(pow10(0) == 1);
        assert(a + b == b);
    } else {
        let a1: nat = (a - 1) as nat;
        lemma_pow10_add(a1, b);
        let p = pow10(a1);
        let q = pow10(b);
        assert(a + b == (a1 + b) + 1);
        assert(pow10(a1 + b + 1) == 10 * pow10(a1 + b));
        assert(pow10(a) == 10 * p);
        assert(10 * (p * q) == (10 * p) * q) by (nonlinear_arith);
    }
}

/// Powers of ten grow with the exponent.
pub proof fn lemma_pow10_mono(a: nat, b: nat)
    requires
        a <= b,
    ensures
        pow10(a) <= pow10(b),
        a < b ==> pow10(a) < pow10(b),
    decreases b,
{
    if a < b {
        lemma_pow10_mono(a, (b - 1) as nat);
        lemma_pow10_pos((b - 1) as nat);
    }
}

/// `n` has `ndig(n)` digits: `10^(ndig(n)-1) <= n < 10^ndig(n)`.
pub proof fn lemma_ndig_bounds(n: nat)
    ensures
        n < pow10(ndig(n)),
        n > 0 ==> ndig(n) >= 1 && pow10((ndig(n) - 1) as nat) <= n,
    decreases n,
{
    if n > 0 {
        lemma_ndig_bounds(n / 10);
        if n / 10 > 0 {
            assert(pow10((ndig(n / 10) - 1) as nat) <= n / 10);
        }
    }
}

/// A larger number has at least as many digits.
pub proof fn lemma_ndig_mono(a: nat, b: nat)
    requires
        a <= b,
    ensures
        ndig(a) <= ndig(b),
    decreases b,
{
    if a > 0 {
        lemma_ndig_mono(a / 10, b / 10);
    }
}

/// Dividing twice by powers of ten divides by their product.
pub proof fn lemma_div_pow10_twice(n: nat, a: nat, b: nat)
    ensures
        n / pow10(a) / pow10(b) == n / pow10(a + b),
{
    lemma_pow10_pos(a);
    lemma_pow10_pos(b);
    lemma_pow10_add(a, b);
    lemma_div_denominator(n as int, pow10(a) as int, pow10(b) as int);
}

/// Removing `k` digits removes `k` from the digit count.
pub proof fn lemma_ndig_div_pow10(n: nat, k: nat)
    ensures
        ndig(n / pow10(k)) == if ndig(n) >= k { (ndig(n) - k) as nat } else { 0 },
    decreases k,
{
    if k == 0 {
        assert(n / 1 == n);
    } else {
        lemma_ndig_div_pow10(n, (k - 1) as nat);
        lemma_div_pow10_twice(n, (k - 1) as nat, 1);
        let m = n / pow10((k - 1) as nat);
        assert(pow10(1) == 10) by {
            reveal_with_fuel(pow10, 2);
        }
        if m > 0 {
            assert(ndig(m) == 1 + ndig(m / 10));
        } else {
            lemma_pow10_pos((k - 1) as nat);
            assert(m == 0);
            lemma_basic_div(0, 10);
        }
    }
}

} // verus!
