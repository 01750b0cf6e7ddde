//! Unbounded unsigned integers as little-endian vectors of 64-bit words,
//! with the operations that exact decimal arithmetic needs.

use vstd::prelude::*;
use vstd::arithmetic::div_mod::{lemma_fundamental_div_mod, lemma_div_denominator, lemma_fundamental_div_mod_converse, lemma_small_mod, lemma_basic_div};
use vstd::arithmetic::mul::{lemma_mul_is_associative, lemma_mul_is_distributive_add, lemma_mul_is_commutative, lemma_mul_inequality, lemma_mul_strict_inequality, lemma_mul_nonnegative, lemma_mul_is_distributive_sub};
use vstd::arithmetic::power2::{pow2, lemma_pow2_unfold, lemma_pow2_pos};
use crate::math::{pow10, two64, ndig, lemma_pow10_pos, lemma_pow10_add, lemma_ndig_div_pow10, lemma_div_pow10_twice, lemma_ndig_bounds};

verus! {

/// `(2^64)^i`, the weight of word `i`.
pub open spec fn wpow(i: nat) -> nat
    decreases i,
{
    if i == 0 {
        1
    } else {
        two64() * wpow((i - 1) as nat)
    }
}

/// The integer that a little-endian word sequence spells.
pub open spec fn val(s: Seq<u64>) -> nat
    decreases s.len(),
{
    if s.len() == 0 {
        0
    } else {
        val(s.drop_last()) + s.last() as nat * wpow((s.len() - 1) as nat)
    }
}

/// An unsigned integer of any size.
pub struct Big {
    /// The words, least significant first.
    pub limbs: Vec<u64>,
}

impl Big {
    /// The integer held.
    pub open spec fn value(&self) -> nat {
        val(self.limbs@)
    }
}

/// No words spell zero.
pub proof fn lemma_val_empty(s: Seq<u64>)
    requires
        s.len() == 0,
    ensures
        val(s) == 0,
{
}

/// A one-word sequence spells that word.
pub proof fn lemma_val_one(s: Seq<u64>)
    requires
        s.len() == 1,
    ensures
        val(s) == s[0] as nat,
{
    lemma_val_empty(s.drop_last());
    assert(wpow(0) == 1);
    assert(s.last() == s[0]);
    assert(val(s) == val(s.drop_last()) + s.last() as nat * wpow(0));
}

/// Word weights are positive.
pub proof fn lemma_wpow_pos(i: nat)
    ensures
        wpow(i) >= 1,
    decreases i,
{
    if i > 0 {
        lemma_wpow_pos((i - 1) as nat);
    }
}

/// `wpow(a + b) == wpow(a) * wpow(b)`.
pub proof fn lemma_wpow_add(a: nat, b: nat)
    ensures
        wpow(a + b) == wpow(a) * wpow(b),
    decreases a,
{
    if a == 0 {
        assert(a + b == b);
        assert(wpow(0) == 1);
    } else {
        let a1: nat = (a - 1) as nat;
        lemma_wpow_add(a1, b);
        assert(a + b == (a1 + b) + 1);
        assert(wpow(a1 + b + 1) == two64() * wpow(a1 + b));
        let p = wpow(a1);
        let q = wpow(b);
        assert(wpow(a) == two64() * p);
        assert(two64() * (p * q) == (two64() * p) * q) by (nonlinear_arith);
    }
}

/// A word sequence spells a number below `(2^64)^len`.
pub proof fn lemma_val_bound(s: Seq<u64>)
    ensures
        val(s) < wpow(s.len()),
    decreases s.len(),
{
    if s.len() > 0 {
        let n1: nat = (s.len() - 1) as nat;
        lemma_val_bound(s.drop_last());
        let p = wpow(n1);
        let x = s.last() as nat;
        let v = val(s.drop_last());
        assert(v + x * p < two64() * p) by (nonlinear_arith)
            requires
                v < p,
                x < two64(),
        ;
    }
}

/// A non-zero top word puts the number in its top word range.
pub proof fn lemma_val_lower(s: Seq<u64>)
    requires
        s.len() > 0,
        s.last() != 0,
    ensures
        val(s) >= wpow((s.len() - 1) as nat),
{
    let p = wpow((s.len() - 1) as nat);
    let x = s.last() as nat;
    assert(x * p >= p) by (nonlinear_arith)
        requires
            x >= 1,
            p >= 0,
    ;
}

/// Splitting a word sequence splits the number it spells.
pub proof fn lemma_val_split(s: Seq<u64>, i: nat)
    requires
        i <= s.len(),
    ensures
        val(s) == val(s.subrange(0, i as int)) + wpow(i) * val(s.subrange(i as int, s.len() as int)),
    decreases s.len(),
{
    if i == s.len() {
        assert(s.subrange(0, i as int) =~= s);
        lemma_val_empty(s.subrange(i as int, s.len() as int));
        assert(wpow(i) * 0 == 0);
    } else {
        let n = s.len();
        let t = s.drop_last();
        let x = s.last();
        lemma_val_split(t, i);
        assert(t.subrange(0, i as int) =~= s.subrange(0, i as int));
        let u = s.subrange(i as int, n as int);
        assert(u.drop_last() =~= t.subrange(i as int, t.len() as int));
        assert(u.last() == x);
        assert(u.len() == n - i);
        lemma_wpow_add(i, (n - 1 - i) as nat);
        assert((i + (n - 1 - i) as nat) as nat == (n - 1) as nat);
        let a = val(t.subrange(0, i as int));
        let b = val(t.subrange(i as int, t.len() as int));
        let wi = wpow(i);
        let wj = wpow((n - 1 - i) as nat);
        assert(val(s) == val(t) + x as nat * wpow((n - 1) as nat));
        assert(val(u) == val(u.drop_last()) + u.last() as nat * wpow((u.len() - 1) as nat));
        assert(val(u) == b + x as nat * wj);
        assert(wi * (b + x as nat * wj) == wi * b + x as nat * (wi * wj)) by (nonlinear_arith);
        assert(wi * wj == wpow((n - 1) as nat));
        assert(val(t) == a + wi * b);
    }
}

/// The number spelled by a suffix, peeled from its least significant word.
pub proof fn lemma_val_suffix(s: Seq<u64>, i: nat)
    requires
        i < s.len(),
    ensures
        val(s.subrange(i as int, s.len() as int)) == s[i as int] as nat + two64() * val(
            s.subrange(i + 1int, s.len() as int),
        ),
{
    let u = s.subrange(i as int, s.len() as int);
    lemma_val_split(u, 1);
    assert(u.subrange(1, u.len() as int) =~= s.subrange(i + 1int, s.len() as int));
    lemma_val_one(u.subrange(0, 1));
    assert(wpow(1) == two64()) by {
        assert(wpow(0) == 1);
    }
}

/// The number spelled by a prefix grows by one weighted word.
pub proof fn lemma_val_prefix(s: Seq<u64>, i: nat)
    requires
        i < s.len(),
    ensures
        val(s.subrange(0, i + 1int)) == val(s.subrange(0, i as int)) + s[i as int] as nat * wpow(i),
{
    assert(s.subrange(0, i + 1int).drop_last() =~= s.subrange(0, i as int));
}

/// All-zero words spell zero, and only they do.
pub proof fn lemma_val_zero(s: Seq<u64>)
    ensures
        (val(s) == 0) == (forall|i: int| 0 <= i < s.len() ==> s[i] == 0),
    decreases s.len(),
{
    if s.len() > 0 {
        lemma_val_zero(s.drop_last());
        let p = wpow((s.len() - 1) as nat);
        lemma_wpow_pos((s.len() - 1) as nat);
        let x = s.last() as nat;
        assert(x * p == 0 <==> x == 0) by (nonlinear_arith)
            requires
                p >= 1,
        ;
        if forall|i: int| 0 <= i < s.len() ==> s[i] == 0 {
            assert forall|i: int| 0 <= i < s.drop_last().len() implies s.drop_last()[i] == 0 by {
                assert(s[i] == 0);
            }
        }
        if val(s) == 0 {
            assert forall|i: int| 0 <= i < s.len() implies s[i] == 0 by {
                if i < s.len() - 1 {
                    assert(s.drop_last()[i] == s[i]);
                }
            }
        }
    }
}

/// A zero top word does not change the number.
pub proof fn lemma_val_drop_zero(s: Seq<u64>)
    requires
        s.len() > 0,
        s.last() == 0,
    ensures
        val(s) == val(s.drop_last()),
{
}

/// Appending a zero word does not change the number.
pub proof fn lemma_val_push_zero(s: Seq<u64>)
    ensures
        val(s.push(0)) == val(s),
{
    assert(s.push(0).drop_last() =~= s);
    assert(val(s.push(0)) == val(s.push(0).drop_last()) + 0 * wpow(s.len()));
}

/// Builds the number `x`.
pub fn big_from_u128(x: u128) -> (r: Big)
    ensures
        r.value() == x,
        r.limbs.len() == 2,
{
    let mut v: Vec<u64> = Vec::new();
    v.push(x as u64);
    v.push((x >> 64u128) as u64);
    proof {
        let lo: u64 = x as u64;
        let hi: u64 = (x >> 64u128) as u64;
        assert(x == hi as nat * two64() + lo as nat) by {
            assert(x == (hi as u128) * 0x1_0000_0000_0000_0000u128 + lo as u128) by (bit_vector)
                requires
                    lo == x as u64,
                    hi == (x >> 64u128) as u64,
            ;
        }
        lemma_val_one(v@.drop_last());
        assert(wpow(1) == two64()) by {
            assert(wpow(0) == 1);
        }
        assert(val(v@) == val(v@.drop_last()) + hi as nat * wpow(1));
    }
    Big { limbs: v }
}

/// Builds the number `x`.
pub fn big_from_u64(x: u64) -> (r: Big)
    ensures
        r.value() == x,
        r.limbs.len() == 1,
{
    let mut v: Vec<u64> = Vec::new();
    v.push(x);
    proof {
        lemma_val_one(v@);
    }
    Big { limbs: v }
}

/// Whether the number is zero.
pub fn big_is_zero(a: &Big) -> (r: bool)
    ensures
        r == (a.value() == 0),
{
    proof {
        lemma_val_zero(a.limbs@);
    }
    let n = a.limbs.len();
    let mut i: usize = 0;
    while i < n
        invariant
            n == a.limbs.len(),
            i <= n,
            forall|j: int| 0 <= j < i ==> a.limbs@[j] == 0,
        decreases n - i,
    {
        if a.limbs[i] != 0 {
            proof {
                lemma_val_zero(a.limbs@);
                assert(a.limbs@[i as int] != 0);
                assert(!(forall|k: int| 0 <= k < a.limbs@.len() ==> a.limbs@[k] == 0));
            }
            return false;
        }
        i = i + 1;
    }
    true
}

/// Drops zero top words; the number is unchanged.
pub fn big_trim(a: &mut Big)
    ensures
        final(a).value() == old(a).value(),
        final(a).limbs.len() == 0 || final(a).limbs@.last() != 0,
        final(a).limbs.len() <= old(a).limbs.len(),
{
    while a.limbs.len() > 0 && a.limbs[a.limbs.len() - 1] == 0
        invariant
            a.value() == old(a).value(),
            a.limbs.len() <= old(a).limbs.len(),
        decreases a.limbs.len(),
    {
        proof {
            lemma_val_drop_zero(a.limbs@);
        }
        a.limbs.pop();
    }
}

/// Extends with zero words up to length `n`; the number is unchanged.
fn big_pad(a: &mut Big, n: usize)
    ensures
        final(a).value() == old(a).value(),
        final(a).limbs.len() == if old(a).limbs.len() >= n { old(a).limbs.len() } else { n },
{
    while a.limbs.len() < n
        invariant
            a.value() == old(a).value(),
            a.limbs.len() >= old(a).limbs.len(),
            old(a).limbs.len() >= n ==> a.limbs.len() == old(a).limbs.len(),
            old(a).limbs.len() < n ==> a.limbs.len() <= n,
        decreases n - a.limbs.len(),
    {
        proof {
            lemma_val_push_zero(a.limbs@);
        }
        a.limbs.push(0);
    }
}

/// A copy of the number.
pub fn big_copy(a: &Big) -> (r: Big)
    ensures
        r.value() == a.value(),
        r.limbs@ == a.limbs@,
{
    Big { limbs: a.limbs.clone() }
}

/// The number times `2^64`: one zero word in front.
pub fn big_shl_word(a: &Big) -> (r: Big)
    ensures
        r.value() == a.value() * two64(),
        r.limbs.len() == a.limbs.len() + 1,
{
    let mut v: Vec<u64> = Vec::new();
    v.push(0);
    let n = a.limbs.len();
    let mut i: usize = 0;
    while i < n
        invariant
            n == a.limbs.len(),
            i <= n,
            v.len() == i + 1,
            v@[0] == 0,
            forall|j: int| 0 <= j < i ==> v@[j + 1] == a.limbs@[j],
        decreases n - i,
    {
        v.push(a.limbs[i]);
        i = i + 1;
    }
    proof {
        lemma_val_split(v@, 1);
        assert(v@.subrange(1, v@.len() as int) =~= a.limbs@);
        lemma_val_one(v@.subrange(0, 1));
        assert(wpow(1) == two64()) by {
            assert(wpow(0) == 1);
        }
        lemma_mul_is_commutative(two64() as int, a.value() as int);
    }
    Big { limbs: v }
}

/// The product of the number and a double word.
pub fn big_mul_u128(a: &Big, c: u128) -> (r: Big)
    ensures
        r.value() == a.value() * c,
        r.limbs.len() <= a.limbs.len() + 3,
{
    let lo: u64 = c as u64;
    let hi: u64 = (c >> 64u128) as u64;
    assert(c == (hi as u128) * 0x1_0000_0000_0000_0000u128 + lo as u128) by (bit_vector)
        requires
            lo == c as u64,
            hi == (c >> 64u128) as u64,
    ;
    let pl = big_mul_small(a, lo);
    let ph = big_mul_small(a, hi);
    let phs = big_shl_word(&ph);
    let r = big_add(&pl, &phs);
    proof {
        let av = a.value();
        assert(av * hi * two64() + av * lo == av * c) by (nonlinear_arith)
            requires c == hi * two64() + lo;
    }
    r
}

/// One word step of a product: `a * m + c` split into its low and high words.
proof fn lemma_mul_step(x: nat, m: nat, c: nat, lo: nat, hi: nat, vr: nat, vp: nat, w: nat)
    requires
        x * m + c == lo + hi * two64(),
        vr + c * w == m * vp,
    ensures
        (vr + lo * w) + hi * (two64() * w) == m * (vp + x * w),
{
    assert((vr + lo * w) + hi * (two64() * w) == vr + (lo + hi * two64()) * w) by (nonlinear_arith);
    assert((x * m + c) * w == x * m * w + c * w) by (nonlinear_arith);
    assert(m * (vp + x * w) == m * vp + x * m * w) by (nonlinear_arith);
}

/// The product with a single word.
pub fn big_mul_small(a: &Big, m: u64) -> (r: Big)
    ensures
        r.value() == a.value() * m,
        r.limbs.len() == a.limbs.len() + 1,
{
    let n = a.limbs.len();
    let mut r: Vec<u64> = Vec::new();
    let mut carry: u64 = 0;
    let mut i: usize = 0;
    proof {
        lemma_val_empty(a.limbs@.subrange(0, 0));
        lemma_val_empty(r@);
        assert(m as nat * 0 == 0);
        assert(val(r@) + carry as nat * wpow(i as nat) == 0);
    }
    while i < n
        invariant
            n == a.limbs.len(),
            i <= n,
            r.len() == i,
            val(r@) + carry as nat * wpow(i as nat) == m as nat * val(a.limbs@.subrange(0, i as int)),
        decreases n - i,
    {
        let ai: u64 = a.limbs[i];
        assert((ai as u128) * (m as u128) <= 0xfffffffffffffffe0000000000000001u128) by (nonlinear_arith)
            requires ai <= 0xffffffffffffffffu64, m <= 0xffffffffffffffffu64;
        let t: u128 = (ai as u128) * (m as u128) + (carry as u128);
        let lo: u64 = t as u64;
        let hi: u64 = (t >> 64u128) as u64;
        proof {
            let x = a.limbs@[i as int];
            assert(t == (hi as u128) * 0x1_0000_0000_0000_0000u128 + lo as u128) by (bit_vector)
                requires
                    lo == t as u64,
                    hi == (t >> 64u128) as u64,
            ;
            lemma_val_prefix(a.limbs@, i as nat);
            assert(r@.push(lo).drop_last() =~= r@);
            assert(wpow((i + 1) as nat) == two64() * wpow(i as nat));
            lemma_mul_step(x as nat, m as nat, carry as nat, lo as nat, hi as nat, val(r@), val(a.limbs@.subrange(0, i as int)), wpow(i as nat));
        }
        r.push(lo);
        carry = hi;
        i = i + 1;
    }
    proof {
        assert(a.limbs@.subrange(0, n as int) =~= a.limbs@);
        assert(r@.push(carry).drop_last() =~= r@);
        lemma_mul_is_commutative(m as int, a.value() as int);
    }
    r.push(carry);
    Big { limbs: r }
}

/// One word step of a sum with carry.
proof fn lemma_add_step(x: nat, y: nat, c: nat, lo: nat, hi: nat, vr: nat, va: nat, vb: nat, w: nat)
    requires
        x + y + c == lo + hi * two64(),
        vr + c * w == va + vb,
    ensures
        (vr + lo * w) + hi * (two64() * w) == (va + x * w) + (vb + y * w),
{
    assert((vr + lo * w) + hi * (two64() * w) == vr + (lo + hi * two64()) * w) by (nonlinear_arith);
    assert((x + y + c) * w == x * w + y * w + c * w) by (nonlinear_arith);
}

/// The sum of two numbers.
pub fn big_add(a: &Big, b: &Big) -> (r: Big)
    ensures
        r.value() == a.value() + b.value(),
        r.limbs.len() == 1 + if a.limbs.len() >= b.limbs.len() { a.limbs.len() } else { b.limbs.len() },
{
    let mut x = big_copy(a);
    let mut y = big_copy(b);
    let n0 = if x.limbs.len() >= y.limbs.len() { x.limbs.len() } else { y.limbs.len() };
    big_pad(&mut x, n0);
    big_pad(&mut y, n0);
    let n = x.limbs.len();
    let mut r: Vec<u64> = Vec::new();
    let mut carry: u64 = 0;
    let mut i: usize = 0;
    proof {
        lemma_val_empty(x.limbs@.subrange(0, 0));
        lemma_val_empty(y.limbs@.subrange(0, 0));
        lemma_val_empty(r@);
    }
    while i < n
        invariant
            n == x.limbs.len(),
            n == y.limbs.len(),
            i <= n,
            r.len() == i,
            carry <= 1,
            val(r@) + carry as nat * wpow(i as nat) == val(x.limbs@.subrange(0, i as int)) + val(
                y.limbs@.subrange(0, i as int),
            ),
        decreases n - i,
    {
        let t: u128 = (x.limbs[i] as u128) + (y.limbs[i] as u128) + (carry as u128);
        let lo: u64 = t as u64;
        let hi: u64 = (t >> 64u128) as u64;
        proof {
            assert(t == (hi as u128) * 0x1_0000_0000_0000_0000u128 + lo as u128 && hi <= 1) by (bit_vector)
                requires
                    lo == t as u64,
                    hi == (t >> 64u128) as u64,
                    t <= 0x1fffffffffffffffeu128 + 1,
            ;
            lemma_val_prefix(x.limbs@, i as nat);
            lemma_val_prefix(y.limbs@, i as nat);
            assert(r@.push(lo).drop_last() =~= r@);
            assert(wpow((i + 1) as nat) == two64() * wpow(i as nat));
            lemma_add_step(x.limbs@[i as int] as nat, y.limbs@[i as int] as nat, carry as nat, lo as nat, hi as nat, val(r@), val(x.limbs@.subrange(0, i as int)), val(y.limbs@.subrange(0, i as int)), wpow(i as nat));
        }
        r.push(lo);
        carry = hi;
        i = i + 1;
    }
    proof {
        assert(x.limbs@.subrange(0, n as int) =~= x.limbs@);
        assert(y.limbs@.subrange(0, n as int) =~= y.limbs@);
        assert(r@.push(carry).drop_last() =~= r@);
    }
    r.push(carry);
    Big { limbs: r }
}

/// One word step of a difference with borrow.
proof fn lemma_sub_step(x: int, y: int, bo: int, lo: int, bo2: int, vr: int, va: int, vb: int, w: int)
    requires
        x - y - bo == lo - bo2 * two64(),
        vr - bo * w == va - vb,
    ensures
        (vr + lo * w) - bo2 * (two64() * w) == (va + x * w) - (vb + y * w),
{
    assert((vr + lo * w) - bo2 * (two64() * w) == vr + (lo - bo2 * two64()) * w) by (nonlinear_arith);
    assert((x - y - bo) * w == x * w - y * w - bo * w) by (nonlinear_arith);
}

/// The difference of two numbers, the first not smaller.
pub fn big_sub(a: &Big, b: &Big) -> (r: Big)
    requires
        a.value() >= b.value(),
    ensures
        r.value() == a.value() - b.value(),
        r.limbs.len() == if a.limbs.len() >= b.limbs.len() { a.limbs.len() } else { b.limbs.len() },
{
    let mut x = big_copy(a);
    let mut y = big_copy(b);
    let n0 = if x.limbs.len() >= y.limbs.len() { x.limbs.len() } else { y.limbs.len() };
    big_pad(&mut x, n0);
    big_pad(&mut y, n0);
    let n = x.limbs.len();
    let mut r: Vec<u64> = Vec::new();
    let mut borrow: u64 = 0;
    let mut i: usize = 0;
    proof {
        lemma_val_empty(x.limbs@.subrange(0, 0));
        lemma_val_empty(y.limbs@.subrange(0, 0));
        lemma_val_empty(r@);
    }
    while i < n
        invariant
            n == x.limbs.len(),
            n == y.limbs.len(),
            i <= n,
            r.len() == i,
            borrow <= 1,
            val(r@) - borrow as int * wpow(i as nat) == val(x.limbs@.subrange(0, i as int)) - val(
                y.limbs@.subrange(0, i as int),
            ),
        decreases n - i,
    {
        let xi: u64 = x.limbs[i];
        let yi: u64 = y.limbs[i];
        let lo: u64 = xi.wrapping_sub(yi).wrapping_sub(borrow);
        let bo2: u64 = if (xi as u128) < (yi as u128) + (borrow as u128) { 1 } else { 0 };
        proof {
            assert(xi - yi - borrow == lo - bo2 * 0x1_0000_0000_0000_0000int) by (bit_vector)
                requires
                    lo == xi.wrapping_sub(yi).wrapping_sub(borrow),
                    bo2 == if (xi as u128) < (yi as u128) + (borrow as u128) { 1u64 } else { 0u64 },
                    borrow <= 1,
            ;
            lemma_val_prefix(x.limbs@, i as nat);
            lemma_val_prefix(y.limbs@, i as nat);
            assert(r@.push(lo).drop_last() =~= r@);
            assert(wpow((i + 1) as nat) == two64() * wpow(i as nat));
            lemma_sub_step(xi as int, yi as int, borrow as int, lo as int, bo2 as int, val(r@) as int, val(x.limbs@.subrange(0, i as int)) as int, val(y.limbs@.subrange(0, i as int)) as int, wpow(i as nat) as int);
        }
        r.push(lo);
        borrow = bo2;
        i = i + 1;
    }
    proof {
        assert(x.limbs@.subrange(0, n as int) =~= x.limbs@);
        assert(y.limbs@.subrange(0, n as int) =~= y.limbs@);
        lemma_val_bound(r@);
        if borrow == 1 {
            assert(false);
        }
    }
    Big { limbs: r }
}

/// Whether the first number is smaller than the second.
pub fn big_lt(a: &Big, b: &Big) -> (r: bool)
    ensures
        r == (a.value() < b.value()),
{
    let mut x = big_copy(a);
    let mut y = big_copy(b);
    let n0 = if x.limbs.len() >= y.limbs.len() { x.limbs.len() } else { y.limbs.len() };
    big_pad(&mut x, n0);
    big_pad(&mut y, n0);
    let n = x.limbs.len();
    let mut i: usize = n;
    proof {
        assert(x.limbs@.subrange(n as int, n as int) =~= y.limbs@.subrange(n as int, n as int));
    }
    while i > 0
        invariant
            n == x.limbs.len(),
            n == y.limbs.len(),
            i <= n,
            x.value() == a.value(),
            y.value() == b.value(),
            x.limbs@.subrange(i as int, n as int) =~= y.limbs@.subrange(i as int, n as int),
        decreases i,
    {
        let xi: u64 = x.limbs[i - 1];
        let yi: u64 = y.limbs[i - 1];
        if xi != yi {
            proof {
                let k: nat = (i - 1) as nat;
                lemma_val_split(x.limbs@, k);
                lemma_val_split(y.limbs@, k);
                lemma_val_suffix(x.limbs@, k);
                lemma_val_suffix(y.limbs@, k);
                let lx = val(x.limbs@.subrange(0, k as int));
                let ly = val(y.limbs@.subrange(0, k as int));
                lemma_val_bound(x.limbs@.subrange(0, k as int));
                lemma_val_bound(y.limbs@.subrange(0, k as int));
                let s = val(x.limbs@.subrange(i as int, n as int));
                assert(val(y.limbs@.subrange(i as int, n as int)) == s);
                let w = wpow(k);
                if xi < yi {
                    assert(lx + w * (xi as nat + two64() * s) < ly + w * (yi as nat + two64() * s)) by (nonlinear_arith)
                        requires lx < w, xi < yi, ly >= 0;
                } else {
                    assert(ly + w * (yi as nat + two64() * s) < lx + w * (xi as nat + two64() * s)) by (nonlinear_arith)
                        requires ly < w, yi < xi, lx >= 0;
                }
            }
            return xi < yi;
        }
        proof {
            let k: int = (i - 1) as int;
            assert(x.limbs@.subrange(k, n as int) =~= x.limbs@.subrange(i as int, n as int).insert(0, xi));
            assert(y.limbs@.subrange(k, n as int) =~= y.limbs@.subrange(i as int, n as int).insert(0, yi));
        }
        i = i - 1;
    }
    proof {
        assert(x.limbs@.subrange(0, n as int) =~= x.limbs@);
        assert(y.limbs@.subrange(0, n as int) =~= y.limbs@);
    }
    false
}

/// One word step of a division by a single word.
proof fn lemma_div_small_step(x: nat, r: nat, q: nat, rr: nat, d: nat, va: nat, vq: nat)
    requires
        va == vq * d + r,
        r * two64() + x == q * d + rr,
    ensures
        x + two64() * va == (q + two64() * vq) * d + rr,
{
    assert(two64() * (vq * d + r) == two64() * vq * d + two64() * r) by (nonlinear_arith);
    assert((q + two64() * vq) * d == q * d + two64() * vq * d) by (nonlinear_arith);
}

/// Division by a single non-zero word: quotient and remainder.
pub fn big_div_small(a: &Big, d: u64) -> (res: (Big, u64))
    requires
        d > 0,
    ensures
        a.value() == res.0.value() * d + res.1,
        res.1 < d,
        res.0.limbs.len() == a.limbs.len(),
{
    let n = a.limbs.len();
    let mut q: Vec<u64> = Vec::new();
    let mut j: usize = 0;
    while j < n
        invariant
            j <= n,
            q.len() == j,
        decreases n - j,
    {
        q.push(0);
        j = j + 1;
    }
    let mut r: u64 = 0;
    let mut i: usize = n;
    proof {
        lemma_val_empty(a.limbs@.subrange(n as int, n as int));
        lemma_val_empty(q@.subrange(n as int, n as int));
    }
    while i > 0
        invariant
            n == a.limbs.len(),
            q.len() == n,
            i <= n,
            r < d,
            val(a.limbs@.subrange(i as int, n as int)) == val(q@.subrange(i as int, n as int)) * d as nat + r as nat,
        decreases i,
    {
        let x: u64 = a.limbs[i - 1];
        let t: u128 = ((r as u128) << 64u128) | (x as u128);
        let qd: u128 = t / (d as u128);
        let rr: u128 = t % (d as u128);
        proof {
            assert(t == (r as u128) * 0x1_0000_0000_0000_0000u128 + x as u128) by (bit_vector)
                requires t == ((r as u128) << 64u128) | (x as u128);
            lemma_fundamental_div_mod(t as int, d as int);
            assert(qd < 0x1_0000_0000_0000_0000) by (nonlinear_arith)
                requires
                    t == qd * d + rr,
                    t < (r + 1) * 0x1_0000_0000_0000_0000,
                    r + 1 <= d,
                    rr >= 0,
                    d > 0,
            ;
        }
        let ghost old_q = q@;
        q.set(i - 1, qd as u64);
        proof {
            let k: nat = (i - 1) as nat;
            lemma_val_suffix(a.limbs@, k);
            lemma_val_suffix(q@, k);
            assert(q@.subrange(i as int, n as int) =~= old_q.subrange(i as int, n as int));
            lemma_div_small_step(x as nat, r as nat, qd as nat, rr as nat, d as nat, val(a.limbs@.subrange(i as int, n as int)), val(q@.subrange(i as int, n as int)));
        }
        r = rr as u64;
        i = i - 1;
    }
    proof {
        assert(a.limbs@.subrange(0, n as int) =~= a.limbs@);
        assert(q@.subrange(0, n as int) =~= q@);
    }
    (Big { limbs: q }, r)
}

/// One bit step of the long division by a double word.
proof fn lemma_bit_step(r0: nat, j: nat, p: nat, b: nat, ql: nat, rr: nat, d: nat)
    requires
        r0 * pow2(j) + p == ql * d + rr,
    ensures
        r0 * pow2(j + 1) + (2 * p + b) == (2 * ql) * d + (2 * rr + b),
{
    lemma_pow2_unfold(j + 1);
    assert(r0 * (2 * pow2(j)) == 2 * (r0 * pow2(j))) by (nonlinear_arith);
    assert((2 * ql) * d == 2 * (ql * d)) by (nonlinear_arith);
}

/// Divides `r * 2^64 + x` by `d`, one bit at a time; `r < d`.
fn div_word_step(r: u128, x: u64, d: u128) -> (res: (u64, u128))
    requires
        r < d,
        d < 0x8000_0000_0000_0000_0000_0000_0000_0000u128,
    ensures
        r as nat * two64() + x as nat == res.0 as nat * d as nat + res.1 as nat,
        res.1 < d,
{
    let mut ql: u64 = 0;
    let mut rr: u128 = r;
    let mut p: u64 = 0;
    let mut j: u32 = 0;
    proof {
        assert(pow2(0) == 1) by {
            vstd::arithmetic::power2::lemma2_to64();
        }
    }
    while j < 64
        invariant
            j <= 64,
            rr < d,
            d < 0x8000_0000_0000_0000_0000_0000_0000_0000u128,
            r as nat * pow2(j as nat) + p as nat == ql as nat * d as nat + rr as nat,
            j == 0 ==> p == 0,
            j > 0 ==> p == x >> ((64 - j) as u64),
            (ql as nat) < pow2(j as nat),
        decreases 64 - j,
    {
        let s: u64 = (63 - j) as u64;
        let b: u64 = (x >> s) & 1;
        proof {
            if j == 0 {
                assert(x >> s == 2 * 0 + b) by (bit_vector)
                    requires s == 63u64, b == (x >> s) & 1;
            } else {
                assert(x >> s == 2 * (x >> ((s + 1) as u64)) + b) by (bit_vector)
                    requires s < 63u64, b == (x >> s) & 1;
                assert((64 - j) as u64 == (s + 1) as u64);
            }
            assert(b <= 1) by (bit_vector)
                requires b == (x >> s) & 1;
            lemma_bit_step(r as nat, j as nat, p as nat, b as nat, ql as nat, rr as nat, d as nat);
            lemma_pow2_unfold((j + 1) as nat);
            vstd::arithmetic::power2::lemma2_to64();
            vstd::arithmetic::power2::lemma2_to64_rest();
            if j < 63 {
                vstd::arithmetic::power2::lemma_pow2_strictly_increases(j as nat, 63);
            }
        }
        let t: u128 = 2 * rr + (b as u128);
        p = 2 * p + b;
        if t >= d {
            proof {
                assert((2 * ql as nat + 1) * d as nat == (2 * ql as nat) * d as nat + d as nat) by (nonlinear_arith);
            }
            rr = t - d;
            ql = 2 * ql + 1;
        } else {
            rr = t;
            ql = 2 * ql;
        }
        j = j + 1;
        proof {
            assert((64 - j) as u64 == s);
        }
    }
    proof {
        assert(x >> 0u64 == x) by (bit_vector);
        vstd::arithmetic::power2::lemma2_to64_rest();
    }
    (ql, rr)
}

/// Division by a double word below `2^127`: quotient and remainder.
pub fn big_div_u128(a: &Big, d: u128) -> (res: (Big, u128))
    requires
        0 < d < 0x8000_0000_0000_0000_0000_0000_0000_0000u128,
    ensures
        a.value() == res.0.value() * d + res.1,
        res.1 < d,
        res.0.limbs.len() == a.limbs.len(),
{
    let n = a.limbs.len();
    let mut q: Vec<u64> = Vec::new();
    let mut j: usize = 0;
    while j < n
        invariant
            j <= n,
            q.len() == j,
        decreases n - j,
    {
        q.push(0);
        j = j + 1;
    }
    let mut r: u128 = 0;
    let mut i: usize = n;
    proof {
        lemma_val_empty(a.limbs@.subrange(n as int, n as int));
        lemma_val_empty(q@.subrange(n as int, n as int));
    }
    while i > 0
        invariant
            n == a.limbs.len(),
            q.len() == n,
            i <= n,
            r < d,
            0 < d < 0x8000_0000_0000_0000_0000_0000_0000_0000u128,
            val(a.limbs@.subrange(i as int, n as int)) == val(q@.subrange(i as int, n as int)) * d as nat + r as nat,
        decreases i,
    {
        let x: u64 = a.limbs[i - 1];
        let (qd, rr) = div_word_step(r, x, d);
        let ghost old_q = q@;
        q.set(i - 1, qd);
        proof {
            let k: nat = (i - 1) as nat;
            lemma_val_suffix(a.limbs@, k);
            lemma_val_suffix(q@, k);
            assert(q@.subrange(i as int, n as int) =~= old_q.subrange(i as int, n as int));
            lemma_div_small_step(x as nat, r as nat, qd as nat, rr as nat, d as nat, val(a.limbs@.subrange(i as int, n as int)), val(q@.subrange(i as int, n as int)));
        }
        r = rr;
        i = i - 1;
    }
    proof {
        assert(a.limbs@.subrange(0, n as int) =~= a.limbs@);
        assert(q@.subrange(0, n as int) =~= q@);
    }
    (Big { limbs: q }, r)
}

/// The number as a double word, when it fits in one.
pub fn big_to_u128(a: &Big) -> (r: u128)
    requires
        a.value() < 0x1_0000_0000_0000_0000_0000_0000_0000_0000,
    ensures
        r == a.value(),
{
    let mut x = big_copy(a);
    big_trim(&mut x);
    proof {
        if x.limbs.len() > 2 {
            lemma_val_lower(x.limbs@);
            assert(wpow(2) == two64() * two64()) by {
                assert(wpow(0) == 1);
                assert(wpow(1) == two64());
            }
            lemma_wpow_add(2, (x.limbs.len() - 3) as nat);
            lemma_wpow_pos((x.limbs.len() - 3) as nat);
            let p = wpow((x.limbs.len() - 3) as nat);
            assert(two64() * two64() * p >= two64() * two64()) by (nonlinear_arith)
                requires p >= 1;
            assert((2 + (x.limbs.len() - 3)) as nat == (x.limbs.len() - 1) as nat);
        }
    }
    if x.limbs.len() == 0 {
        proof {
            lemma_val_empty(x.limbs@);
        }
        0
    } else if x.limbs.len() == 1 {
        proof {
            lemma_val_one(x.limbs@);
        }
        x.limbs[0] as u128
    } else {
        let lo: u64 = x.limbs[0];
        let hi: u64 = x.limbs[1];
        proof {
            lemma_val_one(x.limbs@.drop_last());
            assert(wpow(0) == 1);
            assert(wpow(1) == two64());
            assert(val(x.limbs@) == val(x.limbs@.drop_last()) + hi as nat * wpow(1));
            assert(((hi as u128) << 64u128) | (lo as u128) == (hi as u128) * 0x1_0000_0000_0000_0000u128 + lo as u128) by (bit_vector);
        }
        ((hi as u128) << 64u128) | (lo as u128)
    }
}

} // verus!

verus! {

/// `10^k` as a word, for `k <= 19`.
pub fn pow10_u64(k: u32) -> (r: u64)
    requires
        k <= 19,
    ensures
        r == pow10(k as nat),
{
    let mut r: u64 = 1;
    let mut i: u32 = 0;
    proof {
        crate::math::lemma_pow10_mono(0, 19);
        reveal_with_fuel(pow10, 20);
    }
    while i < k
        invariant
            i <= k,
            k <= 19,
            r == pow10(i as nat),
            pow10(19) == 10000000000000000000,
        decreases k - i,
    {
        proof {
            crate::math::lemma_pow10_mono((i + 1) as nat, 19);
        }
        r = r * 10;
        i = i + 1;
    }
    r
}

/// `10^k` as a double word, for `k <= 38`.
pub fn pow10_u128(k: u32) -> (r: u128)
    requires
        k <= 38,
    ensures
        r == pow10(k as nat),
{
    let mut r: u128 = 1;
    let mut i: u32 = 0;
    proof {
        reveal_with_fuel(pow10, 39);
    }
    while i < k
        invariant
            i <= k,
            k <= 38,
            r == pow10(i as nat),
            pow10(38) == 100000000000000000000000000000000000000,
        decreases k - i,
    {
        proof {
            crate::math::lemma_pow10_mono((i + 1) as nat, 38);
        }
        r = r * 10;
        i = i + 1;
    }
    r
}

/// The product with `10^k`.
pub fn big_mul_pow10(a: &Big, k: u64) -> (r: Big)
    requires
        a.limbs.len() + k / 19 + 1 < 0x1_0000_0000,
    ensures
        r.value() == a.value() * pow10(k as nat),
        r.limbs.len() <= a.limbs.len() + k / 19 + 1,
{
    let mut x = big_copy(a);
    let mut j: u64 = k;
    proof {
        assert(pow10(0) == 1);
    }
    while j >= 19
        invariant
            j <= k,
            x.value() * pow10(j as nat) == a.value() * pow10(k as nat),
            x.limbs.len() + j / 19 <= a.limbs.len() + k / 19,
        decreases j,
    {
        let t = pow10_u64(19);
        let ghost xv = x.value();
        x = big_mul_small(&x, t);
        proof {
            lemma_pow10_add(19, (j - 19) as nat);
            assert(xv * pow10(j as nat) == (xv * pow10(19)) * pow10((j - 19) as nat)) by {
                lemma_mul_is_associative(xv as int, pow10(19) as int, pow10((j - 19) as nat) as int);
                assert(j as nat == 19 + (j - 19) as nat);
            }
        }
        j = j - 19;
    }
    let t = pow10_u64(j as u32);
    x = big_mul_small(&x, t);
    x
}

/// The quotient by `10^k`.
pub fn big_div_pow10(a: &Big, k: u64) -> (r: Big)
    ensures
        r.value() == a.value() / pow10(k as nat),
        r.limbs.len() <= a.limbs.len(),
{
    let mut x = big_copy(a);
    let mut j: u64 = 0;
    proof {
        assert(pow10(0) == 1);
    }
    while k - j >= 19
        invariant
            j <= k,
            x.value() == a.value() / pow10(j as nat),
            x.limbs.len() == a.limbs.len(),
        decreases k - j,
    {
        let t = pow10_u64(19);
        proof {
            lemma_pow10_pos(19);
        }
        let (q, _r) = big_div_small(&x, t);
        proof {
            lemma_fundamental_div_mod_converse(x.value() as int, t as int, q.value() as int, _r as int);
            lemma_div_pow10_twice(a.value(), j as nat, 19);
        }
        x = q;
        j = j + 19;
    }
    let t = pow10_u64((k - j) as u32);
    proof {
        lemma_pow10_pos((k - j) as nat);
    }
    let (q, _r) = big_div_small(&x, t);
    proof {
        lemma_fundamental_div_mod_converse(x.value() as int, t as int, q.value() as int, _r as int);
        lemma_div_pow10_twice(a.value(), j as nat, (k - j) as nat);
    }
    q
}

/// The number of decimal digits of a word.
pub fn ndigits_u64(x: u64) -> (r: u64)
    ensures
        r == ndig(x as nat),
        r <= 20,
{
    let mut v: u64 = x;
    let mut c: u64 = 0;
    proof {
        lemma_ndig_bounds(x as nat);
        reveal_with_fuel(pow10, 21);
        if ndig(x as nat) > 20 {
            crate::math::lemma_pow10_mono(20, (ndig(x as nat) - 1) as nat);
        }
    }
    while v > 0
        invariant
            c + ndig(v as nat) == ndig(x as nat),
            ndig(x as nat) <= 20,
        decreases v,
    {
        v = v / 10;
        c = c + 1;
    }
    c
}

/// `(2^64)^i <= 10^(20 i)`.
pub proof fn lemma_wpow_pow10(i: nat)
    ensures
        wpow(i) <= pow10(20 * i),
    decreases i,
{
    if i > 0 {
        lemma_wpow_pow10((i - 1) as nat);
        lemma_pow10_add(20, 20 * (i - 1) as nat);
        assert(20 + 20 * (i - 1) as nat == 20 * i);
        reveal_with_fuel(pow10, 21);
        let p = wpow((i - 1) as nat);
        let q = pow10(20 * (i - 1) as nat);
        assert(two64() * p <= pow10(20) * q) by (nonlinear_arith)
            requires
                p <= q,
                two64() <= pow10(20),
        ;
    }
}

/// A number below `10^m` has at most `m` digits.
pub proof fn lemma_ndig_le(x: nat, m: nat)
    requires
        x < pow10(m),
    ensures
        ndig(x) <= m,
{
    lemma_ndig_bounds(x);
    if ndig(x) > m {
        crate::math::lemma_pow10_mono(m, (ndig(x) - 1) as nat);
    }
}

/// The number of decimal digits of the number.
pub fn big_ndigits(a: &Big) -> (r: u64)
    requires
        a.limbs.len() < 0x1_0000_0000,
    ensures
        r == ndig(a.value()),
        r <= 20 * a.limbs.len(),
{
    let mut x = big_copy(a);
    big_trim(&mut x);
    let mut c: u64 = 0;
    proof {
        lemma_val_bound(a.limbs@);
        lemma_wpow_pow10(a.limbs.len() as nat);
        lemma_ndig_le(a.value(), 20 * a.limbs.len() as nat);
    }
    while x.limbs.len() > 1
        invariant
            c + ndig(x.value()) == ndig(a.value()),
            ndig(a.value()) <= 20 * a.limbs.len(),
            a.limbs.len() < 0x1_0000_0000,
            x.limbs.len() == 0 || x.limbs@.last() != 0,
        decreases x.value(),
    {
        let t = pow10_u64(19);
        let ghost xv = x.value();
        proof {
            lemma_val_lower(x.limbs@);
            assert(wpow(1) == two64()) by {
                assert(wpow(0) == 1);
            }
            if x.limbs.len() > 2 {
                lemma_wpow_add(1, (x.limbs.len() - 2) as nat);
                lemma_wpow_pos((x.limbs.len() - 2) as nat);
                let p = wpow((x.limbs.len() - 2) as nat);
                assert(two64() * p >= two64()) by (nonlinear_arith)
                    requires p >= 1;
                assert((1 + (x.limbs.len() - 2)) as nat == (x.limbs.len() - 1) as nat);
            }
            reveal_with_fuel(pow10, 20);
            lemma_ndig_bounds(xv);
            if ndig(xv) < 19 {
                crate::math::lemma_pow10_mono(ndig(xv), 19);
            }
        }
        let (q, _r) = big_div_small(&x, t);
        proof {
            lemma_pow10_pos(19);
            lemma_fundamental_div_mod_converse(xv as int, t as int, q.value() as int, _r as int);
            lemma_ndig_div_pow10(xv, 19);
            assert(q.value() < xv) by (nonlinear_arith)
                requires xv == q.value() * t + _r, t >= 2, xv > 0;
        }
        x = q;
        big_trim(&mut x);
        c = c + 19;
    }
    proof {
        if x.limbs.len() == 1 {
            lemma_val_one(x.limbs@);
        } else {
            lemma_val_empty(x.limbs@);
        }
    }
    let v: u64 = if x.limbs.len() == 1 { x.limbs[0] } else { 0 };
    c + ndigits_u64(v)
}

/// The value of `10^39`, the bound of a double word's digit count.
pub proof fn lemma_pow10_39()
    ensures
        pow10(39) == 1000000000000000000000000000000000000000,
{
    reveal_with_fuel(pow10, 40);
}

/// The number of decimal digits of a double word.
pub fn ndigits_u128(x: u128) -> (r: u64)
    ensures
        r == ndig(x as nat),
        r <= 39,
{
    let mut v: u128 = x;
    let mut c: u64 = 0;
    proof {
        lemma_pow10_39();
        lemma_ndig_le(x as nat, 39);
    }
    while v > 0
        invariant
            c + ndig(v as nat) == ndig(x as nat),
            ndig(x as nat) <= 39,
        decreases v,
    {
        v = v / 10;
        c = c + 1;
    }
    c
}

/// Three words spell their weighted sum.
pub proof fn lemma_val3(s: Seq<u64>)
    requires
        s.len() == 3,
    ensures
        val(s) == (s[2] as nat * two64() + s[1] as nat) * two64() + s[0] as nat,
{
    let s2 = s.drop_last();
    let s1 = s2.drop_last();
    lemma_val_one(s1);
    assert(wpow(1) == two64()) by {
        assert(wpow(0) == 1);
    }
    assert(wpow(2) == two64() * two64()) by {
        assert(wpow(1) == two64()) by {
            assert(wpow(0) == 1);
        }
    }
    assert(val(s2) == val(s1) + s2.last() as nat * wpow(1));
    assert(val(s) == val(s2) + s.last() as nat * wpow(2));
    let a = s[0] as nat;
    let b = s[1] as nat;
    let c = s[2] as nat;
    let w = two64();
    assert(a + b * w + c * (w * w) == (c * w + b) * w + a) by (nonlinear_arith);
}

/// Four words spell their weighted sum.
pub proof fn lemma_val4(s: Seq<u64>)
    requires
        s.len() == 4,
    ensures
        val(s) == ((s[3] as nat * two64() + s[2] as nat) * two64() + s[1] as nat) * two64() + s[0] as nat,
{
    let s3 = s.drop_last();
    lemma_val3(s3);
    assert(wpow(3) == two64() * (two64() * two64())) by {
        assert(wpow(0) == 1);
        assert(wpow(1) == two64());
        assert(wpow(2) == two64() * two64());
    }
    assert(val(s) == val(s3) + s.last() as nat * wpow(3));
    let a = s[0] as nat;
    let b = s[1] as nat;
    let c = s[2] as nat;
    let d = s[3] as nat;
    let w = two64();
    assert((c * w + b) * w + a + d * (w * (w * w)) == ((d * w + c) * w + b) * w + a) by (nonlinear_arith);
}

/// A number below `(2^64)^k` as exactly `k` words.
pub fn big_words(a: &Big, k: usize) -> (r: Vec<u64>)
    requires
        a.value() < wpow(k as nat),
    ensures
        r.len() == k,
        val(r@) == a.value(),
{
    let mut x = big_copy(a);
    big_trim(&mut x);
    proof {
        if x.limbs.len() > k {
            lemma_val_lower(x.limbs@);
            lemma_wpow_add(k as nat, (x.limbs.len() - 1 - k) as nat);
            lemma_wpow_pos((x.limbs.len() - 1 - k) as nat);
            let p = wpow(k as nat);
            let q = wpow((x.limbs.len() - 1 - k) as nat);
            assert(p * q >= p) by (nonlinear_arith)
                requires q >= 1, p >= 0;
            assert((k as nat + (x.limbs.len() - 1 - k) as nat) as nat == (x.limbs.len() - 1) as nat);
        }
    }
    big_pad(&mut x, k);
    x.limbs
}

/// Whether the number is odd.
pub fn big_is_odd(a: &Big) -> (r: bool)
    ensures
        r == (a.value() % 2 == 1),
{
    if a.limbs.len() == 0 {
        proof {
            lemma_val_empty(a.limbs@);
        }
        return false;
    }
    let w0: u64 = a.limbs[0];
    proof {
        lemma_val_suffix(a.limbs@, 0);
        assert(a.limbs@.subrange(0, a.limbs@.len() as int) =~= a.limbs@);
        let v = val(a.limbs@.subrange(1, a.limbs@.len() as int));
        assert(two64() * v == 2 * (0x8000_0000_0000_0000 * v)) by (nonlinear_arith);
        vstd::arithmetic::div_mod::lemma_mod_multiples_vanish((0x8000_0000_0000_0000 * v) as int, w0 as int, 2);
        assert(a.value() == w0 as nat + two64() * v);
    }
    w0 % 2 == 1
}

} // verus!
