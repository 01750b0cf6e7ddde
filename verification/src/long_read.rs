//! Reading numbers with more than 34 significant digits: the reader's
//! rounding of the digits past the 34th is correct rounding of the exact
//! value the digits spell.

use vstd::prelude::*;
use crate::math::{pow10, lemma_pow10_pos, lemma_pow10_add};
use crate::types::BidUint128;
use crate::model::{encode, ten34, ten33, lemma_ten34};
use crate::rounding::{round_bid, quot_at, rem_at, den_at, num_at, tmin, last_exact, rounded_at, round_up, lemma_first_fit, lemma_quot_step};
use crate::from_string::{dig, dval, any_nonzero, is_dig, zeros32, number_result, number_ok, long_packing, long_carry, sign_of, at, skip_ws, skip_zeros, exp_acc, zero_scan, after_zeros, mantissa, is_inf_word, is_snan_word, is_nan_word, from_string_ok, from_string_result};
use crate::internal::{get_bid128_result, lemma_or_zero};

verus! {

/// The number that the significant digits from index `i` up to `k`
/// spell.
pub open spec fn dfrom(s: Seq<u8>, pb: int, nb: nat, pa: int, i: int, k: int) -> nat
    decreases k - i,
{
    if i >= k {
        0
    } else {
        ((dig(s, pb, nb, pa, i) - 48) as nat) * pow10((k - i - 1) as nat) + dfrom(s, pb, nb, pa, i + 1, k)
    }
}

/// Appending a digit at the end multiplies by ten and adds it.
proof fn lemma_dfrom_push(s: Seq<u8>, pb: int, nb: nat, pa: int, i: int, k: int)
    requires
        0 <= i <= k,
        dig(s, pb, nb, pa, k) >= 48,
    ensures
        dfrom(s, pb, nb, pa, i, k + 1) == dfrom(s, pb, nb, pa, i, k) * 10 + ((dig(s, pb, nb, pa, k) - 48) as nat),
    decreases k - i,
{
    reveal_with_fuel(pow10, 2);
    if i == k {
        let d = ((dig(s, pb, nb, pa, k) - 48) as nat);
        assert(dfrom(s, pb, nb, pa, k + 1, k + 1) == 0);
        assert(((k + 1 - k - 1) as nat) == 0);
        assert(dfrom(s, pb, nb, pa, k, k + 1) == d * pow10(0) + dfrom(s, pb, nb, pa, k + 1, k + 1));
        assert(dfrom(s, pb, nb, pa, k, k) == 0);
        assert(d * pow10(0) == d) by (nonlinear_arith)
            requires pow10(0) == 1;
    } else {
        lemma_dfrom_push(s, pb, nb, pa, i + 1, k);
        let d = ((dig(s, pb, nb, pa, i) - 48) as nat);
        let p = pow10((k - i - 1) as nat);
        assert(pow10((k + 1 - i - 1) as nat) == 10 * p) by {
            assert((k + 1 - i - 1) as nat == ((k - i - 1) as nat) + 1);
        }
        assert(dfrom(s, pb, nb, pa, i, k + 1) == d * pow10((k + 1 - i - 1) as nat) + dfrom(s, pb, nb, pa, i + 1, k + 1));
        assert(dfrom(s, pb, nb, pa, i, k) == d * p + dfrom(s, pb, nb, pa, i + 1, k));
        assert(d * (10 * p) == (d * p) * 10) by (nonlinear_arith);
        assert((d * p + dfrom(s, pb, nb, pa, i + 1, k)) * 10 == (d * p) * 10 + dfrom(s, pb, nb, pa, i + 1, k) * 10)
            by (nonlinear_arith);
    }
}

/// The first `k` significant digits spell `dfrom(.., 0, k)`.
proof fn lemma_dval_dfrom(s: Seq<u8>, pb: int, nb: nat, pa: int, k: nat)
    requires
        forall|j: int| 0 <= j < k ==> is_dig(#[trigger] dig(s, pb, nb, pa, j)),
    ensures
        dval(s, pb, nb, pa, k) == dfrom(s, pb, nb, pa, 0, k as int),
    decreases k,
{
    if k > 0 {
        lemma_dval_dfrom(s, pb, nb, pa, (k - 1) as nat);
        assert(is_dig(dig(s, pb, nb, pa, k - 1)));
        lemma_dfrom_push(s, pb, nb, pa, 0, k - 1);
    }
}

/// Splitting the digits `i..k` at `j`.
proof fn lemma_dfrom_split(s: Seq<u8>, pb: int, nb: nat, pa: int, i: int, j: int, k: int)
    requires
        i <= j <= k,
    ensures
        dfrom(s, pb, nb, pa, i, k) == dfrom(s, pb, nb, pa, i, j) * pow10((k - j) as nat) + dfrom(s, pb, nb, pa, j, k),
    decreases j - i,
{
    lemma_pow10_pos((k - j) as nat);
    if i == j {
        assert(dfrom(s, pb, nb, pa, i, j) == 0);
        assert(0 * pow10((k - j) as nat) == 0);
    } else {
        lemma_dfrom_split(s, pb, nb, pa, i + 1, j, k);
        let d = ((dig(s, pb, nb, pa, i) - 48) as nat);
        let a = pow10((j - i - 1) as nat);
        let b = pow10((k - j) as nat);
        lemma_pow10_add((j - i - 1) as nat, (k - j) as nat);
        assert(((j - i - 1) as nat) + ((k - j) as nat) == (k - i - 1) as nat);
        let r = dfrom(s, pb, nb, pa, i + 1, j);
        assert(dfrom(s, pb, nb, pa, i, k) == d * pow10((k - i - 1) as nat) + dfrom(s, pb, nb, pa, i + 1, k));
        assert(dfrom(s, pb, nb, pa, i, j) == d * a + r);
        assert((d * a + r) * b == d * (a * b) + r * b) by (nonlinear_arith);
        assert(pow10((k - i - 1) as nat) == a * b);
    }
}

/// Digits `i..k` spell less than `10^(k - i)`, and zero exactly when none
/// of them is nonzero.
proof fn lemma_dfrom_bound(s: Seq<u8>, pb: int, nb: nat, pa: int, i: int, k: int)
    requires
        i <= k,
        forall|j: int| i <= j < k ==> is_dig(#[trigger] dig(s, pb, nb, pa, j)),
    ensures
        dfrom(s, pb, nb, pa, i, k) < pow10((k - i) as nat),
        (dfrom(s, pb, nb, pa, i, k) == 0) == !any_nonzero(s, pb, nb, pa, i, k),
    decreases k - i,
{
    if i == k {
        assert(pow10(0) == 1);
    } else {
        lemma_dfrom_bound(s, pb, nb, pa, i + 1, k);
        assert(is_dig(dig(s, pb, nb, pa, i)));
        let d = ((dig(s, pb, nb, pa, i) - 48) as nat);
        let p = pow10((k - i - 1) as nat);
        lemma_pow10_pos((k - i - 1) as nat);
        reveal_with_fuel(pow10, 2);
        assert(pow10((k - i) as nat) == 10 * p) by {
            assert((k - i) as nat == ((k - i - 1) as nat) + 1);
        }
        let r = dfrom(s, pb, nb, pa, i + 1, k);
        assert(d * p + r < 10 * p) by (nonlinear_arith)
            requires d <= 9, r < p;
        assert((d * p + r == 0) == (d == 0 && r == 0)) by (nonlinear_arith)
            requires p >= 1;
    }
}

/// Reading a number with more than 34 significant digits, the first of
/// them not zero, is correct rounding of the exact value they spell, in
/// every rounding mode, with the same flags, whenever the 34-digit result
/// lands in the normal exponent range: the result is the value
/// `round_bid` gives for `digits * 10^exp`, where `exp` is the exponent
/// of the last digit.
pub proof fn law_long_number_rounding(
    s: Seq<u8>,
    neg: bool,
    m: (int, nat, int, nat, int),
    z: nat,
    dexp: int,
    mode: u32,
    old: u32,
)
    requires
        m.1 + m.3 > 34,
        forall|j: int| 0 <= j < m.1 + m.3 ==> is_dig(#[trigger] dig(s, m.0, m.1, m.2, j)),
        dig(s, m.0, m.1, m.2, 0) > 48,
        mode <= 4,
        -6176 <= (dexp - m.3 - zeros32(z)) + (m.1 + m.3 - 34) <= 6110,
    ensures
        number_result(s, neg, m, z, dexp, mode, old) == round_bid(
            neg,
            dval(s, m.0, m.1, m.2, m.1 + m.3),
            1,
            dexp - m.3 - zeros32(z),
            dexp - m.3 - zeros32(z),
            mode,
        ),
{
    lemma_ten34();
    let (pb, nb, pa, na, pe) = m;
    let n: nat = nb + na;
    let k: nat = (n - 34) as nat;
    let ee: int = dexp - na - zeros32(z);
    let t0: int = ee + k;
    let c = dval(s, pb, nb, pa, 34);
    let dd = dval(s, pb, nb, pa, n);
    let rr = dfrom(s, pb, nb, pa, 34, n as int);
    let r2 = dfrom(s, pb, nb, pa, 35, n as int);
    let d34 = dig(s, pb, nb, pa, 34);
    let dv: nat = (d34 - 48) as nat;
    let p = pow10(k);
    let q = pow10((k - 1) as nat);
    // The digits: `dd = c * 10^k + rr`, `rr = dv * 10^(k-1) + r2`.
    lemma_dval_dfrom(s, pb, nb, pa, n);
    lemma_dval_dfrom(s, pb, nb, pa, 34);
    lemma_dfrom_split(s, pb, nb, pa, 0, 34, n as int);
    lemma_dfrom_split(s, pb, nb, pa, 0, 1, 34);
    lemma_dfrom_bound(s, pb, nb, pa, 0, 34);
    lemma_dfrom_bound(s, pb, nb, pa, 1, 34);
    lemma_dfrom_bound(s, pb, nb, pa, 34, n as int);
    lemma_dfrom_bound(s, pb, nb, pa, 35, n as int);
    assert(is_dig(d34));
    assert(is_dig(dig(s, pb, nb, pa, 0)));
    assert(dd == c * p + rr);
    assert(rr == dv * q + r2);
    assert(c < ten34());
    assert(dfrom(s, pb, nb, pa, 0, 1) == ((dig(s, pb, nb, pa, 0) - 48) as nat) * pow10(0) + dfrom(s, pb, nb, pa, 1, 1));
    assert(pow10(0) == 1);
    assert(dfrom(s, pb, nb, pa, 1, 1) == 0);
    assert(((dig(s, pb, nb, pa, 0) - 48) as nat) * pow10(0) >= 1) by (nonlinear_arith)
        requires pow10(0) == 1, ((dig(s, pb, nb, pa, 0) - 48) as nat) >= 1;
    assert(dfrom(s, pb, nb, pa, 0, 1) >= 1);
    assert(c >= ten33()) by (nonlinear_arith)
        requires
            c == dfrom(s, pb, nb, pa, 0, 1) * pow10(33) + dfrom(s, pb, nb, pa, 1, 34),
            dfrom(s, pb, nb, pa, 0, 1) >= 1,
            pow10(33) == ten33();
    lemma_pow10_pos((k - 1) as nat);
    reveal_with_fuel(pow10, 2);
    assert(p == 10 * q) by {
        assert(k == ((k - 1) as nat) + 1);
    }
    // The value at the exponent `t0` of the 34th digit.
    assert(num_at(dd, ee, t0) == dd);
    assert(den_at(1, ee, t0) == p) by {
        assert((t0 - ee) as nat == k);
    }
    vstd::arithmetic::div_mod::lemma_fundamental_div_mod_converse(dd as int, p as int, c as int, rr as int);
    assert(quot_at(dd, 1, ee, t0) == c);
    assert(rem_at(dd, 1, ee, t0) == rr);
    // It is the least fitting exponent.
    assert forall|t: int| -6176 <= t < t0 implies quot_at(dd, 1, ee, t) >= ten34() by {
        crate::finish::lemma_quot_anti(dd, 1, ee, t, t0 - 1);
        lemma_quot_step(dd, 1, ee, t0 - 1);
    }
    lemma_first_fit(dd, 1, ee, -6176, t0);
    assert(tmin(dd, 1, ee) == t0);
    let e: int = t0 + 6176;
    assert(e == dexp + nb + 6176 - 34 - zeros32(z));
    let odd = c % 2 == 1;
    let anz = any_nonzero(s, pb, nb, pa, 34, n as int);
    assert(anz == (rr > 0));
    assert(any_nonzero(s, pb, nb, pa, 35, n as int) == (r2 > 0));
    let carry0 = long_carry(s, pb, nb, pa, n, mode, neg, e, odd);
    assert(long_packing(s, neg, m, z, dexp, mode) == (e, c + if carry0 { 1nat } else { 0nat }));
    if rr == 0 {
        assert(dv == 0) by (nonlinear_arith)
            requires rr == dv * q + r2, rr == 0, q >= 1;
        assert(!carry0);
        assert(round_bid(neg, dd, 1, ee, ee, mode) == (encode(neg, c, e as nat), 0u32));
        lemma_or_zero(0u32);
        assert(number_result(s, neg, m, z, dexp, mode, old) == (encode(neg, c, e as nat), 0u32));
    } else {
        assert(r2 < q);
        let up = round_up(mode, neg, c, rr, p);
        if mode == 0 {
            if dv >= 6 {
                assert(2 * rr > p) by (nonlinear_arith)
                    requires rr == dv * q + r2, p == 10 * q, dv >= 6, q >= 1;
            } else if dv == 5 {
                assert(2 * rr - p == 2 * r2) by (nonlinear_arith)
                    requires rr == dv * q + r2, p == 10 * q, dv == 5;
            } else {
                assert(2 * rr < p) by (nonlinear_arith)
                    requires rr == dv * q + r2, p == 10 * q, dv <= 4, r2 < q;
            }
        } else if mode == 4 {
            if dv >= 5 {
                assert(2 * rr >= p) by (nonlinear_arith)
                    requires rr == dv * q + r2, p == 10 * q, dv >= 5;
            } else {
                assert(2 * rr < p) by (nonlinear_arith)
                    requires rr == dv * q + r2, p == 10 * q, dv <= 4, r2 < q;
            }
        }
        assert(up == carry0);
        let cx: nat = c + if carry0 { 1nat } else { 0nat };
        assert(rounded_at(dd, 1, ee, t0, mode, neg) == cx);
        lemma_or_zero(0x20u32);
        if cx == ten34() {
            assert(round_bid(neg, dd, 1, ee, ee, mode) == (encode(neg, ten33(), (e + 1) as nat), 0x20u32));
            assert(get_bid128_result(sign_of(neg), e, cx, mode, old | 0x20u32) == (encode(neg, ten33(), (e + 1) as nat), 0u32));
        } else {
            assert(round_bid(neg, dd, 1, ee, ee, mode) == (encode(neg, cx, e as nat), 0x20u32));
            assert(get_bid128_result(sign_of(neg), e, cx, mode, old | 0x20u32) == (encode(neg, cx, e as nat), 0u32));
        }
    }
}

/// Reading a number with at most 34 significant digits, the first of
/// them not zero, at an exponent of the range is exact: the result is
/// the value the digits spell with that exponent, as `round_bid` gives
/// it, and no flag is raised.
pub proof fn law_short_number_exact(
    s: Seq<u8>,
    neg: bool,
    m: (int, nat, int, nat, int),
    z: nat,
    dexp: int,
    mode: u32,
    old: u32,
)
    requires
        0 < m.1 + m.3 <= 34,
        forall|j: int| 0 <= j < m.1 + m.3 ==> is_dig(#[trigger] dig(s, m.0, m.1, m.2, j)),
        dig(s, m.0, m.1, m.2, 0) > 48,
        -6176 <= dexp - m.3 - zeros32(z) <= 6111,
    ensures
        number_result(s, neg, m, z, dexp, mode, old) == round_bid(
            neg,
            dval(s, m.0, m.1, m.2, m.1 + m.3),
            1,
            dexp - m.3 - zeros32(z),
            dexp - m.3 - zeros32(z),
            mode,
        ),
        number_result(s, neg, m, z, dexp, mode, old).1 == 0,
{
    lemma_ten34();
    let (pb, nb, pa, na, pe) = m;
    let n: nat = nb + na;
    let ee: int = dexp - na - zeros32(z);
    let dd = dval(s, pb, nb, pa, n);
    lemma_dval_dfrom(s, pb, nb, pa, n);
    lemma_dfrom_bound(s, pb, nb, pa, 0, n as int);
    crate::math::lemma_pow10_mono(n, 34);
    lemma_dfrom_split(s, pb, nb, pa, 0, 1, n as int);
    lemma_pow10_pos((n - 1) as nat);
    assert(is_dig(dig(s, pb, nb, pa, 0)));
    assert(pow10(0) == 1);
    assert(dfrom(s, pb, nb, pa, 1, 1) == 0);
    assert(((dig(s, pb, nb, pa, 0) - 48) as nat) * pow10(0) >= 1) by (nonlinear_arith)
        requires pow10(0) == 1, ((dig(s, pb, nb, pa, 0) - 48) as nat) >= 1;
    assert(dfrom(s, pb, nb, pa, 0, 1) >= 1);
    assert(dd > 0) by (nonlinear_arith)
        requires
            dd == dfrom(s, pb, nb, pa, 0, 1) * pow10((n - 1) as nat) + dfrom(s, pb, nb, pa, 1, n as int),
            dfrom(s, pb, nb, pa, 0, 1) >= 1,
            pow10((n - 1) as nat) >= 1;
    crate::laws::lemma_round_exact(neg, dd, ee, mode);
    assert(get_bid128_result(sign_of(neg), ee + 6176, dd, mode, old) == (encode(neg, dd, (ee + 6176) as nat), 0u32));
}

/// Reading a string of decimal digits, the first not zero, gives in every
/// rounding mode the correct rounding of the integer they spell, with its
/// flags (up to 6144 digits, so that the result is a normal value): exact
/// up to 34 digits, rounded beyond. In particular, rounding down never
/// gives more than the value read, and rounding up never less.
pub proof fn law_digits_rounding(s: Seq<u8>, mode: u32, old: u32)
    requires
        0 < s.len() <= 6144,
        forall|j: int| 0 <= j < s.len() ==> is_dig(#[trigger] s[j]),
        s[0] > 48,
        mode <= 4,
    ensures
        from_string_ok(s, mode),
        from_string_result(s, mode, old) == round_bid(false, dval(s, 0, s.len(), s.len() as int, s.len()), 1, 0, 0, mode),
{
    let n: nat = s.len();
    assert forall|j: int| 0 <= j < n implies is_dig(#[trigger] at(s, 0 + j)) by {
        assert(at(s, 0 + j) == s[j]);
    }
    assert(at(s, 0 + n as int) == 0);
    crate::round_trip::lemma_count_run(s, 0, n);
    assert(skip_ws(s, 0) == 0) by {
        assert(is_dig(s[0]));
    }
    assert(is_dig(at(s, 0)));
    assert(n > 1 ==> is_dig(at(s, 1)));
    assert(n == 1 ==> at(s, 1) == 0);
    assert(!is_inf_word(s, 1));
    assert(!is_snan_word(s, 1));
    assert(!is_nan_word(s, 1));
    let m = (0int, n, n as int, 0nat, n as int);
    assert(mantissa(s, 0, false) == m);
    assert(zeros32(0) == 0);
    assert forall|j: int| 0 <= j < n + 0 implies is_dig(#[trigger] dig(s, 0, n, n as int, j)) by {
        assert(dig(s, 0, n, n as int, j) == at(s, 0 + j));
    }
    assert(dig(s, 0, n, n as int, 0) == s[0]);
    if n > 34 {
        law_long_number_rounding(s, false, m, 0, 0, mode, old);
        let (e2, cx) = long_packing(s, false, m, 0, 0, mode);
        assert(e2 == n + 6176 - 34);
    } else {
        law_short_number_exact(s, false, m, 0, 0, mode, old);
    }
    assert(from_string_result(s, mode, old) == number_result(s, false, m, 0, 0, mode, old));
    assert(number_ok(s, false, m, 0, 0, mode));
}

/// The rounding mode that goes towards zero for a value of sign `neg`:
/// down for a positive value, up for a negative one.
pub open spec fn towards_zero_for(neg: bool) -> u32 {
    if neg { 2 } else { 1 }
}

/// For a value of sign `neg`, correct rounding in the direction towards
/// zero is rounding towards zero.
proof fn lemma_round_towards_zero(neg: bool, n: nat, d: nat, e: int, pref: int)
    ensures
        round_bid(neg, n, d, e, pref, towards_zero_for(neg)) == round_bid(neg, n, d, e, pref, 3),
{
    let t = tmin(n, d, e);
    assert(rounded_at(n, d, e, t, towards_zero_for(neg), neg) == rounded_at(n, d, e, t, 3, neg));
}

/// Packing a coefficient and exponent of sign `neg` in the rounding
/// direction towards zero is packing towards zero.
proof fn lemma_pack_towards_zero(neg: bool, expon: int, c: nat, old: u32)
    ensures
        get_bid128_result(sign_of(neg), expon, c, towards_zero_for(neg), old) == get_bid128_result(sign_of(neg), expon, c, 3, old),
{
    let c2: nat = if c == ten34() { ten33() } else { c };
    let e2: int = if c == ten34() { expon + 1 } else { expon };
    lemma_round_towards_zero(neg, c2, 1, e2 - 6176, e2 - 6176);
    if e2 < 0 && e2 + 34 >= 0 {
        let p = pow10((-e2) as nat);
        let q = c2 / p;
        assert(round_up(towards_zero_for(neg), neg, q, c2 % p, p) == round_up(3, neg, q, c2 % p, p));
    }
}

/// Reading a number whose sign is `neg` in the rounding direction towards
/// zero gives what reading it towards zero gives.
proof fn lemma_number_towards_zero(s: Seq<u8>, neg: bool, m: (int, nat, int, nat, int), z: nat, dexp: int, old: u32)
    ensures
        number_result(s, neg, m, z, dexp, towards_zero_for(neg), old) == number_result(s, neg, m, z, dexp, 3, old),
{
    let (pb, nb, pa, na, pe) = m;
    let n = nb + na;
    if n <= 34 {
        lemma_pack_towards_zero(neg, dexp + 6176 - na - zeros32(z), dval(s, pb, nb, pa, n), old);
    } else {
        let e = dexp + nb + 6176 - 34 - zeros32(z);
        let c = dval(s, pb, nb, pa, 34);
        assert(long_carry(s, pb, nb, pa, n, towards_zero_for(neg), neg, e, c % 2 == 1) == long_carry(s, pb, nb, pa, n, 3, neg, e, c % 2 == 1));
        assert(long_packing(s, neg, m, z, dexp, towards_zero_for(neg)) == long_packing(s, neg, m, z, dexp, 3));
        let (e2, cx) = long_packing(s, neg, m, z, dexp, 3);
        let old2 = old | if any_nonzero(s, pb, nb, pa, 34, n as int) { 0x20u32 } else { 0u32 };
        lemma_pack_towards_zero(neg, e2, cx, old2);
    }
}

/// Reading what follows the leading zeros of a number of sign `neg`
/// towards zero, in either form.
proof fn lemma_after_zeros_towards_zero(s: Seq<u8>, neg: bool, p: int, rdx: bool, z: nat, old: u32)
    ensures
        after_zeros(s, neg, p, rdx, z, towards_zero_for(neg), old) == after_zeros(s, neg, p, rdx, z, 3, old),
{
    let m = mantissa(s, p, rdx);
    let pe = m.4;
    let c2 = at(s, pe + 1);
    let pe2 = if c2 == 45 || c2 == 43 { pe + 2 } else { pe + 1 };
    let e0 = at(s, pe2) - 48;
    let p4 = if e0 == 0 { skip_zeros(s, pe2 + 1) } else { pe2 + 1 };
    let v = exp_acc(s, p4, e0, 1);
    lemma_number_towards_zero(s, neg, m, z, 0, old);
    lemma_number_towards_zero(s, neg, m, z, if c2 == 45 { -v } else { v }, old);
}

/// Rounding towards zero is the rounding direction towards zero for the
/// sign of the number read: reading a string that is not negative in
/// rounding mode 1 (down), or a negative one in mode 2 (up), gives what
/// reading it in mode 3 (towards zero) gives. So, however many digits it
/// has, a positive number read downwards is never rounded up, and a
/// negative one read upwards never rounded down in magnitude.
pub proof fn law_read_towards_zero(s: Seq<u8>, old: u32)
    ensures
        from_string_result(s, towards_zero_for(at(s, skip_ws(s, 0)) == 45), old) == from_string_result(s, 3, old),
{
    let p = skip_ws(s, 0);
    let c = at(s, p);
    let neg = c == 45;
    let p1 = if c == 45 || c == 43 { p + 1 } else { p };
    let c1 = at(s, p1);
    let rdx = c1 == 46;
    let p2 = if rdx { p1 + 1 } else { p1 };
    let (k, p3, rdx3, z3) = zero_scan(s, p2, rdx, 0);
    lemma_after_zeros_towards_zero(s, neg, p3, rdx3, z3, old);
    lemma_after_zeros_towards_zero(s, neg, p2, rdx, 0, old);
}

} // verus!
