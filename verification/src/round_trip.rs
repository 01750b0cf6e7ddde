//! Reading back what was written: the string form of a canonical finite
//! value reads as the same value.

use vstd::prelude::*;
use crate::math::{ndig, pow10};
use crate::types::BidUint128;
use crate::consts::{MASK_SIGN, MASK_COEFF};
use crate::model::{is_special, is_inf, is_nan, is_snan, is_steered, is_neg, coeff, raw_coeff, exp_field, encode, infinity, ten34, lemma_classes};
use crate::to_string::{digit_char, dec_digits, zero_exp_digits, exp_digits, abs, to_string_spec};
use crate::from_string::{from_string_ok, from_string_result, at, char_bytes, is_dig, lower, count_digits, dval, dig, exp_acc, skip_zeros, skip_ws, zero_scan, mantissa, sign_of};
use crate::internal::get_bid128_result;

verus! {

/// The byte of a digit character is the digit's code.
proof fn lemma_digit_byte(d: nat)
    requires
        d <= 9,
    ensures
        digit_char(d) as u8 == 48 + d,
        is_dig(digit_char(d) as u8),
{
}

/// The digits of `n`: at least one, `ndig(n)` of them for nonzero `n`,
/// all digit characters, the first not `0` unless `n` is zero.
proof fn lemma_dec_digits(n: nat)
    ensures
        dec_digits(n).len() == if n == 0 { 1 } else { ndig(n) },
        forall|j: int| 0 <= j < dec_digits(n).len() ==> is_dig(#[trigger] dec_digits(n)[j] as u8),
        n > 0 ==> dec_digits(n)[0] as u8 != 48,
        n == 0 ==> dec_digits(n)[0] as u8 == 48,
    decreases n,
{
    if n < 10 {
        lemma_digit_byte(n);
        if n > 0 {
            assert(ndig(n) == 1 + ndig(n / 10));
            assert(n / 10 == 0);
        }
    } else {
        lemma_dec_digits(n / 10);
        lemma_digit_byte(n % 10);
        assert(ndig(n) == 1 + ndig(n / 10));
        let d = dec_digits(n / 10);
        assert(dec_digits(n) == d.push(digit_char(n % 10)));
        assert forall|j: int| 0 <= j < dec_digits(n).len() implies is_dig(#[trigger] dec_digits(n)[j] as u8) by {
            if j < d.len() {
                assert(dec_digits(n)[j] == d[j]);
            }
        }
        assert(dec_digits(n)[0] == d[0]);
    }
}

/// A number of four digits is written as those four digits.
proof fn lemma_four_digits(e: nat)
    requires
        1000 <= e < 10000,
    ensures
        dec_digits(e) == seq![digit_char(e / 1000), digit_char((e / 100) % 10), digit_char((e / 10) % 10), digit_char(e % 10)],
{
    assert(e / 10 / 10 == e / 100);
    assert(e / 100 / 10 == e / 1000);
    assert(e / 1000 < 10);
    assert(e / 10 >= 10 && e / 100 >= 10);
    assert(dec_digits(e / 1000) == seq![digit_char(e / 1000)]);
    assert(dec_digits(e / 100) == dec_digits(e / 1000).push(digit_char((e / 100) % 10)));
    assert(dec_digits(e / 10) == dec_digits(e / 100).push(digit_char((e / 10) % 10)));
    assert(dec_digits(e) == dec_digits(e / 10).push(digit_char(e % 10)));
}

/// A run of `k` digits followed by a non-digit counts `k` digits.
pub(crate) proof fn lemma_count_run(b: Seq<u8>, p: int, k: nat)
    requires
        0 <= p,
        p + k <= b.len(),
        forall|j: int| 0 <= j < k ==> is_dig(#[trigger] at(b, p + j)),
        !is_dig(at(b, p + k)),
    ensures
        count_digits(b, p) == k,
    decreases k,
{
    if k > 0 {
        assert(is_dig(at(b, p + 0)));
        assert forall|j: int| 0 <= j < (k - 1) as nat implies is_dig(#[trigger] at(b, (p + 1) + j)) by {
            assert(is_dig(at(b, p + (j + 1))));
            assert(p + (j + 1) == (p + 1) + j);
        }
        assert(p + 1 + (k - 1) as nat == p + k);
        lemma_count_run(b, p + 1, (k - 1) as nat);
    } else {
        assert(p + 0 == p);
    }
}

/// The written digits of `c` read back as `c`.
proof fn lemma_dval_digits(b: Seq<u8>, p: int, m: nat, pa: int, c: nat)
    requires
        dec_digits(c).len() <= m,
        forall|j: int| 0 <= j < dec_digits(c).len() ==> at(b, p + j) == #[trigger] dec_digits(c)[j] as u8,
    ensures
        dval(b, p, m, pa, dec_digits(c).len()) == c,
    decreases c,
{
    if c < 10 {
        lemma_digit_byte(c);
        assert(at(b, p + 0) == dec_digits(c)[0] as u8);
        assert(dig(b, p, m, pa, 0) == at(b, p + 0));
        assert(dval(b, p, m, pa, 1) == dval(b, p, m, pa, 0) * 10 + (dig(b, p, m, pa, 0) - 48) as nat);
    } else {
        let d = dec_digits(c / 10);
        lemma_digit_byte(c % 10);
        assert(dec_digits(c) == d.push(digit_char(c % 10)));
        assert forall|j: int| 0 <= j < d.len() implies at(b, p + j) == #[trigger] d[j] as u8 by {
            assert(dec_digits(c)[j] == d[j]);
        }
        lemma_dval_digits(b, p, m, pa, c / 10);
        let k = d.len();
        assert(at(b, p + k) == dec_digits(c)[k as int] as u8);
        assert(dig(b, p, m, pa, k as int) == at(b, p + k));
        assert(dval(b, p, m, pa, k + 1) == dval(b, p, m, pa, k) * 10 + (dig(b, p, m, pa, k as int) - 48) as nat);
    }
}

/// Reading exponent digits from the `j`-th of a run of `l <= 7` digits
/// gives the value of the whole run.
proof fn lemma_exp_acc_run(b: Seq<u8>, p: int, l: nat, j: nat)
    requires
        1 <= j <= l <= 7,
        forall|i: int| 0 <= i < l ==> is_dig(#[trigger] at(b, p + i)),
        !is_dig(at(b, p + l)),
    ensures
        exp_acc(b, p + j, dval(b, p, l, p, j) as int, j as int) == dval(b, p, l, p, l) as int,
    decreases l - j,
{
    if j < l {
        assert(is_dig(at(b, p + j)));
        assert(dig(b, p, l, p, j as int) == at(b, p + j));
        assert(dval(b, p, l, p, j + 1) == dval(b, p, l, p, j) * 10 + (dig(b, p, l, p, j as int) - 48) as nat);
        assert(p + j + 1 == p + (j + 1) as nat);
        lemma_exp_acc_run(b, p, l, j + 1);
    }
}

/// The bytes of a character sequence, position by position.
proof fn lemma_at_bytes(t: Seq<char>, i: int)
    ensures
        0 <= i < t.len() ==> at(char_bytes(t), i) == t[i] as u8,
        !(0 <= i < t.len()) ==> at(char_bytes(t), i) == 0,
{
}

/// The digits of an exponent magnitude below `10^4` as written.
proof fn lemma_exp_text(v: nat)
    requires
        v < 10000,
    ensures
        exp_digits(v) == dec_digits(v),
        zero_exp_digits(v) == dec_digits(v),
        dec_digits(v).len() <= 4,
{
    if v >= 1000 {
        lemma_four_digits(v);
    }
    lemma_dec_digits(v);
    if v > 0 {
        reveal_with_fuel(pow10, 5);
        crate::bignum::lemma_ndig_le(v, 4);
    }
}

/// The exponent part `E`, a sign and the digits of `v` at position `q`
/// of `b`, followed by the end, reads as `v` with that sign.
proof fn lemma_read_exponent(b: Seq<u8>, q: int, v: nat, neg: bool)
    requires
        0 <= q,
        v < 10000,
        b.len() == q + 2 + dec_digits(v).len(),
        at(b, q) == 69,
        at(b, q + 1) == if neg { 45u8 } else { 43u8 },
        forall|j: int| 0 <= j < dec_digits(v).len() ==> at(b, q + 2 + j) == #[trigger] dec_digits(v)[j] as u8,
    ensures
        ({
            let pe2 = q + 2;
            let e0 = at(b, pe2) - 48;
            let p4 = if e0 == 0 { skip_zeros(b, pe2 + 1) } else { pe2 + 1 };
            &&& at(b, pe2) >= 48
            &&& exp_acc(b, p4, e0, 1) == v
        }),
{
    lemma_exp_text(v);
    lemma_dec_digits(v);
    let x = dec_digits(v);
    let l = x.len();
    let p = q + 2;
    assert(at(b, p + 0) == x[0] as u8);
    assert forall|i: int| 0 <= i < l implies is_dig(#[trigger] at(b, p + i)) by {
        assert(at(b, p + i) == x[i] as u8);
    }
    assert(!is_dig(at(b, p + l)));
    lemma_dval_digits(b, p, l, p, v);
    assert(dig(b, p, l, p, 0) == at(b, p + 0));
    assert(dval(b, p, l, p, 1) == dval(b, p, l, p, 0) * 10 + (dig(b, p, l, p, 0) - 48) as nat);
    if v == 0 {
        assert(at(b, p + 1) == 0);
        assert(skip_zeros(b, p + 1) == p + 1);
        assert(exp_acc(b, p + 1, 0, 1) == 0);
    } else {
        lemma_exp_acc_run(b, p, l, 1);
    }
}

/// A sign, the digits of a nonzero `c`, and an exponent part with the
/// digits of `v` read as `c` with exponent `+/-v`.
#[verifier::rlimit(50)]
proof fn lemma_read_number(b: Seq<u8>, neg: bool, c: nat, v: nat, eneg: bool, mode: u32, old: u32)
    requires
        0 < c < ten34(),
        v < 10000,
        mode <= 4,
        b.len() == 3 + dec_digits(c).len() + dec_digits(v).len(),
        at(b, 0) == if neg { 45u8 } else { 43u8 },
        forall|j: int| 0 <= j < dec_digits(c).len() ==> at(b, 1 + j) == #[trigger] dec_digits(c)[j] as u8,
        at(b, 1 + dec_digits(c).len() as int) == 69,
        at(b, 2 + dec_digits(c).len() as int) == if eneg { 45u8 } else { 43u8 },
        forall|j: int| 0 <= j < dec_digits(v).len() ==> at(b, (1 + dec_digits(c).len() as int) + 2 + j) == #[trigger] dec_digits(v)[j] as u8,
    ensures
        from_string_ok(b, mode),
        from_string_result(b, mode, old) == get_bid128_result(sign_of(neg), (if eneg { -v } else { v as int }) + 6176, c, mode, old),
{
    let d = dec_digits(c);
    lemma_dec_digits(c);
    crate::model::lemma_ten34();
    crate::bignum::lemma_ndig_le(c, 34);
    let l = d.len();
    let q = 1 + l as int;
    assert forall|j: int| 0 <= j < l implies is_dig(#[trigger] at(b, 1 + j)) by {
        assert(at(b, 1 + j) == d[j] as u8);
    }
    assert(at(b, 1int) == d[0] as u8);
    lemma_read_exponent(b, q, v, eneg);
    lemma_count_run(b, 1, l);
    lemma_dval_digits(b, 1, l, q, c);
    assert(lower(at(b, 1)) == at(b, 1));
    assert(skip_ws(b, 0) == 0);
    assert(mantissa(b, 1, false) == (1int, l, q, 0nat, q));
}

/// A sign, a zero digit, and an exponent part with the digits of `v` read
/// as zero with exponent `+/-v`.
#[verifier::rlimit(50)]
proof fn lemma_read_zero(b: Seq<u8>, neg: bool, v: nat, eneg: bool, mode: u32, old: u32)
    requires
        v < 10000,
        mode <= 4,
        b.len() == 4 + dec_digits(v).len(),
        at(b, 0) == if neg { 45u8 } else { 43u8 },
        at(b, 1) == 48,
        at(b, 2) == 69,
        at(b, 3) == if eneg { 45u8 } else { 43u8 },
        forall|j: int| 0 <= j < dec_digits(v).len() ==> at(b, 2 + 2 + j) == #[trigger] dec_digits(v)[j] as u8,
    ensures
        from_string_ok(b, mode),
        from_string_result(b, mode, old) == get_bid128_result(sign_of(neg), (if eneg { -v } else { v as int }) + 6176, 0, mode, old),
{
    lemma_read_exponent(b, 2, v, eneg);
    assert(skip_ws(b, 0) == 0);
    assert(lower(at(b, 1)) == 48);
    assert(zero_scan(b, 1, false, 0) == (2u8, 2int, false, 0nat));
    assert(count_digits(b, 2) == 0);
    assert(mantissa(b, 2, false) == (2int, 0nat, 2int, 0nat, 2int));
    assert(dval(b, 2, 0, 2, 0) == 0);
}

/// Writing a canonical finite value as a string and reading the string
/// back, in any rounding mode, gives the value itself and raises no flag.
#[verifier::spinoff_prover]
#[verifier::rlimit(40)]
pub proof fn law_string_round_trip(x: BidUint128, mode: u32, old: u32)
    requires
        !is_special(x),
        !is_steered(x),
        raw_coeff(x) < ten34(),
        mode <= 4,
    ensures
        from_string_ok(char_bytes(to_string_spec(x)), mode),
        from_string_result(char_bytes(to_string_spec(x)), mode, old) == (x, 0u32),
{
    crate::laws::lemma_canonical(x);
    crate::model::lemma_ten34();
    let t = to_string_spec(x);
    let b = char_bytes(t);
    let neg = x.w[1] & MASK_SIGN != 0;
    let sgn = if neg { '-' } else { '+' };
    let e = exp_field(x) - 6176;
    let v = abs(e);
    let esgn = if e < 0 { '-' } else { '+' };
    let c = coeff(x);
    lemma_exp_text(v);
    let xd = dec_digits(v);
    let m = xd.len();
    assert(c == raw_coeff(x));
    assert((x.w[1] & MASK_COEFF == 0 && x.w[0] == 0) == (c == 0));
    assert forall|i: int| #![trigger at(b, i)] 0 <= i < t.len() implies at(b, i) == t[i] as u8 by {
        lemma_at_bytes(t, i);
    }
    let ee: int = if e < 0 { -v } else { v as int };
    assert(ee == e);
    assert(sign_of(neg) == x.w[1] & MASK_SIGN) by {
        let w1 = x.w[1];
        assert(w1 & 0x8000000000000000u64 == 0 || w1 & 0x8000000000000000u64 == 0x8000000000000000u64) by (bit_vector);
    }
    if c == 0 {
        assert(t == seq![sgn, '0', 'E', esgn] + xd);
        assert(b.len() == 4 + m);
        assert forall|j: int| 0 <= j < m implies at(b, 2 + 2 + j) == #[trigger] xd[j] as u8 by {
            assert(t[4 + j] == xd[j]);
        }
        lemma_read_zero(b, neg, v, e < 0, mode, old);
    } else {
        let d = dec_digits(c);
        let l = d.len();
        assert(t == seq![sgn] + d + seq!['E', esgn] + xd);
        assert forall|j: int| 0 <= j < l implies at(b, 1 + j) == #[trigger] d[j] as u8 by {
            assert(t[1 + j] == d[j]);
        }
        assert forall|j: int| 0 <= j < m implies at(b, (1 + l as int) + 2 + j) == #[trigger] xd[j] as u8 by {
            assert(t[3 + l + j] == xd[j]);
        }
        lemma_read_number(b, neg, c, v, e < 0, mode, old);
    }
    assert(is_neg(x) == neg);
}

/// The string form of any encoding starts with its sign: `-` exactly
/// when the sign bit is set, `+` otherwise.
pub proof fn law_to_string_sign(x: BidUint128)
    ensures
        to_string_spec(x).len() >= 4,
        to_string_spec(x)[0] == if is_neg(x) { '-' } else { '+' },
{
}

/// Writing an infinity as a string and reading the string back, in any
/// rounding mode, gives the infinity of the same sign and raises no flag.
pub proof fn law_string_round_trip_infinite(x: BidUint128, mode: u32, old: u32)
    requires
        is_inf(x),
    ensures
        from_string_ok(char_bytes(to_string_spec(x)), mode),
        from_string_result(char_bytes(to_string_spec(x)), mode, old) == (infinity(is_neg(x)), 0u32),
{
    lemma_classes(x);
    let t = to_string_spec(x);
    let b = char_bytes(t);
    let sgn = if is_neg(x) { '-' } else { '+' };
    assert(t == seq![sgn, 'I', 'n', 'f']);
    assert forall|i: int| #![trigger at(b, i)] 0 <= i < 4 implies at(b, i) == t[i] as u8 by {
        lemma_at_bytes(t, i);
    }
    lemma_at_bytes(t, 4);
    assert(at(b, 0) == if is_neg(x) { 45u8 } else { 43u8 });
    assert(at(b, 1) == 73u8 && at(b, 2) == 110u8 && at(b, 3) == 102u8 && at(b, 4) == 0u8);
    assert(skip_ws(b, 0) == 0);
    assert(lower(at(b, 1)) == 105);
    assert(crate::from_string::is_inf_word(b, 1));
    assert(infinity(is_neg(x)).w[1] == if is_neg(x) { 0xf800000000000000u64 } else { 0x7800000000000000u64 });
    assert(infinity(is_neg(x)).w =~= (if is_neg(x) { BidUint128 { w: [0, 0xf800000000000000] } } else { BidUint128 { w: [0, 0x7800000000000000] } }).w);
}

/// Writing a NaN as a string and reading the string back, in any
/// rounding mode, gives the NaN of the same sign and kind (quiet or
/// signaling), with an empty payload, and raises no flag.
pub proof fn law_string_round_trip_nan(x: BidUint128, mode: u32, old: u32)
    requires
        is_nan(x),
    ensures
        from_string_ok(char_bytes(to_string_spec(x)), mode),
        from_string_result(char_bytes(to_string_spec(x)), mode, old) == (BidUint128 {
            w: [0, (sign_of(is_neg(x)) + if is_snan(x) { 0x7e00000000000000u64 } else { 0x7c00000000000000u64 }) as u64],
        }, 0u32),
{
    lemma_classes(x);
    let t = to_string_spec(x);
    let b = char_bytes(t);
    let sgn = if is_neg(x) { '-' } else { '+' };
    let l: int = if is_snan(x) { 5 } else { 4 };
    if is_snan(x) {
        assert(t == seq![sgn, 'S', 'N', 'a', 'N']);
    } else {
        assert(t == seq![sgn, 'N', 'a', 'N']);
    }
    assert forall|i: int| #![trigger at(b, i)] 0 <= i < l implies at(b, i) == t[i] as u8 by {
        lemma_at_bytes(t, i);
    }
    lemma_at_bytes(t, l);
    lemma_at_bytes(t, l + 1);
    lemma_at_bytes(t, l + 2);
    lemma_at_bytes(t, l + 3);
    lemma_at_bytes(t, l + 4);
    assert(at(b, 0) == if is_neg(x) { 45u8 } else { 43u8 });
    assert(skip_ws(b, 0) == 0);
    assert(!crate::from_string::is_inf_word(b, 1));
    if is_snan(x) {
        assert(lower(at(b, 1)) == 115 && lower(at(b, 2)) == 110 && lower(at(b, 3)) == 97 && lower(at(b, 4)) == 110);
        assert(crate::from_string::is_snan_word(b, 1));
    } else {
        assert(lower(at(b, 1)) == 110 && lower(at(b, 2)) == 97 && lower(at(b, 3)) == 110);
        assert(!crate::from_string::is_snan_word(b, 1));
        assert(crate::from_string::is_nan_word(b, 1));
    }
}

} // verus!
