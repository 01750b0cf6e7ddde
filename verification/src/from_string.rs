//! Reading a decimal128 value from a character string.
//!
//! The characters are taken one byte each (the low byte of each code
//! point), and a zero byte, or the end, stops the scan.

use vstd::prelude::*;
use vstd::string::*;
use crate::math::{pow10, lemma_pow10_pos};
use crate::types::BidUint128;
use crate::consts::MASK_SIGN;
use crate::model::{encode, ten34, ten33, lemma_ten34};
use crate::internal::{get_bid128_result, bid_get_bid128, lemma_or_zero, words};

verus! {

/// The byte at position `i`, or zero past the end.
pub open spec fn at(s: Seq<u8>, i: int) -> u8 {
    if 0 <= i < s.len() { s[i] } else { 0 }
}

/// ASCII lower case.
pub open spec fn lower(c: u8) -> u8 {
    if 65 <= c <= 90 { (c + 32) as u8 } else { c }
}

/// An ASCII decimal digit.
pub open spec fn is_dig(c: u8) -> bool {
    48 <= c <= 57
}

/// The first position from `p` on that holds neither a blank nor a tab.
pub open spec fn skip_ws(s: Seq<u8>, p: int) -> int
    decreases s.len() + 1 - p,
{
    if 0 <= p < s.len() && (s[p] == 32 || s[p] == 9) { skip_ws(s, p + 1) } else { p }
}

/// The first position from `p` on that does not hold the digit zero.
pub open spec fn skip_zeros(s: Seq<u8>, p: int) -> int
    decreases s.len() + 1 - p,
{
    if 0 <= p < s.len() && s[p] == 48 { skip_zeros(s, p + 1) } else { p }
}

/// The number of digits from position `p` on.
pub open spec fn count_digits(s: Seq<u8>, p: int) -> nat
    decreases s.len() + 1 - p,
{
    if 0 <= p < s.len() && is_dig(s[p]) { 1 + count_digits(s, p + 1) } else { 0 }
}

/// `inf` or `infinity`, in any case, followed by the end, at `q`.
pub open spec fn is_inf_word(s: Seq<u8>, q: int) -> bool {
    lower(at(s, q)) == 105 && lower(at(s, q + 1)) == 110 && lower(at(s, q + 2)) == 102 && (at(s, q + 3) == 0 || (
    lower(at(s, q + 3)) == 105 && lower(at(s, q + 4)) == 110 && lower(at(s, q + 5)) == 105 && lower(at(s, q + 6))
        == 116 && lower(at(s, q + 7)) == 121 && at(s, q + 8) == 0))
}

/// `snan`, in any case, at `q`.
pub open spec fn is_snan_word(s: Seq<u8>, q: int) -> bool {
    lower(at(s, q)) == 115 && lower(at(s, q + 1)) == 110 && lower(at(s, q + 2)) == 97 && lower(at(s, q + 3)) == 110
}

/// `nan`, in any case, at `q`.
pub open spec fn is_nan_word(s: Seq<u8>, q: int) -> bool {
    lower(at(s, q)) == 110 && lower(at(s, q + 1)) == 97 && lower(at(s, q + 2)) == 110
}

/// The outcome of reading leading zeros at `p`, told by the first
/// component: a zero value with the given number of zeros after the radix
/// point (tag 0), a malformed number (tag 1), or the position of the first
/// significant character, whether a radix point was met, and the zeros
/// after it (tag 2).
pub open spec fn zero_scan(s: Seq<u8>, p: int, rdx: bool, z: nat) -> (u8, int, bool, nat)
    decreases s.len() + 1 - p,
{
    if !(0 <= p < s.len()) {
        (2, p, rdx, z)
    } else {
        let p1 = p + 1;
        let z1: nat = if rdx { z + 1 } else { z };
        if at(s, p1) == 46 {
            if !rdx {
                if at(s, p1 + 1) == 0 {
                    (0, p1, true, z1)
                } else if at(s, p1 + 1) == 48 {
                    zero_scan(s, p1 + 1, true, z1)
                } else {
                    (2, p1 + 1, true, z1)
                }
            } else {
                (1, p1, rdx, z1)
            }
        } else if at(s, p1) == 0 {
            (0, p1, rdx, if z1 > 6176 { 6176 } else { z1 })
        } else if at(s, p1) == 48 {
            zero_scan(s, p1, rdx, z1)
        } else {
            (2, p1, rdx, z1)
        }
    }
}

/// The value of up to seven exponent digits from `p` on, after `acc` read
/// with `i` digits.
pub open spec fn exp_acc(s: Seq<u8>, p: int, acc: int, i: int) -> int
    decreases 7 - i,
{
    if i < 7 && is_dig(at(s, p)) { exp_acc(s, p + 1, acc * 10 + (at(s, p) - 48), i + 1) } else { acc }
}

/// The `k`-th significant digit character: `nb` digits at `pb`, then
/// digits at `pa`.
pub open spec fn dig(s: Seq<u8>, pb: int, nb: nat, pa: int, k: int) -> u8 {
    if k < nb { at(s, pb + k) } else { at(s, pa + k - nb) }
}

/// The number that the first `k` significant digits spell.
pub open spec fn dval(s: Seq<u8>, pb: int, nb: nat, pa: int, k: nat) -> nat
    decreases k,
{
    if k == 0 { 0 } else { dval(s, pb, nb, pa, (k - 1) as nat) * 10 + (dig(s, pb, nb, pa, k - 1) - 48) as nat }
}

/// Whether a significant digit from index `i` up to `n` is not zero.
pub open spec fn any_nonzero(s: Seq<u8>, pb: int, nb: nat, pa: int, i: int, n: int) -> bool
    decreases n - i,
{
    if i < n { dig(s, pb, nb, pa, i) > 48 || any_nonzero(s, pb, nb, pa, i + 1, n) } else { false }
}

/// The mantissa of a number whose first significant character is at `p`:
/// where its digits before and after the radix point start, how many
/// there are, and where the exponent part starts.
pub open spec fn mantissa(s: Seq<u8>, p: int, rdx: bool) -> (int, nat, int, nat, int) {
    if !rdx {
        let nb = count_digits(s, p);
        let q = p + nb;
        if at(s, q) == 46 {
            let na = count_digits(s, q + 1);
            (p, nb, q + 1, na, q + 1 + na)
        } else {
            (p, nb, q, 0, q)
        }
    } else {
        let na = count_digits(s, p);
        (p, 0, p, na, p + na)
    }
}

/// The sign word of a flag.
pub open spec fn sign_of(neg: bool) -> u64 {
    if neg { 0x8000000000000000 } else { 0 }
}

/// The encoding of a quiet NaN with a sign.
pub open spec fn nan_of(neg: bool) -> BidUint128 {
    BidUint128 { w: [0, (0x7c00000000000000 + sign_of(neg)) as u64] }
}

/// The rounding increment for more than 34 significant digits, in mode
/// `mode`, given the exponent `e` of the 34 kept digits and the parity of
/// the last of them.
pub open spec fn long_carry(s: Seq<u8>, pb: int, nb: nat, pa: int, n: nat, mode: u32, neg: bool, e: int, odd: bool) -> bool {
    let d34 = dig(s, pb, nb, pa, 34);
    if mode == 0 {
        if e < 0 {
            any_nonzero(s, pb, nb, pa, 34, n as int)
        } else if d34 == 53 && !odd {
            any_nonzero(s, pb, nb, pa, 35, n as int)
        } else {
            d34 >= 53
        }
    } else if mode == 1 {
        neg && any_nonzero(s, pb, nb, pa, 34, n as int)
    } else if mode == 2 {
        !neg && any_nonzero(s, pb, nb, pa, 34, n as int)
    } else if mode == 4 {
        if e < 0 { any_nonzero(s, pb, nb, pa, 34, n as int) } else { d34 >= 53 }
    } else {
        false
    }
}

/// The count of zeros between the radix point and the first significant
/// digit as the reader uses it in the exponent: truncated to a signed
/// 32-bit integer.
pub open spec fn zeros32(z: nat) -> int {
    (z as i32) as int
}

/// Whether a value fits a signed 32-bit integer.
pub open spec fn fits_i32(v: int) -> bool {
    -0x8000_0000 <= v <= 0x7fff_ffff
}

/// For more than 34 significant digits: the exponent and the coefficient
/// handed to packing, the first 34 digits rounded by the rounding mode
/// (scaled by ten for an exponent just below zero).
pub open spec fn long_packing(s: Seq<u8>, neg: bool, m: (int, nat, int, nat, int), z: nat, dexp: int, mode: u32) -> (int, nat) {
    let (pb, nb, pa, na, pe) = m;
    let n = nb + na;
    let e = dexp + nb + 6176 - 34 - zeros32(z);
    let c = dval(s, pb, nb, pa, 34);
    let odd = c % 2 == 1;
    let carry0 = long_carry(s, pb, nb, pa, n, mode, neg, e, odd);
    let scaled = e < 0 && e > -34;
    let e2 = if scaled { e - 1 } else { e };
    let carry = if e2 == -34 && dval(s, pb, nb, pa, 17) > 50000000000000000 { false } else { carry0 };
    let cx = (if scaled { 10 * c } else { c }) + if carry { 1nat } else { 0nat };
    (e2, cx)
}

/// The result and the status flags for a number with sign `neg`, decimal
/// exponent `dexp` and the given mantissa, with `z` zeros between the
/// radix point and the first significant digit.
pub open spec fn number_result(s: Seq<u8>, neg: bool, m: (int, nat, int, nat, int), z: nat, dexp: int, mode: u32, old: u32) -> (BidUint128, u32) {
    let (pb, nb, pa, na, pe) = m;
    let n = nb + na;
    if n <= 34 {
        get_bid128_result(sign_of(neg), dexp + 6176 - na - zeros32(z), dval(s, pb, nb, pa, n), mode, old)
    } else {
        let (e2, cx) = long_packing(s, neg, m, z, dexp, mode);
        let old2 = old | if any_nonzero(s, pb, nb, pa, 34, n as int) { 0x20u32 } else { 0u32 };
        let r = get_bid128_result(sign_of(neg), e2, cx, mode, old2);
        (r.0, (if any_nonzero(s, pb, nb, pa, 34, n as int) { 0x20u32 } else { 0u32 }) | r.1)
    }
}

/// The result and flags after the sign, from the first significant
/// character at `p` and the leading zeros read.
pub open spec fn after_zeros(s: Seq<u8>, neg: bool, p: int, rdx: bool, z: nat, mode: u32, old: u32) -> (BidUint128, u32) {
    let m = mantissa(s, p, rdx);
    let pe = m.4;
    let c = at(s, pe);
    if c == 0 {
        number_result(s, neg, m, z, 0, mode, old)
    } else if c != 101 && c != 69 {
        (nan_of(false), 0u32)
    } else {
        let c2 = at(s, pe + 1);
        if c2 > 57 {
            (nan_of(false), 0u32)
        } else {
            let pe2 = if c2 == 45 || c2 == 43 { pe + 2 } else { pe + 1 };
            if at(s, pe2) < 48 {
                (nan_of(false), 0u32)
            } else {
                let e0 = at(s, pe2) - 48;
                let p4 = if e0 == 0 { skip_zeros(s, pe2 + 1) } else { pe2 + 1 };
                let v = exp_acc(s, p4, e0, 1);
                number_result(s, neg, m, z, if c2 == 45 { -v } else { v }, mode, old)
            }
        }
    }
}

/// The result and flags of a number (with an optional sign) at `p`.
pub open spec fn numeric_result(s: Seq<u8>, p: int, mode: u32, old: u32) -> (BidUint128, u32) {
    let c = at(s, p);
    let neg = c == 45;
    let p1 = if c == 45 || c == 43 { p + 1 } else { p };
    let c1 = at(s, p1);
    if c1 != 46 && !is_dig(c1) {
        (nan_of(neg), 0u32)
    } else {
        let rdx = c1 == 46;
        let p2 = if rdx { p1 + 1 } else { p1 };
        if at(s, p2) == 48 {
            let (k, p3, rdx3, z3) = zero_scan(s, p2, rdx, 0);
            if k == 0 {
                (encode(neg, 0, (6176 - z3) as nat), 0u32)
            } else if k == 1 {
                (nan_of(neg), 0u32)
            } else {
                after_zeros(s, neg, p3, rdx3, z3, mode, old)
            }
        } else {
            after_zeros(s, neg, p2, rdx, 0, mode, old)
        }
    }
}

/// The result and the status flags of reading the bytes `s` in rounding
/// mode `mode`, given the incoming flags `old`.
///
/// Leading blanks and tabs are skipped. `inf`, `infinity`, `nan` and
/// `snan` in any case, signed or not, give the special values; a number
/// is digits with at most one radix point, then optionally `e` or `E`, an
/// optional sign and up to seven exponent digits (characters after them
/// are not looked at). Up to 34 significant digits are exact before
/// packing; more are rounded by the rounding mode, every digit taking
/// part however many there are. Anything else, such as an exponent
/// marker or sign with no digit after it, is a NaN.
pub open spec fn from_string_result(s: Seq<u8>, mode: u32, old: u32) -> (BidUint128, u32) {
    if s.len() == 0 {
        (nan_of(false), 0u32)
    } else {
        let p = skip_ws(s, 0);
        let c = at(s, p);
        if c == 0 || (c != 46 && c != 45 && c != 43 && !is_dig(c)) {
            if is_inf_word(s, p) {
                (BidUint128 { w: [0, 0x7800000000000000] }, 0u32)
            } else if is_snan_word(s, 0) {
                (BidUint128 { w: [0, 0x7e00000000000000] }, 0u32)
            } else {
                (nan_of(false), 0u32)
            }
        } else if is_inf_word(s, p + 1) {
            if c == 43 {
                (BidUint128 { w: [0, 0x7800000000000000] }, 0u32)
            } else if c == 45 {
                (BidUint128 { w: [0, 0xf800000000000000] }, 0u32)
            } else {
                (nan_of(false), 0u32)
            }
        } else if is_snan_word(s, p + 1) {
            (BidUint128 { w: [0, (0x7e00000000000000 + sign_of(c == 45)) as u64] }, 0u32)
        } else if is_nan_word(s, p + 1) {
            (nan_of(c == 45), 0u32)
        } else {
            numeric_result(s, p, mode, old)
        }
    }
}

/// The one-byte form of each character: the low byte of its code point.
pub open spec fn char_bytes(s: Seq<char>) -> Seq<u8> {
    s.map_values(|c: char| c as u8)
}

/// Whether reading a number with the mantissa `m` and exponent `dexp` is
/// defined: the reader's 32-bit counts and exponent sums stay in range
/// (`counts_fit`), including the increment of the exponent when rounding
/// carries the coefficient to `10^34`.
pub open spec fn number_ok(s: Seq<u8>, neg: bool, m: (int, nat, int, nat, int), z: nat, dexp: int, mode: u32) -> bool {
    let (pb, nb, pa, na, pe) = m;
    let n = nb + na;
    &&& counts_fit(nb, na, z, dexp)
    &&& (n > 34 ==> {
        let (e2, cx) = long_packing(s, neg, m, z, dexp, mode);
        cx == ten34() ==> e2 < 0x7fff_ffff
    })
}

/// Whether the reader's signed 32-bit arithmetic stays in range: the
/// count of significant digits, and the sums that form the exponent (from
/// the digits before the radix point, or after it, and the zeros counted
/// after it, as `zeros32` has them).
pub open spec fn counts_fit(nb: nat, na: nat, z: nat, dexp: int) -> bool {
    let n = nb + na;
    &&& n <= 0x7fff_ffff
    &&& if n <= 34 {
        &&& fits_i32(6176 - na - zeros32(z))
        &&& fits_i32(dexp + 6176 - na - zeros32(z))
    } else {
        &&& fits_i32(nb + 6176int)
        &&& fits_i32(nb + 6176 - 34 - zeros32(z))
        &&& fits_i32(dexp + nb + 6176 - 34 - zeros32(z))
    }
}

/// Whether the reading of what follows the leading zeros is defined: the
/// number must satisfy `number_ok`.
pub open spec fn after_zeros_ok(s: Seq<u8>, neg: bool, p: int, rdx: bool, z: nat, mode: u32) -> bool {
    let m = mantissa(s, p, rdx);
    let pe = m.4;
    let c = at(s, pe);
    if c == 0 {
        number_ok(s, neg, m, z, 0, mode)
    } else if c != 101 && c != 69 {
        true
    } else {
        let c2 = at(s, pe + 1);
        if c2 > 57 {
            true
        } else {
            let pe2 = if c2 == 45 || c2 == 43 { pe + 2 } else { pe + 1 };
            if at(s, pe2) < 48 {
                true
            } else {
                let e0 = at(s, pe2) - 48;
                let p4 = if e0 == 0 { skip_zeros(s, pe2 + 1) } else { pe2 + 1 };
                let v = exp_acc(s, p4, e0, 1);
                number_ok(s, neg, m, z, if c2 == 45 { -v } else { v }, mode)
            }
        }
    }
}

/// Whether reading the bytes `s` is defined (see `after_zeros_ok`);
/// `bid128_bytes_readable` tells it at run time.
pub open spec fn from_string_ok(s: Seq<u8>, mode: u32) -> bool {
    if s.len() == 0 {
        true
    } else {
        let p = skip_ws(s, 0);
        let c = at(s, p);
        if c == 0 || (c != 46 && c != 45 && c != 43 && !is_dig(c)) || is_inf_word(s, p + 1) || is_snan_word(s, p + 1)
            || is_nan_word(s, p + 1) {
            true
        } else {
            let neg = c == 45;
            let p1 = if c == 45 || c == 43 { p + 1 } else { p };
            let c1 = at(s, p1);
            if c1 != 46 && !is_dig(c1) {
                true
            } else {
                let rdx = c1 == 46;
                let p2 = if rdx { p1 + 1 } else { p1 };
                if at(s, p2) == 48 {
                    let (k, p3, rdx3, z3) = zero_scan(s, p2, rdx, 0);
                    k == 0 || k == 1 || after_zeros_ok(s, neg, p3, rdx3, z3, mode)
                } else {
                    after_zeros_ok(s, neg, p2, rdx, 0, mode)
                }
            }
        }
    }
}

/// The byte at position `i`, or zero past the end.
fn at_exec(s: &Vec<u8>, i: usize) -> (r: u8)
    ensures
        r == at(s@, i as int),
{
    if i < s.len() { s[i] } else { 0 }
}

/// ASCII lower case.
fn lower_exec(c: u8) -> (r: u8)
    ensures
        r == lower(c),
{
    if 65 <= c && c <= 90 { c + 32 } else { c }
}

/// The first position from `p` on that holds neither a blank nor a tab.
fn skip_ws_exec(s: &Vec<u8>, p: usize) -> (r: usize)
    requires
        p <= s.len(),
    ensures
        r == skip_ws(s@, p as int),
        r <= s.len(),
{
    let mut q: usize = p;
    while q < s.len() && (s[q] == 32 || s[q] == 9)
        invariant
            p <= q <= s.len(),
            skip_ws(s@, p as int) == skip_ws(s@, q as int),
        decreases s.len() - q,
    {
        q = q + 1;
    }
    q
}

/// The first position from `p` on that does not hold the digit zero.
fn skip_zeros_exec(s: &Vec<u8>, p: usize) -> (r: usize)
    requires
        p <= s.len() + 1,
    ensures
        r == skip_zeros(s@, p as int),
        p <= r <= s.len() + 1,
{
    let mut q: usize = p;
    while q < s.len() && s[q] == 48
        invariant
            p <= q <= s.len() + 1,
            skip_zeros(s@, p as int) == skip_zeros(s@, q as int),
        decreases s.len() + 1 - q,
    {
        q = q + 1;
    }
    q
}

/// The number of digits from position `p` on.
fn count_digits_exec(s: &Vec<u8>, p: usize) -> (r: usize)
    requires
        p <= s.len() + 1,
    ensures
        r == count_digits(s@, p as int),
        p + r <= s.len() + 1,
        r == 0 || p + r <= s.len(),
{
    let mut q: usize = p;
    while q < s.len() && 48 <= s[q] && s[q] <= 57
        invariant
            p <= q <= s.len() + 1,
            q > p ==> q <= s.len(),
            count_digits(s@, p as int) == (q - p) + count_digits(s@, q as int),
        decreases s.len() + 1 - q,
    {
        q = q + 1;
    }
    q - p
}

/// `inf` or `infinity` followed by the end, at `q`.
fn is_inf_word_exec(s: &Vec<u8>, q: usize) -> (r: bool)
    requires
        q <= s.len() + 1,
        s.len() <= isize::MAX,
    ensures
        r == is_inf_word(s@, q as int),
{
    lower_exec(at_exec(s, q)) == 105 && lower_exec(at_exec(s, q + 1)) == 110 && lower_exec(at_exec(s, q + 2)) == 102 && (
    at_exec(s, q + 3) == 0 || (lower_exec(at_exec(s, q + 3)) == 105 && lower_exec(at_exec(s, q + 4)) == 110
        && lower_exec(at_exec(s, q + 5)) == 105 && lower_exec(at_exec(s, q + 6)) == 116 && lower_exec(at_exec(s, q + 7))
        == 121 && at_exec(s, q + 8) == 0))
}

/// `snan` at `q`.
fn is_snan_word_exec(s: &Vec<u8>, q: usize) -> (r: bool)
    requires
        q <= s.len() + 1,
        s.len() <= isize::MAX,
    ensures
        r == is_snan_word(s@, q as int),
{
    lower_exec(at_exec(s, q)) == 115 && lower_exec(at_exec(s, q + 1)) == 110 && lower_exec(at_exec(s, q + 2)) == 97
        && lower_exec(at_exec(s, q + 3)) == 110
}

/// `nan` at `q`.
fn is_nan_word_exec(s: &Vec<u8>, q: usize) -> (r: bool)
    requires
        q <= s.len() + 1,
        s.len() <= isize::MAX,
    ensures
        r == is_nan_word(s@, q as int),
{
    lower_exec(at_exec(s, q)) == 110 && lower_exec(at_exec(s, q + 1)) == 97 && lower_exec(at_exec(s, q + 2)) == 110
}

/// Reads leading zeros at `p`, as `zero_scan` says.
fn zero_scan_exec(s: &Vec<u8>, p: usize, rdx: bool) -> (r: (u8, usize, bool, u64))
    requires
        p <= s.len(),
        s.len() <= isize::MAX,
    ensures
        (r.0, r.1 as int, r.2, r.3 as nat) == zero_scan(s@, p as int, rdx, 0),
        r.1 <= s.len() + 1,
        r.3 <= s.len() + 1,
{
    let mut q: usize = p;
    let mut d: bool = rdx;
    let mut z: u64 = 0;
    loop
        invariant
            p <= q <= s.len(),
            z <= q,
            zero_scan(s@, p as int, rdx, 0) == zero_scan(s@, q as int, d, z as nat),
            s.len() <= isize::MAX,
        decreases s.len() - q,
    {
        if q >= s.len() {
            return (2, q, d, z);
        }
        let q1 = q + 1;
        let z1: u64 = if d { z + 1 } else { z };
        let c1 = at_exec(s, q1);
        if c1 == 46 {
            if !d {
                let c2 = at_exec(s, q1 + 1);
                if c2 == 0 {
                    return (0, q1, true, z1);
                } else if c2 == 48 {
                    q = q1 + 1;
                    d = true;
                    z = z1;
                } else {
                    return (2, q1 + 1, true, z1);
                }
            } else {
                return (1, q1, d, z1);
            }
        } else if c1 == 0 {
            return (0, q1, d, if z1 > 6176 { 6176 } else { z1 });
        } else if c1 == 48 {
            q = q1;
            z = z1;
        } else {
            return (2, q1, d, z1);
        }
    }
}

/// Up to seven exponent digits from `p` on, as `exp_acc` says.
fn exp_acc_exec(s: &Vec<u8>, p: usize, acc: i64) -> (r: i64)
    requires
        p <= s.len() + 1,
        0 <= acc <= 255,
        s.len() <= isize::MAX,
    ensures
        r == exp_acc(s@, p as int, acc as int, 1),
        0 <= r <= 300_000_000,
{
    let mut q: usize = p;
    let mut a: i64 = acc;
    let mut i: i64 = 1;
    while i < 7 && is_dig_exec(at_exec(s, q))
        invariant
            1 <= i <= 7,
            p <= q <= s.len() + 1,
            q - p == i - 1,
            0 <= a < 256 * pow10((i - 1) as nat),
            exp_acc(s@, p as int, acc as int, 1) == exp_acc(s@, q as int, a as int, i as int),
            s.len() <= isize::MAX,
        decreases 7 - i,
    {
        proof {
            reveal_with_fuel(pow10, 8);
        }
        let d = at_exec(s, q);
        a = a * 10 + (d - 48) as i64;
        q = q + 1;
        i = i + 1;
    }
    proof {
        reveal_with_fuel(pow10, 8);
    }
    a
}

/// An ASCII decimal digit.
fn is_dig_exec(c: u8) -> (r: bool)
    ensures
        r == is_dig(c),
{
    48 <= c && c <= 57
}

/// A zero read from leading zeros has at most 6176 zeros after the radix
/// point.
proof fn lemma_zero_scan_clamped(s: Seq<u8>, p: int, rdx: bool, z: nat)
    requires
        !rdx ==> z == 0,
    ensures
        zero_scan(s, p, rdx, z).0 == 0 ==> zero_scan(s, p, rdx, z).3 <= 6176,
    decreases s.len() + 1 - p,
{
    if 0 <= p < s.len() {
        let z1: nat = if rdx { z + 1 } else { z };
        if at(s, p + 1) == 46 && !rdx && at(s, p + 1 + 1) == 48 {
            lemma_zero_scan_clamped(s, p + 2, true, z1);
        } else if at(s, p + 1) == 48 {
            lemma_zero_scan_clamped(s, p + 1, rdx, z1);
        }
    }
}

/// Inside a run of `count_digits(s, p)` digits, every byte is a digit.
proof fn lemma_count_digits(s: Seq<u8>, p: int, j: int)
    requires
        0 <= j < count_digits(s, p),
    ensures
        is_dig(at(s, p + j)),
        p + j < s.len(),
        0 <= p + j,
    decreases j,
{
    if j > 0 {
        lemma_count_digits(s, p + 1, j - 1);
    }
}

/// The `k`-th significant digit character.
fn dig_exec(s: &Vec<u8>, pb: usize, nb: usize, pa: usize, k: usize) -> (r: u8)
    requires
        pb + nb <= s.len() + 1,
        pa + k <= s.len() + 1 + nb,
        s.len() <= isize::MAX,
    ensures
        r == dig(s@, pb as int, nb as nat, pa as int, k as int),
{
    if k < nb { at_exec(s, pb + k) } else { at_exec(s, pa + (k - nb)) }
}

/// The number that the first `k <= 34` significant digits spell.
fn dval_exec(s: &Vec<u8>, pb: usize, nb: usize, pa: usize, na: usize, k: usize) -> (r: u128)
    requires
        nb <= count_digits(s@, pb as int),
        na <= count_digits(s@, pa as int),
        pb + nb <= s.len() + 1,
        pa + na <= s.len() + 1,
        k <= 34,
        k <= nb + na,
        s.len() <= isize::MAX,
    ensures
        r == dval(s@, pb as int, nb as nat, pa as int, k as nat),
        r < pow10(k as nat),
{
    let mut v: u128 = 0;
    let mut j: usize = 0;
    proof {
        lemma_ten34();
    }
    while j < k
        invariant
            j <= k <= 34,
            k <= nb + na,
            nb <= count_digits(s@, pb as int),
            na <= count_digits(s@, pa as int),
            pb + nb <= s.len() + 1,
            pa + na <= s.len() + 1,
            s.len() <= isize::MAX,
            v == dval(s@, pb as int, nb as nat, pa as int, j as nat),
            v < pow10(j as nat),
        decreases k - j,
    {
        let d = dig_exec(s, pb, nb, pa, j);
        proof {
            if j < nb {
                lemma_count_digits(s@, pb as int, j as int);
            } else {
                lemma_count_digits(s@, pa as int, j - nb);
            }
            crate::math::lemma_pow10_mono(j as nat, 33);
            lemma_ten34();
            reveal_with_fuel(pow10, 2);
            assert(pow10((j + 1) as nat) == 10 * pow10(j as nat));
        }
        v = v * 10 + (d - 48) as u128;
        j = j + 1;
    }
    v
}

/// Whether a significant digit from index `i` up to `n` is not zero.
fn any_nonzero_exec(s: &Vec<u8>, pb: usize, nb: usize, pa: usize, i: usize, n: usize) -> (r: bool)
    requires
        pb + nb <= s.len() + 1,
        pa + n <= s.len() + 1 + nb,
        s.len() <= isize::MAX,
    ensures
        r == any_nonzero(s@, pb as int, nb as nat, pa as int, i as int, n as int),
{
    let mut j: usize = i;
    while j < n
        invariant
            i <= j || n <= j,
            pb + nb <= s.len() + 1,
            pa + n <= s.len() + 1 + nb,
            s.len() <= isize::MAX,
            any_nonzero(s@, pb as int, nb as nat, pa as int, i as int, n as int) == any_nonzero(s@, pb as int, nb as nat, pa as int, j as int, n as int),
        decreases n - j,
    {
        if dig_exec(s, pb, nb, pa, j) > 48 {
            return true;
        }
        j = j + 1;
    }
    false
}

/// `(a | b) | c == a | (b | c)` for flag words.
proof fn lemma_or_assoc(a: u32, b: u32, c: u32)
    ensures
        (a | b) | c == a | (b | c),
{
    assert((a | b) | c == a | (b | c)) by (bit_vector);
}

/// For more than 34 significant digits: the exponent and the coefficient
/// that `long_packing` hands to packing.
fn long_packing_exec(s: &Vec<u8>, neg: bool, pb: usize, nb: usize, pa: usize, na: usize, pe: usize, z: u64, dexp: i64, mode: u32) -> (r: (i64, u128))
    requires
        nb <= count_digits(s@, pb as int),
        na <= count_digits(s@, pa as int),
        pb + nb <= s.len() + 1,
        pa + na <= s.len() + 1,
        -300_000_000 <= dexp <= 300_000_000,
        s.len() <= isize::MAX,
        nb + na > 34,
        counts_fit(nb as nat, na as nat, z as nat, dexp as int),
    ensures
        (r.0 as int, r.1 as nat) == long_packing(s@, neg, (pb as int, nb as nat, pa as int, na as nat, pe as int), z as nat, dexp as int, mode),
        fits_i32(r.0 as int),
        r.1 <= ten34() || (r.0 < 0 && r.1 < 10 * ten34()),
{
    proof {
        lemma_ten34();
    }
    let n: usize = nb + na;
    let zi: i32 = #[verifier::truncate] (z as i32);
    proof {
        assert(zi as int == zeros32(z as nat));
    }
    let e: i64 = dexp + nb as i64 + 6176 - 34 - zi as i64;
    let c: u128 = dval_exec(s, pb, nb, pa, na, 34);
    let high: u128 = dval_exec(s, pb, nb, pa, na, 17);
    let odd: bool = c % 2 == 1;
    let d34: u8 = dig_exec(s, pb, nb, pa, 34);
    let anz: bool = any_nonzero_exec(s, pb, nb, pa, 34, n);
    let carry0: bool = if mode == 0 {
        if e < 0 {
            anz
        } else if d34 == 53 && !odd {
            any_nonzero_exec(s, pb, nb, pa, 35, n)
        } else {
            d34 >= 53
        }
    } else if mode == 1 {
        neg && anz
    } else if mode == 2 {
        !neg && anz
    } else if mode == 4 {
        if e < 0 { anz } else { d34 >= 53 }
    } else {
        false
    };
    let scaled: bool = e < 0 && e > -34;
    let e2: i64 = if scaled { e - 1 } else { e };
    let carry: bool = if e2 == -34 && high > 50000000000000000 { false } else { carry0 };
    let cx: u128 = (if scaled { 10 * c } else { c }) + if carry { 1 } else { 0 };
    (e2, cx)
}

/// Reads a number with the given mantissa and exponent, as
/// `number_result` says.
fn number_exec(s: &Vec<u8>, neg: bool, pb: usize, nb: usize, pa: usize, na: usize, pe: usize, z: u64, dexp: i64, mode: u32, flags: &mut u32) -> (res: BidUint128)
    requires
        nb <= count_digits(s@, pb as int),
        na <= count_digits(s@, pa as int),
        pb + nb <= s.len() + 1,
        pa + na <= s.len() + 1,
        z <= s.len() + 1,
        -300_000_000 <= dexp <= 300_000_000,
        s.len() <= isize::MAX,
        mode <= 4,
        number_ok(s@, neg, (pb as int, nb as nat, pa as int, na as nat, pe as int), z as nat, dexp as int, mode),
    ensures
        res == number_result(s@, neg, (pb as int, nb as nat, pa as int, na as nat, pe as int), z as nat, dexp as int, mode, *old(flags)).0,
        *final(flags) == *old(flags) | number_result(s@, neg, (pb as int, nb as nat, pa as int, na as nat, pe as int), z as nat, dexp as int, mode, *old(flags)).1,
{
    proof {
        lemma_ten34();
    }
    let sign: u64 = if neg { MASK_SIGN } else { 0 };
    let n: usize = nb + na;
    let mut pres: BidUint128 = BidUint128 { w: [0, 0] };
    if n <= 34 {
        let zi: i32 = #[verifier::truncate] (z as i32);
        proof {
            assert(zi as int == zeros32(z as nat));
        }
        let c: u128 = dval_exec(s, pb, nb, pa, na, n);
        proof {
            crate::math::lemma_pow10_mono(n as nat, 34);
        }
        let e: i64 = dexp + 6176 - na as i64 - zi as i64;
        return bid_get_bid128(&mut pres, sign, e as i32, words(c), mode, flags);
    }
    let (e2, cx) = long_packing_exec(s, neg, pb, nb, pa, na, pe, z, dexp, mode);
    let anz: bool = any_nonzero_exec(s, pb, nb, pa, 34, n);
    let f0: u32 = if anz { 0x20 } else { 0 };
    let ghost old = *flags;
    *flags = *flags | f0;
    let r = bid_get_bid128(&mut pres, sign, e2 as i32, words(cx), mode, flags);
    proof {
        let r1 = get_bid128_result(sign, e2 as int, cx as nat, mode, old | f0).1;
        lemma_or_assoc(old, f0, r1);
    }
    r
}

/// Whether reading a number with the given mantissa and exponent is
/// defined, as `number_ok` says.
fn number_ok_exec(s: &Vec<u8>, neg: bool, pb: usize, nb: usize, pa: usize, na: usize, pe: usize, z: u64, dexp: i64, mode: u32) -> (r: bool)
    requires
        nb <= count_digits(s@, pb as int),
        na <= count_digits(s@, pa as int),
        pb + nb <= s.len() + 1,
        pa + na <= s.len() + 1,
        z <= s.len() + 1,
        -300_000_000 <= dexp <= 300_000_000,
        s.len() <= isize::MAX,
    ensures
        r == number_ok(s@, neg, (pb as int, nb as nat, pa as int, na as nat, pe as int), z as nat, dexp as int, mode),
{
    let zi: i32 = #[verifier::truncate] (z as i32);
    proof {
        assert(zi as int == zeros32(z as nat));
    }
    let nb2: i128 = nb as i128;
    let na2: i128 = na as i128;
    let n2: i128 = nb2 + na2;
    let d2: i128 = dexp as i128;
    let z2: i128 = zi as i128;
    let lo: i128 = -0x8000_0000;
    let hi: i128 = 0x7fff_ffff;
    if n2 > hi {
        return false;
    }
    if n2 <= 34 {
        let a: i128 = 6176 - na2 - z2;
        let b: i128 = d2 + 6176 - na2 - z2;
        return lo <= a && a <= hi && lo <= b && b <= hi;
    }
    let a: i128 = nb2 + 6176;
    let b: i128 = nb2 + 6176 - 34 - z2;
    let c: i128 = d2 + nb2 + 6176 - 34 - z2;
    if !(lo <= a && a <= hi && lo <= b && b <= hi && lo <= c && c <= hi) {
        return false;
    }
    let (e2, cx) = long_packing_exec(s, neg, pb, nb, pa, na, pe, z, dexp, mode);
    proof {
        lemma_ten34();
    }
    cx != 10000000000000000000000000000000000u128 || e2 < 0x7fff_ffff
}

/// Reads what follows the leading zeros, as `after_zeros` says.
fn after_zeros_exec(s: &Vec<u8>, neg: bool, p: usize, rdx: bool, z: u64, mode: u32, flags: &mut u32) -> (res: BidUint128)
    requires
        p <= s.len() + 1,
        z <= s.len() + 1,
        s.len() <= isize::MAX,
        mode <= 4,
        after_zeros_ok(s@, neg, p as int, rdx, z as nat, mode),
    ensures
        res == after_zeros(s@, neg, p as int, rdx, z as nat, mode, *old(flags)).0,
        *final(flags) == *old(flags) | after_zeros(s@, neg, p as int, rdx, z as nat, mode, *old(flags)).1,
{
    proof {
        lemma_or_zero(*old(flags));
    }
    let nan: BidUint128 = BidUint128 { w: [0, 0x7c00000000000000u64] };
    let pb: usize = p;
    let nb: usize;
    let pa: usize;
    let na: usize;
    let pe: usize;
    if !rdx {
        nb = count_digits_exec(s, p);
        let q: usize = p + nb;
        if at_exec(s, q) == 46 {
            na = count_digits_exec(s, q + 1);
            pa = q + 1;
            pe = q + 1 + na;
        } else {
            na = 0;
            pa = q;
            pe = q;
        }
    } else {
        nb = 0;
        na = count_digits_exec(s, p);
        pa = p;
        pe = p + na;
    }
    let c: u8 = at_exec(s, pe);
    if c == 0 {
        return number_exec(s, neg, pb, nb, pa, na, pe, z, 0, mode, flags);
    } else if c != 101 && c != 69 {
        return nan;
    }
    let c2: u8 = at_exec(s, pe + 1);
    if c2 > 57 {
        return nan;
    }
    let pe2: usize = if c2 == 45 || c2 == 43 { pe + 2 } else { pe + 1 };
    if at_exec(s, pe2) < 48 {
        return nan;
    }
    let e0: u8 = at_exec(s, pe2) - 48;
    let p4: usize = if e0 == 0 { skip_zeros_exec(s, pe2 + 1) } else { pe2 + 1 };
    let v: i64 = exp_acc_exec(s, p4, e0 as i64);
    let dexp: i64 = if c2 == 45 { -v } else { v };
    number_exec(s, neg, pb, nb, pa, na, pe, z, dexp, mode, flags)
}

/// Whether reading what follows the leading zeros is defined, as
/// `after_zeros_ok` says.
fn after_zeros_ok_exec(s: &Vec<u8>, neg: bool, p: usize, rdx: bool, z: u64, mode: u32) -> (r: bool)
    requires
        p <= s.len() + 1,
        z <= s.len() + 1,
        s.len() <= isize::MAX,
    ensures
        r == after_zeros_ok(s@, neg, p as int, rdx, z as nat, mode),
{
    let pb: usize = p;
    let nb: usize;
    let pa: usize;
    let na: usize;
    let pe: usize;
    if !rdx {
        nb = count_digits_exec(s, p);
        let q: usize = p + nb;
        if at_exec(s, q) == 46 {
            na = count_digits_exec(s, q + 1);
            pa = q + 1;
            pe = q + 1 + na;
        } else {
            na = 0;
            pa = q;
            pe = q;
        }
    } else {
        nb = 0;
        na = count_digits_exec(s, p);
        pa = p;
        pe = p + na;
    }
    let c: u8 = at_exec(s, pe);
    if c == 0 {
        return number_ok_exec(s, neg, pb, nb, pa, na, pe, z, 0, mode);
    } else if c != 101 && c != 69 {
        return true;
    }
    let c2: u8 = at_exec(s, pe + 1);
    if c2 > 57 {
        return true;
    }
    let pe2: usize = if c2 == 45 || c2 == 43 { pe + 2 } else { pe + 1 };
    if at_exec(s, pe2) < 48 {
        return true;
    }
    let e0: u8 = at_exec(s, pe2) - 48;
    let p4: usize = if e0 == 0 { skip_zeros_exec(s, pe2 + 1) } else { pe2 + 1 };
    let v: i64 = exp_acc_exec(s, p4, e0 as i64);
    let dexp: i64 = if c2 == 45 { -v } else { v };
    number_ok_exec(s, neg, pb, nb, pa, na, pe, z, dexp, mode)
}

/// Whether `bid128_from_bytes` is defined on the bytes `s` in rounding
/// mode `mode`: it is unless the count of significant digits or the
/// exponent the reader forms leaves the signed 32-bit range.
pub fn bid128_bytes_readable(s: &Vec<u8>, mode: u32) -> (r: bool)
    requires
        s.len() <= isize::MAX,
    ensures
        r == from_string_ok(s@, mode),
{
    if s.len() == 0 {
        return true;
    }
    let p: usize = skip_ws_exec(s, 0);
    let c: u8 = at_exec(s, p);
    if c == 0 || (c != 46 && c != 45 && c != 43 && !is_dig_exec(c)) || is_inf_word_exec(s, p + 1) || is_snan_word_exec(s, p + 1)
        || is_nan_word_exec(s, p + 1) {
        return true;
    }
    let neg: bool = c == 45;
    let p1: usize = if c == 45 || c == 43 { p + 1 } else { p };
    let c1: u8 = at_exec(s, p1);
    if c1 != 46 && !is_dig_exec(c1) {
        return true;
    }
    let rdx: bool = c1 == 46;
    let p2: usize = if rdx { p1 + 1 } else { p1 };
    if at_exec(s, p2) == 48 {
        let (k, p3, rdx3, z3) = zero_scan_exec(s, p2, rdx);
        k == 0 || k == 1 || after_zeros_ok_exec(s, neg, p3, rdx3, z3, mode)
    } else {
        after_zeros_ok_exec(s, neg, p2, rdx, 0, mode)
    }
}

/// Reads a decimal128 value from the bytes `s` in rounding mode `mode`,
/// and raises the status flags of the conversion in `flags`. (No vector
/// of bytes holds more than `isize::MAX` of them, so the bound on its
/// length always holds.)
pub fn bid128_from_bytes(s: &Vec<u8>, mode: u32, flags: &mut u32) -> (res: BidUint128)
    requires
        s.len() <= isize::MAX,
        mode <= 4,
        from_string_ok(s@, mode),
    ensures
        res == from_string_result(s@, mode, *old(flags)).0,
        *final(flags) == *old(flags) | from_string_result(s@, mode, *old(flags)).1,
{
    proof {
        lemma_or_zero(*old(flags));
    }
    let nan: BidUint128 = BidUint128 { w: [0, 0x7c00000000000000u64] };
    if s.len() == 0 {
        return nan;
    }
    let p: usize = skip_ws_exec(s, 0);
    let c: u8 = at_exec(s, p);
    if c == 0 || (c != 46 && c != 45 && c != 43 && !is_dig_exec(c)) {
        if is_inf_word_exec(s, p) {
            return BidUint128 { w: [0, 0x7800000000000000u64] };
        } else if is_snan_word_exec(s, 0) {
            return BidUint128 { w: [0, 0x7e00000000000000u64] };
        } else {
            return nan;
        }
    }
    if is_inf_word_exec(s, p + 1) {
        if c == 43 {
            return BidUint128 { w: [0, 0x7800000000000000u64] };
        } else if c == 45 {
            return BidUint128 { w: [0, 0xf800000000000000u64] };
        } else {
            return nan;
        }
    }
    if is_snan_word_exec(s, p + 1) {
        return BidUint128 { w: [0, if c == 45 { 0xfe00000000000000u64 } else { 0x7e00000000000000u64 }] };
    }
    if is_nan_word_exec(s, p + 1) {
        return BidUint128 { w: [0, if c == 45 { 0xfc00000000000000u64 } else { 0x7c00000000000000u64 }] };
    }
    let neg: bool = c == 45;
    let p1: usize = if c == 45 || c == 43 { p + 1 } else { p };
    let c1: u8 = at_exec(s, p1);
    if c1 != 46 && !is_dig_exec(c1) {
        return BidUint128 { w: [0, if neg { 0xfc00000000000000u64 } else { 0x7c00000000000000u64 }] };
    }
    let rdx: bool = c1 == 46;
    let p2: usize = if rdx { p1 + 1 } else { p1 };
    if at_exec(s, p2) == 48 {
        let (k, p3, rdx3, z3) = zero_scan_exec(s, p2, rdx);
        if k == 0 {
            let sign: u64 = if neg { MASK_SIGN } else { 0 };
            proof {
                lemma_zero_scan_clamped(s@, p2 as int, rdx, 0);
            }
            let ez: u64 = 6176 - z3;
            let t: u64 = ez << 49u64;
            let w1: u64 = t | sign;
            proof {
                assert(w1 == sign + ez * 0x2000000000000u64) by (bit_vector)
                    requires
                        t == ez << 49u64,
                        ez <= 6176,
                        w1 == t | sign,
                        sign == 0 || sign == 0x8000000000000000u64,
                ;
            }
            return BidUint128 { w: [0, w1] };
        } else if k == 1 {
            return BidUint128 { w: [0, if neg { 0xfc00000000000000u64 } else { 0x7c00000000000000u64 }] };
        }
        return after_zeros_exec(s, neg, p3, rdx3, z3, mode, flags);
    }
    after_zeros_exec(s, neg, p2, rdx, 0, mode, flags)
}

/// The low byte of each character's code point.
fn str_bytes(input: &str) -> (v: Vec<u8>)
    ensures
        v@ == char_bytes(input@),
{
    let n: usize = input.unicode_len();
    let mut v: Vec<u8> = Vec::new();
    let mut i: usize = 0;
    while i < n
        invariant
            n == input@.len(),
            i <= n,
            v@ == char_bytes(input@.subrange(0, i as int)),
        decreases n - i,
    {
        let ch: char = input.get_char(i);
        v.push(ch as u8);
        proof {
            assert(input@.subrange(0, i + 1) =~= input@.subrange(0, i as int).push(ch));
        }
        i = i + 1;
    }
    proof {
        assert(input@.subrange(0, n as int) =~= input@);
    }
    v
}

/// Whether `bid128_from_string` is defined on `input` in rounding mode
/// `rounding` (see `bid128_bytes_readable`).
pub fn bid128_string_readable(input: &str, rounding: u32) -> (r: bool)
    requires
        input@.len() <= isize::MAX,
    ensures
        r == from_string_ok(char_bytes(input@), rounding),
{
    let v: Vec<u8> = str_bytes(input);
    bid128_bytes_readable(&v, rounding)
}

/// Reads a decimal128 value from `input` in rounding mode `rounding`, and
/// raises the status flags of the conversion in `flags`. Each character
/// is taken as the low byte of its code point. (No `str` holds more than
/// `isize::MAX` bytes, so the bound on its length always holds.)
pub fn bid128_from_string(input: &str, rounding: u32, flags: &mut u32) -> (res: BidUint128)
    requires
        input@.len() <= isize::MAX,
        rounding <= 4,
        from_string_ok(char_bytes(input@), rounding),
    ensures
        res == from_string_result(char_bytes(input@), rounding, *old(flags)).0,
        *final(flags) == *old(flags) | from_string_result(char_bytes(input@), rounding, *old(flags)).1,
{
    let v: Vec<u8> = str_bytes(input);
    bid128_from_bytes(&v, rounding, flags)
}

} // verus!
