//! Writing a decimal128 value as a character string.

use vstd::prelude::*;
use vstd::string::*;
use crate::types::BidUint128;
use crate::consts::{MASK_SIGN, MASK_SPECIAL, MASK_NAN, MASK_SNAN, MASK_COEFF};
use crate::model::{is_special, is_nan, is_snan, coeff, exp_field, ten34, lemma_ten34, lemma_classes};
use crate::unpack::unpack_finite;

verus! {

/// The character of digit `d` (for `d == 10`, the character after `'9'`).
pub open spec fn digit_char(d: nat) -> char {
    (48 + d) as char
}

/// The decimal digits of `n`, most significant first, without leading
/// zeros (zero is the single digit `0`).
pub open spec fn dec_digits(n: nat) -> Seq<char>
    decreases n,
{
    if n < 10 {
        seq![digit_char(n)]
    } else {
        dec_digits(n / 10).push(digit_char(n % 10))
    }
}

/// The digits of the exponent magnitude of a zero: from 1000 on, the last
/// four digits.
pub open spec fn zero_exp_digits(e: nat) -> Seq<char> {
    if e > 999 {
        seq![digit_char((e / 1000) % 10), digit_char((e / 100) % 10), digit_char((e / 10) % 10), digit_char(e % 10)]
    } else {
        dec_digits(e)
    }
}

/// The digits of the exponent magnitude of a nonzero value: from 1000 on,
/// the thousands as one character followed by three digits.
pub open spec fn exp_digits(e: nat) -> Seq<char> {
    if e / 1000 > 0 {
        seq![digit_char(e / 1000), digit_char((e / 100) % 10), digit_char((e / 10) % 10), digit_char(e % 10)]
    } else {
        dec_digits(e)
    }
}

/// The magnitude of an integer.
pub open spec fn abs(e: int) -> nat {
    if e < 0 { (-e) as nat } else { e as nat }
}

/// The string form of `x`: a sign, then `NaN`, `SNaN` or `Inf` for the
/// special values, or the coefficient's digits, `E`, and the signed
/// exponent.
pub open spec fn to_string_spec(x: BidUint128) -> Seq<char> {
    let sgn = if x.w[1] & MASK_SIGN != 0 { '-' } else { '+' };
    let e = exp_field(x) - 6176;
    let esgn = if e < 0 { '-' } else { '+' };
    if is_special(x) {
        if is_nan(x) {
            if is_snan(x) { seq![sgn, 'S', 'N', 'a', 'N'] } else { seq![sgn, 'N', 'a', 'N'] }
        } else {
            seq![sgn, 'I', 'n', 'f']
        }
    } else if x.w[1] & MASK_COEFF == 0 && x.w[0] == 0 {
        seq![sgn, '0', 'E', esgn] + zero_exp_digits(abs(e))
    } else {
        seq![sgn] + (if coeff(x) == 0 { seq!['0'] } else { dec_digits(coeff(x)) }) + seq!['E', esgn] + exp_digits(abs(e))
    }
}

/// Appends the character of digit `d`, `d <= 10`.
fn push_digit(s: &mut String, d: u64)
    requires
        d <= 10,
    ensures
        final(s)@ == old(s)@.push(digit_char(d as nat)),
{
    let t: &str = if d == 0 {
        proof { reveal_strlit("0"); }
        "0"
    } else if d == 1 {
        proof { reveal_strlit("1"); }
        "1"
    } else if d == 2 {
        proof { reveal_strlit("2"); }
        "2"
    } else if d == 3 {
        proof { reveal_strlit("3"); }
        "3"
    } else if d == 4 {
        proof { reveal_strlit("4"); }
        "4"
    } else if d == 5 {
        proof { reveal_strlit("5"); }
        "5"
    } else if d == 6 {
        proof { reveal_strlit("6"); }
        "6"
    } else if d == 7 {
        proof { reveal_strlit("7"); }
        "7"
    } else if d == 8 {
        proof { reveal_strlit("8"); }
        "8"
    } else if d == 9 {
        proof { reveal_strlit("9"); }
        "9"
    } else {
        proof { reveal_strlit(":"); }
        ":"
    };
    assert(t@ == seq![digit_char(d as nat)]);
    s.append(t);
}

/// Appends the decimal digits of `n`.
fn push_digits(s: &mut String, n: u128)
    ensures
        final(s)@ == old(s)@ + dec_digits(n as nat),
    decreases n,
{
    if n >= 10 {
        push_digits(s, n / 10);
    }
    push_digit(s, (n % 10) as u64);
    proof {
        if n >= 10 {
            assert(old(s)@ + dec_digits(n as nat) =~= old(s)@ + dec_digits((n / 10) as nat) + seq![digit_char((n % 10) as nat)]);
        } else {
            assert(n % 10 == n);
        }
    }
}

/// Appends a sign character.
fn push_sign(s: &mut String, neg: bool)
    ensures
        final(s)@ == old(s)@.push(if neg { '-' } else { '+' }),
{
    if neg {
        proof { reveal_strlit("-"); }
        s.append("-");
    } else {
        proof { reveal_strlit("+"); }
        s.append("+");
    }
}

/// Writes `x` as a string: a sign, then `NaN`, `SNaN` or `Inf` for the
/// special values, or the coefficient's decimal digits (`0` for zero and
/// for non-canonical coefficients), `E` and the signed exponent.
pub fn bid128_to_string(x: BidUint128) -> (r: String)
    ensures
        r@ == to_string_spec(x),
{
    proof {
        lemma_classes(x);
    }
    let w1: u64 = x.w[1];
    let neg: bool = (w1 & MASK_SIGN) != 0;
    let mut s: String = String::new();
    push_sign(&mut s, neg);
    if (w1 & MASK_SPECIAL) == MASK_SPECIAL {
        if (w1 & MASK_NAN) == MASK_NAN {
            if (w1 & MASK_SNAN) == MASK_SNAN {
                proof { reveal_strlit("SNaN"); }
                s.append("SNaN");
            } else {
                proof { reveal_strlit("NaN"); }
                s.append("NaN");
            }
        } else {
            proof { reveal_strlit("Inf"); }
            s.append("Inf");
        }
        return s;
    }
    let (_neg, f, c) = unpack_finite(x);
    let e: i64 = f as i64 - 6176;
    let ea: u64 = if e < 0 { (0 - e) as u64 } else { e as u64 };
    if (w1 & MASK_COEFF) == 0 && x.w[0] == 0 {
        proof { reveal_strlit("0E"); }
        s.append("0E");
        push_sign(&mut s, e < 0);
        if ea > 999 {
            push_digit(&mut s, (ea / 1000) % 10);
            push_digit(&mut s, (ea / 100) % 10);
            push_digit(&mut s, (ea / 10) % 10);
            push_digit(&mut s, ea % 10);
        } else {
            push_digits(&mut s, ea as u128);
        }
        assert(s@ =~= to_string_spec(x));
        return s;
    }
    let ghost s0 = s@;
    if c == 0 {
        push_digit(&mut s, 0);
    } else {
        push_digits(&mut s, c);
    }
    let ghost s1 = s@;
    proof { reveal_strlit("E"); }
    s.append("E");
    push_sign(&mut s, e < 0);
    let ghost s2 = s@;
    if ea / 1000 > 0 {
        push_digit(&mut s, ea / 1000);
        push_digit(&mut s, (ea / 100) % 10);
        push_digit(&mut s, (ea / 10) % 10);
        push_digit(&mut s, ea % 10);
    } else {
        push_digits(&mut s, ea as u128);
    }
    proof {
        assert(s1 =~= s0 + (if coeff(x) == 0 { seq!['0'] } else { dec_digits(coeff(x)) }));
        assert(s@ =~= to_string_spec(x));
    }
    s
}

} // verus!
