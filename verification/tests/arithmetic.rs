use decimus::add::bid128_add;
use decimus::div::bid128_div;
use decimus::fma::{bid128_ext_fma, bid128_fma, bid128_mul};
use decimus::from_int::bid128_from_int32;
use decimus::noncomp::bid128_is_zero;
use decimus::types::BidUint128;

const T33: u128 = 1_000_000_000_000_000_000_000_000_000_000_000;
const T34: u128 = 10_000_000_000_000_000_000_000_000_000_000_000;

fn enc(neg: bool, c: u128, bexp: u64) -> BidUint128 {
    let sign: u64 = if neg { 0x8000000000000000 } else { 0 };
    BidUint128 { w: [c as u64, sign | (bexp << 49) | ((c >> 64) as u64)] }
}

const QNAN: BidUint128 = BidUint128 { w: [0, 0x7c00000000000000] };
const SNAN: BidUint128 = BidUint128 { w: [0, 0x7e00000000000000] };
const PINF: BidUint128 = BidUint128 { w: [0, 0x7800000000000000] };
const NINF: BidUint128 = BidUint128 { w: [0, 0xf800000000000000] };

#[test]
fn test_from_int32() {
    assert_eq!(bid128_from_int32(5), BidUint128 { w: [5, 0x3040000000000000] });
    assert_eq!(bid128_from_int32(-7), BidUint128 { w: [7, 0xb040000000000000] });
    assert_eq!(bid128_from_int32(0), BidUint128 { w: [0, 0x3040000000000000] });
    assert_eq!(bid128_from_int32(i32::MIN), BidUint128 { w: [2147483648, 0xb040000000000000] });
}

#[test]
fn test_is_zero() {
    assert!(bid128_is_zero(enc(false, 0, 6176)));
    assert!(bid128_is_zero(enc(true, 0, 100)));
    assert!(!bid128_is_zero(enc(false, 1, 6176)));
    assert!(!bid128_is_zero(PINF));
    assert!(!bid128_is_zero(QNAN));
    // A coefficient of 10^34 is non-canonical and reads as zero.
    assert!(bid128_is_zero(enc(false, T34, 6176)));
}

#[test]
fn test_add_small() {
    let mut f: u32 = 0;
    assert_eq!(bid128_add(enc(false, 1, 6176), enc(false, 2, 6176), 0, &mut f), enc(false, 3, 6176));
    assert_eq!(f, 0);
    // 1 + 0.1 = 1.1 with the smaller exponent.
    assert_eq!(bid128_add(enc(false, 1, 6176), enc(false, 1, 6175), 0, &mut f), enc(false, 11, 6175));
    assert_eq!(f, 0);
}

#[test]
fn test_add_carry_exact() {
    let mut f: u32 = 0;
    // (10^34 - 1) + 1 = 10^34, exactly 10^33 * 10^1.
    assert_eq!(bid128_add(enc(false, T34 - 1, 6176), enc(false, 1, 6176), 0, &mut f), enc(false, T33, 6177));
    assert_eq!(f, 0);
}

#[test]
fn test_add_inexact_modes() {
    let x = enc(false, T34 - 1, 6176);
    let h = enc(false, 5, 6175);
    let mut f: u32 = 0;
    // ...9.5 ties to the even 10^34.
    assert_eq!(bid128_add(x, h, 0, &mut f), enc(false, T33, 6177));
    assert_eq!(f, 0x20);
    let mut f: u32 = 0;
    assert_eq!(bid128_add(x, h, 3, &mut f), enc(false, T34 - 1, 6176));
    assert_eq!(f, 0x20);
    let mut f: u32 = 0;
    assert_eq!(bid128_add(x, h, 1, &mut f), enc(false, T34 - 1, 6176));
    assert_eq!(f, 0x20);
    let mut f: u32 = 0;
    assert_eq!(bid128_add(x, h, 2, &mut f), enc(false, T33, 6177));
    assert_eq!(f, 0x20);
}

#[test]
fn test_add_overflow() {
    let max = enc(false, T34 - 1, 12287);
    let mut f: u32 = 0;
    assert_eq!(bid128_add(max, max, 0, &mut f), PINF);
    assert_eq!(f, 0x28);
    let mut f: u32 = 0;
    assert_eq!(bid128_add(max, max, 3, &mut f), max);
    assert_eq!(f, 0x28);
}

#[test]
fn test_add_cancellation() {
    let mut f: u32 = 0;
    assert_eq!(bid128_add(enc(false, 1, 6176), enc(true, 1, 6176), 0, &mut f), enc(false, 0, 6176));
    assert_eq!(bid128_add(enc(false, 1, 6176), enc(true, 1, 6176), 1, &mut f), enc(true, 0, 6176));
    assert_eq!(bid128_add(enc(true, 0, 6176), enc(true, 0, 6170), 0, &mut f), enc(true, 0, 6170));
    assert_eq!(f, 0);
}

#[test]
fn test_add_zero_preferred_exponent() {
    let mut f: u32 = 0;
    // 0E-3 + 5 = 5.000
    assert_eq!(bid128_add(enc(false, 0, 6173), enc(false, 5, 6176), 0, &mut f), enc(false, 5000, 6173));
    // 5 + 0E+3 = 5
    assert_eq!(bid128_add(enc(false, 5, 6176), enc(false, 0, 6179), 0, &mut f), enc(false, 5, 6176));
    assert_eq!(f, 0);
}

#[test]
fn test_add_special() {
    let mut f: u32 = 0;
    assert_eq!(bid128_add(QNAN, enc(false, 1, 6176), 0, &mut f), QNAN);
    assert_eq!(f, 0);
    assert_eq!(bid128_add(enc(false, 1, 6176), SNAN, 0, &mut f), QNAN);
    assert_eq!(f, 1);
    let mut f: u32 = 0;
    assert_eq!(bid128_add(PINF, NINF, 0, &mut f), QNAN);
    assert_eq!(f, 1);
    let mut f: u32 = 0;
    assert_eq!(bid128_add(PINF, enc(true, 3, 6176), 0, &mut f), PINF);
    assert_eq!(f, 0);
    // A payload of 10^33 or more is dropped.
    let big_payload = BidUint128 { w: [0x38c15b0a00000000, 0x7c00314dc6448d93] };
    assert_eq!(bid128_add(big_payload, PINF, 0, &mut f), QNAN);
}

#[test]
fn test_add_commutes() {
    let a = enc(false, 123456789, 6170);
    let b = enc(true, T34 - 7, 6180);
    for mode in 0..5u32 {
        let mut f1: u32 = 0;
        let mut f2: u32 = 0;
        assert_eq!(bid128_add(a, b, mode, &mut f1), bid128_add(b, a, mode, &mut f2));
        assert_eq!(f1, f2);
    }
}

#[test]
fn test_add_flags_accumulate() {
    let mut f: u32 = 0x01;
    bid128_add(enc(false, T34 - 1, 6176), enc(false, 5, 6175), 0, &mut f);
    assert_eq!(f, 0x21);
}

#[test]
fn test_mul() {
    let mut f: u32 = 0;
    assert_eq!(bid128_mul(enc(false, 2, 6176), enc(true, 3, 6176), 0, &mut f), enc(true, 6, 6176));
    assert_eq!(f, 0);
    // 10^17 * 10^17 = 10^34, exactly 10^33 * 10^1.
    let p17 = enc(false, 100_000_000_000_000_000, 6176);
    assert_eq!(bid128_mul(p17, p17, 0, &mut f), enc(false, T33, 6177));
    assert_eq!(f, 0);
    // A zero product keeps the sum of the exponents.
    assert_eq!(bid128_mul(enc(false, 0, 6170), enc(true, 9, 6179), 0, &mut f), enc(true, 0, 6173));
    let mut f: u32 = 0;
    assert_eq!(bid128_mul(PINF, enc(false, 0, 6176), 0, &mut f), QNAN);
    assert_eq!(f, 1);
}

#[test]
fn test_mul_one_and_commutes() {
    let x = enc(true, 987654321987654321, 6100);
    let one = enc(false, 1, 6176);
    let mut f: u32 = 0;
    assert_eq!(bid128_mul(x, one, 0, &mut f), x);
    assert_eq!(f, 0);
    let y = enc(false, T34 - 3, 6200);
    let mut f1: u32 = 0;
    let mut f2: u32 = 0;
    assert_eq!(bid128_mul(x, y, 4, &mut f1), bid128_mul(y, x, 4, &mut f2));
    assert_eq!(f1, f2);
}

#[test]
fn test_fma() {
    let mut f: u32 = 0;
    assert_eq!(bid128_fma(enc(false, 2, 6176), enc(false, 3, 6176), enc(false, 1, 6176), 0, &mut f), enc(false, 7, 6176));
    assert_eq!(f, 0);
    // 2 * 3 - 6 = +0, -0 when rounding down.
    assert_eq!(bid128_fma(enc(false, 2, 6176), enc(false, 3, 6176), enc(true, 6, 6176), 0, &mut f), enc(false, 0, 6176));
    assert_eq!(bid128_fma(enc(false, 2, 6176), enc(false, 3, 6176), enc(true, 6, 6176), 1, &mut f), enc(true, 0, 6176));
    assert_eq!(f, 0);
}

#[test]
fn test_ext_fma_indicators() {
    let m = enc(false, T34 - 1, 6176);
    let z = enc(false, 0, 6176);
    let (mut a, mut b, mut c, mut d) = (false, false, false, false);
    let mut f: u32 = 0;
    let r = bid128_ext_fma(&mut a, &mut b, &mut c, &mut d, m, m, z, 0, &mut f);
    assert_eq!(r, enc(false, T34 - 2, 6176 + 34));
    assert_eq!(f, 0x20);
    assert_eq!((a, b, c, d), (false, false, true, false));
    let (mut a, mut b, mut c, mut d) = (true, true, true, true);
    let mut f: u32 = 0;
    let r = bid128_ext_fma(&mut a, &mut b, &mut c, &mut d, enc(false, 2, 6176), enc(false, 3, 6176), z, 0, &mut f);
    assert_eq!(r, enc(false, 6, 6176));
    assert_eq!((a, b, c, d), (false, false, false, false));
}

#[test]
fn test_div() {
    let mut f: u32 = 0;
    assert_eq!(bid128_div(enc(false, 6, 6176), enc(false, 3, 6176), 0, &mut f), enc(false, 2, 6176));
    assert_eq!(f, 0);
    let third = "3333333333333333333333333333333333".parse::<u128>().unwrap();
    assert_eq!(bid128_div(enc(false, 1, 6176), enc(false, 3, 6176), 0, &mut f), enc(false, third, 6176 - 34));
    assert_eq!(f, 0x20);
    let mut f: u32 = 0;
    assert_eq!(bid128_div(enc(true, 2, 6176), enc(false, 3, 6176), 2, &mut f), enc(true, 2 * third, 6176 - 34));
    let mut f: u32 = 0;
    assert_eq!(bid128_div(enc(false, 1, 6176), enc(true, 0, 6176), 0, &mut f), NINF);
    assert_eq!(f, 4);
    let mut f: u32 = 0;
    assert_eq!(bid128_div(enc(false, 0, 6176), enc(false, 0, 6176), 0, &mut f), QNAN);
    assert_eq!(f, 1);
    let mut f: u32 = 0;
    assert_eq!(bid128_div(enc(false, 0, 6176), enc(false, 7, 6179), 0, &mut f), enc(false, 0, 6173));
    assert_eq!(f, 0);
    // 1 / 4 = 0.25, exact with trailing zeros removed.
    assert_eq!(bid128_div(enc(false, 1, 6176), enc(false, 4, 6176), 0, &mut f), enc(false, 25, 6174));
    assert_eq!(f, 0);
}

#[test]
fn test_div_exact_underflow_flag() {
    // 10 * 10^-6176 / 1 * 10^1 is exact at the least exponent.
    let x = enc(false, 10, 0);
    let y = enc(false, 1, 6177);
    let mut f: u32 = 0;
    assert_eq!(bid128_div(x, y, 0, &mut f), enc(false, 1, 0));
    assert_eq!(f, 0);
    // With inexact already raised, underflow is added.
    let mut f: u32 = 0x20;
    assert_eq!(bid128_div(x, y, 0, &mut f), enc(false, 1, 0));
    assert_eq!(f, 0x30);
}

#[test]
fn test_div_one() {
    let x = enc(true, 424242, 6000);
    let mut f: u32 = 0;
    assert_eq!(bid128_div(x, enc(false, 1, 6176), 0, &mut f), x);
    assert_eq!(f, 0);
}

#[test]
fn test_div_self() {
    let x = enc(false, T34 - 7, 9000);
    let y = enc(true, T34 - 7, 9000);
    for mode in 0..5u32 {
        let mut f: u32 = 0;
        assert_eq!(bid128_div(x, x, mode, &mut f), enc(false, 1, 6176));
        assert_eq!(f, 0);
        assert_eq!(bid128_div(x, y, mode, &mut f), enc(true, 1, 6176));
        assert_eq!(f, 0);
    }
}

#[test]
fn test_add_opposite() {
    let x = enc(false, 123456789, 6170);
    let y = enc(true, 123456789, 6170);
    for mode in 0..5u32 {
        let mut f: u32 = 0;
        assert_eq!(bid128_add(x, y, mode, &mut f), enc(mode == 1, 0, 6170));
        assert_eq!(bid128_add(y, x, mode, &mut f), enc(mode == 1, 0, 6170));
        assert_eq!(f, 0);
    }
    let mut f: u32 = 0;
    assert_eq!(bid128_add(enc(true, 0, 3), enc(false, 0, 3), 1, &mut f), enc(true, 0, 3));
    assert_eq!(bid128_add(enc(true, 0, 3), enc(false, 0, 3), 0, &mut f), enc(false, 0, 3));
}

#[test]
fn test_mul_carry_into_least_exponent() {
    // (10^33 - 1) * (10^33 + 1) * 10^-6209 = (10^33 - 10^-33) * 10^-6176:
    // rounding to 34 digits carries up to 10^33 * 10^-6176, which is not
    // taken as tiny.
    let x = enc(false, T33 - 1, 6143);
    let y = enc(false, T33 + 1, 0);
    let expect = [(T33, 0x20), (T33 - 1, 0x30), (T33, 0x20), (T33 - 1, 0x30), (T33, 0x20)];
    for mode in 0..5u32 {
        let mut f: u32 = 0;
        let (c, fl) = expect[mode as usize];
        assert_eq!(bid128_mul(x, y, mode, &mut f), enc(false, c, 0));
        assert_eq!(f, fl);
    }
    // Negative: rounding down is rounding the magnitude up.
    let mut f: u32 = 0;
    assert_eq!(bid128_mul(enc(true, T33 - 1, 6143), y, 1, &mut f), enc(true, T33, 0));
    assert_eq!(f, 0x20);
    // (10^34 - 1)^2 * 10^-6211 = (10^33 - 0.2 + 10^-35) * 10^-6176 is tiny
    // before rounding, and rounds to 10^33 * 10^-6176 with underflow.
    let z = enc(false, T34 - 1, 6141);
    let w = enc(false, T34 - 1, 0);
    let mut f: u32 = 0;
    assert_eq!(bid128_mul(z, w, 0, &mut f), enc(false, T33, 0));
    assert_eq!(f, 0x30);
}

#[test]
fn test_ext_fma_carry_midpoint() {
    // 35 * 2857142857142857142857142857142857 = 10^35 - 5; at 10^-6178 the
    // product is (10^33 - 1/20) * 10^-6176, a midpoint at 34 digits.
    let x = enc(false, 35, 6174);
    let y = enc(false, 2857142857142857142857142857142857, 0);
    let zero = enc(false, 0, 6176);
    let (mut a, mut b, mut c, mut d) = (false, false, false, false);
    let mut f: u32 = 0;
    let r = bid128_ext_fma(&mut a, &mut b, &mut c, &mut d, x, y, zero, 0, &mut f);
    assert_eq!(r, enc(false, T33, 0));
    assert_eq!(f, 0x20);
    assert_eq!((a, b, c, d), (true, false, false, false));
    let mut f: u32 = 0;
    let r = bid128_ext_fma(&mut a, &mut b, &mut c, &mut d, x, y, zero, 1, &mut f);
    assert_eq!(r, enc(false, T33 - 1, 0));
    assert_eq!(f, 0x30);
}

#[test]
fn test_fma_tininess_near_least_exponent() {
    // -53 * 10^-6176 * 0.1 + (10^33 + 5) * 10^-6176 = (10^33 - 0.3) * 10^-6176:
    // rounded at the least exponent to 10^33 * 10^-6176, not taken as tiny.
    let x = enc(true, 53, 0);
    let y = enc(false, 1, 6175);
    let z = enc(false, T33 + 5, 0);
    let expect = [(T33, 0x20), (T33 - 1, 0x30), (T33, 0x20), (T33 - 1, 0x30), (T33, 0x20)];
    for mode in 0..5u32 {
        let mut f: u32 = 0;
        let (c, fl) = expect[mode as usize];
        assert_eq!(bid128_fma(x, y, z, mode, &mut f), enc(false, c, 0));
        assert_eq!(f, fl);
    }
    // 97 * 10^-6178 + (10^33 - 1) * 10^-6176 = (10^33 - 0.03) * 10^-6176
    // carries at 34 digits: not tiny.
    let mut f: u32 = 0;
    assert_eq!(bid128_fma(enc(false, 97, 0), enc(false, 1, 6174), enc(false, T33 - 1, 0), 0, &mut f), enc(false, T33, 0));
    assert_eq!(f, 0x20);
    // 93 * 10^-6178 + (10^33 - 1) * 10^-6176 = (10^33 - 0.07) * 10^-6176
    // does not carry: tiny, and rounded to 10^33 * 10^-6176.
    let mut f: u32 = 0;
    assert_eq!(bid128_fma(enc(false, 93, 0), enc(false, 1, 6174), enc(false, T33 - 1, 0), 0, &mut f), enc(false, T33, 0));
    assert_eq!(f, 0x30);
}

#[test]
fn test_fma_underflow_below_power_of_ten() {
    // 10^33 * 10^-6175 - 0.7 * 10^-6176 = (10^34 - 0.7) * 10^-6176: not
    // tiny, yet underflow is raised along with inexact.
    let x = enc(true, 7, 0);
    let y = enc(false, 1, 6175);
    let z = enc(false, T33, 1);
    let mut f: u32 = 0;
    assert_eq!(bid128_fma(x, y, z, 0, &mut f), enc(false, T34 - 1, 0));
    assert_eq!(f, 0x30);
    let mut f: u32 = 0;
    assert_eq!(bid128_fma(x, y, z, 2, &mut f), enc(false, T33, 1));
    assert_eq!(f, 0x30);
    // A product below half of 10^-6176 leaves the result at z.
    let mut f: u32 = 0;
    assert_eq!(bid128_fma(enc(true, 3, 0), y, z, 0, &mut f), z);
    assert_eq!(f, 0x20);
}

#[test]
fn test_ext_fma_far_addend_tie() {
    // 10^33 * 10^-6176 - 0.05 * 10^-6176: tiny before rounding, rounded to
    // 10^33 * 10^-6176, classed as a midpoint at 34 digits.
    let x = enc(true, 5, 0);
    let y = enc(false, 1, 6174);
    let z = enc(false, T33, 0);
    let (mut a, mut b, mut c, mut d) = (false, false, false, false);
    let mut f: u32 = 0;
    let r = bid128_ext_fma(&mut a, &mut b, &mut c, &mut d, x, y, z, 0, &mut f);
    assert_eq!(r, enc(false, T33, 0));
    assert_eq!(f, 0x30);
    assert_eq!((a, b, c, d), (true, false, false, false));
}

fn neg(x: BidUint128) -> BidUint128 {
    BidUint128 { w: [x.w[0], x.w[1] ^ 0x8000000000000000] }
}

fn mirror(mode: u32) -> u32 {
    match mode {
        1 => 2,
        2 => 1,
        m => m,
    }
}

#[test]
fn test_add_mul_mirror() {
    let x = enc(false, 123, 6176);
    let y = enc(false, T34 - 1, 6176);
    let u = enc(true, 7, 6170);
    for mode in 0..5u32 {
        let mut f1: u32 = 0;
        let mut f2: u32 = 0;
        let r = bid128_add(x, y, mode, &mut f1);
        assert_eq!(bid128_add(neg(x), neg(y), mirror(mode), &mut f2), neg(r));
        assert_eq!(f1, f2);
        let mut f1: u32 = 0;
        let mut f2: u32 = 0;
        let r = bid128_add(u, y, mode, &mut f1);
        assert_eq!(bid128_add(neg(u), neg(y), mirror(mode), &mut f2), neg(r));
        assert_eq!(f1, f2);
        let mut f1: u32 = 0;
        let mut f2: u32 = 0;
        let r = bid128_mul(y, enc(false, 3, 6176), mode, &mut f1);
        assert_eq!(bid128_mul(neg(y), enc(false, 3, 6176), mirror(mode), &mut f2), neg(r));
        assert_eq!(f1, f2);
    }
    // Rounding up and down really differ here.
    let mut f: u32 = 0;
    assert_ne!(bid128_add(x, y, 1, &mut f), bid128_add(x, y, 2, &mut f));
}
