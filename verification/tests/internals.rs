use decimus::div_parts::{bid_div_128_by_128, bid_div_256_by_128};
use decimus::add::bits;
use decimus::decimal_data::{bid_power10_table_128, bid_reciprocals10_128, bid_recip_scale, bid_round_const_table_128};
use decimus::fma_parts::{bid_add_and_round, bid_add256, bid_bid_nr_digits256, bid_rounding_correction, bid_sub256};
use decimus::internal::{bid_get_bid128, bid_handle_uf_128_rem, handle_uf_128};
use decimus::round::{bid_round128_19_38, bid_round192_39_57, bid_round256_58_76, bid_round64_2_18};
use decimus::to_string::bid128_to_string;
use decimus::types::{BidUint128, BidUint192, BidUint256, BidUint384, BidUint512, BidUint64};
use decimus::unpack::unpack_bid128_value;

const T33: u128 = 1_000_000_000_000_000_000_000_000_000_000_000;
const T34: u128 = 10_000_000_000_000_000_000_000_000_000_000_000;

fn enc(neg: bool, c: u128, bexp: u64) -> BidUint128 {
    let sign: u64 = if neg { 0x8000000000000000 } else { 0 };
    BidUint128 { w: [c as u64, sign | (bexp << 49) | ((c >> 64) as u64)] }
}

fn v128(x: BidUint128) -> u128 {
    ((x.w[1] as u128) << 64) | x.w[0] as u128
}

fn r64(q: i32, x: i32, c: u64) -> (u64, i32, (bool, bool, bool, bool)) {
    let mut s: u64 = 0;
    let mut inc: i32 = 0;
    let (mut a, mut b, mut cc, mut d) = (false, false, false, false);
    bid_round64_2_18(q, x, c, &mut s, &mut inc, &mut a, &mut b, &mut cc, &mut d);
    (s, inc, (a, b, cc, d))
}

#[test]
fn test_round64() {
    assert_eq!(r64(3, 1, 125), (12, 0, (false, true, false, false)));
    assert_eq!(r64(3, 1, 135), (14, 0, (true, false, false, false)));
    assert_eq!(r64(3, 1, 124), (12, 0, (false, false, true, false)));
    assert_eq!(r64(3, 1, 126), (13, 0, (false, false, false, true)));
    assert_eq!(r64(3, 1, 120), (12, 0, (false, false, false, false)));
    assert_eq!(r64(3, 1, 999), (10, 1, (false, false, false, true)));
    assert_eq!(r64(18, 17, 950000000000000000), (1, 1, (true, false, false, false)));
    assert_eq!(r64(18, 17, 850000000000000000), (8, 0, (false, true, false, false)));
}

#[test]
fn test_round128() {
    let mut s = BidUint128 { w: [0, 0] };
    let mut inc: i32 = 0;
    let (mut a, mut b, mut c, mut d) = (false, false, false, false);
    let x = BidUint128 { w: [(T34 + 5) as u64, ((T34 + 5) >> 64) as u64] };
    bid_round128_19_38(35, 1, x, &mut s, &mut inc, &mut a, &mut b, &mut c, &mut d);
    assert_eq!(v128(s), T33);
    assert_eq!(inc, 0);
    assert_eq!((a, b, c, d), (false, true, false, false));
}

#[test]
fn test_round192_256() {
    // 10^40 - 1 rounded by 2 digits gives 10^38, reported as 10^37 with an increment.
    let c = BidUint192 { w: [0xb9f560ffffffffff, 0x6329f1c35ca4bfab, 0x1d] };
    let mut s = BidUint192 { w: [0, 0, 0] };
    let mut inc: i32 = 0;
    let (mut a, mut b, mut cc, mut d) = (false, false, false, false);
    bid_round192_39_57(40, 2, c, &mut s, &mut inc, &mut a, &mut b, &mut cc, &mut d);
    assert_eq!(s.w, [0xf436a000000000, 0x785ee10d5da46d9, 0]);
    assert_eq!(inc, 1);
    assert_eq!((a, b, cc, d), (false, false, false, true));
    let c4 = BidUint256 { w: [125, 0, 0, 0] };
    let mut s4 = BidUint256 { w: [0, 0, 0, 0] };
    let (mut a, mut b, mut cc, mut d) = (false, false, false, false);
    bid_round256_58_76(58, 1, c4, &mut s4, &mut inc, &mut a, &mut b, &mut cc, &mut d);
    assert_eq!(s4.w, [12, 0, 0, 0]);
    assert_eq!(inc, 0);
    assert_eq!((a, b, cc, d), (false, true, false, false));
}

#[test]
fn test_tables() {
    assert_eq!(v128(bid_power10_table_128(0)), 1);
    assert_eq!(v128(bid_power10_table_128(34)), T34);
    assert_eq!(bid_power10_table_128(38).w, [0x098a224000000000, 0x4b3b4ca85a86c47a]);
    assert_eq!(v128(bid_round_const_table_128(0, 3)), 500);
    assert_eq!(v128(bid_round_const_table_128(4, 0)), 0);
    assert_eq!(v128(bid_round_const_table_128(2, 3)), 999);
    assert_eq!(v128(bid_round_const_table_128(1, 30)), 0);
    assert_eq!(bid_round_const_table_128(2, 35).w, [0x2b878fe7ffffffff, 0x13426172c74d82]);
    assert_eq!(bid_recip_scale(4), 3);
    assert_eq!(bid_recip_scale(35), 109);
    assert_eq!(bid_reciprocals10_128(0).w, [0, 0]);
    assert_eq!(bid_reciprocals10_128(1).w, [0x3333333333333334, 0x3333333333333333]);
    assert_eq!(bid_reciprocals10_128(33).w, [0x587b2c6b62bab376, 0x002989d2ef743eb7]);
    assert_eq!(bid_reciprocals10_128(35).w, [0x0f2abc9d8c9689d1, 0x01a95a5b7f87a0ef]);
}

#[test]
fn test_unpack() {
    let mut s: u64 = 0;
    let mut e: i32 = 0;
    let mut c = BidUint128 { w: [0, 0] };
    let r = unpack_bid128_value(&mut s, &mut e, &mut c, enc(true, 77, 6000));
    assert_eq!((s, e, v128(c)), (0x8000000000000000, 6000, 77));
    assert!(r != 0);
    let r = unpack_bid128_value(&mut s, &mut e, &mut c, enc(false, T34, 6000));
    assert_eq!((r, e, v128(c)), (0, 6000, 0));
    let r = unpack_bid128_value(&mut s, &mut e, &mut c, BidUint128 { w: [5, 0xfc00000000000000] });
    assert_eq!((r, e), (0, 0));
    assert_eq!(c.w, [5, 0xfc00000000000000]);
    let r = unpack_bid128_value(&mut s, &mut e, &mut c, BidUint128 { w: [5, 0x7800000000000001] });
    assert_eq!((r, e), (0, 0));
    assert_eq!(c.w, [0, 0x7800000000000000]);
}

#[test]
fn test_get_bid128() {
    let mut r = BidUint128 { w: [0, 0] };
    let mut f: u32 = 0;
    let c = BidUint128 { w: [42, 0] };
    assert_eq!(bid_get_bid128(&mut r, 0, 6176, c, 0, &mut f), enc(false, 42, 6176));
    assert_eq!(f, 0);
    // 10^34 becomes 10^33 one exponent higher.
    let t = BidUint128 { w: [T34 as u64, (T34 >> 64) as u64] };
    assert_eq!(bid_get_bid128(&mut r, 0x8000000000000000, 100, t, 0, &mut f), enc(true, T33, 101));
    // Above the range, zeros are appended while they fit.
    assert_eq!(bid_get_bid128(&mut r, 0, 12289, c, 0, &mut f), enc(false, 4200, 12287));
    assert_eq!(f, 0);
    // Far above the range, the result overflows.
    assert_eq!(bid_get_bid128(&mut r, 0, 20000, c, 0, &mut f), BidUint128 { w: [0, 0x7800000000000000] });
    assert_eq!(f, 0x28);
    // Below the range, digits are rounded away.
    let mut f: u32 = 0;
    assert_eq!(bid_get_bid128(&mut r, 0, -1, BidUint128 { w: [45, 0] }, 0, &mut f), enc(false, 4, 0));
    assert_eq!(f, 0x30);
    assert_eq!(r, enc(false, 4, 0));
}

#[test]
fn test_handle_uf() {
    let mut r = BidUint128 { w: [0, 0] };
    let mut f: u32 = 0;
    let mut e: i32 = -2;
    assert_eq!(handle_uf_128(&mut r, 0, &mut e, BidUint128 { w: [1250, 0] }, 0, &mut f), enc(false, 12, 0));
    assert_eq!((e, f), (0, 0x30));
    let mut f: u32 = 0;
    let mut e: i32 = -2;
    assert_eq!(handle_uf_128(&mut r, 0, &mut e, BidUint128 { w: [1200, 0] }, 0, &mut f), enc(false, 12, 0));
    assert_eq!((e, f), (0, 0));
    // With inexact already raised, only underflow is added.
    let mut f: u32 = 0x20;
    let mut e: i32 = -2;
    handle_uf_128(&mut r, 0, &mut e, BidUint128 { w: [1200, 0] }, 0, &mut f);
    assert_eq!(f, 0x30);
    // Far below the range: zero, or one unit when rounding up.
    let mut f: u32 = 0;
    let mut e: i32 = -40;
    assert_eq!(handle_uf_128(&mut r, 0, &mut e, BidUint128 { w: [7, 0] }, 2, &mut f), BidUint128 { w: [1, 0] });
    assert_eq!((e, f), (-40, 0x30));
    let mut f: u32 = 0;
    assert_eq!(bid_handle_uf_128_rem(&mut r, 0, -1, BidUint128 { w: [125, 0] }, 1, 0, &mut f), enc(false, 13, 0));
    assert_eq!(f, 0x30);
    let mut f: u32 = 0;
    assert_eq!(bid_handle_uf_128_rem(&mut r, 0x8000000000000000, 0, BidUint128 { w: [125, 0] }, 0, 0, &mut f), enc(true, 125, 0));
    assert_eq!(f, 0);
}

#[test]
fn test_wide() {
    let mut z = BidUint256 { w: [0, 0, 0, 0] };
    bid_add256(BidUint256 { w: [u64::MAX, u64::MAX, 0, 1] }, BidUint256 { w: [1, 0, 0, 0] }, &mut z);
    assert_eq!(z.w, [0, 0, 1, 1]);
    bid_sub256(BidUint256 { w: [0, 0, 1, 1] }, BidUint256 { w: [1, 0, 0, 0] }, &mut z);
    assert_eq!(z.w, [u64::MAX, u64::MAX, 0, 1]);
    assert_eq!(bid_bid_nr_digits256(BidUint256 { w: [0, 0, 0, 0] }), 1);
    assert_eq!(bid_bid_nr_digits256(BidUint256 { w: [999, 0, 0, 0] }), 3);
    assert_eq!(bid_bid_nr_digits256(BidUint256 { w: [0, 1, 0, 0] }), 20);
    assert_eq!(bid_bid_nr_digits256(BidUint256 { w: [u64::MAX; 4] }), 69);
}

#[test]
fn test_rounding_correction() {
    let mut r = enc(false, 12, 0);
    let mut f: u32 = 0;
    bid_rounding_correction(2, true, false, false, false, 5, &mut r, &mut f);
    assert_eq!(r, enc(false, 13, 6181));
    assert_eq!(f, 0x20);
    let mut r = enc(false, T33, 0);
    let mut f: u32 = 0;
    bid_rounding_correction(3, false, true, false, false, 5, &mut r, &mut f);
    assert_eq!(r, enc(false, T34 - 1, 6180));
    let mut r = enc(true, T34 - 1, 0);
    let mut f: u32 = 0;
    bid_rounding_correction(1, true, false, false, false, 6111, &mut r, &mut f);
    assert_eq!(r, BidUint128 { w: [0, 0xf800000000000000] });
    assert_eq!(f, 0x28);
}

#[test]
fn test_rounding_correction_zero_coefficient() {
    // A sum wholly below the least subnormal, rounded up.
    let mut r = enc(false, 0, 0);
    let mut f: u32 = 0;
    bid_rounding_correction(2, true, false, false, false, -6176, &mut r, &mut f);
    assert_eq!(r, enc(false, 1, 0));
    assert_eq!(f, 0x20);
    // Rounded down from a zero coefficient: both words wrap round.
    let mut r = enc(false, 0, 0);
    let mut f: u32 = 0;
    bid_rounding_correction(1, false, true, false, false, -6176, &mut r, &mut f);
    assert_eq!(r, BidUint128 { w: [u64::MAX, u64::MAX] });
    assert_eq!(f, 0x20);
}

#[test]
fn test_reciprocal_ceiling() {
    // 2^129 / 10^3 and 2^230 / 10^34, each rounded up.
    assert_eq!(bid_reciprocals10_128(3).w, [0x3b645a1cac083127, 0x0083126e978d4fdf]);
    assert_eq!(bid_reciprocals10_128(34).w, [0xad2f56bc4efbc2c5, 0x00213b0f25f69892]);
}

#[test]
fn test_to_string() {
    assert_eq!(bid128_to_string(enc(false, 5, 6176)), "+5E+0");
    assert_eq!(bid128_to_string(enc(true, 11, 6175)), "-11E-1");
    assert_eq!(bid128_to_string(enc(false, 0, 6176)), "+0E+0");
    assert_eq!(bid128_to_string(enc(false, 0, 0)), "+0E-6176");
    assert_eq!(bid128_to_string(enc(false, T34 - 1, 12287)), "+9999999999999999999999999999999999E+6111");
    assert_eq!(bid128_to_string(enc(false, 1, 6176 + 123)), "+1E+123");
    assert_eq!(bid128_to_string(BidUint128 { w: [0, 0x7c00000000000000] }), "+NaN");
    assert_eq!(bid128_to_string(BidUint128 { w: [0, 0xfe00000000000000] }), "-SNaN");
    assert_eq!(bid128_to_string(BidUint128 { w: [0, 0xf800000000000000] }), "-Inf");
    // A non-canonical coefficient prints as zero.
    assert_eq!(bid128_to_string(enc(false, T34, 6176)), "+0E+0");
}

#[test]
fn test_biduint64() {
    let v = BidUint64::new(7);
    assert_eq!(v.get(), 7);
    assert_eq!(*v, 7);
    let m = BidUint64::new(u64::MAX);
    assert_eq!(*(m + BidUint64::new(2)), 1);
    assert_eq!(*(m + 3u32), 2);
    assert_eq!(*(m + 4u64), 3);
    assert_eq!(*(5u32 + m), 4);
    assert_eq!(*(6u64 + m), 5);
    assert_eq!(*(BidUint64::new(1) - BidUint64::new(2)), u64::MAX);
    assert_eq!(*(m * BidUint64::new(2)), u64::MAX - 1);
    assert_eq!(*(BidUint64::new(17) / BidUint64::new(5)), 3);
    assert_eq!(*(BidUint64::new(6) ^ BidUint64::new(3)), 5);
    assert_eq!(*BidUint64::default(), 0);
}

#[test]
fn test_add_and_round() {
    let (mut a, mut b, mut c, mut d) = (true, true, true, true);
    let mut f: u32 = 0;
    let mut r = BidUint128 { w: [0, 0] };
    bid_add_and_round(1, 1, 0, 0, 34, 0, 0, BidUint128 { w: [1, 0] }, BidUint256 { w: [6, 0, 0, 0] }, 0, &mut a, &mut b, &mut c, &mut d, &mut f, &mut r);
    assert_eq!(r, enc(false, 7, 6176));
    assert_eq!((a, b, c, d, f), (false, false, false, false, 0));
    // 10^34 + 5 * 10^0 at exponent 0 rounds to 10^33 * 10^1 (a tie to even).
    let c4 = BidUint256 { w: [T34 as u64, (T34 >> 64) as u64, 0, 0] };
    bid_add_and_round(1, 35, 0, 34, 34, 0, 0, BidUint128 { w: [5, 0] }, c4, 0, &mut a, &mut b, &mut c, &mut d, &mut f, &mut r);
    assert_eq!(r, enc(false, T33, 6177));
    assert_eq!((a, b, c, d, f), (false, true, false, false, 0x20));
    // An exact cancellation is +0, or -0 when rounding down.
    let mut f: u32 = 0;
    bid_add_and_round(1, 1, -3, 0, 34, 0x8000000000000000, 0, BidUint128 { w: [6, 0] }, BidUint256 { w: [6, 0, 0, 0] }, 1, &mut a, &mut b, &mut c, &mut d, &mut f, &mut r);
    assert_eq!(r, enc(true, 0, 6173));
    assert_eq!(f, 0);
}

#[test]
fn test_bits() {
    assert_eq!(bits(1), 0);
    assert_eq!(bits(2), 1);
    assert_eq!(bits(3), 1);
    assert_eq!(bits(1024), 10);
    assert_eq!(bits(1025), 10);
    assert_eq!(bits(0x1fffffffffffff), 52);
}

#[test]
fn test_add_and_round_carry_tie() {
    // (10^35 - 10) + 5 at exponent -6178 is (10^33 - 1/20) * 10^-6176, a
    // midpoint at 34 digits that rounds up into the least exponent: tiny,
    // inexact, and classed as a midpoint below an even result.
    let c4v: u128 = 100_000_000_000_000_000_000_000_000_000_000_000 - 10;
    let c4 = BidUint256 { w: [c4v as u64, (c4v >> 64) as u64, 0, 0] };
    let (mut a, mut b, mut c, mut d) = (false, false, false, false);
    let mut f: u32 = 0;
    let mut r = BidUint128 { w: [0, 0] };
    bid_add_and_round(1, 35, -6178, 34, 34, 0, 0, BidUint128 { w: [5, 0] }, c4, 0, &mut a, &mut b, &mut c, &mut d, &mut f, &mut r);
    assert_eq!(r, enc(false, T33, 0));
    assert_eq!((a, b, c, d, f), (true, false, false, false, 0x30));
}

#[test]
fn test_bid_div_128_by_128() {
    let mut q = BidUint128 { w: [0, 0] };
    let mut r = BidUint128 { w: [0, 0] };
    let x: u128 = 12345678901234567890123;
    bid_div_128_by_128(&mut q, &mut r, BidUint128 { w: [x as u64, (x >> 64) as u64] }, BidUint128 { w: [1000, 0] });
    assert_eq!(v128(q), 12345678901234567890);
    assert_eq!(v128(r), 123);
    bid_div_128_by_128(&mut q, &mut r, BidUint128 { w: [(T34 - 1) as u64, ((T34 - 1) >> 64) as u64] }, BidUint128 { w: [3, 0] });
    assert_eq!(v128(q), 3333333333333333333333333333333333);
    assert_eq!(v128(r), 0);
}

#[test]
fn test_bid_div_256_by_128() {
    // 10^45 / (10^12 + 1), added to 5; the high words of the dividend stay.
    let a = BidUint256 { w: [0x0b22a00000000000, 0xe086b93ce2f768a0, 0x2cd76f, 0] };
    let d: u128 = 1_000_000_000_001;
    let mut q = BidUint128 { w: [5, 0] };
    let mut ca4 = a;
    bid_div_256_by_128(&mut q, &mut ca4, BidUint128 { w: [d as u64, 0] });
    assert_eq!(v128(q), 999999999999000000000000999999999 + 5);
    assert_eq!(((ca4.w[1] as u128) << 64) | ca4.w[0] as u128, 999000000001);
    assert_eq!((ca4.w[2], ca4.w[3]), (0x2cd76f, 0));
    // The sum wraps modulo 2^128.
    let mut q = BidUint128 { w: [u64::MAX, u64::MAX] };
    let mut ca4 = a;
    bid_div_256_by_128(&mut q, &mut ca4, BidUint128 { w: [d as u64, 0] });
    assert_eq!(v128(q), 999999999999000000000000999999998);
}

#[test]
fn test_debug_strings() {
    let x = BidUint128 { w: [0x0123456789abcdef, 0x3040000000000000] };
    assert_eq!(x.to_debug_string(), "[3040000000000000 0123456789ABCDEF]");
    let y = BidUint192 { w: [1, 0xfedcba9876543210, 0] };
    assert_eq!(y.to_debug_string(), "[0000000000000000 FEDCBA9876543210 0000000000000001]");
    let z = BidUint256 { w: [0, 0, 0, u64::MAX] };
    assert_eq!(z.to_debug_string(), "[FFFFFFFFFFFFFFFF 0000000000000000 0000000000000000 0000000000000000]");
    let u = BidUint384 { w: [1, 2, 3, 4, 5, 6] };
    assert_eq!(u.to_debug_string(), "[0000000000000006 0000000000000005 0000000000000004 0000000000000003 0000000000000002 0000000000000001]");
    let v = BidUint512 { w: [0xa, 0xb, 0xc, 0xd, 0xe, 0xf, 0x10, 0x11] };
    assert_eq!(
        v.to_debug_string(),
        "[0000000000000011 0000000000000010 000000000000000F 000000000000000E 000000000000000D 000000000000000C 000000000000000B 000000000000000A]"
    );
}

#[test]
fn test_round_keeps_other_indicators() {
    let run = |c: u64, f: (bool, bool, bool, bool)| {
        let mut s: u64 = 0;
        let mut inc: i32 = 0;
        let (mut a, mut b, mut cc, mut d) = f;
        bid_round64_2_18(3, 1, c, &mut s, &mut inc, &mut a, &mut b, &mut cc, &mut d);
        (s, (a, b, cc, d))
    };
    // 12.5 is a midpoint rounded down to even: set, and the inexact ones cleared.
    assert_eq!(run(125, (true, false, true, true)), (12, (true, true, false, false)));
    // 12.0 is exact: nothing changes.
    assert_eq!(run(120, (false, false, true, false)), (12, (false, false, true, false)));
    // 12.3 is below a midpoint: that one is set, the others kept.
    assert_eq!(run(123, (true, false, false, true)), (12, (true, false, true, true)));
}

#[test]
fn test_uint64_equality() {
    assert_eq!(BidUint64::new(3), BidUint64::new(3));
    assert_ne!(BidUint64::new(3), BidUint64::new(4));
    assert!(BidUint64::new(u64::MAX) == BidUint64::new(u64::MAX));
}

#[test]
fn test_bid_div_128_by_128_wide_quotient() {
    let mut q = BidUint128 { w: [0, 0] };
    let mut r = BidUint128 { w: [0, 0] };
    bid_div_128_by_128(&mut q, &mut r, BidUint128 { w: [7, 0x8000000000000000] }, BidUint128 { w: [2, 0] });
    assert_eq!(v128(q), (1u128 << 126) + 3);
    assert_eq!(v128(r), 1);
}
