use decimus::from_int::bid128_from_int32;
use decimus::from_string::{bid128_bytes_readable, bid128_from_string, bid128_string_readable};
use decimus::to_string::bid128_to_string;
use decimus::types::BidUint128;

fn enc(neg: bool, c: u128, bexp: u64) -> BidUint128 {
    let sign: u64 = if neg { 0x8000000000000000 } else { 0 };
    BidUint128 { w: [c as u64, sign | (bexp << 49) | ((c >> 64) as u64)] }
}

fn parse(s: &str, mode: u32) -> (BidUint128, u32) {
    let mut f: u32 = 0;
    let r = bid128_from_string(s, mode, &mut f);
    (r, f)
}

#[test]
fn test_from_string_numbers() {
    assert_eq!(parse("1", 0), (enc(false, 1, 6176), 0));
    assert_eq!(parse("-12.5", 0), (enc(true, 125, 6175), 0));
    assert_eq!(parse("  +0.000", 0), (enc(false, 0, 6173), 0));
    assert_eq!(parse("1e3", 0), (enc(false, 1, 6179), 0));
    assert_eq!(parse("1E-2", 0), (enc(false, 1, 6174), 0));
    assert_eq!(parse(".5", 0), (enc(false, 5, 6175), 0));
    assert_eq!(parse("0.05", 0), (enc(false, 5, 6174), 0));
    assert_eq!(parse("-0", 0), (enc(true, 0, 6176), 0));
    assert_eq!(parse("100", 0), (enc(false, 100, 6176), 0));
}

#[test]
fn test_from_string_special() {
    assert_eq!(parse("inf", 0).0, BidUint128 { w: [0, 0x7800000000000000] });
    assert_eq!(parse("-Infinity", 0).0, BidUint128 { w: [0, 0xf800000000000000] });
    assert_eq!(parse("+INF", 0).0, BidUint128 { w: [0, 0x7800000000000000] });
    assert_eq!(parse("nan", 0).0, BidUint128 { w: [0, 0x7c00000000000000] });
    assert_eq!(parse("-nan", 0).0, BidUint128 { w: [0, 0xfc00000000000000] });
    assert_eq!(parse("snan", 0).0, BidUint128 { w: [0, 0x7e00000000000000] });
    assert_eq!(parse("-sNaN", 0).0, BidUint128 { w: [0, 0xfe00000000000000] });
    assert_eq!(parse("abc", 0).0, BidUint128 { w: [0, 0x7c00000000000000] });
    assert_eq!(parse("", 0).0, BidUint128 { w: [0, 0x7c00000000000000] });
    assert_eq!(parse("1.2.3", 0).0, BidUint128 { w: [0, 0x7c00000000000000] });
    assert_eq!(parse("-x", 0).0, BidUint128 { w: [0, 0xfc00000000000000] });
}

#[test]
fn test_from_string_long() {
    let s = "12345678901234567890123456789012345";
    let c: u128 = 1234567890123456789012345678901234;
    assert_eq!(parse(s, 0), (enc(false, c, 6177), 0x20));
    assert_eq!(parse(s, 2), (enc(false, c + 1, 6177), 0x20));
    assert_eq!(parse(s, 3), (enc(false, c, 6177), 0x20));
    assert_eq!(parse("12345678901234567890123456789012346", 0), (enc(false, c + 1, 6177), 0x20));
    // Trailing zeros beyond 34 digits are exact.
    assert_eq!(parse("12345678901234567890123456789012340", 0), (enc(false, c, 6177), 0));
}

#[test]
fn test_string_round_trip() {
    for n in [0i32, 1, -1, 42, -9999, 123456789, i32::MAX, i32::MIN] {
        let x = bid128_from_int32(n);
        let s = bid128_to_string(x);
        let mut f: u32 = 0;
        assert_eq!(bid128_from_string(&s, 0, &mut f), x);
        assert_eq!(f, 0);
    }
    let x = enc(true, 9999999999999999999999999999999999, 100);
    let mut f: u32 = 0;
    assert_eq!(bid128_from_string(&bid128_to_string(x), 0, &mut f), x);
}

#[test]
fn test_from_string_many_digits() {
    // 100000 zeros after the radix point, then a 1: far below the least
    // exponent, so zero with underflow and inexact.
    let mut t = String::from("0.");
    for _ in 0..100000 {
        t.push('0');
    }
    t.push('1');
    assert_eq!(parse(&t, 0), (enc(false, 0, 0), 0x30));
    // 200000 significant digits times 10^-199990 is 10^9: the first 34
    // digits are kept, exactly.
    let mut u = String::from("1");
    for _ in 0..199999 {
        u.push('0');
    }
    u.push_str("E-199990");
    let t33: u128 = 1_000_000_000_000_000_000_000_000_000_000_000;
    assert_eq!(parse(&u, 0), (enc(false, t33, 6152), 0));
}

#[test]
fn test_from_string_exponent_without_digits() {
    let nan = BidUint128 { w: [0, 0x7c00000000000000] };
    assert_eq!(parse("1E+", 0), (nan, 0));
    assert_eq!(parse("1E-", 0), (nan, 0));
    assert_eq!(parse("1E", 0), (nan, 0));
    assert_eq!(parse("1E.", 0), (nan, 0));
    assert_eq!(parse("-2.5e+", 0), (nan, 0));
}

#[test]
fn test_from_string_long_tie() {
    // 10^100 + 5 * 10^66: a tie after the first 34 digits, rounded to the
    // even coefficient 10^33 with exponent 67.
    let s = format!("1{}5{}", "0".repeat(33), "0".repeat(66));
    assert_eq!(parse(&s, 0), (BidUint128 { w: [0x38C15B0A00000000, 0x30C6314DC6448D93] }, 0x20));
    // One more nonzero digit at the end breaks the tie upwards.
    let t = format!("1{}5{}1", "0".repeat(33), "0".repeat(65));
    assert_eq!(parse(&t, 0), (BidUint128 { w: [0x38C15B0A00000001, 0x30C6314DC6448D93] }, 0x20));
}

#[test]
fn test_string_readable() {
    assert!(bid128_string_readable("1", 0));
    assert!(bid128_string_readable("1E+", 0));
    assert!(bid128_string_readable("-12.5e-3", 3));
    assert!(bid128_string_readable("", 0));
    assert!(bid128_string_readable(&format!("1{}5{}", "0".repeat(33), "0".repeat(66)), 0));
    assert!(bid128_bytes_readable(&b"9999999999999999999999999999999999999E+9999999".to_vec(), 2));
    assert!(bid128_bytes_readable(&b"nan".to_vec(), 0));
}
