//! Radix input and output: parsing with signs and prefixes, formatting with
//! directives, and round trips across the whole radix range.

use ibig::error::ParseError;
use ibig::fmt::{FmtAlign, FmtOptions};
use ibig::ibig::IBig;
use ibig::ubig::UBig;

fn ubig(x: u64) -> UBig {
    UBig::from_word(x)
}

#[test]
fn test_parse_negative_base36() {
    let c = IBig::from_str_radix("-azz", 36).unwrap();
    assert_eq!(c.to_str_radix(10), "-14255");
}

#[test]
fn test_big_product_in_hex() {
    let a = ubig(12345678);
    let b = ubig(0x10ff);
    assert_eq!(
        a.mul_ubig(&b.pow(10)).to_str_radix(16),
        "1589bda8effbfc495d8d73c83d8b27f94954e"
    );
}

#[test]
fn test_decimal_mod_hex_formatted() {
    let d = UBig::from_str_radix("15033211231241234523452345345787", 10).unwrap();
    let m = UBig::from_str_with_radix_prefix("0xabcd1234134132451345").unwrap();
    let r = d.rem_ubig(&m);
    assert_eq!(format!("hello 0x{}", r.to_str_radix(16)), "hello 0x1a7e7c487267d2658a93");
}

#[test]
fn test_format_directives() {
    // "{:+010}" in base 36: plus sign, zero padding, width ten
    let mut o = FmtOptions::new();
    o.width = 10;
    o.sign_plus = true;
    o.zero_pad = true;
    assert_eq!(ubig(35).in_radix(36).format(&o), "+00000000z");
    // the default format in base 3
    assert_eq!(ubig(83).in_radix(3).to_str(), "10002");
}

#[test]
fn test_format_prefix() {
    // the prefix sits after the sign, counts toward the width, and zero
    // padding goes between prefix and digits
    let mut o = FmtOptions::new();
    o.prefix = "0x";
    o.width = 10;
    o.zero_pad = true;
    assert_eq!(ubig(0xbb8).in_radix(16).format(&o), "0x00000bb8");
    let mut o2 = FmtOptions::new();
    o2.prefix = "0b";
    o2.width = 8;
    o2.fill = '.';
    assert_eq!(ubig(5).in_radix(2).format(&o2), "...0b101");
    let mut o3 = FmtOptions::new();
    o3.prefix = "0o";
    assert_eq!(ubig(8).in_radix(8).format(&o3), "0o10");
}

#[test]
fn test_format_alignment() {
    let mut o = FmtOptions::new();
    o.width = 7;
    o.fill = '.';
    o.align = FmtAlign::Left;
    assert_eq!(ubig(42).in_radix(10).format(&o), "42.....");
    o.align = FmtAlign::Right;
    assert_eq!(ubig(42).in_radix(10).format(&o), ".....42");
    o.align = FmtAlign::Center;
    assert_eq!(ubig(42).in_radix(10).format(&o), "..42...");
}

#[test]
fn test_uppercase() {
    assert_eq!(ubig(0xbb8).to_str_radix(16), "bb8");
    assert_eq!(ubig(0xbb8).to_str_radix_uppercase(16), "BB8");
    assert_eq!(IBig::from_i128(-3000).to_str_radix(16), "-bb8");
}

#[test]
fn test_radix_round_trip_all_radices() {
    let samples: Vec<UBig> = vec![
        ubig(0),
        ubig(1),
        ubig(35),
        ubig(123456789),
        ubig(u64::MAX),
        ubig(u64::MAX).mul_ubig(&ubig(u64::MAX)).add_ubig(&ubig(987654321)),
    ];
    for r in 2..=36u32 {
        for u in &samples {
            let s = u.to_str_radix(r);
            let back = UBig::from_str_radix(&s, r).unwrap();
            assert_eq!(&back, u);
            let s2 = u.to_str_radix_uppercase(r);
            let back2 = UBig::from_str_radix(&s2, r).unwrap();
            assert_eq!(&back2, u);
        }
    }
}

#[test]
fn test_prefix_round_trip() {
    let u = ubig(0xdeadbeef);
    let hex = format!("0x{}", u.to_str_radix(16));
    assert_eq!(UBig::from_str_with_radix_prefix(&hex).unwrap(), u);
    let bin = format!("0b{}", u.to_str_radix(2));
    assert_eq!(UBig::from_str_with_radix_prefix(&bin).unwrap(), u);
    let oct = format!("0o{}", u.to_str_radix(8));
    assert_eq!(UBig::from_str_with_radix_prefix(&oct).unwrap(), u);
    assert_eq!(
        UBig::from_str_with_radix_prefix("3735928559").unwrap(),
        u
    );
}

#[test]
fn test_parse_errors() {
    assert_eq!(UBig::from_str_radix("", 10), Err(ParseError::NoDigits));
    assert_eq!(UBig::from_str_radix("12a", 10), Err(ParseError::InvalidDigit));
    assert_eq!(UBig::from_str_radix("0102", 2), Err(ParseError::InvalidDigit));
    assert_eq!(IBig::from_str_radix("-", 10), Err(ParseError::NoDigits));
    assert_eq!(IBig::from_str_radix("+", 16), Err(ParseError::NoDigits));
    assert_eq!(IBig::from_str_radix("-12g", 16), Err(ParseError::InvalidDigit));
    assert_eq!(UBig::from_str_with_radix_prefix("0x"), Err(ParseError::NoDigits));
}

#[test]
fn test_signed_prefix_parse() {
    assert_eq!(
        IBig::from_str_with_radix_prefix("-0x1f").unwrap(),
        IBig::from_i128(-31)
    );
    assert_eq!(
        IBig::from_str_with_radix_prefix("0b101").unwrap(),
        IBig::from_i128(5)
    );
    assert_eq!(
        IBig::from_str_with_radix_prefix("+42").unwrap(),
        IBig::from_i128(42)
    );
}

#[test]
fn test_parse_plus_sign() {
    assert_eq!(IBig::from_str_radix("+42", 10).unwrap(), IBig::from_i128(42));
}

#[test]
fn test_from_str_trait() {
    let d: UBig = "15033211231241234523452345345787".parse().unwrap();
    assert_eq!(d.to_str_radix(10), "15033211231241234523452345345787");
    let n: IBig = "-42".parse().unwrap();
    assert_eq!(n, IBig::from_i128(-42));
}

#[test]
fn test_leading_zeros_parse() {
    assert_eq!(UBig::from_str_radix("000123", 10).unwrap(), ubig(123));
    assert_eq!(UBig::from_str_radix("0", 7).unwrap(), ubig(0));
}
