//! Arithmetic: canonical forms, the group and semiring laws on samples,
//! division, comparison, and shifts.

use ibig::ibig::IBig;
use ibig::sign::Sign;
use ibig::ubig::UBig;

fn ubig(x: u64) -> UBig {
    UBig::from_word(x)
}

fn sint(x: i128) -> IBig {
    IBig::from_i128(x)
}

#[test]
fn test_canonical_zero_single_form() {
    let a = ubig(5).sub_ubig(&ubig(5));
    assert_eq!(a, ubig(0));
    let b = sint(-3).add_ibig(&sint(3));
    assert_eq!(b.sign(), Sign::Positive);
    assert_eq!(b, sint(0));
}

#[test]
fn test_canonical_collapse_to_small() {
    // a two-word value collapses back to the inline form after subtraction
    let big = ubig(1).shl(64);
    let one = big.add_ubig(&ubig(1)).sub_ubig(&big);
    assert_eq!(one, ubig(1));
}

#[test]
fn test_additive_group_samples() {
    let a = sint(123_456_789);
    let b = sint(-987_654_321);
    assert_eq!(a.add_ibig(&b).sub_ibig(&b), a);
    assert_eq!(a.add_ibig(&sint(0)), a);
    assert_eq!(a.sub_ibig(&a), sint(0));
    assert_eq!(a.add_ibig(&b), b.add_ibig(&a));
    let c = sint(55);
    assert_eq!(a.add_ibig(&b).add_ibig(&c), a.add_ibig(&b.add_ibig(&c)));
}

#[test]
fn test_multiplicative_semiring_samples() {
    let a = sint(-12345);
    let b = sint(678);
    let c = sint(91011);
    assert_eq!(a.mul_ibig(&sint(1)), a);
    assert_eq!(a.mul_ibig(&sint(0)), sint(0));
    assert_eq!(a.mul_ibig(&b), b.mul_ibig(&a));
    assert_eq!(
        a.mul_ibig(&b.add_ibig(&c)),
        a.mul_ibig(&b).add_ibig(&a.mul_ibig(&c))
    );
}

#[test]
fn test_division_identity_unsigned() {
    let a = ubig(1_000_000_007).mul_ubig(&ubig(998_244_353)).add_ubig(&ubig(17));
    let b = ubig(12345);
    let (q, r) = a.div_rem(&b);
    assert_eq!(q.mul_ubig(&b).add_ubig(&r), a);
    assert!(r.lt(&b));
}

#[test]
fn test_division_identity_signed() {
    // the remainder takes the sign of the dividend
    let cases: Vec<(i128, i128)> = vec![(7, 3), (-7, 3), (7, -3), (-7, -3)];
    let expect: Vec<(i128, i128)> = vec![(2, 1), (-2, -1), (-2, 1), (2, -1)];
    for (i, (x, y)) in cases.into_iter().enumerate() {
        let (q, r) = sint(x).div_rem(&sint(y));
        assert_eq!(q, sint(expect[i].0));
        assert_eq!(r, sint(expect[i].1));
        assert_eq!(q.mul_ibig(&sint(y)).add_ibig(&r), sint(x));
    }
}

#[test]
fn test_division_by_word() {
    let a = ubig(0xdead_beef_cafe_babe);
    let (q, r) = a.div_rem_word(1000);
    assert_eq!(q, ubig(0xdead_beef_cafe_babe / 1000));
    assert_eq!(r, 0xdead_beef_cafe_babe % 1000);
}

#[test]
fn test_shift_laws_samples() {
    // a << k multiplies by 2^k exactly; a >> k divides, truncating
    let a = ubig(0b1011);
    assert_eq!(a.shl(3), ubig(0b1011000));
    assert_eq!(a.shr(1), ubig(0b101));
    assert_eq!(a.shr(4), ubig(0));
    let wide = ubig(1).shl(100);
    assert_eq!(wide.shr(100), ubig(1));
    assert_eq!(wide.shr(101), ubig(0));
    // shifting a negative value moves the magnitude and keeps the sign
    let n = sint(-5);
    assert_eq!(n.shr(1), sint(-2));
    assert_eq!(n.shl(2), sint(-20));
}

#[test]
fn test_comparison() {
    let a = ubig(1).shl(64);
    let b = ubig(u64::MAX);
    assert!(b.lt(&a));
    assert!(b.le(&a));
    assert!(!a.lt(&b));
    assert!(a.le(&a));
    assert_eq!(a.cmp_with(&b), 1);
    assert_eq!(b.cmp_with(&a), -1);
    assert_eq!(a.cmp_with(&a), 0);
}

#[test]
fn test_pow() {
    assert_eq!(ubig(2).pow(10), ubig(1024));
    assert_eq!(ubig(7).pow(0), ubig(1));
    assert_eq!(ubig(10).pow(19).to_str_radix(10), "10000000000000000000");
}

#[test]
fn test_signed_pow() {
    assert_eq!(sint(-3).pow(3), sint(-27));
    assert_eq!(sint(-3).pow(4), sint(81));
    assert_eq!(sint(-3).pow(0), sint(1));
    assert_eq!(sint(2).pow(5), sint(32));
}

#[test]
fn test_bit_len() {
    assert_eq!(ubig(0).bit_len(), 0);
    assert_eq!(ubig(1).bit_len(), 1);
    assert_eq!(ubig(0xff).bit_len(), 8);
    assert_eq!(ubig(1).shl(64).bit_len(), 65);
}
