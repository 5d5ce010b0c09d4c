//! Byte and machine-integer conversions.

use ibig::convert::{signed_from_ubig, ubig_from_signed, ubig_from_unsigned, unsigned_from_ubig};
use ibig::primitive::{word_from_be_bytes_partial, word_from_le_bytes_partial};
use ibig::ubig::UBig;

#[test]
fn test_word_from_le_bytes_partial() {
    assert_eq!(word_from_le_bytes_partial(&[1, 2]), 0x0201);
}

#[test]
fn test_word_from_be_bytes_partial() {
    assert_eq!(word_from_be_bytes_partial(&[1, 2]), 0x0102);
}

#[test]
fn test_from_be_bytes_scenario() {
    let u = UBig::from_be_bytes(&[1, 2, 3]);
    assert_eq!(u.to_str_radix(10), "66051");
    assert_eq!(u.to_be_bytes(), vec![1, 2, 3]);
}

#[test]
fn test_le_bytes_round_trip() {
    let cases: Vec<Vec<u8>> = vec![
        vec![],
        vec![1],
        vec![3, 2, 1],
        vec![0xff; 8],
        vec![0xab; 17],
    ];
    for bytes in cases {
        let u = UBig::from_le_bytes(&bytes);
        let back = UBig::from_le_bytes(&u.to_le_bytes());
        assert_eq!(u, back);
    }
}

#[test]
fn test_be_bytes_round_trip() {
    let u = UBig::from_be_bytes(&[9, 8, 7, 6, 5, 4, 3, 2, 1, 0, 1, 2]);
    let back = UBig::from_be_bytes(&u.to_be_bytes());
    assert_eq!(u, back);
}

#[test]
fn test_to_le_bytes_zero_is_empty() {
    assert!(UBig::from_word(0).to_le_bytes().is_empty());
    assert!(UBig::from_word(0).to_be_bytes().is_empty());
    assert_eq!(UBig::from_word(0x010203).to_le_bytes(), vec![3, 2, 1]);
}

#[test]
fn test_machine_int_round_trip() {
    let big: u128 = 0x1234_5678_9abc_def0_1122_3344_5566_7788;
    let u = ubig_from_unsigned(big);
    assert_eq!(unsigned_from_ubig(&u), Ok(big));
    let small = ubig_from_unsigned(42);
    assert_eq!(unsigned_from_ubig(&small), Ok(42));
}

#[test]
fn test_out_of_range_conversions() {
    assert!(ubig_from_signed(-1).is_err());
    assert_eq!(
        ubig_from_signed(7).map(|u| unsigned_from_ubig(&u).unwrap()),
        Ok(7)
    );
    // three words never fit a double word
    let too_big = UBig::from_word(1).shl(130);
    assert!(unsigned_from_ubig(&too_big).is_err());
    assert!(signed_from_ubig(&too_big).is_err());
    let max_plus = UBig::from_word(1).shl(127);
    assert!(signed_from_ubig(&max_plus).is_err());
    assert!(unsigned_from_ubig(&max_plus).is_ok());
}
