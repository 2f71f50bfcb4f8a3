//! Hex and byte-vector utilities: exact values for every formula.

use std::cmp::Ordering;
use stegos_core::utils::{
    hexstr_to_bev_u8, hexstr_to_lev_u8, is_one_bits, is_zero_bits, print_nbits, u8v_to_hexstr,
    ucmp_be, ucmp_le, ushr_be, ushr_le, CryptoError,
};

#[test]
fn hex_encoding_is_two_lowercase_digits_per_byte() {
    assert_eq!(u8v_to_hexstr(&vec![]), "");
    assert_eq!(u8v_to_hexstr(&vec![0xde, 0xad, 0x01]), "dead01");
    assert_eq!(u8v_to_hexstr(&vec![0x00, 0xff]), "00ff");
}

#[test]
fn hex_decoding_big_endian_pads_the_tail_with_zeroes() {
    let mut x = vec![0xaau8; 4];
    assert_eq!(hexstr_to_bev_u8("dead", &mut x), Ok(()));
    assert_eq!(x, vec![0xde, 0xad, 0x00, 0x00]);
}

#[test]
fn hex_decoding_reads_an_odd_count_with_a_leading_zero() {
    let mut x = vec![0u8; 2];
    assert_eq!(hexstr_to_bev_u8("f", &mut x), Ok(()));
    assert_eq!(x, vec![0x0f, 0x00]);
}

#[test]
fn hex_decoding_accepts_mixed_case() {
    let mut x = vec![0u8; 2];
    assert_eq!(hexstr_to_bev_u8("DeAd", &mut x), Ok(()));
    assert_eq!(x, vec![0xde, 0xad]);
}

#[test]
fn hex_decoding_rejects_bad_digits() {
    let mut x = vec![0u8; 2];
    assert_eq!(hexstr_to_bev_u8("zz", &mut x), Err(CryptoError::InvalidHex));
}

#[test]
fn hex_decoding_rejects_a_value_wider_than_the_output() {
    let mut x = vec![0u8; 1];
    assert_eq!(hexstr_to_bev_u8("dead", &mut x), Err(CryptoError::InvalidHexLength));
}

#[test]
fn hex_decoding_little_endian_reverses_the_bytes() {
    let mut x = vec![0xaau8; 4];
    assert_eq!(hexstr_to_lev_u8("dead", &mut x), Ok(true));
    assert_eq!(x, vec![0xad, 0xde, 0x00, 0x00]);
}

#[test]
fn print_nbits_renders_the_lowest_bits_first() {
    assert_eq!(print_nbits(&vec![0b0000_0101], 3), "[101]");
    assert_eq!(print_nbits(&vec![0xff, 0x00], 10), "[1111111100]");
    assert_eq!(print_nbits(&vec![], 0), "[]");
}

#[test]
fn zero_and_one_scans_report_the_final_fold_step() {
    assert!(!is_zero_bits(&vec![]));
    assert!(is_zero_bits(&vec![0, 0]));
    assert!(is_zero_bits(&vec![1, 0]));
    assert!(!is_zero_bits(&vec![0, 1]));
    assert!(!is_one_bits(&vec![]));
    assert!(is_one_bits(&vec![0xff]));
    assert!(is_one_bits(&vec![0x00, 0xff]));
    assert!(!is_one_bits(&vec![0xff, 0xfe]));
}

#[test]
fn big_endian_compare_decides_on_the_first_differing_byte() {
    assert_eq!(ucmp_be(&vec![1, 2], &vec![1, 3]), Ordering::Less);
    assert_eq!(ucmp_be(&vec![2, 0], &vec![1, 9]), Ordering::Greater);
    assert_eq!(ucmp_be(&vec![7, 7], &vec![7, 7]), Ordering::Equal);
    // only the common prefix is compared
    assert_eq!(ucmp_be(&vec![1], &vec![1, 2]), Ordering::Equal);
}

#[test]
fn little_endian_compare_decides_on_the_highest_differing_byte() {
    assert_eq!(ucmp_le(&vec![9, 1], &vec![0, 2]), Ordering::Less);
    assert_eq!(ucmp_le(&vec![2, 1], &vec![3, 1]), Ordering::Less);
    assert_eq!(ucmp_le(&vec![3, 1], &vec![2, 1]), Ordering::Greater);
    assert_eq!(ucmp_le(&vec![5, 5], &vec![5, 5]), Ordering::Equal);
}

#[test]
fn big_endian_shift_carries_bits_into_the_next_byte() {
    let src = vec![0x01, 0x00];
    let mut dst = vec![0u8; 2];
    ushr_be(&src, &mut dst, 1);
    assert_eq!(dst, vec![0x00, 0x80]);

    let src2 = vec![0xff, 0x00];
    let mut dst2 = vec![0u8; 2];
    ushr_be(&src2, &mut dst2, 4);
    assert_eq!(dst2, vec![0x0f, 0xf0]);
}

#[test]
fn big_endian_shift_by_the_whole_width_zeroes_everything() {
    let src = vec![0xff, 0xff];
    let mut dst = vec![0xaau8; 2];
    ushr_be(&src, &mut dst, 16);
    assert_eq!(dst, vec![0x00, 0x00]);
}

#[test]
fn little_endian_shift_carries_bits_downward() {
    let src = vec![0x00, 0x01];
    let mut dst = vec![0u8; 2];
    ushr_le(&src, &mut dst, 1);
    assert_eq!(dst, vec![0x80, 0x00]);

    let src2 = vec![0x00, 0xff];
    let mut dst2 = vec![0u8; 2];
    ushr_le(&src2, &mut dst2, 4);
    assert_eq!(dst2, vec![0xf0, 0x0f]);
}
