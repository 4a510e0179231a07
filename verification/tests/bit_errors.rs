use hamming_link::ber::count_bit_errors;
use hamming_link::hamming::{hamming_decode, hamming_encode};

#[test]
fn counts_differences_over_common_length() {
    assert_eq!(count_bit_errors(&[0, 1, 1, 0], &[0, 1, 1, 0]), (0, 4));
    assert_eq!(count_bit_errors(&[0, 1, 1, 0], &[1, 1, 0, 0]), (2, 4));
    assert_eq!(count_bit_errors(&[0, 1, 1, 0, 1, 1], &[1, 1]), (1, 2));
    assert_eq!(count_bit_errors(&[1], &[0, 0, 0]), (1, 1));
    assert_eq!(count_bit_errors(&[], &[1, 0]), (0, 0));
}

#[test]
fn counting_is_symmetric() {
    let a = [1u8, 0, 0, 1, 1];
    let b = [1u8, 1, 0, 0];
    assert_eq!(count_bit_errors(&a, &b), count_bit_errors(&b, &a));
}

#[test]
fn error_free_link_has_no_bit_errors() {
    let info: Vec<u8> = (0..97).map(|i| (i % 5 % 2) as u8).collect();
    let out = hamming_decode(&hamming_encode(&info, 15, 11), 15, 11);
    assert_eq!(count_bit_errors(&out, &info), (0, info.len()));
}
