use hamming_link::text::string_to_bits;

#[test]
fn test_word_to_bits() {
    let bits = string_to_bits("Test");
    let expected: Vec<u8> = vec![
        1, 0, 1, 0, 1, 0, 0, // T = 84
        1, 1, 0, 0, 1, 0, 1, // e = 101
        1, 1, 1, 0, 0, 1, 1, // s = 115
        1, 1, 1, 0, 1, 0, 0, // t = 116
    ];
    assert_eq!(bits, expected);
}

#[test]
fn control_characters_are_skipped() {
    assert!(string_to_bits("\n\t\u{1f}").is_empty());
    assert_eq!(string_to_bits(" "), vec![0, 1, 0, 0, 0, 0, 0]);
    assert_eq!(string_to_bits("\u{7f}"), vec![1, 1, 1, 1, 1, 1, 1]);
    assert!(string_to_bits("").is_empty());
}

#[test]
fn wide_characters_are_cut_to_their_low_byte() {
    // U+0142 has low byte 0x42 ('B'), U+00E9 has low byte 0xE9 (skipped)
    assert_eq!(string_to_bits("\u{142}"), vec![1, 0, 0, 0, 0, 1, 0]);
    assert!(string_to_bits("\u{e9}").is_empty());
}

#[test]
fn bit_stream_is_binary_and_a_multiple_of_seven() {
    let bits = string_to_bits("Hello, world! \u{105}\u{142}");
    assert_eq!(bits.len() % 7, 0);
    assert!(bits.iter().all(|&b| b <= 1));
}
