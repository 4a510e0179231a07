use hamming_link::bits::is_power_of_two;
use hamming_link::hamming::{apply_hamming, decode_hamming, hamming_decode, hamming_encode};

#[test]
fn power_of_two_detection() {
    assert!(!is_power_of_two(0));
    assert!(is_power_of_two(1));
    assert!(is_power_of_two(2));
    assert!(!is_power_of_two(3));
    assert!(is_power_of_two(4));
    assert!(!is_power_of_two(6));
    assert!(!is_power_of_two(7));
    assert!(is_power_of_two(8));
    assert!(is_power_of_two(1usize << 40));
    assert!(!is_power_of_two((1usize << 40) + 1));
}

#[test]
fn encode_7_4_single_block() {
    // data bits go to positions 3, 5, 6, 7; parity bits to 1, 2, 4
    assert_eq!(hamming_encode(&[1, 0, 1, 1], 7, 4), vec![0, 1, 1, 0, 0, 1, 1]);
    assert_eq!(hamming_encode(&[0, 0, 0, 0], 7, 4), vec![0; 7]);
    assert_eq!(hamming_encode(&[1, 1, 1, 1], 7, 4), vec![1, 1, 1, 1, 1, 1, 1]);
    assert_eq!(hamming_encode(&[1, 0, 0, 0], 7, 4), vec![1, 1, 1, 0, 0, 0, 0]);
}

#[test]
fn encode_pads_last_block_with_zeros() {
    let out = hamming_encode(&[1, 0, 1, 1, 1], 7, 4);
    assert_eq!(out.len(), 14);
    assert_eq!(&out[..7], &[0, 1, 1, 0, 0, 1, 1]);
    assert_eq!(&out[7..], &hamming_encode(&[1, 0, 0, 0], 7, 4)[..]);
}

#[test]
fn encode_empty_input() {
    assert!(hamming_encode(&[], 7, 4).is_empty());
    assert!(hamming_encode(&[], 0, 0).is_empty());
    assert!(apply_hamming(&[], 3).is_empty());
}

#[test]
fn encode_reads_past_the_group_when_block_has_more_data_positions() {
    // (7, 5): two parity bits (positions 1 and 2), the four data positions of
    // the block take data[0..4] although a group is 5 bits long
    let out = hamming_encode(&[1, 1, 1, 1, 1, 1], 7, 5);
    assert_eq!(out.len(), 14);
    // block 1: data 1,1,1,1 at 3,5,6,7 -> syndrome 3^5^6^7 = 7; only bits 0 and 1
    // have parity positions
    assert_eq!(&out[..7], &[1, 1, 1, 0, 1, 1, 1]);
    // block 2 starts at data[5]: one 1 at position 3 -> syndrome 3 -> p1 = p2 = 1
    assert_eq!(&out[7..], &[1, 1, 1, 0, 0, 0, 0]);
}

#[test]
fn apply_hamming_matches_hamming_encode() {
    let data: Vec<u8> = (0..50).map(|i| ((i * 7 + i / 3) % 2) as u8).collect();
    assert_eq!(apply_hamming(&data, 3), hamming_encode(&data, 7, 4));
    assert_eq!(apply_hamming(&data, 4), hamming_encode(&data, 15, 11));
    assert_eq!(apply_hamming(&data, 2), hamming_encode(&data, 3, 1));
    assert_eq!(apply_hamming(&[1, 0, 1, 1], 3), vec![0, 1, 1, 0, 0, 1, 1]);
}

#[test]
fn decode_corrects_one_flipped_bit() {
    let cw = vec![0u8, 1, 1, 0, 0, 1, 1];
    assert_eq!(hamming_decode(&cw, 7, 4), vec![1, 0, 1, 1]);
    for e in 0..7 {
        let mut bad = cw.clone();
        bad[e] ^= 1;
        assert_eq!(hamming_decode(&bad, 7, 4), vec![1, 0, 1, 1]);
        assert_eq!(decode_hamming(&bad, 3), vec![1, 0, 1, 1]);
    }
}

#[test]
fn decode_two_flips_miscorrects() {
    // two errors in one block are beyond the code: syndrome 1 ^ 2 = 3 flips position 3
    let bad = vec![1u8, 0, 1, 0, 0, 1, 1];
    assert_eq!(hamming_decode(&bad, 7, 4), vec![0, 0, 1, 1]);
}

#[test]
fn decode_drops_incomplete_tail() {
    let mut stream = vec![0u8, 1, 1, 0, 0, 1, 1];
    stream.extend_from_slice(&[1, 1, 1]);
    assert_eq!(hamming_decode(&stream, 7, 4), vec![1, 0, 1, 1]);
    assert!(hamming_decode(&[1, 1, 1], 7, 4).is_empty());
    assert!(decode_hamming(&[], 4).is_empty());
}

#[test]
fn decode_syndrome_out_of_block_is_left_alone() {
    // (5, 2): positions 3 and 5 carry data; 3 ^ 5 = 6 names no position of the block
    assert_eq!(hamming_decode(&[0, 0, 1, 0, 1], 5, 2), vec![1, 1]);
}

#[test]
fn round_trip_7_4_with_padding() {
    let data = vec![1u8, 0, 1, 1, 1];
    let out = hamming_decode(&hamming_encode(&data, 7, 4), 7, 4);
    assert_eq!(out, vec![1, 0, 1, 1, 1, 0, 0, 0]);
}

#[test]
fn round_trip_15_11_every_single_error() {
    let data: Vec<u8> = (0..33).map(|i| ((i * i + 1) % 3 % 2) as u8).collect();
    let coded = apply_hamming(&data, 4);
    assert_eq!(coded.len(), 45);
    assert_eq!(decode_hamming(&coded, 4), data);
    for e in 0..coded.len() {
        let mut bad = coded.clone();
        bad[e] ^= 1;
        assert_eq!(decode_hamming(&bad, 4), data);
    }
}

#[test]
fn encoded_and_decoded_lengths() {
    let data = vec![1u8; 976];
    assert_eq!(hamming_encode(&data, 7, 4).len(), 244 * 7);
    assert_eq!(hamming_encode(&data, 15, 11).len(), 89 * 15);
    assert_eq!(hamming_decode(&vec![0u8; 100], 7, 4).len(), 14 * 4);
}

#[test]
fn codewords_7_4_are_at_distance_at_least_three() {
    let words: Vec<Vec<u8>> = (0..16u8)
        .map(|v| (0..4).map(|b| (v >> b) & 1).collect())
        .collect();
    let mut min_distance = usize::MAX;
    for a in &words {
        for b in &words {
            if a != b {
                let ea = hamming_encode(a, 7, 4);
                let eb = hamming_encode(b, 7, 4);
                let d = ea.iter().zip(eb.iter()).filter(|(x, y)| x != y).count();
                assert!(d >= 3);
                min_distance = min_distance.min(d);
            }
        }
    }
    assert_eq!(min_distance, 3);
}

#[test]
fn one_flip_in_every_block_is_corrected() {
    let data: Vec<u8> = (0..44).map(|i| ((i * 3 + i / 5) % 2) as u8).collect();
    let coded = hamming_encode(&data, 15, 11);
    assert_eq!(coded.len(), 60);
    for shift in 0..15 {
        let mut bad = coded.clone();
        for block in 0..4 {
            bad[block * 15 + (shift + block * 4) % 15] ^= 1;
        }
        assert_eq!(hamming_decode(&bad, 15, 11), data);
    }
}
