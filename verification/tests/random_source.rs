use hamming_link::source::random_bits;
use rand::rngs::StdRng;
use rand::SeedableRng;

#[test]
fn random_bits_are_binary_with_requested_length() {
    let mut rng = StdRng::seed_from_u64(2026);
    let bits = random_bits(&mut rng, 976);
    assert_eq!(bits.len(), 976);
    assert!(bits.iter().all(|&b| b <= 1));
    // a fair source gives both values
    assert!(bits.iter().any(|&b| b == 0));
    assert!(bits.iter().any(|&b| b == 1));
}

#[test]
fn same_seed_same_bits() {
    let mut a = StdRng::seed_from_u64(7);
    let mut b = StdRng::seed_from_u64(7);
    assert_eq!(random_bits(&mut a, 64), random_bits(&mut b, 64));
    assert!(random_bits(&mut a, 0).is_empty());
}
