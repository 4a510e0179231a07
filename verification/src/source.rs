//! Random information bits.

use vstd::prelude::*;
use rand::Rng;
use rand::rngs::StdRng;

verus! {

#[verifier::external_type_specification]
#[verifier::external_body]
pub struct ExStdRng(StdRng);

/// One call of `rand::Rng::gen_range(0..=1)` on `rng`: the generator picks
/// 0 or 1. Which one is left to chance and is not stated.
#[verifier::external_body]
fn draw_bit(rng: &mut StdRng) -> (b: u8)
    ensures
        b <= 1,
{
    rng.gen_range(0..=1)
}

/// `count` information bits, each 0 or 1, drawn one after another from `rng`.
pub fn random_bits(rng: &mut StdRng, count: usize) -> (bits: Vec<u8>)
    ensures
        bits@.len() == count,
        forall|i: int| 0 <= i < count ==> #[trigger] bits@[i] <= 1,
{
    let mut bits: Vec<u8> = Vec::new();
    let mut i: usize = 0;
    while i < count
        invariant
            i <= count,
            bits@.len() == i,
            forall|j: int| 0 <= j < i ==> #[trigger] bits@[j] <= 1,
        decreases count - i,
    {
        let b = draw_bit(rng);
        bits.push(b);
        i = i + 1;
    }
    bits
}

} // verus!
