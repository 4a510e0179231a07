//! Powers of two and the bit facts that the block codes rest on.

use vstd::prelude::*;

verus! {

/// `x` is a power of two: 1, 2, 4, 8, ...
pub open spec fn is_pow2(x: nat) -> bool
    decreases x,
{
    if x == 0 {
        false
    } else if x == 1 {
        true
    } else {
        x % 2 == 0 && is_pow2(x / 2)
    }
}

/// The classic bit test agrees with the arithmetic definition.
pub proof fn lemma_pow2_bit_test(x: usize)
    ensures
        is_pow2(x as nat) == (x != 0 && x & ((x - 1) as usize) == 0),
    decreases x,
{
    if x == 0 {
    } else if x == 1 {
        assert(1usize & 0usize == 0) by (bit_vector);
    } else if x % 2 == 1 {
        assert(x > 1 && x % 2 == 1 ==> x & ((x - 1) as usize) != 0) by (bit_vector);
    } else {
        let h: usize = x / 2;
        lemma_pow2_bit_test(h);
        assert(x > 1 && x % 2 == 0 && h == x / 2 ==> ((x & ((x - 1) as usize) == 0) == (h & ((h - 1) as usize) == 0)))
            by (bit_vector);
    }
}

/// Tells whether `i` is a power of two.
pub fn is_power_of_two(i: usize) -> (r: bool)
    ensures
        r == is_pow2(i as nat),
{
    proof {
        lemma_pow2_bit_test(i);
    }
    i != 0 && (i & (i - 1)) == 0
}

/// Between `2^j` and `2^(j+1)` there is no other power of two.
pub proof fn lemma_no_pow2_between(j: usize, x: usize)
    requires
        j < usize::BITS,
        (1usize << j) < x,
        x - (1usize << j) < (1usize << j),
    ensures
        !is_pow2(x as nat),
{
    lemma_pow2_bit_test(x);
    assert(j < usize::BITS && (1usize << j) < x && ((x - (1usize << j)) as usize) < (1usize << j)
        ==> x & ((x - 1) as usize) != 0) by (bit_vector);
}

/// Flipping a 0/1 byte.
pub proof fn lemma_flip_01()
    by (bit_vector)
    ensures
        0u8 ^ 1u8 == 1u8,
        1u8 ^ 1u8 == 0u8,
{
}

/// A nonzero value is nonzero after a shift by 0.
pub proof fn lemma_shift_zero_nonzero(p: usize)
    by (bit_vector)
    requires
        p != 0,
    ensures
        p >> 0usize != 0,
{
}

/// Sizes of a block of `2^m - 1` positions and of its upper half.
pub proof fn lemma_block_size(m: usize)
    by (bit_vector)
    requires
        1 <= m < usize::BITS,
    ensures
        (1usize << m) >= 2,
        ((1usize << m) - 1) as usize >= m,
        m >= 2 ==> (1usize << m) >= 4 && ((1usize << m) - 1) as usize >= m + 1,
        (1usize << ((m - 1) as usize)) <= ((1usize << m) - 1) as usize,
        ((((1usize << m) - 1) as usize) - (1usize << ((m - 1) as usize))) < (1usize << ((m - 1)
            as usize)),
        ((((1usize << ((m - 1) as usize)) - 1) as usize) | (1usize << ((m - 1) as usize))) == ((
        1usize << m) - 1) as usize,
{
}

/// Raising a shift bound by one admits exactly one more power of two, `2^j`.
pub proof fn lemma_pow2_shift_step(p: usize, j: usize)
    requires
        is_pow2(p as nat),
        j < usize::BITS,
    ensures
        (p >> ((j + 1) as usize) == 0) == (p >> j == 0 || p == (1usize << j)),
        (1usize << j) >> j != 0,
{
    lemma_pow2_bit_test(p);
    assert(p != 0 && p & ((p - 1) as usize) == 0 && j < usize::BITS ==> ((p >> ((j + 1) as usize)
        == 0) == (p >> j == 0 || p == (1usize << j))) && (1usize << j) >> j != 0) by (bit_vector);
}

/// Bit `j` of `s` is set exactly when `s` shares a bit with `2^j`.
pub proof fn lemma_bit_test_shift(s: usize, j: usize)
    by (bit_vector)
    requires
        j < usize::BITS,
    ensures
        ((s >> j) & 1 == 1) == (s & (1usize << j) != 0),
{
}

} // verus!
