//! Hamming block codes over a stream of bits.
//!
//! A block has `n` positions numbered from 1. Data bits go, in order, to the
//! positions that are not powers of two; the position `2^j` carries parity bit
//! `j`. The syndrome of a block is the XOR of the positions that hold a 1: it
//! is 0 for a codeword, and a single flipped bit makes it name that position.

use vstd::prelude::*;
use crate::bits::{is_pow2, is_power_of_two, lemma_no_pow2_between, lemma_pow2_bit_test};

verus! {

/// XOR of the positions among `1..=m` whose entry is 1.
pub open spec fn syndrome(block: Seq<u8>, m: int) -> usize
    decreases m,
{
    if m <= 0 {
        0
    } else if block[m - 1] == 1 {
        syndrome(block, m - 1) ^ (m as usize)
    } else {
        syndrome(block, m - 1)
    }
}

/// How many of the positions `1..=m` carry data (are not powers of two).
pub open spec fn data_positions(m: int) -> nat
    decreases m,
{
    if m <= 0 {
        0
    } else if is_pow2(m as nat) {
        data_positions(m - 1)
    } else {
        data_positions(m - 1) + 1
    }
}

/// Entry `i` of `data`, or 0 past its end.
pub open spec fn bit_or_zero(data: Seq<u8>, i: int) -> u8 {
    if 0 <= i < data.len() {
        data[i]
    } else {
        0
    }
}

/// A block of `n` positions holding the front of `data` at its data positions
/// and 0 at its parity positions.
pub open spec fn spread(data: Seq<u8>, n: nat) -> Seq<u8> {
    Seq::new(
        n,
        |i: int|
            if is_pow2((i + 1) as nat) {
                0u8
            } else {
                bit_or_zero(data, data_positions(i) as int)
            },
    )
}

/// Parity position `p` (a power of two, `p = 2^j`) is set when bit `j` of the
/// syndrome `s` is set and `j < r`.
pub open spec fn parity_set(s: usize, p: usize, r: usize) -> bool {
    s & p != 0 && p >> r == 0
}

/// The block of `n` positions that encodes the front of `data` with `r` parity
/// bits.
pub open spec fn codeword(data: Seq<u8>, n: nat, r: usize) -> Seq<u8> {
    let base = spread(data, n);
    let s = syndrome(base, n as int);
    Seq::new(
        n,
        |i: int|
            if is_pow2((i + 1) as nat) && parity_set(s, (i + 1) as usize, r) {
                1u8
            } else {
                base[i]
            },
    )
}

/// The encoding of `data`: one codeword of `n` positions for each started
/// group of `k` data bits, with `n - k` parity bits.
pub open spec fn encoded(data: Seq<u8>, n: nat, k: nat) -> Seq<u8>
    decreases data.len(),
{
    if k == 0 || data.len() == 0 {
        Seq::empty()
    } else {
        codeword(data, n, (n - k) as usize) + if data.len() <= k {
            Seq::empty()
        } else {
            encoded(data.skip(k as int), n, k)
        }
    }
}

/// The data positions of the first `m` positions of `block`, in order.
pub open spec fn extract(block: Seq<u8>, m: int) -> Seq<u8>
    decreases m,
{
    if m <= 0 {
        Seq::empty()
    } else if is_pow2(m as nat) {
        extract(block, m - 1)
    } else {
        extract(block, m - 1).push(block[m - 1])
    }
}

/// A block of `n` positions after single-error correction: when the syndrome
/// names a position of the block, that entry is flipped.
pub open spec fn corrected(block: Seq<u8>, n: nat) -> Seq<u8> {
    let s = syndrome(block, n as int);
    if s != 0 && s <= n {
        block.update(s - 1, block[s - 1] ^ 1)
    } else {
        block
    }
}

/// The data bits that one received block of `n` positions decodes to.
pub open spec fn decode_block(block: Seq<u8>, n: nat) -> Seq<u8> {
    extract(corrected(block, n), n as int)
}

/// The decoding of a received stream: each complete block of `n` positions is
/// corrected and its data bits kept; an incomplete tail is dropped.
pub open spec fn decoded(coded: Seq<u8>, n: nat) -> Seq<u8>
    decreases coded.len(),
{
    if n == 0 || coded.len() < n {
        Seq::empty()
    } else {
        decode_block(coded.take(n as int), n) + decoded(coded.skip(n as int), n)
    }
}

// ---------------------------------------------------------------------------
// Bit facts about powers of two.

proof fn lemma_shift_is_pow2(j: usize)
    requires
        j < usize::BITS,
    ensures
        is_pow2((1usize << j) as nat),
        (1usize << j) != 0,
{
    let q: usize = 1usize << j;
    assert(j < usize::BITS ==> (1usize << j) != 0 && (1usize << j) & (((1usize << j) - 1) as usize) == 0)
        by (bit_vector);
    lemma_pow2_bit_test(q);
}

/// A position below a power of two shares no bit with it.
proof fn lemma_below_pow2_disjoint(p: usize, q: usize)
    requires
        is_pow2(q as nat),
        p < q,
    ensures
        p & q == 0,
{
    lemma_pow2_bit_test(q);
    assert(q != 0 && q & ((q - 1) as usize) == 0 && p < q ==> p & q == 0) by (bit_vector);
}

/// The syndrome of positions below a power of two has that bit clear.
pub proof fn lemma_syndrome_below(block: Seq<u8>, m: int, q: usize)
    requires
        is_pow2(q as nat),
        m < q,
    ensures
        syndrome(block, m) & q == 0,
    decreases m,
{
    if m <= 0 {
        assert(0usize & q == 0) by (bit_vector);
    } else {
        lemma_syndrome_below(block, m - 1, q);
        let a = syndrome(block, m - 1);
        let p = m as usize;
        lemma_below_pow2_disjoint(p, q);
        assert(a & q == 0 && p & q == 0 ==> (a ^ p) & q == 0) by (bit_vector);
    }
}

// ---------------------------------------------------------------------------
// Encoding.

/// Encodes `data` with a Hamming code of block length `n` and `k` data bits
/// per block: each group of `k` data bits starts a block of `n` positions
/// whose non-power-of-two positions take the data bits from there on (0 past
/// the end of `data`) and whose position `2^j`, for `j < n - k`, takes bit
/// `j` of the XOR of the data positions holding a 1.
pub fn hamming_encode(data: &[u8], n: usize, k: usize) -> (out: Vec<u8>)
    requires
        k <= n,
        data.len() > 0 ==> k > 0 && n - k <= usize::BITS,
    ensures
        out@ == encoded(data@, n as nat, k as nat),
{
    let r: usize = n - k;
    let mut out: Vec<u8> = Vec::new();
    let mut idx: usize = 0;
    assert(data@.skip(0) =~= data@);
    while idx < data.len()
        invariant
            k <= n,
            r == n - k,
            data.len() > 0 ==> k > 0 && r <= usize::BITS,
            idx <= data.len(),
            out@ + encoded(data@.skip(idx as int), n as nat, k as nat) == encoded(
                data@,
                n as nat,
                k as nat,
            ),
        decreases data.len() - idx,
    {
        let ghost rest = data@.skip(idx as int);
        let block = encode_one_block(data, idx, n, r);
        let ghost prev = out@;
        let ghost bv = block@;
        let mut block = block;
        out.append(&mut block);
        if data.len() - idx <= k {
            proof {
                assert(data@.skip(data.len() as int) =~= Seq::<u8>::empty());
                assert(out@ =~= prev + (bv + Seq::<u8>::empty()));
            }
            idx = data.len();
        } else {
            proof {
                assert(rest.skip(k as int) =~= data@.skip(idx + k));
                assert(prev + (bv + encoded(rest.skip(k as int), n as nat, k as nat)) =~= out@
                    + encoded(data@.skip(idx + k), n as nat, k as nat));
            }
            idx = idx + k;
        }
    }
    proof {
        assert(data@.skip(idx as int) =~= Seq::<u8>::empty());
        assert(out@ + Seq::<u8>::empty() =~= out@);
    }
    out
}

/// The codeword that starts at `data[idx]`.
fn encode_one_block(data: &[u8], idx: usize, n: usize, r: usize) -> (block: Vec<u8>)
    requires
        idx < data.len(),
        r <= usize::BITS,
    ensures
        block@ == codeword(data@.skip(idx as int), n as nat, r),
{
    let ghost rest = data@.skip(idx as int);
    let mut block: Vec<u8> = vec![0u8; n];
    let mut t: usize = 0;
    let mut i: usize = 0;
    while i < n
        invariant
            idx < data.len(),
            rest == data@.skip(idx as int),
            i <= n,
            block@.len() == n,
            t == data_positions(i as int),
            t <= i,
            forall|x: int| 0 <= x < i ==> block@[x] == #[trigger] spread(rest, n as nat)[x],
            forall|x: int| i <= x < n ==> block@[x] == 0,
        decreases n - i,
    {
        if !is_power_of_two(i + 1) {
            let v: u8 = if t < data.len() - idx {
                data[idx + t]
            } else {
                0
            };
            block.set(i, v);
            t = t + 1;
        }
        i = i + 1;
    }
    let ghost base = spread(rest, n as nat);
    assert(block@ =~= base);
    let s = block_syndrome(&block);
    assert forall|x: int| 0 <= x < n implies #[trigger] block@[x] == (if is_pow2((x + 1) as nat)
        && s & ((x + 1) as usize) != 0 && ((x + 1) as usize) >> 0usize == 0 {
        1u8
    } else {
        base[x]
    }) by {
        let p: usize = (x + 1) as usize;
        crate::bits::lemma_shift_zero_nonzero(p);
    }
    let mut j: usize = 0;
    while j < r
        invariant
            r <= usize::BITS,
            j <= r,
            block@.len() == n,
            s == syndrome(base, n as int),
            base.len() == n,
            forall|x: int|
                0 <= x < n ==> #[trigger] block@[x] == (if is_pow2((x + 1) as nat) && s & ((x
                    + 1) as usize) != 0 && ((x + 1) as usize) >> j == 0 {
                    1u8
                } else {
                    base[x]
                }),
        decreases r - j,
    {
        let ghost q: usize = 1usize << j;
        proof {
            crate::bits::lemma_bit_test_shift(s, j);
            lemma_shift_is_pow2(j);
        }
        if (s >> j) & 1 == 1 {
            proof {
                if (n as int) < q {
                    lemma_syndrome_below(base, n as int, q);
                }
            }
            block.set((1usize << j) - 1, 1);
        }
        proof {
            assert forall|x: int| 0 <= x < n implies #[trigger] block@[x] == (if is_pow2(
                (x + 1) as nat,
            ) && s & ((x + 1) as usize) != 0 && ((x + 1) as usize) >> ((j + 1) as usize) == 0 {
                1u8
            } else {
                base[x]
            }) by {
                let p: usize = (x + 1) as usize;
                if is_pow2(p as nat) {
                    crate::bits::lemma_pow2_shift_step(p, j);
                }
            }
        }
        j = j + 1;
    }
    proof {
        assert forall|x: int| 0 <= x < n implies #[trigger] block@[x] == codeword(
            rest,
            n as nat,
            r,
        )[x] by {}
        assert(block@ =~= codeword(rest, n as nat, r));
    }
    block
}

/// The syndrome of a whole block.
fn block_syndrome(block: &Vec<u8>) -> (s: usize)
    ensures
        s == syndrome(block@, block@.len() as int),
{
    let mut s: usize = 0;
    let mut i: usize = 0;
    while i < block.len()
        invariant
            i <= block.len(),
            s == syndrome(block@, i as int),
        decreases block.len() - i,
    {
        if block[i] == 1 {
            s = s ^ (i + 1);
        }
        i = i + 1;
    }
    s
}


// ---------------------------------------------------------------------------
// Decoding.

/// Decodes a stream received from a Hamming code of block length `n`: each
/// complete block of `n` positions whose syndrome names one of its positions
/// has that entry flipped, and its data positions are kept in order; an
/// incomplete tail is dropped.
pub fn hamming_decode(coded: &[u8], n: usize, _k: usize) -> (out: Vec<u8>)
    requires
        n > 0,
    ensures
        out@ == decoded(coded@, n as nat),
{
    let mut out: Vec<u8> = Vec::new();
    let mut idx: usize = 0;
    assert(coded@.skip(0) =~= coded@);
    while n <= coded.len() - idx
        invariant
            n > 0,
            idx <= coded.len(),
            out@ + decoded(coded@.skip(idx as int), n as nat) == decoded(coded@, n as nat),
        decreases coded.len() - idx,
    {
        let ghost prev = out@;
        let ghost rest = coded@.skip(idx as int);
        decode_one_block(coded, idx, n, &mut out);
        proof {
            assert(rest.take(n as int) =~= coded@.subrange(idx as int, idx + n));
            assert(rest.skip(n as int) =~= coded@.skip(idx + n));
            assert(prev + (decode_block(rest.take(n as int), n as nat) + decoded(
                rest.skip(n as int),
                n as nat,
            )) =~= out@ + decoded(coded@.skip(idx + n), n as nat));
        }
        idx = idx + n;
    }
    proof {
        assert(out@ + Seq::<u8>::empty() =~= out@);
    }
    out
}

/// Appends to `out` the data bits of the block `coded[idx..idx + n]`.
fn decode_one_block(coded: &[u8], idx: usize, n: usize, out: &mut Vec<u8>)
    requires
        idx + n <= coded.len(),
    ensures
        final(out)@ == old(out)@ + decode_block(
            coded@.subrange(idx as int, idx + n),
            n as nat,
        ),
{
    let ghost window = coded@.subrange(idx as int, idx + n);
    let mut block: Vec<u8> = Vec::new();
    let mut i: usize = 0;
    while i < n
        invariant
            idx + n <= coded.len(),
            i <= n,
            block@ == coded@.subrange(idx as int, idx + i),
        decreases n - i,
    {
        block.push(coded[idx + i]);
        i = i + 1;
        assert(block@ =~= coded@.subrange(idx as int, idx + i));
    }
    assert(block@ == window);
    let s = block_syndrome(&block);
    if s != 0 && s <= n {
        let v: u8 = block[s - 1] ^ 1;
        block.set(s - 1, v);
    }
    let ghost fixed = block@;
    assert(fixed == corrected(window, n as nat));
    let ghost start = out@;
    let mut i: usize = 0;
    while i < n
        invariant
            i <= n,
            block@ == fixed,
            fixed.len() == n,
            out@ == start + extract(fixed, i as int),
        decreases n - i,
    {
        if !is_power_of_two(i + 1) {
            out.push(block[i]);
        }
        i = i + 1;
    }
}

// ---------------------------------------------------------------------------
// Counting data positions.

/// For `2^j <= x < 2^(j+1)` the positions `1..=x` hold `j + 1` powers of two.
pub proof fn lemma_data_positions_range(j: usize, x: usize)
    requires
        j < usize::BITS,
        (1usize << j) <= x,
        x - (1usize << j) < (1usize << j),
    ensures
        data_positions(x as int) == x - (j + 1),
    decreases x,
{
    if x == (1usize << j) {
        lemma_shift_is_pow2(j);
        assert(is_pow2(x as nat));
        if j == 0 {
            assert(j == 0 ==> 1usize << j == 1usize) by (bit_vector);
            assert(x == 1);
            assert(data_positions(0) == 0);
            assert(data_positions(1) == data_positions(0));
        } else {
            let jm: usize = (j - 1) as usize;
            crate::bits::lemma_block_size(j);
            lemma_data_positions_range(jm, (x - 1) as usize);
        }
    } else {
        lemma_no_pow2_between(j, x);
        lemma_data_positions_range(j, (x - 1) as usize);
    }
}

/// Data positions only accumulate.
pub proof fn lemma_data_positions_monotone(a: int, b: int)
    requires
        a <= b,
    ensures
        data_positions(a) <= data_positions(b),
    decreases b - a,
{
    if a < b {
        lemma_data_positions_monotone(a, b - 1);
    }
}

/// A block of `2^m - 1` positions has `m` parity positions.
pub proof fn lemma_full_block_data_positions(m: usize)
    requires
        1 <= m < usize::BITS,
    ensures
        data_positions(((1usize << m) - 1) as int) == ((1usize << m) - 1) - m,
{
    let jm: usize = (m - 1) as usize;
    crate::bits::lemma_block_size(m);
    lemma_data_positions_range(jm, ((1usize << m) - 1) as usize);
}

// ---------------------------------------------------------------------------
// Codes with `m` parity bits: block length `2^m - 1`, `2^m - 1 - m` data bits.

/// The block length of the Hamming code with `m` parity bits, `2^m - 1`.
pub open spec fn full_block_len(m: u32) -> nat {
    ((1usize << m) - 1) as nat
}

/// Encodes `data` with the Hamming code of `m` parity bits: each group of
/// `2^m - 1 - m` data bits becomes a block of `2^m - 1` positions, the last
/// group padded with 0. The parity bits are built by flipping, for every
/// position `i` that holds a 1, the parity bits of the powers of two in `i`.
pub fn apply_hamming(data: &[u8], m: u32) -> (encoded_bits: Vec<u8>)
    requires
        2 <= m < usize::BITS,
    ensures
        encoded_bits@ == encoded(
            data@,
            full_block_len(m),
            (full_block_len(m) - m) as nat,
        ),
{
    proof {
        crate::bits::lemma_block_size(m as usize);
        lemma_full_block_data_positions(m as usize);
    }
    let n: usize = (1usize << m) - 1;
    let k: usize = n - m as usize;
    let ghost kk: nat = (full_block_len(m) - m) as nat;
    assert(n == full_block_len(m) && k == kk);
    let mut out: Vec<u8> = Vec::new();
    let mut idx: usize = 0;
    assert(data@.skip(0) =~= data@);
    while idx < data.len()
        invariant
            2 <= m < usize::BITS,
            n == full_block_len(m),
            n == (1usize << m) - 1,
            k == n - m,
            k >= 1,
            data_positions(n as int) == k,
            idx <= data.len(),
            out@ + encoded(data@.skip(idx as int), n as nat, k as nat) == encoded(
                data@,
                n as nat,
                k as nat,
            ),
        decreases data.len() - idx,
    {
        let c: usize = if data.len() - idx < k {
            data.len() - idx
        } else {
            k
        };
        let ghost rest = data@.skip(idx as int);
        let mut block = place_chunk(data, idx, c, n, k);
        add_parity_by_flips(&mut block, m, n);
        proof {
            assert(block@ == codeword(rest, n as nat, (n - k) as usize));
        }
        let ghost prev = out@;
        let ghost bv = block@;
        out.append(&mut block);
        if c < k || c == data.len() - idx {
            proof {
                assert(data@.skip(data.len() as int) =~= Seq::<u8>::empty());
                assert(out@ =~= prev + (bv + Seq::<u8>::empty()));
            }
        } else {
            proof {
                assert(rest.skip(k as int) =~= data@.skip(idx + k));
                assert(prev + (bv + encoded(rest.skip(k as int), n as nat, k as nat)) =~= out@
                    + encoded(data@.skip(idx + k), n as nat, k as nat));
            }
        }
        idx = idx + c;
    }
    proof {
        assert(data@.skip(idx as int) =~= Seq::<u8>::empty());
        assert(out@ + Seq::<u8>::empty() =~= out@);
    }
    out
}

/// A block of `n` zeros whose data positions take, in order, the `c` data
/// bits from `data[idx]` on.
fn place_chunk(data: &[u8], idx: usize, c: usize, n: usize, k: usize) -> (block: Vec<u8>)
    requires
        idx < data.len(),
        c <= k,
        c == data.len() - idx || c == k,
        c <= data.len() - idx,
        data_positions(n as int) == k,
    ensures
        block@ == spread(data@.skip(idx as int), n as nat),
{
    let ghost rest = data@.skip(idx as int);
    let mut block: Vec<u8> = vec![0u8; n];
    let mut data_idx: usize = 0;
    let mut i: usize = 0;
    while i < n
        invariant
            idx < data.len(),
            c <= k,
            c == data.len() - idx || c == k,
            c <= data.len() - idx,
            data_positions(n as int) == k,
            rest == data@.skip(idx as int),
            i <= n,
            block@.len() == n,
            data_idx == (if data_positions(i as int) < c {
                data_positions(i as int)
            } else {
                c as nat
            }),
            forall|x: int| 0 <= x < i ==> block@[x] == #[trigger] spread(rest, n as nat)[x],
            forall|x: int| i <= x < n ==> block@[x] == 0,
        decreases n - i,
    {
        let p: usize = i + 1;
        proof {
            lemma_pow2_bit_test(p);
            if !is_pow2(p as nat) {
                lemma_data_positions_monotone(p as int, n as int);
            }
        }
        if (p & (p - 1)) != 0 && data_idx < c {
            block.set(i, data[idx + data_idx]);
            data_idx = data_idx + 1;
        }
        i = i + 1;
    }
    assert(block@ =~= spread(rest, n as nat));
    block
}

/// Sets the parity positions of a block of `n = 2^m - 1` positions whose
/// parity positions are 0: for each position `i` holding a 1, the parity
/// entry of every power of two in `i` is flipped.
fn add_parity_by_flips(block: &mut Vec<u8>, m: u32, n: usize)
    requires
        2 <= m < usize::BITS,
        n == (1usize << m) - 1,
        old(block)@.len() == n,
        forall|x: int|
            0 <= x < n && is_pow2((x + 1) as nat) ==> #[trigger] old(block)@[x] == 0,
    ensures
        final(block)@ == Seq::new(
            n as nat,
            |x: int|
                if is_pow2((x + 1) as nat) && parity_set(
                    syndrome(old(block)@, n as int),
                    (x + 1) as usize,
                    m as usize,
                ) {
                    1u8
                } else {
                    old(block)@[x]
                },
        ),
{
    let ghost base = old(block)@;
    assert forall|x: int| 0 <= x < n implies #[trigger] block@[x] == (if is_pow2((x + 1) as nat) {
        if syndrome(base, 0) & ((x + 1) as usize) != 0 {
            1u8
        } else {
            0u8
        }
    } else {
        base[x]
    }) by {
        let p: usize = (x + 1) as usize;
        assert(0usize & p == 0) by (bit_vector);
    }
    let mut i: usize = 1;
    while i <= n
        invariant
            2 <= m < usize::BITS,
            n == (1usize << m) - 1,
            1 <= i <= n + 1,
            base.len() == n,
            block@.len() == n,
            forall|x: int|
                0 <= x < n && is_pow2((x + 1) as nat) ==> #[trigger] base[x] == 0,
            forall|x: int|
                0 <= x < n ==> #[trigger] block@[x] == (if is_pow2((x + 1) as nat) {
                    if syndrome(base, i - 1) & ((x + 1) as usize) != 0 {
                        1u8
                    } else {
                        0u8
                    }
                } else {
                    base[x]
                }),
        decreases n + 1 - i,
    {
        proof {
            if is_pow2(i as nat) {
                lemma_syndrome_below(base, i - 1, i);
            }
        }
        if block[i - 1] == 1 {
            let ghost before = block@;
            let ghost s_prev = syndrome(base, i - 1);
            assert forall|x: int| 0 <= x < n implies #[trigger] block@[x] == (if is_pow2(
                (x + 1) as nat,
            ) && ((x + 1) as usize) >> (0u32 as usize) == 0 && i & ((x + 1) as usize) != 0 {
                before[x] ^ 1
            } else {
                before[x]
            }) by {
                let p: usize = (x + 1) as usize;
                crate::bits::lemma_shift_zero_nonzero(p);
            }
            let mut j: u32 = 0;
            while j < m
                invariant
                    2 <= m < usize::BITS,
                    n == (1usize << m) - 1,
                    1 <= i <= n,
                    j <= m,
                    block@.len() == n,
                    before.len() == n,
                    forall|x: int|
                        0 <= x < n ==> #[trigger] block@[x] == (if is_pow2((x + 1) as nat) && ((x
                            + 1) as usize) >> (j as usize) == 0 && i & ((x + 1) as usize) != 0 {
                            before[x] ^ 1
                        } else {
                            before[x]
                        }),
                decreases m - j,
            {
                let ghost ju: usize = j as usize;
                let ghost mu: usize = m as usize;
                proof {
                    assert(ju < mu && mu < usize::BITS ==> (1usize << ju) <= ((1usize << mu) - 1)
                        as usize && (1usize << ju) >= 1) by (bit_vector);
                }
                if (i & (1usize << j)) != 0 {
                    let q: usize = (1usize << j) - 1;
                    let v: u8 = block[q] ^ 1;
                    block.set(q, v);
                }
                proof {
                    lemma_shift_is_pow2(ju);
                    assert forall|x: int| 0 <= x < n implies #[trigger] block@[x] == (if is_pow2(
                        (x + 1) as nat,
                    ) && ((x + 1) as usize) >> ((j + 1) as usize) == 0 && i & ((x + 1) as usize)
                        != 0 {
                        before[x] ^ 1
                    } else {
                        before[x]
                    }) by {
                        let p: usize = (x + 1) as usize;
                        if is_pow2(p as nat) {
                            crate::bits::lemma_pow2_shift_step(p, ju);
                        }
                    }
                }
                j = j + 1;
            }
            proof {
                let s_new = syndrome(base, i as int);
                assert(base[i - 1] == 1);
                assert(s_new == s_prev ^ i);
                assert forall|x: int| 0 <= x < n implies #[trigger] block@[x] == (if is_pow2(
                    (x + 1) as nat,
                ) {
                    if s_new & ((x + 1) as usize) != 0 {
                        1u8
                    } else {
                        0u8
                    }
                } else {
                    base[x]
                }) by {
                    let p: usize = (x + 1) as usize;
                    let mu: usize = m as usize;
                    assert(p <= n && n == ((1usize << mu) - 1) as usize && mu < usize::BITS ==> p
                        >> mu == 0) by (bit_vector);
                    lemma_pow2_bit_test(p);
                    if is_pow2(p as nat) {
                        assert(p != 0 && p & ((p - 1) as usize) == 0 ==> ((s_prev ^ i) & p != 0
                            <==> ((s_prev & p != 0) != (i & p != 0)))) by (bit_vector);
                    }
                    crate::bits::lemma_flip_01();
                }
            }
        }
        i = i + 1;
    }
    proof {
        assert forall|x: int| 0 <= x < n implies #[trigger] block@[x] == (if is_pow2(
            (x + 1) as nat,
        ) && parity_set(syndrome(base, n as int), (x + 1) as usize, m as usize) {
            1u8
        } else {
            base[x]
        }) by {
            let p: usize = (x + 1) as usize;
            let mu: usize = m as usize;
            assert(p <= n && n == ((1usize << mu) - 1) as usize && mu < usize::BITS ==> p >> mu
                == 0) by (bit_vector);
        }
    }
    assert(block@ =~= Seq::new(
        n as nat,
        |x: int|
            if is_pow2((x + 1) as nat) && parity_set(syndrome(base, n as int), (x + 1) as usize, m as usize) {
                1u8
            } else {
                base[x]
            },
    ));
}

/// Decodes a stream received from the Hamming code with `m` parity bits
/// (block length `2^m - 1`), correcting one flipped bit per block.
pub fn decode_hamming(received: &[u8], m: u32) -> (decoded_bits: Vec<u8>)
    requires
        1 <= m < usize::BITS,
    ensures
        decoded_bits@ == decoded(received@, full_block_len(m)),
{
    proof {
        crate::bits::lemma_block_size(m as usize);
    }
    let n: usize = (1usize << m) - 1;
    hamming_decode(received, n, n - m as usize)
}

} // verus!
