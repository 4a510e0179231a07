//! What the Hamming codes promise: a codeword has syndrome 0, decoding gives
//! back the data, distinct data give codewords at distance at least 3, and
//! one flipped bit in every block is corrected.

use vstd::prelude::*;
use crate::ber::{
    common_len, lemma_mismatches_concat, lemma_no_mismatch_means_equal, lemma_no_mismatch_when_equal,
    lemma_single_mismatch, mismatches,
};
use crate::bits::{is_pow2, lemma_no_pow2_between, lemma_pow2_bit_test};
use crate::hamming::{
    full_block_len, bit_or_zero, codeword, corrected, data_positions, decode_block, decoded, encoded, extract,
    lemma_data_positions_monotone, lemma_full_block_data_positions, spread, syndrome,
};

verus! {

/// XOR of the powers of two among `1..=m`.
spec fn parity_mask(m: int) -> usize
    decreases m,
{
    if m <= 0 {
        0
    } else if is_pow2(m as nat) {
        parity_mask(m - 1) ^ (m as usize)
    } else {
        parity_mask(m - 1)
    }
}

/// For `2^j <= x < 2^(j+1)` the powers of two up to `x` fill bits `0..=j`.
proof fn lemma_parity_mask_range(j: usize, x: usize)
    requires
        j < usize::BITS,
        (1usize << j) <= x,
        x - (1usize << j) < (1usize << j),
    ensures
        parity_mask(x as int) == ((((1usize << j) - 1) as usize) | (1usize << j)),
    decreases x,
{
    if x == (1usize << j) {
        assert(j < usize::BITS ==> (1usize << j) != 0 && (1usize << j) & (((1usize << j) - 1)
            as usize) == 0) by (bit_vector);
        lemma_pow2_bit_test(x);
        if j == 0 {
            assert(j == 0 ==> 1usize << j == 1usize) by (bit_vector);
            assert(parity_mask(0) == 0);
            assert(0usize ^ 1usize == ((0usize) | 1usize)) by (bit_vector);
        } else {
            let jm: usize = (j - 1) as usize;
            crate::bits::lemma_block_size(j);
            lemma_parity_mask_range(jm, (x - 1) as usize);
            assert(j < usize::BITS ==> ((((1usize << j) - 1) as usize) ^ (1usize << j)) == ((((
                1usize << j) - 1) as usize) | (1usize << j))) by (bit_vector);
        }
    } else {
        lemma_no_pow2_between(j, x);
        lemma_parity_mask_range(j, (x - 1) as usize);
    }
}

/// The syndrome of positions below `2^r` is below `2^r`.
proof fn lemma_syndrome_lt(block: Seq<u8>, m: int, r: usize)
    requires
        r < usize::BITS,
        m < (1usize << r),
    ensures
        syndrome(block, m) < (1usize << r),
    decreases m,
{
    if m <= 0 {
        assert(r < usize::BITS ==> 0usize < (1usize << r)) by (bit_vector);
    } else {
        lemma_syndrome_lt(block, m - 1, r);
        let a = syndrome(block, m - 1);
        let p = m as usize;
        assert(r < usize::BITS && a < (1usize << r) && p < (1usize << r) ==> (a ^ p) < (1usize
            << r)) by (bit_vector);
    }
}

/// How the syndrome of a codeword builds up: the parity positions add the
/// bits of the data syndrome that they stand for.
proof fn lemma_codeword_syndrome_prefix(data: Seq<u8>, r: usize, m: int)
    requires
        2 <= r < usize::BITS,
        0 <= m <= (1usize << r) - 1,
    ensures
        ({
            let n = ((1usize << r) - 1) as nat;
            let base = spread(data, n);
            let s = syndrome(base, n as int);
            syndrome(codeword(data, n, r), m) == syndrome(base, m) ^ (s & parity_mask(m))
        }),
    decreases m,
{
    let n = ((1usize << r) - 1) as nat;
    let base = spread(data, n);
    let s = syndrome(base, n as int);
    let cw = codeword(data, n, r);
    if m == 0 {
        assert(s & 0usize == 0 && 0usize ^ 0usize == 0) by (bit_vector);
    } else {
        lemma_codeword_syndrome_prefix(data, r, m - 1);
        let p: usize = m as usize;
        let a = syndrome(base, m - 1);
        let cm = syndrome(cw, m - 1);
        let mk = parity_mask(m - 1);
        assert(cm == a ^ (s & mk));
        lemma_pow2_bit_test(p);
        if is_pow2(p as nat) {
            assert(base[m - 1] == 0);
            let nu: usize = n as usize;
            assert(p <= nu && nu == ((1usize << r) - 1) as usize && r < usize::BITS ==> p >> r == 0)
                by (bit_vector);
            assert(p != 0 && p & ((p - 1) as usize) == 0 ==> (s & p != 0 ==> (a ^ (s & mk)) ^ p
                == a ^ (s & (mk ^ p))) && (s & p == 0 ==> a ^ (s & mk) == a ^ (s & (mk ^ p))))
                by (bit_vector);
        } else {
            assert(cw[m - 1] == base[m - 1]);
            assert((a ^ p) ^ (s & mk) == (a ^ (s & mk)) ^ p) by (bit_vector);
        }
    }
}

/// Every codeword of the code with `r` parity bits (block length `2^r - 1`)
/// has syndrome 0.
pub proof fn lemma_codeword_syndrome_zero(data: Seq<u8>, r: usize)
    requires
        2 <= r < usize::BITS,
    ensures
        syndrome(codeword(data, ((1usize << r) - 1) as nat, r), ((1usize << r) - 1) as int) == 0,
{
    crate::bits::lemma_block_size(r);
    let n = ((1usize << r) - 1) as nat;
    let base = spread(data, n);
    let s = syndrome(base, n as int);
    lemma_codeword_syndrome_prefix(data, r, n as int);
    let jm: usize = (r - 1) as usize;
    lemma_parity_mask_range(jm, n as usize);
    lemma_syndrome_lt(base, n as int, r);
    assert(r < usize::BITS && s < (1usize << r) ==> s ^ (s & (((1usize << r) - 1) as usize)) == 0)
        by (bit_vector);
}

/// The data positions of a codeword hold the front of the data.
proof fn lemma_extract_codeword(data: Seq<u8>, n: nat, r: usize, m: int)
    requires
        0 <= m <= n,
    ensures
        extract(codeword(data, n, r), m) =~= Seq::new(
            data_positions(m),
            |t: int| bit_or_zero(data, t),
        ),
    decreases m,
{
    if m > 0 {
        lemma_extract_codeword(data, n, r, m - 1);
    }
}

/// Decoding a codeword of the code with `r` parity bits gives back the `k`
/// data bits it was made from (0 past the end of the data).
pub proof fn lemma_decode_codeword(data: Seq<u8>, r: usize)
    requires
        2 <= r < usize::BITS,
    ensures
        decode_block(codeword(data, ((1usize << r) - 1) as nat, r), ((1usize << r) - 1) as nat)
            =~= Seq::new(
            (((1usize << r) - 1) - r) as nat,
            |t: int| bit_or_zero(data, t),
        ),
{
    let n = ((1usize << r) - 1) as nat;
    lemma_codeword_syndrome_zero(data, r);
    lemma_full_block_data_positions(r);
    lemma_extract_codeword(data, n, r, n as int);
}

/// Flipping an entry 0/1 of a block moves its syndrome by that position.
pub proof fn lemma_flip_syndrome(block: Seq<u8>, e: int, m: int)
    requires
        0 <= e < block.len(),
        block[e] <= 1,
        m <= block.len(),
    ensures
        syndrome(block.update(e, block[e] ^ 1), m) == if e < m {
            syndrome(block, m) ^ ((e + 1) as usize)
        } else {
            syndrome(block, m)
        },
    decreases m,
{
    if m > 0 {
        lemma_flip_syndrome(block, e, m - 1);
        let a = syndrome(block, m - 1);
        let p = m as usize;
        let q = (e + 1) as usize;
        crate::bits::lemma_flip_01();
        assert((a ^ q) ^ p == (a ^ p) ^ q) by (bit_vector);
        assert(a ^ p == (a ^ p ^ p) ^ p && a ^ p ^ p == a) by (bit_vector);
    }
}

/// A codeword of the code with `r` parity bits with one entry flipped decodes
/// as the codeword itself, when its data bits are 0 or 1.
pub proof fn lemma_correct_one_flip(data: Seq<u8>, r: usize, e: int)
    requires
        2 <= r < usize::BITS,
        0 <= e < (1usize << r) - 1,
        forall|i: int| 0 <= i < data.len() ==> data[i] <= 1,
    ensures
        ({
            let n = ((1usize << r) - 1) as nat;
            let cw = codeword(data, n, r);
            decode_block(cw.update(e, cw[e] ^ 1), n) == decode_block(cw, n)
        }),
{
    let n = ((1usize << r) - 1) as nat;
    let cw = codeword(data, n, r);
    let bad = cw.update(e, cw[e] ^ 1);
    assert(cw[e] <= 1);
    lemma_codeword_syndrome_zero(data, r);
    lemma_flip_syndrome(cw, e, n as int);
    let q: usize = (e + 1) as usize;
    assert(0usize ^ q == q) by (bit_vector);
    assert(corrected(bad, n) =~= cw) by {
        crate::bits::lemma_flip_01();
    }
    assert(corrected(cw, n) == cw);
}

/// Decoding the concatenation of a block and a stream decodes the block first.
proof fn lemma_decoded_cons(block: Seq<u8>, rest: Seq<u8>, n: nat)
    requires
        n > 0,
        block.len() == n,
    ensures
        decoded(block + rest, n) == decode_block(block, n) + decoded(rest, n),
{
    assert((block + rest).take(n as int) =~= block);
    assert((block + rest).skip(n as int) =~= rest);
}

/// Round trip: with `r` parity bits (block length `n = 2^r - 1`, `k = n - r`
/// data bits per block), decoding the encoding of `data` gives `data` back,
/// followed by the zeros that fill its last block.
pub proof fn lemma_round_trip(data: Seq<u8>, r: usize)
    requires
        2 <= r < usize::BITS,
    ensures
        ({
            let n = ((1usize << r) - 1) as nat;
            let k = (n - r) as nat;
            let out = decoded(encoded(data, n, k), n);
            &&& data.len() <= out.len() < data.len() + k
            &&& (out.len() as int) % (k as int) == 0
            &&& forall|i: int| 0 <= i < out.len() ==> #[trigger] out[i] == bit_or_zero(data, i)
        }),
    decreases data.len(),
{
    crate::bits::lemma_block_size(r);
    let n = ((1usize << r) - 1) as nat;
    let k = (n - r) as nat;
    let out = decoded(encoded(data, n, k), n);
    assert(k >= 1);
    if data.len() == 0 {
        assert(out =~= Seq::<u8>::empty());
        vstd::arithmetic::div_mod::lemma_small_mod(0, k);
    } else {
        let cw = codeword(data, n, r);
        assert((n - k) as usize == r);
        lemma_decode_codeword(data, r);
        let win = decode_block(cw, n);
        if data.len() <= k {
            lemma_decoded_cons(cw, Seq::empty(), n);
            assert(decoded(Seq::<u8>::empty(), n) =~= Seq::<u8>::empty());
            assert(out =~= win);
            vstd::arithmetic::div_mod::lemma_mod_self_0(k as int);
        } else {
            let rest = data.skip(k as int);
            lemma_round_trip(rest, r);
            let tail = decoded(encoded(rest, n, k), n);
            lemma_decoded_cons(cw, encoded(rest, n, k), n);
            assert(out =~= win + tail);
            vstd::arithmetic::div_mod::lemma_mod_add_multiples_vanish(tail.len() as int, k as int);
            assert(out.len() == k + tail.len());
            assert forall|i: int| 0 <= i < out.len() implies #[trigger] out[i] == bit_or_zero(
                data,
                i,
            ) by {
                if i >= k {
                    assert(out[i] == tail[i - k]);
                }
            }
        }
    }
}

/// Every entry of the encoding of 0/1 data is 0 or 1.
pub proof fn lemma_encoded_binary(data: Seq<u8>, n: nat, k: nat)
    requires
        forall|i: int| 0 <= i < data.len() ==> data[i] <= 1,
    ensures
        forall|i: int|
            0 <= i < encoded(data, n, k).len() ==> #[trigger] encoded(data, n, k)[i] <= 1,
    decreases data.len(),
{
    if k > 0 && data.len() > 0 {
        let cw = codeword(data, n, (n - k) as usize);
        let rest = if data.len() <= k {
            Seq::<u8>::empty()
        } else {
            lemma_encoded_binary(data.skip(k as int), n, k);
            encoded(data.skip(k as int), n, k)
        };
        assert(encoded(data, n, k) == cw + rest);
        assert forall|i: int| 0 <= i < cw.len() implies #[trigger] cw[i] <= 1 by {
            let d = data_positions(i);
            if 0 <= d < data.len() {
                assert(bit_or_zero(data, d as int) <= 1);
            }
        }
        assert forall|i: int|
            0 <= i < encoded(data, n, k).len() implies #[trigger] encoded(data, n, k)[i] <= 1 by {
            if i >= cw.len() {
                assert(encoded(data, n, k)[i] == rest[i - cw.len()]);
            } else {
                assert(encoded(data, n, k)[i] == cw[i]);
            }
        }
    }
}

/// Single-error correction: with `r` parity bits and 0/1 data, flipping any
/// one bit of the encoded stream does not change what it decodes to.
pub proof fn lemma_single_error_corrected(data: Seq<u8>, r: usize, e: int)
    requires
        2 <= r < usize::BITS,
        forall|i: int| 0 <= i < data.len() ==> data[i] <= 1,
        0 <= e < encoded(data, ((1usize << r) - 1) as nat, (((1usize << r) - 1) - r) as nat).len(),
    ensures
        ({
            let n = ((1usize << r) - 1) as nat;
            let stream = encoded(data, n, (n - r) as nat);
            decoded(stream.update(e, stream[e] ^ 1), n) == decoded(stream, n)
        }),
    decreases data.len(),
{
    crate::bits::lemma_block_size(r);
    let n = ((1usize << r) - 1) as nat;
    let k = (n - r) as nat;
    let stream = encoded(data, n, k);
    let cw = codeword(data, n, r);
    assert((n - k) as usize == r);
    let rest_stream = if data.len() <= k {
        Seq::<u8>::empty()
    } else {
        encoded(data.skip(k as int), n, k)
    };
    assert(stream == cw + rest_stream);
    let v = stream[e] ^ 1;
    if e < n {
        assert(stream.update(e, v) =~= cw.update(e, cw[e] ^ 1) + rest_stream);
        lemma_correct_one_flip(data, r, e);
        lemma_decoded_cons(cw.update(e, cw[e] ^ 1), rest_stream, n);
        lemma_decoded_cons(cw, rest_stream, n);
    } else {
        let rest = data.skip(k as int);
        assert(data.len() > k);
        assert(stream.update(e, v) =~= cw + rest_stream.update(e - n, rest_stream[e - n] ^ 1));
        lemma_single_error_corrected(rest, r, e - n);
        lemma_decoded_cons(cw, rest_stream.update(e - n, rest_stream[e - n] ^ 1), n);
        lemma_decoded_cons(cw, rest_stream, n);
    }
}

/// The data positions of a block number as many as its non-power-of-two
/// positions.
proof fn lemma_extract_len(block: Seq<u8>, m: int)
    ensures
        extract(block, m).len() == data_positions(m),
    decreases m,
{
    if m > 0 {
        lemma_extract_len(block, m - 1);
    }
}

/// The encoding holds one block of `n` positions per started group of `k`
/// data bits.
pub proof fn lemma_encoded_len(data: Seq<u8>, n: nat, k: nat)
    requires
        k > 0,
    ensures
        encoded(data, n, k).len() == n * ((data.len() + k - 1) / (k as int)),
    decreases data.len(),
{
    let len = data.len() as int;
    let ki = k as int;
    if len == 0 {
        vstd::arithmetic::div_mod::lemma_basic_div(ki - 1, ki);
        assert(n * 0 == 0) by (nonlinear_arith);
    } else {
        vstd::arithmetic::div_mod::lemma_div_plus_one(len - 1, ki);
        assert(len + ki - 1 == ki + (len - 1));
        if len <= ki {
            vstd::arithmetic::div_mod::lemma_basic_div(len - 1, ki);
            assert(encoded(data, n, k).len() == n + Seq::<u8>::empty().len());
            assert(n * 1 == n) by (nonlinear_arith);
        } else {
            lemma_encoded_len(data.skip(ki), n, k);
            let q = (len - 1) / ki;
            assert(data.skip(ki).len() + ki - 1 == len - 1);
            assert(encoded(data, n, k).len() == n + encoded(data.skip(ki), n, k).len());
            assert(n * (1 + q) == n + n * q) by (nonlinear_arith);
        }
    }
}

/// Decoding keeps the data positions of each complete block of `n`.
pub proof fn lemma_decoded_len(coded: Seq<u8>, n: nat)
    requires
        n > 0,
    ensures
        decoded(coded, n).len() == ((coded.len() as int) / (n as int)) * data_positions(n as int),
    decreases coded.len(),
{
    let len = coded.len() as int;
    let ni = n as int;
    let dp = data_positions(ni) as int;
    if len < ni {
        vstd::arithmetic::div_mod::lemma_basic_div(len, ni);
        assert(0 * dp == 0) by (nonlinear_arith);
    } else {
        lemma_decoded_len(coded.skip(ni), n);
        lemma_extract_len(corrected(coded.take(ni), n), ni);
        vstd::arithmetic::div_mod::lemma_div_plus_one(len - ni, ni);
        assert(ni + (len - ni) == len);
        assert((1 + (len - ni) / ni) * dp == dp + ((len - ni) / ni) * dp) by (nonlinear_arith);
    }
}

/// Without channel errors the link loses nothing: comparing the decoded
/// stream with the data over their common length finds no bit error.
pub proof fn lemma_error_free_link(data: Seq<u8>, r: usize)
    requires
        2 <= r < usize::BITS,
    ensures
        ({
            let n = ((1usize << r) - 1) as nat;
            let out = decoded(encoded(data, n, (n - r) as nat), n);
            &&& common_len(out, data) == data.len()
            &&& mismatches(out, data, data.len() as int) == 0
        }),
{
    let n = ((1usize << r) - 1) as nat;
    let out = decoded(encoded(data, n, (n - r) as nat), n);
    lemma_round_trip(data, r);
    assert forall|i: int| 0 <= i < data.len() implies out[i] == data[i] by {
        assert(out[i] == bit_or_zero(data, i));
    }
    lemma_no_mismatch_when_equal(out, data, data.len() as int);
}

/// Round trip and single-error correction for the codes of `apply_hamming`
/// and `decode_hamming` with `m` parity bits: decoding the encoding gives the
/// data back, followed by the zeros of the last block, and so does decoding it
/// with any one bit flipped when the data bits are 0 or 1.
pub proof fn lemma_parity_bits_code(data: Seq<u8>, m: u32, e: int)
    requires
        2 <= m < usize::BITS,
    ensures
        ({
            let n = full_block_len(m);
            let k = (n - m) as nat;
            let stream = encoded(data, n, k);
            let out = decoded(stream, n);
            &&& data.len() <= out.len() < data.len() + k
            &&& (out.len() as int) % (k as int) == 0
            &&& forall|i: int| 0 <= i < out.len() ==> #[trigger] out[i] == bit_or_zero(data, i)
            &&& (0 <= e < stream.len() && forall|i: int| 0 <= i < data.len() ==> data[i] <= 1)
                ==> decoded(stream.update(e, stream[e] ^ 1), n) == out
        }),
{
    let r: usize = m as usize;
    assert((1usize << m) == (1usize << r)) by (bit_vector)
        requires
            r == m as usize,
    ;
    crate::bits::lemma_block_size(r);
    lemma_round_trip(data, r);
    let n = full_block_len(m);
    let k = (n - m) as nat;
    assert(n == ((1usize << r) - 1) as nat);
    assert(k == (((1usize << r) - 1) - r) as nat);
    let stream = encoded(data, n, k);
    if 0 <= e < stream.len() && forall|i: int| 0 <= i < data.len() ==> data[i] <= 1 {
        lemma_single_error_corrected(data, r, e);
    }
}

// ---------------------------------------------------------------------------
// Minimum distance.

/// Every entry of a codeword of 0/1 data is 0 or 1.
pub proof fn lemma_codeword_binary(data: Seq<u8>, n: nat, r: usize)
    requires
        forall|i: int| 0 <= i < data.len() ==> data[i] <= 1,
    ensures
        forall|i: int| 0 <= i < n ==> #[trigger] codeword(data, n, r)[i] <= 1,
{
    assert forall|i: int| 0 <= i < n implies #[trigger] codeword(data, n, r)[i] <= 1 by {
        let d = data_positions(i);
        if 0 <= d < data.len() {
            assert(bit_or_zero(data, d as int) <= 1);
        }
    }
}

/// XOR of the positions among `1..=m` where `x` and `y` differ.
spec fn xor_of_differences(x: Seq<u8>, y: Seq<u8>, m: int) -> usize
    decreases m,
{
    if m <= 0 {
        0
    } else if x[m - 1] != y[m - 1] {
        xor_of_differences(x, y, m - 1) ^ (m as usize)
    } else {
        xor_of_differences(x, y, m - 1)
    }
}

/// For 0/1 blocks the syndromes differ by the XOR of the differing positions.
proof fn lemma_syndrome_difference(x: Seq<u8>, y: Seq<u8>, m: int)
    requires
        forall|i: int| 0 <= i < m ==> x[i] <= 1 && y[i] <= 1,
    ensures
        syndrome(y, m) == syndrome(x, m) ^ xor_of_differences(x, y, m),
    decreases m,
{
    if m <= 0 {
        assert(0usize ^ 0usize == 0usize) by (bit_vector);
    } else {
        lemma_syndrome_difference(x, y, m - 1);
        let sx = syndrome(x, m - 1);
        let d = xor_of_differences(x, y, m - 1);
        let p = m as usize;
        assert((sx ^ p) ^ (d ^ p) == sx ^ d && sx ^ (d ^ p) == (sx ^ d) ^ p && (sx ^ p) ^ d == (sx
            ^ d) ^ p) by (bit_vector);
    }
}

/// One or two differing positions leave a nonzero XOR of positions.
proof fn lemma_few_differences_nonzero(x: Seq<u8>, y: Seq<u8>, m: int)
    requires
        0 <= m <= usize::MAX,
    ensures
        mismatches(x, y, m) == 0 ==> xor_of_differences(x, y, m) == 0,
        mismatches(x, y, m) == 1 ==> 1 <= xor_of_differences(x, y, m) <= m,
        mismatches(x, y, m) == 2 ==> xor_of_differences(x, y, m) != 0,
    decreases m,
{
    if m > 0 {
        lemma_few_differences_nonzero(x, y, m - 1);
        let d = xor_of_differences(x, y, m - 1);
        let p = m as usize;
        assert(0usize ^ p == p && (d != p ==> d ^ p != 0)) by (bit_vector);
    }
}

/// Two different codewords of the code with `r` parity bits, made from 0/1
/// data, differ in at least three positions.
pub proof fn lemma_codeword_distance(a: Seq<u8>, b: Seq<u8>, r: usize)
    requires
        2 <= r < usize::BITS,
        forall|i: int| 0 <= i < a.len() ==> a[i] <= 1,
        forall|i: int| 0 <= i < b.len() ==> b[i] <= 1,
    ensures
        ({
            let n = ((1usize << r) - 1) as nat;
            let ca = codeword(a, n, r);
            let cb = codeword(b, n, r);
            ca != cb ==> mismatches(ca, cb, n as int) >= 3
        }),
{
    crate::bits::lemma_block_size(r);
    let n = ((1usize << r) - 1) as nat;
    let ca = codeword(a, n, r);
    let cb = codeword(b, n, r);
    if mismatches(ca, cb, n as int) < 3 {
        lemma_codeword_binary(a, n, r);
        lemma_codeword_binary(b, n, r);
        lemma_codeword_syndrome_zero(a, r);
        lemma_codeword_syndrome_zero(b, r);
        lemma_syndrome_difference(ca, cb, n as int);
        let d = xor_of_differences(ca, cb, n as int);
        assert(0usize ^ d == d) by (bit_vector);
        lemma_few_differences_nonzero(ca, cb, n as int);
        lemma_no_mismatch_means_equal(ca, cb, n as int);
        assert(ca =~= cb);
    }
}

/// Minimum distance 3: with `r` parity bits, the encodings of two different
/// 0/1 data streams of the same length differ in at least three positions.
pub proof fn lemma_minimum_distance(a: Seq<u8>, b: Seq<u8>, r: usize)
    requires
        2 <= r < usize::BITS,
        a.len() == b.len(),
        a != b,
        forall|i: int| 0 <= i < a.len() ==> a[i] <= 1,
        forall|i: int| 0 <= i < b.len() ==> b[i] <= 1,
    ensures
        ({
            let n = ((1usize << r) - 1) as nat;
            let k = (n - r) as nat;
            let ea = encoded(a, n, k);
            let eb = encoded(b, n, k);
            &&& ea.len() == eb.len()
            &&& mismatches(ea, eb, ea.len() as int) >= 3
        }),
    decreases a.len(),
{
    crate::bits::lemma_block_size(r);
    let n = ((1usize << r) - 1) as nat;
    let k = (n - r) as nat;
    assert((n - k) as usize == r);
    let ea = encoded(a, n, k);
    let eb = encoded(b, n, k);
    lemma_encoded_len(a, n, k);
    lemma_encoded_len(b, n, k);
    if a.len() == 0 {
        assert(a =~= b);
    }
    let ca = codeword(a, n, r);
    let cb = codeword(b, n, r);
    let (ra, rb) = if a.len() <= k {
        (Seq::<u8>::empty(), Seq::<u8>::empty())
    } else {
        (encoded(a.skip(k as int), n, k), encoded(b.skip(k as int), n, k))
    };
    assert(ea == ca + ra && eb == cb + rb);
    if a.len() > k {
        lemma_encoded_len(a.skip(k as int), n, k);
        lemma_encoded_len(b.skip(k as int), n, k);
    }
    lemma_mismatches_concat(ca, ra, cb, rb, ea.len() as int);
    if ca != cb {
        lemma_codeword_distance(a, b, r);
        if ea.len() > n {
            lemma_mismatches_concat(ca, ra, cb, rb, ea.len() as int);
        }
    } else {
        lemma_decode_codeword(a, r);
        lemma_decode_codeword(b, r);
        let wa = Seq::new(k, |t: int| bit_or_zero(a, t));
        let wb = Seq::new(k, |t: int| bit_or_zero(b, t));
        assert(wa =~= wb);
        assert forall|t: int| 0 <= t < k && t < a.len() implies a[t] == b[t] by {
            assert(wa[t] == wb[t]);
        }
        if a.len() <= k {
            assert(a =~= b);
        } else {
            let sa = a.skip(k as int);
            let sb = b.skip(k as int);
            if sa =~= sb {
                assert forall|i: int| 0 <= i < a.len() implies a[i] == b[i] by {
                    if i >= k {
                        assert(sa[i - k] == sb[i - k]);
                    }
                }
                assert(a =~= b);
            }
            lemma_minimum_distance(sa, sb, r);
        }
    }
}

// ---------------------------------------------------------------------------
// One error in every block.

/// Each complete block of `n` positions of `received` differs from the
/// matching block of `sent` in at most one position.
pub open spec fn at_most_one_flip_per_block(sent: Seq<u8>, received: Seq<u8>, n: nat) -> bool
    decreases sent.len(),
{
    if n == 0 || sent.len() < n {
        true
    } else {
        &&& mismatches(sent.take(n as int), received.take(n as int), n as int) <= 1
        &&& at_most_one_flip_per_block(sent.skip(n as int), received.skip(n as int), n)
    }
}

/// With `r` parity bits and 0/1 data, a received 0/1 stream of the encoded
/// length with at most one flipped bit in each block decodes as the encoded
/// stream itself.
pub proof fn lemma_one_error_per_block_corrected(data: Seq<u8>, r: usize, received: Seq<u8>)
    requires
        2 <= r < usize::BITS,
        forall|i: int| 0 <= i < data.len() ==> data[i] <= 1,
        forall|i: int| 0 <= i < received.len() ==> received[i] <= 1,
        received.len() == encoded(
            data,
            ((1usize << r) - 1) as nat,
            (((1usize << r) - 1) - r) as nat,
        ).len(),
        at_most_one_flip_per_block(
            encoded(data, ((1usize << r) - 1) as nat, (((1usize << r) - 1) - r) as nat),
            received,
            ((1usize << r) - 1) as nat,
        ),
    ensures
        ({
            let n = ((1usize << r) - 1) as nat;
            decoded(received, n) == decoded(encoded(data, n, (n - r) as nat), n)
        }),
    decreases data.len(),
{
    crate::bits::lemma_block_size(r);
    let n = ((1usize << r) - 1) as nat;
    let k = (n - r) as nat;
    assert((n - k) as usize == r);
    let stream = encoded(data, n, k);
    if data.len() == 0 {
        assert(received =~= Seq::<u8>::empty());
    } else {
        let cw = codeword(data, n, r);
        let rest = if data.len() <= k {
            Seq::<u8>::empty()
        } else {
            encoded(data.skip(k as int), n, k)
        };
        assert(stream == cw + rest);
        assert(stream.take(n as int) =~= cw);
        assert(stream.skip(n as int) =~= rest);
        let r0 = received.take(n as int);
        let r1 = received.skip(n as int);
        assert(received =~= r0 + r1);
        lemma_decoded_cons(r0, r1, n);
        lemma_decoded_cons(cw, rest, n);
        assert(mismatches(cw, r0, n as int) <= 1);
        lemma_codeword_binary(data, n, r);
        if mismatches(cw, r0, n as int) == 0 {
            lemma_no_mismatch_means_equal(cw, r0, n as int);
            assert(r0 =~= cw);
        } else {
            let e = lemma_single_mismatch(cw, r0, n as int);
            let x = cw[e];
            let y = r0[e];
            assert(x <= 1 && y <= 1 && x != y ==> y == x ^ 1u8) by (bit_vector);
            assert(r0 =~= cw.update(e, cw[e] ^ 1));
            lemma_correct_one_flip(data, r, e);
        }
        if data.len() <= k {
            assert(r1 =~= Seq::<u8>::empty());
        } else {
            lemma_one_error_per_block_corrected(data.skip(k as int), r, r1);
        }
    }
}

// ---------------------------------------------------------------------------
// What the syndrome, the encoder and the decoder compute, entry by entry.

/// A block with no 1 among its first `m` entries has syndrome 0.
pub proof fn lemma_syndrome_without_ones(block: Seq<u8>, m: int)
    requires
        forall|i: int| 0 <= i < m ==> block[i] != 1,
    ensures
        syndrome(block, m) == 0,
    decreases m,
{
    if m > 0 {
        lemma_syndrome_without_ones(block, m - 1);
    }
}

/// A block whose only 1 among its first `m` entries is at index `e` has
/// syndrome `e + 1`: the syndrome names the position of a lone 1.
pub proof fn lemma_syndrome_single_one(block: Seq<u8>, m: int, e: int)
    requires
        0 <= e < m,
        block[e] == 1,
        forall|i: int| 0 <= i < m && i != e ==> block[i] != 1,
    ensures
        syndrome(block, m) == (e + 1) as usize,
    decreases m,
{
    if m - 1 == e {
        lemma_syndrome_without_ones(block, e);
        let p: usize = m as usize;
        assert(0usize ^ p == p) by (bit_vector);
    } else {
        lemma_syndrome_single_one(block, m - 1, e);
    }
}

/// The data positions of a codeword hold the data bits in order: position
/// `i + 1`, the `data_positions(i) + 1`-th position that is not a power of
/// two, holds that data bit, or 0 past the end of the data.
pub proof fn lemma_codeword_data_bit(data: Seq<u8>, n: nat, r: usize, i: int)
    requires
        0 <= i < n,
        !is_pow2((i + 1) as nat),
    ensures
        data_positions(i) < data.len() ==> codeword(data, n, r)[i] == data[data_positions(i) as int],
        data_positions(i) >= data.len() ==> codeword(data, n, r)[i] == 0,
{
}

/// Across the whole stream: data position `i + 1` of block `b` holds data bit
/// `b * k + data_positions(i)`, or 0 past the end of the data.
pub proof fn lemma_encoded_data_bit(data: Seq<u8>, n: nat, k: nat, b: nat, i: int)
    requires
        0 < k <= n,
        0 <= i < n,
        !is_pow2((i + 1) as nat),
        b * k < data.len(),
    ensures
        b * n + i < encoded(data, n, k).len(),
        b * k + data_positions(i) < data.len() ==> encoded(data, n, k)[b * n + i] == data[(b * k
            + data_positions(i)) as int],
        b * k + data_positions(i) >= data.len() ==> encoded(data, n, k)[b * n + i] == 0,
    decreases b,
{
    let cw = codeword(data, n, (n - k) as usize);
    if b == 0 {
        assert(0 * n == 0 && 0 * k == 0) by (nonlinear_arith);
        lemma_codeword_data_bit(data, n, (n - k) as usize, i);
        if data.len() <= k {
            assert(encoded(data, n, k) == cw + Seq::<u8>::empty());
        } else {
            assert(encoded(data, n, k) == cw + encoded(data.skip(k as int), n, k));
        }
    } else {
        assert(b * k == k + (b - 1) * k && b * n == n + (b - 1) * n) by (nonlinear_arith)
            requires
                b >= 1,
        ;
        assert((b - 1) * k >= 0 && (b - 1) * n >= 0) by (nonlinear_arith)
            requires
                b >= 1,
        ;
        let rest = data.skip(k as int);
        assert(data.len() > k);
        lemma_encoded_data_bit(rest, n, k, (b - 1) as nat, i);
        let e = encoded(data, n, k);
        assert(e == cw + encoded(rest, n, k));
        let j = (b - 1) * n + i;
        assert(e[b * n + i] == encoded(rest, n, k)[j]);
        let t = (b - 1) * k + data_positions(i);
        if t < rest.len() {
            assert(rest[t] == data[k + t]);
        }
    }
}

/// All-zero data encodes to an all-zero stream.
pub proof fn lemma_encoded_zeros(data: Seq<u8>, n: nat, k: nat)
    requires
        forall|i: int| 0 <= i < data.len() ==> data[i] == 0,
    ensures
        forall|i: int| 0 <= i < encoded(data, n, k).len() ==> #[trigger] encoded(data, n, k)[i] == 0,
    decreases data.len(),
{
    if k > 0 && data.len() > 0 {
        let r = (n - k) as usize;
        let base = spread(data, n);
        assert forall|i: int| 0 <= i < n implies #[trigger] base[i] == 0 by {}
        lemma_syndrome_without_ones(base, n as int);
        let s = syndrome(base, n as int);
        let cw = codeword(data, n, r);
        assert forall|i: int| 0 <= i < n implies #[trigger] cw[i] == 0 by {
            let p: usize = (i + 1) as usize;
            assert(0usize & p == 0) by (bit_vector);
        }
        let rest = if data.len() <= k {
            Seq::<u8>::empty()
        } else {
            lemma_encoded_zeros(data.skip(k as int), n, k);
            encoded(data.skip(k as int), n, k)
        };
        assert(encoded(data, n, k) == cw + rest);
        assert forall|i: int|
            0 <= i < encoded(data, n, k).len() implies #[trigger] encoded(data, n, k)[i] == 0 by {
            if i >= n {
                assert(encoded(data, n, k)[i] == rest[i - n]);
            } else {
                assert(encoded(data, n, k)[i] == cw[i]);
            }
        }
    }
}

/// Reading the data positions of a block: entry `data_positions(i)` of the
/// result is the block's entry at position `i + 1`, for every position that
/// is not a power of two, and nothing else is read.
pub proof fn lemma_extract_entries(block: Seq<u8>, m: int)
    requires
        0 <= m <= block.len(),
    ensures
        extract(block, m).len() == data_positions(m),
        forall|i: int|
            0 <= i < m && !is_pow2((i + 1) as nat) ==> #[trigger] extract(block, m)[data_positions(
                i,
            ) as int] == block[i],
    decreases m,
{
    if m > 0 {
        lemma_extract_entries(block, m - 1);
        assert forall|i: int|
            0 <= i < m && !is_pow2((i + 1) as nat) implies #[trigger] extract(block, m)[data_positions(
            i,
        ) as int] == block[i] by {
            if i < m - 1 {
                lemma_data_positions_monotone(i + 1, m - 1);
            }
        }
    }
}

/// A received block with syndrome 0 is left as it is, and one whose syndrome
/// names one of its positions has exactly that entry flipped.
pub proof fn lemma_corrected_flips_named_position(block: Seq<u8>, n: nat)
    requires
        block.len() == n,
    ensures
        syndrome(block, n as int) == 0 ==> corrected(block, n) == block,
        ({
            let s = syndrome(block, n as int);
            1 <= s <= n ==> {
                &&& corrected(block, n)[s - 1] == block[s - 1] ^ 1
                &&& forall|i: int|
                    0 <= i < n && i != s - 1 ==> #[trigger] corrected(block, n)[i] == block[i]
            }
        }),
{
}

/// An all-zero received stream decodes to an all-zero stream.
pub proof fn lemma_decoded_zeros(coded: Seq<u8>, n: nat)
    requires
        forall|i: int| 0 <= i < coded.len() ==> coded[i] == 0,
    ensures
        forall|i: int| 0 <= i < decoded(coded, n).len() ==> #[trigger] decoded(coded, n)[i] == 0,
    decreases coded.len(),
{
    if n > 0 && coded.len() >= n {
        let blk = coded.take(n as int);
        lemma_syndrome_without_ones(blk, n as int);
        assert(corrected(blk, n) == blk);
        lemma_extract_entries(blk, n as int);
        let head = decode_block(blk, n);
        assert forall|t: int| 0 <= t < head.len() implies #[trigger] head[t] == 0 by {
            lemma_extract_zero_entry(blk, n as int, t);
        }
        lemma_decoded_zeros(coded.skip(n as int), n);
        let tail = decoded(coded.skip(n as int), n);
        assert(decoded(coded, n) == head + tail);
        assert forall|i: int| 0 <= i < decoded(coded, n).len() implies #[trigger] decoded(coded, n)[i]
            == 0 by {
            if i >= head.len() {
                assert(decoded(coded, n)[i] == tail[i - head.len()]);
            } else {
                assert(decoded(coded, n)[i] == head[i]);
            }
        }
    }
}

/// Every entry read from the data positions of a block that is 0 there is 0.
proof fn lemma_extract_zero_entry(block: Seq<u8>, m: int, t: int)
    requires
        0 <= m <= block.len(),
        forall|i: int| 0 <= i < m ==> block[i] == 0,
        0 <= t < extract(block, m).len(),
    ensures
        extract(block, m)[t] == 0,
    decreases m,
{
    if m > 0 && t < extract(block, m - 1).len() {
        lemma_extract_zero_entry(block, m - 1, t);
    }
}

} // verus!
