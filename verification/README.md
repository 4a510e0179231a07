# hamming_link

Bit-level building blocks of a simulated data link, verified with Verus.

- `src/bits.rs`: power-of-two test and the bit facts behind it.
- `src/hamming.rs`: Hamming block codes. `hamming_encode` / `hamming_decode`
  take a block length `n` and a data length `k`; `apply_hamming` /
  `decode_hamming` take the number `m` of parity bits (block length `2^m - 1`).
  Their contracts equal the spec functions `encoded` and `decoded`.
- `src/hamming_laws.rs`: codewords have syndrome 0, decoding inverts encoding
  (up to the zero padding of the last block), encodings of distinct 0/1 data
  differ in at least three positions, at most one flipped bit in every block
  is corrected, and the lengths of encoded and decoded streams.
- `src/ber.rs`: counting bit errors over the common length of two streams.
- `src/text.rs`: text to 7-bit character codes.
- `src/source.rs`: random information bits drawn with `rand`.

`app/` holds the exercises themselves (signal generation, FFT spectra,
modulation, channel simulation and plotting), which work in floating point
and stay outside the verified library; run it with the name of a part, such
as `lab13-table`.
