//! Channel-coding building blocks for a binary data link: Hamming block
//! codes, bit-error counting, text-to-bit conversion and random bit sources.

pub mod bits;
pub mod hamming;
pub mod hamming_laws;
pub mod ber;
pub mod text;
pub mod source;
