//! A rate-1/2 convolutional encoder with two symbols of memory, and the
//! matching hard-decision Viterbi decoder.
//!
//! When the symbol type is a full byte, each of the eight bit positions
//! behaves as an independent single-bit encoder lane: one XOR advances all
//! eight lanes at once. The decoder splits a received byte-pair stream back
//! into eight lanes, runs one trellis per lane, and recombines the decoded
//! bits into bytes.

pub mod common;
pub mod decode;
pub mod encode;
pub mod prelude;
