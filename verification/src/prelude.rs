//! The items most users need: one encoder and one multi-lane decoder.

pub use crate::decode::DecoderState;
pub use crate::encode::EncoderState;
