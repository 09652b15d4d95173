//! A binary arithmetic coder: an encoder and a decoder that narrow a
//! fixed-precision integer interval symbol by symbol, and the bit-exact stream
//! both of them work on.

pub mod bac_codec;
pub mod bac_decoder;
pub mod bac_encoder;
pub mod bits;
pub mod bitstream;
pub mod error;
pub mod message;
