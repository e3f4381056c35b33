//! NeoPack: a tagged, length-prefixed, streaming-friendly binary codec.

pub mod types;
pub mod wire;
pub mod decoder;
pub mod encoder;
pub mod laws;
pub mod stream;
