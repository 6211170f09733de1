//! An LZW-style compressor with a configurable, bounded code width.
//!
//! A compressed stream starts with one byte that records the code width.
//! While the dictionary grows, each code is followed by one literal byte that
//! lets the decoder rebuild the entry just registered; once the dictionary
//! holds as many codes as the width can write, only codes follow.

pub mod code_size;
pub mod decoder;
pub mod encoder;
pub mod errors;
pub mod packing;
pub mod round_trip;

pub use code_size::CodeSize;
pub use decoder::decompress;
pub use encoder::compress;
pub use errors::{CompressError, DecompressError};
