//! An LZ4-frame compressor and decompressor that doubles as a steganographic
//! channel: wherever the compressor may choose among several equally valid
//! back-references, the index of the choice carries a digit of a hidden
//! payload, and the decompressor recovers the digits from the frame alone.
//!
//! The library works on bytes in memory. Reading and writing streams is left
//! to the caller, which hands bytes in and takes bytes out.

pub mod constants;
pub mod errors;
pub mod bytes;
pub mod checksum;
pub mod descriptors;
pub mod numeral_coding;
pub mod format;
pub mod compressor;
pub mod decompressor;
pub mod occurrence_map;
pub mod matching;
pub mod encoding;
pub mod analysis;
pub mod frame;
pub mod library_ctrl;
pub mod round_trip;
pub mod hidden;
