//! The numbers of the LZ4 frame and block formats that the codec relies on.

use vstd::prelude::*;

verus! {

/// The first four bytes of every frame, read as a little-endian integer.
pub const LZ4_MAGIC_NUMBER: u32 = 0x184D2204;

/// Blocks shorter than this are stored without compression.
pub const MIN_COMPRESS_LENGTH: usize = 13;

/// Every compressed block ends with this many bytes that no match may cover.
pub const END_LITERAL_NUM: usize = 5;

/// The length of the window by which positions are indexed.
pub const MAP_PREF_SIZE: usize = 4;

/// The most input bytes that one block holds (4 MiB less 12).
pub const MAX_BLOCK_SIZE: usize = 4194292;

/// The largest distance that a back-reference can span.
pub const MAX_OFFSET: usize = 65535;

/// The value of a token nibble that announces continuation bytes.
pub const TOKEN_MAX_VAL: u8 = 15;

/// The shortest match; the stored match length is the real one less this.
pub const MATCH_LENGTH_OFFSET: u32 = 4;

} // verus!
