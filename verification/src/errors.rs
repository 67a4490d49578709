//! The error that decompression reports.

use vstd::prelude::*;

verus! {

/// Why a frame could not be decompressed. Its view is the message.
#[derive(Debug, Clone)]
pub struct Lz4DecompressError {
    message: String,
}

pub type DecompressResult<T> = Result<T, Lz4DecompressError>;

impl View for Lz4DecompressError {
    type V = Seq<char>;

    closed spec fn view(&self) -> Seq<char> {
        self.message@
    }
}

/// The frame does not start with the magic number.
pub const INVALID_HEADER: &'static str = "Invalid header";

/// The descriptor names a version of the format other than 1.
pub const VERSION_NOT_ONE: &'static str = "Version is not 1";

/// The descriptor asks for a dictionary.
pub const DICTIONARY_NOT_SUPPORTED: &'static str = "Dictionary ID is not supported";

/// The descriptor says that blocks depend on one another.
pub const BLOCKS_NOT_INDEPENDENT: &'static str = "Blocks must be independent";

/// The descriptor's index of the largest block size is below 3.
pub const INVALID_BLOCK_MAX_SIZE: &'static str = "Block max size is invalid";

/// The checksum at the end of the frame is not that of the content.
pub const INVALID_CHECKSUM: &'static str = "Checksum is invalid";

/// A match has the offset 0.
pub const OFFSET_ZERO: &'static str = "Offset is 0";

/// A match starts before the first byte of its block.
pub const OFFSET_OUT_OF_RANGE: &'static str = "Offset is out of range";

/// A length does not fit in 32 bits.
pub const LENGTH_TOO_LARGE: &'static str = "Length is too large";

/// The input ends in the middle of the frame.
pub const UNEXPECTED_END: &'static str = "failed to fill whole buffer";

/// What precedes the message in the text of an error.
pub open spec fn error_text_prefix() -> Seq<char> {
    "error during LZ4 decompressing at offset "@
}

impl Lz4DecompressError {
    pub fn from_string(message: String) -> (e: Self)
        ensures
            e@ == message@,
    {
        Lz4DecompressError { message }
    }

    pub fn from_static_str(message: &'static str) -> (e: Self)
        ensures
            e@ == message@,
    {
        Lz4DecompressError { message: message.to_owned() }
    }

    /// The message alone.
    pub fn message(&self) -> (m: &str)
        ensures
            m@ == self@,
    {
        self.message.as_str()
    }

    /// The text shown for this error: a fixed prefix, then the message.
    pub fn to_string(&self) -> (text: String)
        ensures
            text@ == error_text_prefix() + self@,
    {
        let prefix = String::from_str("error during LZ4 decompressing at offset ");
        prefix.concat(self.message.as_str())
    }
}

} // verus!
