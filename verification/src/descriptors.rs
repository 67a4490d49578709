//! The bit-packed descriptors of the LZ4 frame and block formats.
//!
//! Each descriptor wraps the integer that travels on the wire. What a field
//! holds is stated arithmetically (quotients and remainders by powers of two);
//! the accessors compute it with shifts and masks.

use vstd::prelude::*;

verus! {

/// Whether the binary digit of `v` with the given weight (a power of two) is set.
pub open spec fn bit_is_set(v: int, weight: int) -> bool {
    v / weight % 2 == 1
}

/// `v` with the binary digit of the given weight set or cleared.
pub open spec fn with_bit(v: int, weight: int, on: bool) -> int {
    v - (if bit_is_set(v, weight) {
        weight
    } else {
        0
    }) + (if on {
        weight
    } else {
        0
    })
}

/// The FLG byte of a frame descriptor.
#[derive(Debug, Clone, Copy)]
pub struct FlgByte(pub u8);

impl FlgByte {
    /// Bits 6 and 7: the format version.
    pub open spec fn version(self) -> u8 {
        self.0 / 64
    }

    /// Bit 5: blocks do not refer to one another.
    pub open spec fn block_independent(self) -> bool {
        bit_is_set(self.0 as int, 32)
    }

    /// Bit 4: every block is followed by its checksum.
    pub open spec fn block_checksum_added(self) -> bool {
        bit_is_set(self.0 as int, 16)
    }

    /// Bit 3: the descriptor holds the size of the content.
    pub open spec fn content_size_added(self) -> bool {
        bit_is_set(self.0 as int, 8)
    }

    /// Bit 2: the frame ends with the checksum of the content.
    pub open spec fn content_checksum_added(self) -> bool {
        bit_is_set(self.0 as int, 4)
    }

    /// Bit 0: the descriptor holds a dictionary identifier.
    pub open spec fn dictionary_id_set(self) -> bool {
        bit_is_set(self.0 as int, 1)
    }

    pub fn get_version(&self) -> (v: u8)
        ensures
            v == self.version(),
    {
        let b = self.0;
        assert((b >> 6) & 3 == b / 64) by (bit_vector);
        (b >> 6) & 3
    }

    pub fn is_block_independent(&self) -> (on: bool)
        ensures
            on == self.block_independent(),
    {
        let b = self.0;
        assert((b & 0x20 != 0) == (b / 32 % 2 == 1)) by (bit_vector);
        b & 0x20 != 0
    }

    pub fn is_block_checksum_added(&self) -> (on: bool)
        ensures
            on == self.block_checksum_added(),
    {
        let b = self.0;
        assert((b & 0x10 != 0) == (b / 16 % 2 == 1)) by (bit_vector);
        b & 0x10 != 0
    }

    pub fn is_content_size_added(&self) -> (on: bool)
        ensures
            on == self.content_size_added(),
    {
        let b = self.0;
        assert((b & 0x08 != 0) == (b / 8 % 2 == 1)) by (bit_vector);
        b & 0x08 != 0
    }

    pub fn is_content_checksum_added(&self) -> (on: bool)
        ensures
            on == self.content_checksum_added(),
    {
        let b = self.0;
        assert((b & 0x04 != 0) == (b / 4 % 2 == 1)) by (bit_vector);
        b & 0x04 != 0
    }

    pub fn is_dictionary_id_set(&self) -> (on: bool)
        ensures
            on == self.dictionary_id_set(),
    {
        let b = self.0;
        assert((b & 0x01 != 0) == (b / 1 % 2 == 1)) by (bit_vector);
        b & 0x01 != 0
    }

    /// Stores the low two bits of `value` as the version.
    pub fn set_version(&mut self, value: u8)
        ensures
            final(self).0 == old(self).0 % 64 + 64 * (value % 4),
    {
        let b = self.0;
        assert(((b & 0x3f) | ((value & 3) << 6)) == b % 64 + 64 * (value % 4)) by (bit_vector);
        self.0 = (b & 0x3f) | ((value & 3) << 6);
    }

    pub fn set_block_independent(&mut self, value: bool)
        ensures
            final(self).0 == with_bit(old(self).0 as int, 32, value),
    {
        let b = self.0;
        assert((b | 0x20) == if b / 32 % 2 == 1 { b } else { (b + 32) as u8 }) by (bit_vector);
        assert((b & 0xdf) == if b / 32 % 2 == 1 { (b - 32) as u8 } else { b }) by (bit_vector);
        assert(b / 32 % 2 == 1 ==> b >= 32) by (bit_vector);
        assert(b / 32 % 2 != 1 ==> b + 32 <= 255) by (bit_vector);
        self.0 = if value {
            b | 0x20
        } else {
            b & 0xdf
        };
    }

    pub fn set_content_checksum_added(&mut self, value: bool)
        ensures
            final(self).0 == with_bit(old(self).0 as int, 4, value),
    {
        let b = self.0;
        assert((b | 0x04) == if b / 4 % 2 == 1 { b } else { (b + 4) as u8 }) by (bit_vector);
        assert((b & 0xfb) == if b / 4 % 2 == 1 { (b - 4) as u8 } else { b }) by (bit_vector);
        assert(b / 4 % 2 == 1 ==> b >= 4) by (bit_vector);
        assert(b / 4 % 2 != 1 ==> b + 4 <= 255) by (bit_vector);
        self.0 = if value {
            b | 0x04
        } else {
            b & 0xfb
        };
    }
}

/// The BD byte of a frame descriptor.
#[derive(Debug, Clone, Copy)]
pub struct BdByte(pub u8);

impl BdByte {
    /// Bits 4 to 6: the index of the largest block size.
    pub open spec fn block_max_size(self) -> u8 {
        self.0 / 16 % 8
    }

    pub fn get_block_max_size(&self) -> (index: u8)
        ensures
            index == self.block_max_size(),
    {
        let b = self.0;
        assert((b >> 4) & 7 == b / 16 % 8) by (bit_vector);
        (b >> 4) & 7
    }

    /// Stores the low three bits of `value` as the index.
    pub fn set_block_max_size(&mut self, value: u8)
        ensures
            final(self).0 == old(self).0 - 16 * old(self).block_max_size() + 16 * (value % 8),
    {
        let b = self.0;
        assert(((b & 0x8f) | ((value & 7) << 4)) == b - 16 * (b / 16 % 8) + 16 * (value % 8))
            by (bit_vector);
        self.0 = (b & 0x8f) | ((value & 7) << 4);
    }
}

/// The four-byte word in front of every block.
#[derive(Debug, Clone, Copy)]
pub struct BlockSize(pub u32);

impl BlockSize {
    /// Bits 0 to 30: how many bytes of block follow.
    pub open spec fn block_size(self) -> u32 {
        self.0 % 0x8000_0000
    }

    /// Bit 31: the block holds the data as it is.
    pub open spec fn uncompressed(self) -> bool {
        self.0 >= 0x8000_0000
    }

    pub fn get_block_size(&self) -> (size: u32)
        ensures
            size == self.block_size(),
    {
        let w = self.0;
        assert(w & 0x7fff_ffff == w % 0x8000_0000) by (bit_vector);
        w & 0x7fff_ffff
    }

    pub fn is_uncompressed(&self) -> (on: bool)
        ensures
            on == self.uncompressed(),
    {
        let w = self.0;
        assert((w & 0x8000_0000 != 0) == (w >= 0x8000_0000)) by (bit_vector);
        w & 0x8000_0000 != 0
    }

    /// Stores the low 31 bits of `value` as the size.
    pub fn set_block_size(&mut self, value: u32)
        ensures
            final(self).0 == old(self).0 - old(self).block_size() + value % 0x8000_0000,
    {
        let w = self.0;
        assert(((w & 0x8000_0000) | (value & 0x7fff_ffff)) == w - w % 0x8000_0000 + value
            % 0x8000_0000) by (bit_vector);
        self.0 = (w & 0x8000_0000) | (value & 0x7fff_ffff);
    }

    pub fn set_block_uncompressed(&mut self, value: bool)
        ensures
            final(self).0 == old(self).block_size() + (if value {
                0x8000_0000
            } else {
                0int
            }),
    {
        let w = self.0;
        assert((w | 0x8000_0000) == w % 0x8000_0000 + 0x8000_0000) by (bit_vector);
        assert((w & 0x7fff_ffff) == w % 0x8000_0000) by (bit_vector);
        self.0 = if value {
            w | 0x8000_0000
        } else {
            w & 0x7fff_ffff
        };
    }
}

/// The first byte of a sequence.
#[derive(Debug, Clone, Copy)]
pub struct Token(pub u8);

impl Token {
    /// The high four bits: the length of the literals, or 15 where more follows.
    pub open spec fn literals_length(self) -> u8 {
        self.0 / 16
    }

    /// The low four bits: the stored match length, or 15 where more follows.
    pub open spec fn match_length(self) -> u8 {
        self.0 % 16
    }

    pub fn get_literals_length(&self) -> (n: u8)
        ensures
            n == self.literals_length(),
    {
        let b = self.0;
        assert((b >> 4) & 15 == b / 16) by (bit_vector);
        (b >> 4) & 15
    }

    pub fn get_match_length(&self) -> (n: u8)
        ensures
            n == self.match_length(),
    {
        let b = self.0;
        assert(b & 15 == b % 16) by (bit_vector);
        b & 15
    }

    /// Stores the low four bits of `value` in the high four bits.
    pub fn set_literals_length(&mut self, value: u8)
        ensures
            final(self).0 == old(self).0 % 16 + 16 * (value % 16),
    {
        let b = self.0;
        assert(((b & 0x0f) | ((value & 15) << 4)) == b % 16 + 16 * (value % 16)) by (bit_vector);
        self.0 = (b & 0x0f) | ((value & 15) << 4);
    }

    /// Stores the low four bits of `value` in the low four bits.
    pub fn set_match_length(&mut self, value: u8)
        ensures
            final(self).0 == old(self).0 - old(self).0 % 16 + value % 16,
    {
        let b = self.0;
        assert(((b & 0xf0) | (value & 15)) == b - b % 16 + value % 16) by (bit_vector);
        self.0 = (b & 0xf0) | (value & 15);
    }
}

} // verus!
