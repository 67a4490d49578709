//! Decompression: sequences, blocks and the frame around them.

use crate::analysis::analyze_matches;
use crate::bytes::read_u16_le;
use crate::bytes::read_u32_le;
use crate::checksum::hash_bytes;
use crate::checksum::hasher_input;
use crate::checksum::hasher_seed;
use crate::constants::LZ4_MAGIC_NUMBER;
use crate::constants::MATCH_LENGTH_OFFSET;
use crate::constants::TOKEN_MAX_VAL;
use crate::descriptors::BdByte;
use crate::descriptors::BlockSize;
use crate::descriptors::FlgByte;
use crate::descriptors::Token;
use crate::errors::BLOCKS_NOT_INDEPENDENT;
use crate::errors::DecompressResult;
use crate::errors::DICTIONARY_NOT_SUPPORTED;
use crate::errors::INVALID_BLOCK_MAX_SIZE;
use crate::errors::INVALID_CHECKSUM;
use crate::errors::INVALID_HEADER;
use crate::errors::LENGTH_TOO_LARGE;
use crate::errors::Lz4DecompressError;
use crate::errors::OFFSET_OUT_OF_RANGE;
use crate::errors::OFFSET_ZERO;
use crate::errors::UNEXPECTED_END;
use crate::errors::VERSION_NOT_ONE;
use crate::format::copy_match;
use crate::format::decode_block;
use crate::format::decode_sequences;
use crate::format::lemma_decode_sequences_ordered;
use crate::format::lemma_lsic_continuation_bounds;
use crate::format::lemma_parse_lsic_bounds;
use crate::format::lsic_continuation;
use crate::format::parse_literals;
use crate::format::parse_lsic;
use crate::format::parse_match;
use crate::frame::block_max_size_of;
use crate::frame::bytes_needed;
use crate::frame::feed_step;
use crate::frame::frame_step;
use crate::frame::FrameState;
use crate::frame::HEADER_SIZE;
use crate::frame::initial_frame_state;
use crate::frame::Stage;
use crate::frame::WORD_SIZE;
use crate::numeral_coding::encode_digits;
use crate::numeral_coding::Encoder;
use vstd::prelude::*;
use xxhash_rust::xxh32::Xxh32;

verus! {

/// Reads the length whose token share is `initial_val` from the front of
/// `data`: the length, and how many bytes of `data` belong to it.
pub fn get_lsic_int(data: &[u8], initial_val: u8, max_val: u8) -> (result: DecompressResult<
    (u32, usize),
>)
    ensures
        match parse_lsic(data@, initial_val as nat, max_val as nat) {
            Ok((val, count)) => result == Ok::<(u32, usize), Lz4DecompressError>(
                (val as u32, count as usize),
            ) && val <= u32::MAX && count <= data@.len(),
            Err(message) => result is Err && result->Err_0@ == message,
        },
{
    let mut val: u32 = initial_val as u32;
    if initial_val < max_val {
        return Ok((val, 0));
    }
    let mut pos: usize = 0;
    proof {
        assert(data@.skip(0) =~= data@);
        lemma_lsic_continuation_bounds(data@, val as nat);
    }
    loop
        invariant
            pos <= data@.len(),
            match lsic_continuation(data@.skip(pos as int), val as nat) {
                Ok((v, c)) => parse_lsic(data@, initial_val as nat, max_val as nat) == Ok::<
                    (nat, nat),
                    Seq<char>,
                >((v, (c + pos) as nat)) && c + pos <= data@.len(),
                Err(e) => parse_lsic(data@, initial_val as nat, max_val as nat) == Err::<
                    (nat, nat),
                    Seq<char>,
                >(e),
            },
        decreases data@.len() - pos,
    {
        if pos >= data.len() {
            return Err(Lz4DecompressError::from_static_str(UNEXPECTED_END));
        }
        let current_val = data[pos];
        proof {
            assert(data@.skip(pos as int)[0] == current_val);
            assert(data@.skip(pos as int).drop_first() =~= data@.skip(pos + 1));
        }
        if current_val as u32 > u32::MAX - val {
            return Err(Lz4DecompressError::from_static_str(LENGTH_TOO_LARGE));
        }
        val += current_val as u32;
        pos += 1;
        if current_val < 255 {
            return Ok((val, pos));
        }
    }
}

/// Appends to `buffer` a match of `length` bytes that starts `offset` bytes
/// back, one byte after the other, so that a match may run into itself.
fn copy_match_bytes(buffer: &mut Vec<u8>, offset: usize, length: u32)
    requires
        1 <= offset <= old(buffer)@.len(),
    ensures
        final(buffer)@ == copy_match(old(buffer)@, offset as nat, length as nat),
{
    let mut copied: u32 = 0;
    while copied < length
        invariant
            copied <= length,
            1 <= offset <= buffer@.len(),
            copy_match(buffer@, offset as nat, (length - copied) as nat) == copy_match(
                old(buffer)@,
                offset as nat,
                length as nat,
            ),
        decreases length - copied,
    {
        let byte = buffer[buffer.len() - offset];
        buffer.push(byte);
        copied += 1;
    }
}

/// Finds the literals of the sequence at the front of `data`: where they
/// start and where they end.
fn read_literals(data: &[u8]) -> (result: DecompressResult<(usize, usize)>)
    ensures
        match parse_literals(data@) {
            Ok((start, end)) => result == Ok::<(usize, usize), Lz4DecompressError>(
                (start as usize, end as usize),
            ) && 1 <= start <= end <= data@.len(),
            Err(message) => result is Err && result->Err_0@ == message,
        },
{
    if data.len() == 0 {
        return Err(Lz4DecompressError::from_static_str(UNEXPECTED_END));
    }
    let token = Token(data[0]);
    let share = token.get_literals_length();
    let behind_token = &data[1..data.len()];
    proof {
        assert(behind_token@ =~= data@.skip(1));
        lemma_parse_lsic_bounds(data@.skip(1), share as nat, TOKEN_MAX_VAL as nat);
    }
    let (literals_length, count) = match get_lsic_int(behind_token, share, TOKEN_MAX_VAL) {
        Ok(pair) => pair,
        Err(e) => {
            return Err(e);
        },
    };
    let start = 1 + count;
    if literals_length as usize > data.len() - start {
        return Err(Lz4DecompressError::from_static_str(UNEXPECTED_END));
    }
    Ok((start, start + literals_length as usize))
}

/// Reads the match at the front of `data`, where the token's share of its
/// length is `share`: the offset, the length, and how many bytes describe it.
fn read_match(data: &[u8], share: u8) -> (result: DecompressResult<(u16, u32, usize)>)
    requires
        share <= TOKEN_MAX_VAL,
    ensures
        match parse_match(data@, share as nat) {
            Ok((offset, length, count)) => result == Ok::<(u16, u32, usize), Lz4DecompressError>(
                (offset, length as u32, count as usize),
            ) && offset >= 1 && length <= u32::MAX && 2 <= count <= data@.len(),
            Err(message) => result is Err && result->Err_0@ == message,
        },
{
    let offset = match read_u16_le(data) {
        Some(offset) => offset,
        None => {
            return Err(Lz4DecompressError::from_static_str(UNEXPECTED_END));
        },
    };
    if offset == 0 {
        return Err(Lz4DecompressError::from_static_str(OFFSET_ZERO));
    }
    let behind_offset = &data[2..data.len()];
    proof {
        assert(behind_offset@ =~= data@.skip(2));
        lemma_parse_lsic_bounds(data@.skip(2), share as nat, TOKEN_MAX_VAL as nat);
    }
    let (stored, count) = match get_lsic_int(behind_offset, share, TOKEN_MAX_VAL) {
        Ok(pair) => pair,
        Err(e) => {
            return Err(e);
        },
    };
    if stored > u32::MAX - MATCH_LENGTH_OFFSET {
        return Err(Lz4DecompressError::from_static_str(LENGTH_TOO_LARGE));
    }
    Ok((offset, stored + MATCH_LENGTH_OFFSET, 2 + count))
}

/// Decodes one compressed block: its bytes, and for each match the place
/// in the block where it starts and the place that it copies from.
#[verifier::rlimit(30)]
pub fn decompress_block_data(data: &[u8]) -> (result: DecompressResult<
    (Vec<u8>, Vec<(usize, usize)>),
>)
    ensures
        match decode_block(data@) {
            Ok((bytes, matches)) => result is Ok && result->Ok_0.0@ == bytes && result->Ok_0.1@
                == matches,
            Err(message) => result is Err && result->Err_0@ == message,
        },
{
    let mut buffer: Vec<u8> = Vec::new();
    let mut matches: Vec<(usize, usize)> = Vec::new();
    let mut pos: usize = 0;
    assert(data@.skip(0) =~= data@);
    loop
        invariant
            pos <= data@.len(),
            decode_sequences(data@.skip(pos as int), buffer@, matches@) == decode_block(data@),
        decreases data@.len() - pos,
    {
        let input = &data[pos..data.len()];
        proof {
            reveal(decode_sequences);
        }
        assert(input@ =~= data@.skip(pos as int));
        let (start, end) = match read_literals(input) {
            Ok(pair) => pair,
            Err(e) => {
                return Err(e);
            },
        };
        let ghost before_literals = buffer@;
        buffer.extend_from_slice(&input[start..end]);
        assert(buffer@ =~= before_literals + input@.subrange(start as int, end as int));
        if end >= input.len() {
            return Ok((buffer, matches));
        }
        let token = Token(input[0]);
        let behind_literals = &input[end..input.len()];
        assert(behind_literals@ =~= input@.skip(end as int));
        let (offset, length, count) = match read_match(behind_literals, token.get_match_length()) {
            Ok(triple) => triple,
            Err(e) => {
                return Err(e);
            },
        };
        if offset as usize > buffer.len() {
            return Err(Lz4DecompressError::from_static_str(OFFSET_OUT_OF_RANGE));
        }
        let next_pos = buffer.len();
        matches.push((next_pos, next_pos - offset as usize));
        copy_match_bytes(&mut buffer, offset as usize, length);
        assert(data@.skip(pos + end + count) =~= input@.skip(end + count));
        pos = pos + end + count;
    }
}

/// The size of the largest block for an index of the descriptor. Indices
/// below 3 and above 7 are refused.
pub fn get_block_max_size(index: u8) -> (result: DecompressResult<usize>)
    ensures
        3 <= index <= 7 ==> result == Ok::<usize, Lz4DecompressError>(block_max_size_of(index)),
        !(3 <= index <= 7) ==> result is Err && result->Err_0@ == INVALID_BLOCK_MAX_SIZE@,
{
    if index < 3 || index > 7 {
        return Err(Lz4DecompressError::from_static_str(INVALID_BLOCK_MAX_SIZE));
    }
    let mut size: usize = 65536;
    let mut at: u8 = 4;
    while at < index
        invariant
            4 <= at <= 7,
            index <= 7,
            at <= index || (index == 3 && at == 4),
            size == block_max_size_of(at),
        decreases 7 - at,
    {
        size = size * 4;
        at += 1;
    }
    Ok(size)
}

/// What a decompressor holds: what it has found in the frame so far, and how
/// many bytes of the content it has handed out.
pub struct DecompressorState {
    pub frame: FrameState,
    pub delivered: nat,
    pub prefer_hidden: bool,
}

/// Reads a frame piece by piece. The caller asks how many bytes are needed,
/// gets them from wherever the frame comes from, and hands them over; the
/// content that has been decoded waits to be taken out.
pub struct Decompressor {
    buffer: Vec<u8>,
    hash: Xxh32,
    hidden_data_decoder: Encoder,
    stage: Stage,
    content_checksum_added: bool,
    buffer_start: usize,
    prefer_hidden: bool,
    content: Ghost<Seq<u8>>,
}

impl View for Decompressor {
    type V = DecompressorState;

    closed spec fn view(&self) -> DecompressorState {
        DecompressorState {
            frame: FrameState {
                stage: self.stage,
                content_checksum: self.content_checksum_added,
                content: self.content@,
                digits: self.hidden_data_decoder@,
            },
            delivered: (self.content@.len() - (self.buffer@.len() - self.buffer_start)) as nat,
            prefer_hidden: self.prefer_hidden,
        }
    }
}

impl Decompressor {
    /// The decoded bytes that wait are the end of the content, and the
    /// checksum so far is that of the content.
    pub closed spec fn well_formed(&self) -> bool {
        &&& self.buffer_start <= self.buffer@.len()
        &&& self.buffer@.len() - self.buffer_start <= self.content@.len()
        &&& self.buffer@.skip(self.buffer_start as int) == self.content@.skip(
            self.content@.len() - (self.buffer@.len() - self.buffer_start),
        )
        &&& hasher_input(self.hash) == self.content@
        &&& hasher_seed(self.hash) == 0
    }

    pub fn new(prefer_hidden: bool) -> (decompressor: Self)
        ensures
            decompressor.well_formed(),
            decompressor@ == (DecompressorState {
                frame: initial_frame_state(),
                delivered: 0,
                prefer_hidden,
            }),
    {
        let decompressor = Self {
            buffer: Vec::new(),
            hash: Xxh32::new(0),
            hidden_data_decoder: Encoder::new(),
            stage: Stage::Header,
            content_checksum_added: false,
            buffer_start: 0,
            prefer_hidden,
            content: Ghost(Seq::empty()),
        };
        assert(decompressor.buffer@.skip(0) =~= decompressor.content@.skip(0));
        decompressor
    }

    /// How many bytes the next call of `feed` needs.
    pub fn bytes_wanted(&self) -> (n: usize)
        ensures
            n == bytes_needed(self@.frame.stage),
    {
        match self.stage {
            Stage::Header => HEADER_SIZE,
            Stage::BlockSize => WORD_SIZE,
            Stage::Block { size, uncompressed } => size,
            Stage::Checksum => WORD_SIZE,
            Stage::Done => 0,
        }
    }

    /// Whether the frame has been read to its end.
    pub fn is_done(&self) -> (done: bool)
        ensures
            done == (self@.frame.stage is Done),
    {
        match self.stage {
            Stage::Done => true,
            _ => false,
        }
    }

    /// How many decoded bytes wait to be taken out.
    pub fn available(&self) -> (n: usize)
        requires
            self.well_formed(),
        ensures
            n == self@.frame.content.len() - self@.delivered,
    {
        self.buffer.len() - self.buffer_start
    }

    fn read_header(&mut self, input: &[u8]) -> (result: DecompressResult<()>)
        requires
            old(self).well_formed(),
            old(self)@.frame.stage is Header,
            input@.len() == HEADER_SIZE,
        ensures
            final(self).well_formed(),
            match frame_step(old(self)@.frame, input@, old(self)@.prefer_hidden) {
                Ok(next) => result is Ok && final(self)@ == (DecompressorState {
                    frame: next,
                    ..old(self)@
                }),
                Err(message) => result is Err && result->Err_0@ == message,
            },
    {
        let magic = match read_u32_le(input) {
            Some(magic) => magic,
            None => 0,
        };
        if magic != LZ4_MAGIC_NUMBER {
            return Err(Lz4DecompressError::from_static_str(INVALID_HEADER));
        }
        let flg = FlgByte(input[4]);
        if flg.get_version() != 1 {
            return Err(Lz4DecompressError::from_static_str(VERSION_NOT_ONE));
        }
        if flg.is_dictionary_id_set() {
            return Err(Lz4DecompressError::from_static_str(DICTIONARY_NOT_SUPPORTED));
        }
        if !flg.is_block_independent() {
            return Err(Lz4DecompressError::from_static_str(BLOCKS_NOT_INDEPENDENT));
        }
        let byte = BdByte(input[5]);
        let block_max_size = match get_block_max_size(byte.get_block_max_size()) {
            Ok(size) => size,
            Err(e) => {
                return Err(e);
            },
        };
        self.buffer.reserve(block_max_size);
        self.content_checksum_added = flg.is_content_checksum_added();
        self.stage = Stage::BlockSize;
        Ok(())
    }

    fn read_block_size(&mut self, input: &[u8])
        requires
            old(self).well_formed(),
            old(self)@.frame.stage is BlockSize,
            input@.len() == WORD_SIZE,
        ensures
            final(self).well_formed(),
            frame_step(old(self)@.frame, input@, old(self)@.prefer_hidden) == Ok::<
                FrameState,
                Seq<char>,
            >(final(self)@.frame),
            final(self)@ == (DecompressorState { frame: final(self)@.frame, ..old(self)@ }),
    {
        let block_size_val = match read_u32_le(input) {
            Some(word) => word,
            None => 0,
        };
        if block_size_val == 0 {
            self.stage = if self.content_checksum_added {
                Stage::Checksum
            } else {
                Stage::Done
            };
        } else {
            let block_size_desc = BlockSize(block_size_val);
            self.stage = Stage::Block {
                size: block_size_desc.get_block_size() as usize,
                uncompressed: block_size_desc.is_uncompressed(),
            };
        }
    }

    /// Puts newly decoded bytes behind those that wait.
    fn take_in(&mut self, new_data: &[u8])
        requires
            old(self).well_formed(),
        ensures
            final(self).well_formed(),
            final(self)@ == (DecompressorState {
                frame: FrameState {
                    content: old(self)@.frame.content + new_data@,
                    ..old(self)@.frame
                },
                ..old(self)@
            }),
    {
        if self.buffer_start >= self.buffer.len() {
            self.buffer.clear();
            self.buffer_start = 0;
        }
        hash_bytes(&mut self.hash, new_data);
        let ghost waiting = self.buffer@.skip(self.buffer_start as int);
        let ghost before = self.buffer@;
        self.buffer.extend_from_slice(new_data);
        proof {
            assert(self.buffer@ =~= before + new_data@);
            let content = self.content@ + new_data@;
            assert(self.buffer@.skip(self.buffer_start as int) =~= waiting + new_data@);
            assert(content.skip(content.len() - (self.buffer@.len() - self.buffer_start))
                =~= waiting + new_data@);
            self.content@ = content;
        }
    }

    fn read_block(&mut self, input: &[u8], uncompressed: bool) -> (result: DecompressResult<()>)
        requires
            old(self).well_formed(),
            old(self)@.frame.stage == (Stage::Block { size: input@.len() as usize, uncompressed }),
        ensures
            final(self).well_formed(),
            match frame_step(old(self)@.frame, input@, old(self)@.prefer_hidden) {
                Ok(next) => result is Ok && final(self)@ == (DecompressorState {
                    frame: next,
                    ..old(self)@
                }),
                Err(message) => result is Err && result->Err_0@ == message,
            },
    {
        if uncompressed {
            self.take_in(input);
        } else {
            let (bytes, matches) = match decompress_block_data(input) {
                Ok(pair) => pair,
                Err(e) => {
                    return Err(e);
                },
            };
            let decoded_len = bytes.len();
            proof {
                lemma_decode_sequences_ordered(input@, Seq::empty(), Seq::empty());
            }
            analyze_matches(
                bytes.as_slice(),
                &matches,
                self.prefer_hidden,
                &mut self.hidden_data_decoder,
            );
            self.take_in(bytes.as_slice());
        }
        self.stage = Stage::BlockSize;
        Ok(())
    }

    fn check_checksum(&mut self, input: &[u8]) -> (result: DecompressResult<()>)
        requires
            old(self).well_formed(),
            old(self)@.frame.stage is Checksum,
            input@.len() == WORD_SIZE,
        ensures
            final(self).well_formed(),
            match frame_step(old(self)@.frame, input@, old(self)@.prefer_hidden) {
                Ok(next) => result is Ok && final(self)@ == (DecompressorState {
                    frame: next,
                    ..old(self)@
                }),
                Err(message) => result is Err && result->Err_0@ == message,
            },
    {
        let file_checksum = match read_u32_le(input) {
            Some(word) => word,
            None => 0,
        };
        let computed_checksum = self.hash.digest();
        if file_checksum != computed_checksum {
            return Err(Lz4DecompressError::from_static_str(INVALID_CHECKSUM));
        }
        self.stage = Stage::Done;
        Ok(())
    }

    /// Takes the bytes that the decompressor needs next from the front of
    /// `input` and says how many it took. Input that is too short is
    /// refused, and so is what the frame format does not allow; after an
    /// error the decompressor is of no more use.
    pub fn feed(&mut self, input: &[u8]) -> (result: DecompressResult<usize>)
        requires
            old(self).well_formed(),
        ensures
            final(self).well_formed(),
            match feed_step(old(self)@.frame, input@, old(self)@.prefer_hidden) {
                Ok(next) => result == Ok::<usize, Lz4DecompressError>(
                    bytes_needed(old(self)@.frame.stage) as usize,
                ) && final(self)@ == (DecompressorState { frame: next, ..old(self)@ }),
                Err(message) => result is Err && result->Err_0@ == message,
            },
    {
        let wanted = self.bytes_wanted();
        if input.len() < wanted {
            return Err(Lz4DecompressError::from_static_str(UNEXPECTED_END));
        }
        let piece = &input[0..wanted];
        assert(piece@ =~= input@.take(wanted as int));
        let outcome = match self.stage {
            Stage::Header => self.read_header(piece),
            Stage::BlockSize => {
                self.read_block_size(piece);
                Ok(())
            },
            Stage::Block { size, uncompressed } => self.read_block(piece, uncompressed),
            Stage::Checksum => self.check_checksum(piece),
            Stage::Done => Ok(()),
        };
        match outcome {
            Ok(()) => Ok(wanted),
            Err(e) => Err(e),
        }
    }

    /// Takes out up to `max_len` of the decoded bytes that wait, oldest
    /// first.
    pub fn read(&mut self, max_len: usize) -> (bytes: Vec<u8>)
        requires
            old(self).well_formed(),
        ensures
            final(self).well_formed(),
            bytes@.len() == if max_len <= old(self)@.frame.content.len() - old(self)@.delivered {
                max_len as int
            } else {
                old(self)@.frame.content.len() - old(self)@.delivered
            },
            bytes@ == old(self)@.frame.content.subrange(
                old(self)@.delivered as int,
                (old(self)@.delivered + bytes@.len()) as int,
            ),
            final(self)@ == (DecompressorState {
                delivered: old(self)@.delivered + bytes@.len(),
                ..old(self)@
            }),
    {
        let waiting = self.buffer.len() - self.buffer_start;
        let to_return = if max_len < waiting {
            max_len
        } else {
            waiting
        };
        let mut bytes: Vec<u8> = Vec::new();
        bytes.extend_from_slice(&self.buffer[self.buffer_start..self.buffer_start + to_return]);
        proof {
            let content = self.content@;
            let from = content.len() - waiting;
            assert(bytes@ =~= self.buffer@.skip(self.buffer_start as int).take(to_return as int));
            assert(bytes@ =~= content.subrange(from, from + to_return));
            assert(self.buffer@.skip(self.buffer_start + to_return) =~= content.skip(
                from + to_return,
            )) by {
                assert(self.buffer@.skip(self.buffer_start + to_return) =~= self.buffer@.skip(
                    self.buffer_start as int,
                ).skip(to_return as int));
            }
        }
        self.buffer_start += to_return;
        bytes
    }

    /// The bytes that stand for the digits found in the frame: what a
    /// decoder of numerals needs to give those digits again.
    pub fn finish(self) -> (hidden: Vec<u8>)
        ensures
            hidden@ == encode_digits(self@.frame.digits),
    {
        self.hidden_data_decoder.finish()
    }
}

} // verus!
