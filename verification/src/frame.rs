//! The LZ4 frame format, stated on byte sequences: the magic number, the
//! descriptor, the blocks with their size words, the end mark and the
//! checksum of the content.

use crate::analysis::recovered_digits;
use crate::bytes::u32_from_le;
use crate::bytes::u32_le_bytes;
use crate::checksum::xxh32_stream_value;
use crate::checksum::xxh32_value;
use crate::constants::LZ4_MAGIC_NUMBER;
use crate::constants::MAX_BLOCK_SIZE;
use crate::constants::MIN_COMPRESS_LENGTH;
use crate::descriptors::BdByte;
use crate::descriptors::FlgByte;
use crate::encoding::compressed_block;
use crate::encoding::plan_from;
use crate::encoding::uncompressed_block;
use crate::errors::BLOCKS_NOT_INDEPENDENT;
use crate::errors::DICTIONARY_NOT_SUPPORTED;
use crate::errors::INVALID_BLOCK_MAX_SIZE;
use crate::errors::INVALID_CHECKSUM;
use crate::errors::INVALID_HEADER;
use crate::errors::UNEXPECTED_END;
use crate::errors::VERSION_NOT_ONE;
use crate::format::decode_block;
use crate::numeral_coding::DecoderState;
use vstd::prelude::*;

verus! {

/// The FLG byte that the compressor writes: version 1, independent blocks,
/// a checksum of the content.
pub const FRAME_FLG: u8 = 0x64;

/// The BD byte that the compressor writes: blocks of up to 4 MiB.
pub const FRAME_BD: u8 = 0x70;

/// How many bytes the magic number and the descriptor take.
pub const HEADER_SIZE: usize = 7;

/// How many bytes a size word or a checksum takes.
pub const WORD_SIZE: usize = 4;

/// The descriptor that the compressor writes: FLG, BD, and of their hash
/// the second lowest byte.
pub open spec fn frame_descriptor() -> Seq<u8> {
    seq![FRAME_FLG, FRAME_BD, (xxh32_value(seq![FRAME_FLG, FRAME_BD], 0) / 256 % 256) as u8]
}

/// What every frame of the compressor starts with.
pub open spec fn frame_header() -> Seq<u8> {
    u32_le_bytes(LZ4_MAGIC_NUMBER) + frame_descriptor()
}

/// What a frame with the given content ends with: a size word of 0 and the
/// checksum of the content.
pub open spec fn frame_footer(content: Seq<u8>) -> Seq<u8> {
    u32_le_bytes(0) + u32_le_bytes(xxh32_stream_value(content, 0))
}

/// What the compressor makes of the input it holds.
pub struct Blocks {
    /// The bytes of the blocks.
    pub bytes: Seq<u8>,
    /// How many blocks there are.
    pub count: nat,
    /// How much of the input went into them.
    pub consumed: nat,
    /// What the decoder of the hidden data holds afterwards.
    pub hidden: DecoderState,
}

/// The block that the compressor makes of `chunk`, and what the decoder of
/// the hidden data holds afterwards. A chunk shorter than
/// `MIN_COMPRESS_LENGTH` is held as it is.
pub open spec fn block_of(chunk: Seq<u8>, prefer_hidden: bool, hidden: DecoderState) -> (
    Seq<u8>,
    DecoderState,
) {
    if chunk.len() < MIN_COMPRESS_LENGTH {
        (uncompressed_block(chunk), hidden)
    } else {
        (
            compressed_block(chunk, prefer_hidden, hidden),
            plan_from(chunk, prefer_hidden, 0, hidden).1,
        )
    }
}

/// How many bytes of an input of the length `len` go into the next block.
pub open spec fn first_block_size(len: nat) -> nat {
    if len < MAX_BLOCK_SIZE {
        len
    } else {
        MAX_BLOCK_SIZE as nat
    }
}

/// The blocks that the compressor makes of the input it holds. Blocks take
/// `MAX_BLOCK_SIZE` bytes each as long as the input has as many; when `force`
/// is set the rest goes into a last, shorter block.
pub open spec fn blocks_of(
    data: Seq<u8>,
    prefer_hidden: bool,
    hidden: DecoderState,
    force: bool,
) -> Blocks
    decreases data.len(),
{
    if data.len() == 0 || !(data.len() >= MAX_BLOCK_SIZE || force) {
        Blocks { bytes: Seq::empty(), count: 0, consumed: 0, hidden }
    } else {
        let size = first_block_size(data.len());
        let first = block_of(data.subrange(0, size as int), prefer_hidden, hidden);
        let behind = blocks_of(data.skip(size as int), prefer_hidden, first.1, force);
        Blocks {
            bytes: first.0 + behind.bytes,
            count: 1 + behind.count,
            consumed: size + behind.consumed,
            hidden: behind.hidden,
        }
    }
}

/// The frame that the compressor makes of `data` when it gets all of it
/// before it is told to finish.
pub open spec fn frame_of(data: Seq<u8>, prefer_hidden: bool, hidden: DecoderState) -> Seq<u8> {
    frame_header() + blocks_of(data, prefer_hidden, hidden, true).bytes + frame_footer(data)
}

/// No more goes into blocks than there is.
pub proof fn lemma_blocks_consumed(
    data: Seq<u8>,
    prefer_hidden: bool,
    hidden: DecoderState,
    force: bool,
)
    ensures
        blocks_of(data, prefer_hidden, hidden, force).consumed <= data.len(),
    decreases data.len(),
{
    if data.len() > 0 && (data.len() >= MAX_BLOCK_SIZE || force) {
        let size = first_block_size(data.len());
        let first = block_of(data.subrange(0, size as int), prefer_hidden, hidden);
        lemma_blocks_consumed(data.skip(size as int), prefer_hidden, first.1, force);
    }
}

/// When the rest is forced out, all of the input goes into blocks.
pub proof fn lemma_forced_blocks_take_all(
    data: Seq<u8>,
    prefer_hidden: bool,
    hidden: DecoderState,
)
    ensures
        blocks_of(data, prefer_hidden, hidden, true).consumed == data.len(),
    decreases data.len(),
{
    if data.len() > 0 {
        let size = first_block_size(data.len());
        let first = block_of(data.subrange(0, size as int), prefer_hidden, hidden);
        lemma_forced_blocks_take_all(data.skip(size as int), prefer_hidden, first.1);
    }
}

/// Whether the blocks are made as the input comes in or only when all of it
/// is there makes no difference: the full blocks that are made of `data`,
/// and the blocks that are then made of what they left and of `more`, are
/// the blocks of `data` and `more` together.
pub proof fn lemma_blocks_resume(
    data: Seq<u8>,
    more: Seq<u8>,
    prefer_hidden: bool,
    hidden: DecoderState,
    force: bool,
)
    ensures
        ({
            let first = blocks_of(data, prefer_hidden, hidden, false);
            let second = blocks_of(
                data.skip(first.consumed as int) + more,
                prefer_hidden,
                first.hidden,
                force,
            );
            &&& first.consumed <= data.len()
            &&& blocks_of(data + more, prefer_hidden, hidden, force) == (Blocks {
                bytes: first.bytes + second.bytes,
                count: first.count + second.count,
                consumed: first.consumed + second.consumed,
                hidden: second.hidden,
            })
        }),
    decreases data.len(),
{
    let first = blocks_of(data, prefer_hidden, hidden, false);
    let all = data + more;
    if data.len() >= MAX_BLOCK_SIZE {
        let size = MAX_BLOCK_SIZE as int;
        let rest = data.skip(size);
        assert(all.subrange(0, size) =~= data.subrange(0, size));
        assert(all.skip(size) =~= rest + more);
        let block = block_of(data.subrange(0, size), prefer_hidden, hidden);
        lemma_blocks_resume(rest, more, prefer_hidden, block.1, force);
        let behind = blocks_of(rest, prefer_hidden, block.1, false);
        assert(rest.skip(behind.consumed as int) =~= data.skip(first.consumed as int));
        let second = blocks_of(
            data.skip(first.consumed as int) + more,
            prefer_hidden,
            first.hidden,
            force,
        );
        assert(block.0 + (behind.bytes + second.bytes) =~= (block.0 + behind.bytes)
            + second.bytes);
    } else {
        assert(data.skip(0) =~= data);
        let second = blocks_of(all, prefer_hidden, hidden, force);
        assert(Seq::<u8>::empty() + second.bytes =~= second.bytes);
    }
}

/// Input of more than `MAX_BLOCK_SIZE` bytes goes into two blocks or more.
pub proof fn lemma_long_input_takes_two_blocks(
    data: Seq<u8>,
    prefer_hidden: bool,
    hidden: DecoderState,
)
    requires
        data.len() > MAX_BLOCK_SIZE,
    ensures
        blocks_of(data, prefer_hidden, hidden, true).count >= 2,
{
    let rest = data.skip(MAX_BLOCK_SIZE as int);
    let first = block_of(data.subrange(0, MAX_BLOCK_SIZE as int), prefer_hidden, hidden);
    assert(blocks_of(rest, prefer_hidden, first.1, true).count >= 1);
}

/// Where a reader of a frame stands: what it reads next.
pub enum Stage {
    /// The magic number and the descriptor.
    Header,
    /// The size word of a block, or the end mark.
    BlockSize,
    /// The bytes of a block.
    Block { size: usize, uncompressed: bool },
    /// The checksum of the content.
    Checksum,
    /// Nothing: the frame is complete.
    Done,
}

/// What a reader of a frame has found so far.
pub struct FrameState {
    pub stage: Stage,
    /// Whether the frame ends with a checksum of its content.
    pub content_checksum: bool,
    /// The bytes decoded so far.
    pub content: Seq<u8>,
    /// The digits that the matches so far stand for.
    pub digits: Seq<(u16, u16)>,
}

/// A reader that has read nothing yet.
pub open spec fn initial_frame_state() -> FrameState {
    FrameState {
        stage: Stage::Header,
        content_checksum: false,
        content: Seq::empty(),
        digits: Seq::empty(),
    }
}

/// How many bytes a reader at this stage needs to go on.
pub open spec fn bytes_needed(stage: Stage) -> nat {
    match stage {
        Stage::Header => HEADER_SIZE as nat,
        Stage::BlockSize => WORD_SIZE as nat,
        Stage::Block { size, uncompressed } => size as nat,
        Stage::Checksum => WORD_SIZE as nat,
        Stage::Done => 0,
    }
}

/// The size of the largest block for an index of the descriptor: 64 KiB for
/// 4 and four times as much for each index above it. An index of 3 is taken
/// as 4.
pub open spec fn block_max_size_of(index: u8) -> usize {
    if index <= 4 {
        65536
    } else if index == 5 {
        262144
    } else if index == 6 {
        1048576
    } else {
        4194304
    }
}

/// What the seven bytes of a header say: whether the frame ends with a
/// checksum of the content, or why no frame of this kind can be read.
pub open spec fn decode_header(input: Seq<u8>) -> Result<bool, Seq<char>> {
    if u32_from_le(input) != LZ4_MAGIC_NUMBER {
        Err(INVALID_HEADER@)
    } else if FlgByte(input[4]).version() != 1 {
        Err(VERSION_NOT_ONE@)
    } else if FlgByte(input[4]).dictionary_id_set() {
        Err(DICTIONARY_NOT_SUPPORTED@)
    } else if !FlgByte(input[4]).block_independent() {
        Err(BLOCKS_NOT_INDEPENDENT@)
    } else if BdByte(input[5]).block_max_size() < 3 {
        Err(INVALID_BLOCK_MAX_SIZE@)
    } else {
        Ok(FlgByte(input[4]).content_checksum_added())
    }
}

/// What a reader makes of the bytes that it needed: where it stands
/// afterwards, or why the frame is refused.
pub open spec fn frame_step(state: FrameState, input: Seq<u8>, prefer_hidden: bool) -> Result<
    FrameState,
    Seq<char>,
> {
    match state.stage {
        Stage::Header => match decode_header(input) {
            Ok(content_checksum) => Ok(
                FrameState {
                    stage: Stage::BlockSize,
                    content_checksum,
                    content: state.content,
                    digits: state.digits,
                },
            ),
            Err(e) => Err(e),
        },
        Stage::BlockSize => {
            let word = u32_from_le(input);
            Ok(
                FrameState {
                    stage: if word != 0 {
                        Stage::Block {
                            size: (word % 0x8000_0000) as usize,
                            uncompressed: word >= 0x8000_0000,
                        }
                    } else if state.content_checksum {
                        Stage::Checksum
                    } else {
                        Stage::Done
                    },
                    content_checksum: state.content_checksum,
                    content: state.content,
                    digits: state.digits,
                },
            )
        },
        Stage::Block { size, uncompressed } => {
            if uncompressed {
                Ok(
                    FrameState {
                        stage: Stage::BlockSize,
                        content_checksum: state.content_checksum,
                        content: state.content + input,
                        digits: state.digits,
                    },
                )
            } else {
                match decode_block(input) {
                    Ok((bytes, matches)) => Ok(
                        FrameState {
                            stage: Stage::BlockSize,
                            content_checksum: state.content_checksum,
                            content: state.content + bytes,
                            digits: state.digits + recovered_digits(bytes, prefer_hidden, matches),
                        },
                    ),
                    Err(e) => Err(e),
                }
            }
        },
        Stage::Checksum => {
            if u32_from_le(input) == xxh32_stream_value(state.content, 0) {
                Ok(
                    FrameState {
                        stage: Stage::Done,
                        content_checksum: state.content_checksum,
                        content: state.content,
                        digits: state.digits,
                    },
                )
            } else {
                Err(INVALID_CHECKSUM@)
            }
        },
        Stage::Done => Ok(state),
    }
}

/// A step of a reader adds to the content and takes nothing away.
pub proof fn lemma_frame_step_extends(state: FrameState, input: Seq<u8>, prefer_hidden: bool)
    requires
        frame_step(state, input, prefer_hidden) is Ok,
    ensures
        state.content.len() <= frame_step(state, input, prefer_hidden)->Ok_0.content.len(),
        frame_step(state, input, prefer_hidden)->Ok_0.content.take(state.content.len() as int)
            == state.content,
{
    let next = frame_step(state, input, prefer_hidden)->Ok_0;
    assert(next.content.take(state.content.len() as int) =~= state.content);
}

/// What a reader makes of as much input as it is given: the input is cut
/// into the pieces that the reader needs one after the other, and a frame
/// that is not complete when the input ends is refused.
pub open spec fn feed_step(state: FrameState, input: Seq<u8>, prefer_hidden: bool) -> Result<
    FrameState,
    Seq<char>,
> {
    if input.len() < bytes_needed(state.stage) {
        Err(UNEXPECTED_END@)
    } else {
        frame_step(state, input.take(bytes_needed(state.stage) as int), prefer_hidden)
    }
}

/// Whether the stage is that of the bytes of a block.
pub open spec fn in_block(stage: Stage) -> bool {
    stage is Block
}

/// Where a reader that starts at `state` stands when it has read a whole
/// frame from the front of `input`; what follows the frame is not looked at.
#[verifier::opaque]
pub open spec fn read_frame(state: FrameState, input: Seq<u8>, prefer_hidden: bool) -> Result<
    FrameState,
    Seq<char>,
>
    decreases input.len(), (if in_block(state.stage) {
        1nat
    } else {
        0nat
    }),
{
    if state.stage is Done {
        Ok(state)
    } else {
        match feed_step(state, input, prefer_hidden) {
            Err(e) => Err(e),
            Ok(next) => read_frame(
                next,
                input.skip(bytes_needed(state.stage) as int),
                prefer_hidden,
            ),
        }
    }
}

/// What a frame holds: its content, and the digits that its matches stand
/// for.
pub open spec fn decode_frame(input: Seq<u8>, prefer_hidden: bool) -> Result<
    (Seq<u8>, Seq<(u16, u16)>),
    Seq<char>,
> {
    match read_frame(initial_frame_state(), input, prefer_hidden) {
        Ok(state) => Ok((state.content, state.digits)),
        Err(e) => Err(e),
    }
}

} // verus!
