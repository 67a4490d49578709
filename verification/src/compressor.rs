//! Compression: sequences, blocks and the frame around them.

use crate::bytes::write_u16_le;
use crate::bytes::write_u32_le;
use crate::checksum::hash_bytes;
use crate::checksum::hasher_input;
use crate::checksum::hasher_seed;
use crate::constants::END_LITERAL_NUM;
use crate::constants::LZ4_MAGIC_NUMBER;
use crate::constants::MATCH_LENGTH_OFFSET;
use crate::constants::MAX_BLOCK_SIZE;
use crate::constants::MIN_COMPRESS_LENGTH;
use crate::constants::TOKEN_MAX_VAL;
use crate::descriptors::BdByte;
use crate::descriptors::BlockSize;
use crate::descriptors::FlgByte;
use crate::descriptors::Token;
use crate::encoding::compressed_block;
use crate::encoding::compressed_payload;
use crate::encoding::plan_bytes;
use crate::encoding::plan_from;
use crate::encoding::uncompressed_block;
use crate::format::lsic_bytes;
use crate::format::lsic_tail;
use crate::format::sequence_bytes;
use crate::frame::block_of;
use crate::frame::Blocks;
use crate::frame::blocks_of;
use crate::frame::first_block_size;
use crate::frame::FRAME_BD;
use crate::frame::frame_descriptor;
use crate::frame::FRAME_FLG;
use crate::frame::frame_footer;
use crate::frame::frame_header;
use crate::frame::lemma_blocks_consumed;
use crate::frame::lemma_blocks_resume;
use crate::frame::lemma_forced_blocks_take_all;
use crate::matching::lemma_candidates;
use crate::matching::lemma_match_is_copy;
use crate::numeral_coding::Decoder;
use crate::numeral_coding::DecoderState;
use crate::numeral_coding::initial_state;
use crate::occurrence_map::OccurrenceMap;
use vstd::prelude::*;
use xxhash_rust::xxh32::Xxh32;
use xxhash_rust::xxh32::xxh32;

verus! {

/// Appends the continuation bytes of the length `val` to `output`; the token
/// holds lengths below `max_val` by itself.
pub fn output_lsic_int(val: u32, max_val: u8, output: &mut Vec<u8>)
    ensures
        final(output)@ == old(output)@ + lsic_bytes(val as nat, max_val as nat),
{
    if val < max_val as u32 {
        assert(old(output)@ + Seq::<u8>::empty() =~= old(output)@);
        return ;
    }
    let mut new_val: u32 = val - max_val as u32;
    let ghost whole = new_val as nat;
    while new_val > 255
        invariant
            old(output)@ + lsic_tail(whole) =~= output@ + lsic_tail(new_val as nat),
        decreases new_val,
    {
        output.push(255);
        new_val -= 255;
    }
    output.push(new_val as u8);
}

/// Appends one sequence to `output`: the literals, then a match of
/// `match_length` bytes that lies `offset` bytes back. The offset 0 stands
/// for no match and ends a block.
pub fn output_sequence(literals: &Vec<u8>, offset: u16, match_length: u32, output: &mut Vec<u8>)
    requires
        literals@.len() <= u32::MAX,
        match_length >= MATCH_LENGTH_OFFSET,
    ensures
        final(output)@ == old(output)@ + sequence_bytes(literals@, offset, match_length),
{
    let literals_len = literals.len() as u32;
    let match_length_saved = match_length - MATCH_LENGTH_OFFSET;
    let literals_share: u8 = if literals_len < TOKEN_MAX_VAL as u32 {
        literals_len as u8
    } else {
        TOKEN_MAX_VAL
    };
    let match_share: u8 = if match_length_saved < TOKEN_MAX_VAL as u32 {
        match_length_saved as u8
    } else {
        TOKEN_MAX_VAL
    };
    let mut token = Token(0);
    token.set_literals_length(literals_share);
    token.set_match_length(match_share);
    output.push(token.0);
    output_lsic_int(literals_len, TOKEN_MAX_VAL, output);
    let ghost before_literals = output@;
    output.extend_from_slice(literals.as_slice());
    assert(output@ =~= before_literals + literals@);
    if offset != 0 {
        write_u16_le(output, offset);
        output_lsic_int(match_length_saved, TOKEN_MAX_VAL, output);
    }
    assert(output@ =~= old(output)@ + sequence_bytes(literals@, offset, match_length));
}

/// Appends to `output` a block that holds `data` as it is.
pub fn output_uncompressed_block(output: &mut Vec<u8>, data: &[u8])
    requires
        data@.len() < 0x8000_0000,
    ensures
        final(output)@ == old(output)@ + uncompressed_block(data@),
{
    let mut block_size = BlockSize(0);
    block_size.set_block_uncompressed(true);
    block_size.set_block_size(data.len() as u32);
    write_u32_le(output, block_size.0);
    let ghost before_data = output@;
    output.extend_from_slice(data);
    assert(output@ =~= before_data + data@);
    assert(output@ =~= old(output)@ + uncompressed_block(data@));
}

/// The sequences of the block that is made of `data`; the digits that choose
/// among the candidates for a match are drawn from `hidden_data_encoder`.
#[verifier::rlimit(30)]
fn compress_sequences(
    data: &[u8],
    hidden_data_encoder: &mut Decoder,
    prefer_hidden: bool,
) -> (payload: Vec<u8>)
    requires
        MIN_COMPRESS_LENGTH <= data@.len() < 0x8000_0000,
    ensures
        payload@ == compressed_payload(data@, prefer_hidden, old(hidden_data_encoder)@),
        final(hidden_data_encoder)@ == plan_from(
            data@,
            prefer_hidden,
            0,
            old(hidden_data_encoder)@,
        ).1,
{
    let mut payload: Vec<u8> = Vec::new();
    let mut occur = OccurrenceMap::new(data, prefer_hidden);
    let mut literals: Vec<u8> = Vec::new();
    let mut i: usize = 0;
    let ghost mut anchor: int = 0;
    let ghost whole = plan_from(data@, prefer_hidden, 0, hidden_data_encoder@);
    let last = data.len() - END_LITERAL_NUM;
    proof {
        assert(data@.subrange(0, 0) =~= Seq::<u8>::empty());
        assert(payload@ + plan_bytes(data@, whole.0, 0) =~= plan_bytes(data@, whole.0, 0));
    }
    while i < last
        invariant
            MIN_COMPRESS_LENGTH <= data@.len() < 0x8000_0000,
            last == data@.len() - END_LITERAL_NUM,
            0 <= anchor <= i <= last,
            literals@ == data@.subrange(anchor, i as int),
            occur.tracks(i as int),
            occur.data() == data@,
            occur.prefer_hidden() == prefer_hidden,
            payload@ + plan_bytes(
                data@,
                plan_from(data@, prefer_hidden, i as int, hidden_data_encoder@).0,
                anchor,
            ) == plan_bytes(data@, whole.0, 0),
            plan_from(data@, prefer_hidden, i as int, hidden_data_encoder@).1 == whole.1,
        decreases last - i,
    {
        let ghost hidden_before = hidden_data_encoder@;
        let occurrences = occur.get_occurrences(i);
        proof {
            lemma_candidates(data@, i as int, prefer_hidden);
        }
        let mut taken: usize = 0;
        if occurrences.len() > 0 {
            let chosen_index = hidden_data_encoder.decode_value(occurrences.len() as u16);
            let (index, match_length) = occurrences.choose_occurrence(chosen_index as usize);
            proof {
                assert(occurrences.positions().contains(index));
                lemma_match_is_copy(data@, i as int, index as int);
            }
            if match_length >= 4 {
                let offset = (i - index) as u16;
                output_sequence(&literals, offset, match_length as u32, &mut payload);
                literals.clear();
                taken = match_length;
            }
        }
        if taken == 0 {
            literals.push(data[i]);
            occur.add_occurrences(i, 1);
            i += 1;
            proof {
                assert(literals@ =~= data@.subrange(anchor, i as int));
            }
        } else {
            occur.add_occurrences(i, taken);
            proof {
                let plan = plan_from(data@, prefer_hidden, i as int, hidden_before).0;
                let behind = plan_from(data@, prefer_hidden, i + taken, hidden_data_encoder@).0;
                assert(plan.drop_first() =~= behind);
            }
            i += taken;
            proof {
                anchor = i as int;
                assert(literals@ =~= data@.subrange(anchor, i as int));
            }
        }
    }
    literals.extend_from_slice(&data[last..data.len()]);
    assert(literals@ =~= data@.subrange(anchor, data@.len() as int));
    output_sequence(&literals, 0, MATCH_LENGTH_OFFSET, &mut payload);
    payload
}

/// Appends to `output` the block that is made of `data`: compressed, or as
/// it is where the compressed form comes to more than the largest block.
pub fn output_compressed_block(
    output: &mut Vec<u8>,
    data: &[u8],
    hidden_data_encoder: &mut Decoder,
    prefer_hidden: bool,
)
    requires
        MIN_COMPRESS_LENGTH <= data@.len() < 0x8000_0000,
    ensures
        final(output)@ == old(output)@ + compressed_block(
            data@,
            prefer_hidden,
            old(hidden_data_encoder)@,
        ),
        final(hidden_data_encoder)@ == plan_from(
            data@,
            prefer_hidden,
            0,
            old(hidden_data_encoder)@,
        ).1,
{
    let payload = compress_sequences(data, hidden_data_encoder, prefer_hidden);
    let block_size_num = payload.len();
    if block_size_num <= MAX_BLOCK_SIZE {
        let mut block_size = BlockSize(0);
        block_size.set_block_uncompressed(false);
        block_size.set_block_size(block_size_num as u32);
        write_u32_le(output, block_size.0);
        let ghost before_payload = output@;
        output.extend_from_slice(payload.as_slice());
        assert(output@ =~= before_payload + payload@);
        assert(output@ =~= old(output)@ + compressed_block(
            data@,
            prefer_hidden,
            old(hidden_data_encoder)@,
        ));
    } else {
        output_uncompressed_block(output, data);
    }
}

/// Appends to `output` the block that is made of `data`: compressed, or as
/// it is where `data` is shorter than `MIN_COMPRESS_LENGTH`.
pub fn output_one_block(
    output: &mut Vec<u8>,
    data: &[u8],
    hidden_data_encoder: &mut Decoder,
    prefer_hidden: bool,
)
    requires
        data@.len() < 0x8000_0000,
    ensures
        final(output)@ == old(output)@ + block_of(
            data@,
            prefer_hidden,
            old(hidden_data_encoder)@,
        ).0,
        final(hidden_data_encoder)@ == block_of(data@, prefer_hidden, old(hidden_data_encoder)@).1,
{
    if data.len() < MIN_COMPRESS_LENGTH {
        output_uncompressed_block(output, data);
    } else {
        output_compressed_block(output, data, hidden_data_encoder, prefer_hidden);
    }
}

/// What a compressor holds.
pub struct CompressorState {
    /// The bytes of the frame that have been made and not yet taken out.
    pub pending: Seq<u8>,
    /// The input that has not gone into a block yet.
    pub buffered: Seq<u8>,
    /// The input that has gone into blocks.
    pub encoded: Seq<u8>,
    /// What the decoder of the hidden data holds.
    pub hidden: DecoderState,
    pub prefer_hidden: bool,
}

/// Makes a frame of the input that it is given piece by piece. The bytes of
/// the frame wait to be taken out and sent wherever the frame goes.
pub struct Compressor<'a> {
    output: Vec<u8>,
    buffer: Vec<u8>,
    hash: Xxh32,
    hidden_data_encoder: Decoder<'a>,
    prefer_hidden: bool,
}

impl<'a> View for Compressor<'a> {
    type V = CompressorState;

    closed spec fn view(&self) -> CompressorState {
        CompressorState {
            pending: self.output@,
            buffered: self.buffer@,
            encoded: hasher_input(self.hash),
            hidden: self.hidden_data_encoder@,
            prefer_hidden: self.prefer_hidden,
        }
    }
}

/// The descriptor of the frames that the compressor makes.
pub fn build_frame_descriptor() -> (output: Vec<u8>)
    ensures
        output@ == frame_descriptor(),
{
    let mut output: Vec<u8> = Vec::new();
    let mut flag = FlgByte(0);
    flag.set_version(1);
    flag.set_block_independent(true);
    flag.set_content_checksum_added(true);
    output.push(flag.0);
    let mut bd = BdByte(0);
    bd.set_block_max_size(7);
    output.push(bd.0);
    assert(output@ =~= seq![FRAME_FLG, FRAME_BD]);
    let hash = xxh32(output.as_slice(), 0);
    assert((hash >> 8) & 0xFF == hash / 256 % 256) by (bit_vector);
    let hc = ((hash >> 8) & 0xFF) as u8;
    output.push(hc);
    assert(output@ =~= frame_descriptor());
    output
}

impl<'a> Compressor<'a> {
    /// The checksum so far is that of the input that has gone into blocks.
    pub closed spec fn well_formed(&self) -> bool {
        hasher_seed(self.hash) == 0
    }

    /// A compressor whose choices among the candidates for a match carry
    /// `hidden_data`. The header of the frame waits to be taken out.
    pub fn new_with_hidden_data(hidden_data: &'a [u8], prefer_hidden: bool) -> (compressor: Self)
        ensures
            compressor.well_formed(),
            compressor@ == (CompressorState {
                pending: frame_header(),
                buffered: Seq::empty(),
                encoded: Seq::empty(),
                hidden: initial_state(hidden_data@),
                prefer_hidden,
            }),
    {
        let mut compressor = Self {
            output: Vec::new(),
            buffer: Vec::new(),
            hash: Xxh32::new(0),
            hidden_data_encoder: Decoder::new(hidden_data),
            prefer_hidden,
        };
        compressor.write_header();
        compressor
    }

    /// A compressor without hidden data, which takes the longest match.
    pub fn new() -> (compressor: Self)
        ensures
            compressor.well_formed(),
            compressor@ == (CompressorState {
                pending: frame_header(),
                buffered: Seq::empty(),
                encoded: Seq::empty(),
                hidden: initial_state(Seq::empty()),
                prefer_hidden: false,
            }),
    {
        let nothing: &'static [u8] = &[];
        assert(nothing@ =~= Seq::<u8>::empty());
        Self::new_with_hidden_data(nothing, false)
    }

    /// How many whole bytes the choices made so far could carry.
    pub fn get_available_bytes(&self) -> (n: usize)
        ensures
            n == self@.hidden.capacity / 32,
    {
        self.hidden_data_encoder.get_available_bytes()
    }

    fn write_header(&mut self)
        requires
            old(self).well_formed(),
        ensures
            final(self).well_formed(),
            final(self)@ == (CompressorState {
                pending: old(self)@.pending + frame_header(),
                ..old(self)@
            }),
    {
        write_u32_le(&mut self.output, LZ4_MAGIC_NUMBER);
        let frame_descriptor = build_frame_descriptor();
        let ghost before = self.output@;
        self.output.extend_from_slice(frame_descriptor.as_slice());
        assert(self.output@ =~= before + frame_descriptor@);
        assert(self.output@ =~= old(self).output@ + frame_header());
    }

    fn write_footer(&mut self)
        requires
            old(self).well_formed(),
        ensures
            final(self).well_formed(),
            final(self)@ == (CompressorState {
                pending: old(self)@.pending + frame_footer(old(self)@.encoded),
                ..old(self)@
            }),
    {
        write_u32_le(&mut self.output, 0);
        write_u32_le(&mut self.output, self.hash.digest());
        assert(self.output@ =~= old(self).output@ + frame_footer(old(self)@.encoded));
    }

    /// Makes blocks of the input that waits: full blocks only, or, when
    /// `force_write` is set, of all of it.
    #[verifier::rlimit(30)]
    fn output_block(&mut self, force_write: bool)
        requires
            old(self).well_formed(),
        ensures
            final(self).well_formed(),
            final(self)@ == after_blocks(old(self)@, force_write),
    {
        let len = self.buffer.len();
        let mut start: usize = 0;
        let ghost whole = blocks_of(
            self.buffer@,
            self.prefer_hidden,
            self.hidden_data_encoder@,
            force_write,
        );
        proof {
            assert(self.buffer@.skip(0) =~= self.buffer@);
            assert(hasher_input(self.hash) + self.buffer@.take(0) =~= hasher_input(self.hash));
        }
        while start < len && (len - start >= MAX_BLOCK_SIZE || force_write)
            invariant
                start <= len,
                len == self.buffer@.len(),
                self.buffer@ == old(self).buffer@,
                self.prefer_hidden == old(self).prefer_hidden,
                hasher_seed(self.hash) == 0,
                hasher_input(self.hash) == hasher_input(old(self).hash) + self.buffer@.take(
                    start as int,
                ),
                blocks_go_on(
                    whole,
                    old(self).output@,
                    self.output@,
                    start as nat,
                    blocks_of(
                        self.buffer@.skip(start as int),
                        self.prefer_hidden,
                        self.hidden_data_encoder@,
                        force_write,
                    ),
                ),
            decreases len - start,
        {
            let remaining = len - start;
            let block_size = if remaining < MAX_BLOCK_SIZE {
                remaining
            } else {
                MAX_BLOCK_SIZE
            };
            let ghost output_before = self.output@;
            let ghost hidden_before = self.hidden_data_encoder@;
            let data = &self.buffer[start..start + block_size];
            hash_bytes(&mut self.hash, data);
            output_one_block(
                &mut self.output,
                data,
                &mut self.hidden_data_encoder,
                self.prefer_hidden,
            );
            proof {
                lemma_block_goes_on(
                    whole,
                    old(self).output@,
                    output_before,
                    self.buffer@,
                    start as nat,
                    self.prefer_hidden,
                    hidden_before,
                    force_write,
                );
                assert(data@ =~= self.buffer@.skip(start as int).subrange(0, block_size as int));
                assert(self.buffer@.take(start as int) + data@ =~= self.buffer@.take(
                    start + block_size,
                ));
            }
            start += block_size;
        }
        let rest = self.buffer.split_off(start);
        self.buffer = rest;
        proof {
            assert(self.output@ + Seq::<u8>::empty() =~= self.output@);
            assert(self.buffer@ =~= old(self).buffer@.skip(start as int));
        }
    }

    /// Takes in more input and makes blocks of what waits as far as it fills
    /// whole blocks. Returns the length of the input.
    pub fn write(&mut self, buf: &[u8]) -> (taken: usize)
        requires
            old(self).well_formed(),
        ensures
            final(self).well_formed(),
            taken == buf@.len(),
            final(self)@ == after_blocks(
                CompressorState { buffered: old(self)@.buffered + buf@, ..old(self)@ },
                false,
            ),
    {
        let ghost before = self.buffer@;
        self.buffer.extend_from_slice(buf);
        assert(self.buffer@ =~= before + buf@);
        self.output_block(false);
        buf.len()
    }

    /// Makes blocks of all the input that waits.
    pub fn flush(&mut self)
        requires
            old(self).well_formed(),
        ensures
            final(self).well_formed(),
            final(self)@ == after_blocks(old(self)@, true),
    {
        self.output_block(true);
    }

    /// Takes out the bytes of the frame that have been made so far.
    pub fn take_output(&mut self) -> (bytes: Vec<u8>)
        requires
            old(self).well_formed(),
        ensures
            final(self).well_formed(),
            bytes@ == old(self)@.pending,
            final(self)@ == (CompressorState { pending: Seq::empty(), ..old(self)@ }),
    {
        let mut bytes: Vec<u8> = Vec::new();
        bytes.append(&mut self.output);
        assert(bytes@ =~= old(self)@.pending);
        bytes
    }

    /// Makes blocks of all the input that waits and ends the frame. Returns
    /// the bytes of the frame that had not been taken out, and how many whole
    /// bytes of hidden data the choices of the frame could carry.
    pub fn finish(self) -> (result: (Vec<u8>, usize))
        requires
            self.well_formed(),
        ensures
            result.0@ == self@.pending + blocks_of(
                self@.buffered,
                self@.prefer_hidden,
                self@.hidden,
                true,
            ).bytes + frame_footer(self@.encoded + self@.buffered),
            result.1 == blocks_of(
                self@.buffered,
                self@.prefer_hidden,
                self@.hidden,
                true,
            ).hidden.capacity / 32,
    {
        let mut compressor = self;
        proof {
            lemma_forced_blocks_take_all(
                compressor@.buffered,
                compressor@.prefer_hidden,
                compressor@.hidden,
            );
            assert(self@.buffered.take(self@.buffered.len() as int) =~= self@.buffered);
        }
        compressor.output_block(true);
        compressor.write_footer();
        let available = compressor.get_available_bytes();
        (compressor.output, available)
    }
}

/// The blocks `whole` of all the input that waited are the blocks that have
/// been written since the output was `output_before`, and the blocks `left`
/// of the input from `start` on.
pub open spec fn blocks_go_on(
    whole: Blocks,
    output_before: Seq<u8>,
    output: Seq<u8>,
    start: nat,
    left: Blocks,
) -> bool {
    &&& output_before + whole.bytes == output + left.bytes
    &&& whole.consumed == start + left.consumed
    &&& whole.hidden == left.hidden
}

/// Writing the next block keeps `blocks_go_on`.
proof fn lemma_block_goes_on(
    whole: Blocks,
    output_before: Seq<u8>,
    output: Seq<u8>,
    buffer: Seq<u8>,
    start: nat,
    prefer_hidden: bool,
    hidden: DecoderState,
    force: bool,
)
    requires
        start < buffer.len(),
        buffer.len() - start >= MAX_BLOCK_SIZE || force,
        blocks_go_on(
            whole,
            output_before,
            output,
            start,
            blocks_of(buffer.skip(start as int), prefer_hidden, hidden, force),
        ),
    ensures
        ({
            let rest = buffer.skip(start as int);
            let size = first_block_size(rest.len());
            let first = block_of(rest.subrange(0, size as int), prefer_hidden, hidden);
            blocks_go_on(
                whole,
                output_before,
                output + first.0,
                start + size,
                blocks_of(buffer.skip((start + size) as int), prefer_hidden, first.1, force),
            )
        }),
{
    let rest = buffer.skip(start as int);
    let size = first_block_size(rest.len());
    let first = block_of(rest.subrange(0, size as int), prefer_hidden, hidden);
    assert(rest.skip(size as int) =~= buffer.skip((start + size) as int));
    let behind = blocks_of(buffer.skip((start + size) as int), prefer_hidden, first.1, force);
    assert((output + first.0) + behind.bytes =~= output + (first.0 + behind.bytes));
}

/// What a compressor holds when it has made blocks of the input that waited:
/// full blocks only, or, when `force` is set, of all of it.
pub open spec fn after_blocks(state: CompressorState, force: bool) -> CompressorState {
    let made = blocks_of(state.buffered, state.prefer_hidden, state.hidden, force);
    CompressorState {
        pending: state.pending + made.bytes,
        buffered: state.buffered.skip(made.consumed as int),
        encoded: state.encoded + state.buffered.take(made.consumed as int),
        hidden: made.hidden,
        prefer_hidden: state.prefer_hidden,
    }
}

/// What a compressor holds when `input` has been added to the input that
/// waits.
pub open spec fn with_input(state: CompressorState, input: Seq<u8>) -> CompressorState {
    CompressorState {
        pending: state.pending,
        buffered: state.buffered + input,
        encoded: state.encoded,
        hidden: state.hidden,
        prefer_hidden: state.prefer_hidden,
    }
}

/// Input that is written in two pieces leaves the compressor as it is when
/// the input is written at once.
pub proof fn lemma_write_in_pieces(state: CompressorState, first: Seq<u8>, second: Seq<u8>)
    ensures
        after_blocks(with_input(after_blocks(with_input(state, first), false), second), false)
            == after_blocks(with_input(state, first + second), false),
{
    let waiting = state.buffered + first;
    lemma_blocks_resume(waiting, second, state.prefer_hidden, state.hidden, false);
    let made = blocks_of(waiting, state.prefer_hidden, state.hidden, false);
    let left = waiting.skip(made.consumed as int);
    let more = blocks_of(left + second, state.prefer_hidden, made.hidden, false);
    lemma_blocks_consumed(left + second, state.prefer_hidden, made.hidden, false);
    let all = state.buffered + (first + second);
    assert(all =~= waiting + second);
    let in_pieces = after_blocks(
        with_input(after_blocks(with_input(state, first), false), second),
        false,
    );
    let at_once = after_blocks(with_input(state, first + second), false);
    assert(in_pieces.pending =~= at_once.pending);
    assert(in_pieces.buffered =~= at_once.buffered);
    assert(in_pieces.encoded =~= at_once.encoded);
}

} // verus!
