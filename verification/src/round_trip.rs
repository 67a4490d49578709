//! What is made can be read: a block that is written for a plan decodes to
//! the bytes that the plan was made for, and a frame of the compressor
//! decodes to its content.

use crate::analysis::recovered_digits;
use crate::analysis::site_digit;
use crate::bytes::lemma_u16_le_round_trip;
use crate::bytes::lemma_u32_le_round_trip;
use crate::bytes::u16_from_le;
use crate::bytes::u16_le_bytes;
use crate::bytes::u32_from_le;
use crate::bytes::u32_le_bytes;
use crate::checksum::xxh32_stream_value;
use crate::constants::END_LITERAL_NUM;
use crate::constants::LZ4_MAGIC_NUMBER;
use crate::constants::MATCH_LENGTH_OFFSET;
use crate::constants::MAX_BLOCK_SIZE;
use crate::constants::MAX_OFFSET;
use crate::constants::MIN_COMPRESS_LENGTH;
use crate::constants::TOKEN_MAX_VAL;
use crate::descriptors::Token;
use crate::encoding::compressed_payload;
use crate::encoding::Match;
use crate::encoding::plan_bytes;
use crate::encoding::plan_from;
use crate::encoding::plan_terminated;
use crate::format::copy_match;
use crate::format::decode_block;
use crate::format::decode_sequences;
use crate::format::lemma_lsic_round_trip;
use crate::format::lsic_bytes;
use crate::format::lsic_initial;
use crate::format::lsic_terminated;
use crate::format::parse_literals;
use crate::format::parse_match;
use crate::format::sequence_bytes;
use crate::format::token_byte;
use crate::frame::block_of;
use crate::frame::blocks_of;
use crate::frame::bytes_needed;
use crate::frame::decode_frame;
use crate::frame::decode_header;
use crate::frame::first_block_size;
use crate::frame::frame_descriptor;
use crate::frame::frame_footer;
use crate::frame::frame_header;
use crate::frame::frame_of;
use crate::frame::frame_step;
use crate::frame::FrameState;
use crate::frame::initial_frame_state;
use crate::frame::read_frame;
use crate::frame::Stage;
use crate::matching::candidates;
use crate::matching::lemma_candidates;
use crate::matching::lemma_match_is_copy;
use crate::numeral_coding::DecoderState;
use crate::numeral_coding::draw;
use crate::numeral_coding::initial_state;
use crate::numeral_coding::refill;
use crate::occurrence_map::match_length_at;
use vstd::arithmetic::div_mod::lemma_mod_bound;
use vstd::prelude::*;

verus! {

/// A match copies what is there: the bytes at its place are those at the
/// place it copies from, which lies before it and within reach, and it is
/// long enough and leaves the end of the block alone.
#[verifier::opaque]
pub open spec fn match_valid(data: Seq<u8>, m: Match, floor: int) -> bool {
    &&& floor <= m.at
    &&& m.from < m.at
    &&& m.at - m.from <= MAX_OFFSET
    &&& m.length >= MATCH_LENGTH_OFFSET
    &&& m.at + m.length + END_LITERAL_NUM <= data.len()
    &&& forall|p: int|
        m.at <= p < m.at + m.length ==> #[trigger] data[p] == data[p - m.at + m.from]
}

/// Every match of the plan copies what is there, and the matches follow one
/// another from the place `floor` on without running into each other.
pub open spec fn plan_valid(data: Seq<u8>, plan: Seq<Match>, floor: int) -> bool
    decreases plan.len(),
{
    if plan.len() == 0 {
        0 <= floor <= data.len()
    } else {
        &&& 0 <= floor
        &&& match_valid(data, plan[0], floor)
        &&& plan_valid(data, plan.drop_first(), plan[0].at + plan[0].length)
    }
}

/// For each match of a plan, its place and the place that it copies from.
pub open spec fn plan_matches(plan: Seq<Match>) -> Seq<(usize, usize)> {
    Seq::new(plan.len(), |j: int| (plan[j].at, plan[j].from))
}

/// A match that runs into itself is copied byte by byte: what is copied to
/// `at` from the place `from` before it is what the data holds there, where
/// the data holds at every place of the match what it holds as far before
/// that place as `from` lies before `at`.
pub proof fn lemma_copy_match_is_data(data: Seq<u8>, at: int, from: int, length: nat)
    requires
        0 <= from < at,
        at + length <= data.len(),
        forall|p: int| at <= p < at + length ==> #[trigger] data[p] == data[p - at + from],
    ensures
        copy_match(data.take(at), (at - from) as nat, length) == data.take(at + length),
    decreases length,
{
    let out = data.take(at);
    if length > 0 {
        let next = out.push(out[out.len() - (at - from)]);
        assert(out[from] == data[from]);
        assert(data[at] == data[at - at + from]);
        assert(next =~= data.take(at + 1));
        assert forall|p: int| at + 1 <= p < at + 1 + (length - 1) implies #[trigger] data[p]
            == data[p - (at + 1) + (from + 1)] by {
            assert(data[p] == data[p - at + from]);
        }
        lemma_copy_match_is_data(data, at + 1, from + 1, (length - 1) as nat);
    } else {
        assert(out =~= data.take(at + length));
    }
}

/// A match with the offset 1 repeats the last byte: behind `count` equal
/// bytes it gives `length` more of them.
pub proof fn lemma_copy_match_run(byte: u8, count: nat, length: nat)
    requires
        count >= 1,
    ensures
        copy_match(Seq::new(count, |i: int| byte), 1, length) == Seq::new(
            count + length,
            |i: int| byte,
        ),
    decreases length,
{
    let out = Seq::new(count, |i: int| byte);
    if length > 0 {
        assert(out.push(out[out.len() - 1]) =~= Seq::new(count + 1, |i: int| byte));
        lemma_copy_match_run(byte, count + 1, (length - 1) as nat);
        assert(Seq::new((count + 1) + (length - 1) as nat, |i: int| byte) =~= Seq::new(
            count + length,
            |i: int| byte,
        ));
    } else {
        assert(out =~= Seq::new(count + length, |i: int| byte));
    }
}

/// What a valid match gives when it is copied.
pub proof fn lemma_match_copies(data: Seq<u8>, m: Match, floor: int)
    requires
        0 <= floor,
        match_valid(data, m, floor),
    ensures
        floor <= m.at,
        1 <= m.at - m.from <= MAX_OFFSET,
        m.length >= MATCH_LENGTH_OFFSET,
        m.at + m.length + END_LITERAL_NUM <= data.len(),
        copy_match(data.take(m.at as int), (m.at - m.from) as nat, m.length as nat) == data.take(
            m.at + m.length,
        ),
{
    reveal(match_valid);
    lemma_copy_match_is_data(data, m.at as int, m.from as int, m.length as nat);
}

/// A plan that holds from a place on holds from every earlier place on.
pub proof fn lemma_plan_valid_floor(data: Seq<u8>, plan: Seq<Match>, floor: int, lower: int)
    requires
        plan_valid(data, plan, floor),
        0 <= lower <= floor,
    ensures
        plan_valid(data, plan, lower),
{
    reveal(match_valid);
}

/// The match that the compressor takes at a place is valid.
pub proof fn lemma_taken_match_valid(data: Seq<u8>, prefer_hidden: bool, index: int, number: int)
    requires
        0 <= index,
        index + END_LITERAL_NUM < data.len() <= usize::MAX,
        0 <= number < candidates(data, index, prefer_hidden).len(),
        match_length_at(data, index, candidates(data, index, prefer_hidden)[number] as int)
            >= MATCH_LENGTH_OFFSET,
    ensures
        match_valid(
            data,
            Match {
                at: index as usize,
                from: candidates(data, index, prefer_hidden)[number],
                length: match_length_at(
                    data,
                    index,
                    candidates(data, index, prefer_hidden)[number] as int,
                ) as usize,
            },
            index,
        ),
        index + match_length_at(
            data,
            index,
            candidates(data, index, prefer_hidden)[number] as int,
        ) + END_LITERAL_NUM <= data.len(),
{
    reveal(match_valid);
    lemma_candidates(data, index, prefer_hidden);
    let from = candidates(data, index, prefer_hidden)[number];
    lemma_match_is_copy(data, index, from as int);
}

/// A digit that is drawn is below its bound.
pub proof fn lemma_draw_bound(hidden: DecoderState, bound: nat)
    requires
        bound >= 1,
    ensures
        0 <= draw(hidden, bound).0 < bound,
{
    lemma_mod_bound(
        refill(hidden.register, hidden.remaining, bound).0 as int,
        bound as int,
    );
}

/// The plan that the compressor makes is valid.
pub proof fn lemma_plan_from_valid(
    data: Seq<u8>,
    prefer_hidden: bool,
    index: int,
    hidden: DecoderState,
)
    requires
        0 <= index <= data.len() <= usize::MAX,
    ensures
        plan_valid(data, plan_from(data, prefer_hidden, index, hidden).0, index),
    decreases data.len() - index,
{
    if index + END_LITERAL_NUM < data.len() {
        let found = candidates(data, index, prefer_hidden);
        if found.len() == 0 {
            lemma_plan_from_valid(data, prefer_hidden, index + 1, hidden);
            lemma_plan_valid_floor(
                data,
                plan_from(data, prefer_hidden, index + 1, hidden).0,
                index + 1,
                index,
            );
        } else {
            let drawn = draw(hidden, found.len());
            lemma_draw_bound(hidden, found.len());
            let from = found[drawn.0 as int];
            let length = match_length_at(data, index, from as int);
            if length < MATCH_LENGTH_OFFSET {
                lemma_plan_from_valid(data, prefer_hidden, index + 1, drawn.1);
                lemma_plan_valid_floor(
                    data,
                    plan_from(data, prefer_hidden, index + 1, drawn.1).0,
                    index + 1,
                    index,
                );
            } else {
                lemma_taken_match_valid(data, prefer_hidden, index, drawn.0 as int);
                lemma_plan_from_valid(data, prefer_hidden, index + length, drawn.1);
                let behind = plan_from(data, prefer_hidden, index + length, drawn.1).0;
                let plan = plan_from(data, prefer_hidden, index, hidden).0;
                assert(plan.drop_first() =~= behind);
            }
        }
    }
}

/// What a sequence that was written reads as, whatever follows it: the
/// literals are found where they were put, and behind them, unless the
/// offset is 0, the match with its offset and length.
pub proof fn lemma_sequence_parses(
    literals: Seq<u8>,
    offset: u16,
    match_length: u32,
    behind: Seq<u8>,
)
    requires
        literals.len() <= u32::MAX,
        match_length >= MATCH_LENGTH_OFFSET,
        lsic_terminated(literals.len(), TOKEN_MAX_VAL as nat),
        offset != 0 ==> lsic_terminated(
            (match_length - MATCH_LENGTH_OFFSET) as nat,
            TOKEN_MAX_VAL as nat,
        ),
    ensures
        ({
            let input = sequence_bytes(literals, offset, match_length) + behind;
            let start = 1 + lsic_bytes(literals.len(), TOKEN_MAX_VAL as nat).len();
            let end = start + literals.len();
            &&& parse_literals(input) == Ok::<(nat, nat), Seq<char>>((start, end))
            &&& input.subrange(start as int, end as int) == literals
            &&& offset == 0 ==> input.skip(end as int) == behind
            &&& offset != 0 ==> {
                let count = 2 + lsic_bytes(
                    (match_length - MATCH_LENGTH_OFFSET) as nat,
                    TOKEN_MAX_VAL as nat,
                ).len();
                &&& end < input.len()
                &&& parse_match(input.skip(end as int), Token(input[0]).match_length() as nat)
                    == Ok::<(u16, nat, nat), Seq<char>>((offset, match_length as nat, count))
                &&& input.skip((end + count) as int) == behind
            }
        }),
{
    let max = TOKEN_MAX_VAL as nat;
    let stored = (match_length - MATCH_LENGTH_OFFSET) as nat;
    let input = sequence_bytes(literals, offset, match_length) + behind;
    let literals_lsic = lsic_bytes(literals.len(), max);
    let start = 1 + literals_lsic.len();
    let end = start + literals.len();
    let token = token_byte(literals.len(), match_length as nat);
    assert(input[0] == token);
    assert(Token(token).literals_length() == lsic_initial(literals.len(), max));
    assert(Token(token).match_length() == lsic_initial(stored, max));
    let match_part = if offset != 0 {
        u16_le_bytes(offset) + lsic_bytes(stored, max)
    } else {
        Seq::<u8>::empty()
    };
    let behind_lsic = literals + match_part + behind;
    assert(input.skip(1) =~= literals_lsic + behind_lsic);
    lemma_lsic_round_trip(literals.len() as u32, TOKEN_MAX_VAL, behind_lsic);
    assert(input.subrange(start as int, end as int) =~= literals);
    assert(input.skip(end as int) =~= match_part + behind);
    if offset != 0 {
        let after = input.skip(end as int);
        lemma_u16_le_round_trip(offset);
        assert(after[0] == u16_le_bytes(offset)[0] && after[1] == u16_le_bytes(offset)[1]);
        assert(u16_from_le(after) == offset);
        assert(after.skip(2) =~= lsic_bytes(stored, max) + behind);
        lemma_lsic_round_trip(stored as u32, TOKEN_MAX_VAL, behind);
        let count = 2 + lsic_bytes(stored, max).len();
        assert(input.skip((end + count) as int) =~= behind);
    } else {
        assert(match_part + behind =~= behind);
    }
}

/// The last sequence of a block adds its literals and ends the block.
pub proof fn lemma_last_sequence_decodes(
    literals: Seq<u8>,
    out: Seq<u8>,
    matches: Seq<(usize, usize)>,
)
    requires
        literals.len() <= u32::MAX,
        lsic_terminated(literals.len(), TOKEN_MAX_VAL as nat),
    ensures
        decode_sequences(sequence_bytes(literals, 0, MATCH_LENGTH_OFFSET), out, matches) == Ok::<
            (Seq<u8>, Seq<(usize, usize)>),
            Seq<char>,
        >((out + literals, matches)),
{
    reveal(decode_sequences);
    lemma_sequence_parses(literals, 0, MATCH_LENGTH_OFFSET, Seq::empty());
    let input = sequence_bytes(literals, 0, MATCH_LENGTH_OFFSET);
    assert(input =~= input + Seq::<u8>::empty());
    let start = 1 + lsic_bytes(literals.len(), TOKEN_MAX_VAL as nat).len();
    let end = start + literals.len();
    assert(input.skip(end as int).len() == 0);
}

/// A sequence with a match adds its literals and the copy of the match, and
/// decoding goes on behind it.
pub proof fn lemma_sequence_decodes(
    literals: Seq<u8>,
    offset: u16,
    match_length: u32,
    behind: Seq<u8>,
    out: Seq<u8>,
    matches: Seq<(usize, usize)>,
)
    requires
        literals.len() <= u32::MAX,
        match_length >= MATCH_LENGTH_OFFSET,
        lsic_terminated(literals.len(), TOKEN_MAX_VAL as nat),
        lsic_terminated((match_length - MATCH_LENGTH_OFFSET) as nat, TOKEN_MAX_VAL as nat),
        1 <= offset <= out.len() + literals.len(),
    ensures
        decode_sequences(sequence_bytes(literals, offset, match_length) + behind, out, matches)
            == decode_sequences(
            behind,
            copy_match(out + literals, offset as nat, match_length as nat),
            matches.push(
                (
                    (out.len() + literals.len()) as usize,
                    (out.len() + literals.len() - offset) as usize,
                ),
            ),
        ),
{
    reveal(decode_sequences);
    lemma_sequence_parses(literals, offset, match_length, behind);
}

/// A block that is written for a valid plan, from the place `anchor` on,
/// decodes to the bytes that the plan was made for, and gives the matches of
/// the plan, provided that every length that was written comes to an end.
pub proof fn lemma_plan_decodes(
    data: Seq<u8>,
    plan: Seq<Match>,
    anchor: int,
    matches: Seq<(usize, usize)>,
)
    requires
        data.len() <= u32::MAX,
        plan_valid(data, plan, anchor),
        plan_terminated(data, plan, anchor),
    ensures
        decode_sequences(plan_bytes(data, plan, anchor), data.take(anchor), matches) == Ok::<
            (Seq<u8>, Seq<(usize, usize)>),
            Seq<char>,
        >((data, matches + plan_matches(plan))),
    decreases plan.len(),
{
    let out = data.take(anchor);
    if plan.len() == 0 {
        let literals = data.subrange(anchor, data.len() as int);
        lemma_last_sequence_decodes(literals, out, matches);
        assert(out + literals =~= data);
        assert(matches + plan_matches(plan) =~= matches);
    } else {
        let m = plan[0];
        let rest = plan.drop_first();
        let next = m.at + m.length;
        lemma_match_copies(data, m, anchor);
        let literals = data.subrange(anchor, m.at as int);
        let offset = (m.at - m.from) as u16;
        let behind = plan_bytes(data, rest, next);
        lemma_sequence_decodes(literals, offset, m.length as u32, behind, out, matches);
        assert(out + literals =~= data.take(m.at as int));
        let more = matches.push((m.at, m.from));
        lemma_plan_decodes(data, rest, next, more);
        assert(more + plan_matches(rest) =~= matches + plan_matches(plan));
    }
}

/// The block of `chunk` is written compressed: the chunk is not too short,
/// and its sequences are not too long.
pub open spec fn stays_compressed(chunk: Seq<u8>, prefer_hidden: bool, hidden: DecoderState) -> bool {
    chunk.len() >= MIN_COMPRESS_LENGTH && compressed_payload(chunk, prefer_hidden, hidden).len()
        <= MAX_BLOCK_SIZE
}

/// Every length that is written in the block of `chunk` comes to an end.
pub open spec fn block_terminated(chunk: Seq<u8>, prefer_hidden: bool, hidden: DecoderState) -> bool {
    stays_compressed(chunk, prefer_hidden, hidden) ==> plan_terminated(
        chunk,
        plan_from(chunk, prefer_hidden, 0, hidden).0,
        0,
    )
}

/// Every length that is written in the blocks of a frame with the content
/// `data` comes to an end.
pub open spec fn blocks_terminated(data: Seq<u8>, prefer_hidden: bool, hidden: DecoderState) -> bool
    decreases data.len(),
{
    if data.len() == 0 {
        true
    } else {
        let size = first_block_size(data.len());
        let chunk = data.subrange(0, size as int);
        &&& block_terminated(chunk, prefer_hidden, hidden)
        &&& blocks_terminated(
            data.skip(size as int),
            prefer_hidden,
            block_of(chunk, prefer_hidden, hidden).1,
        )
    }
}

/// The digits that a reader gets from the block of `chunk`.
pub open spec fn block_digits(
    chunk: Seq<u8>,
    prefer_hidden: bool,
    hidden: DecoderState,
    reader_prefers_hidden: bool,
) -> Seq<(u16, u16)> {
    if stays_compressed(chunk, prefer_hidden, hidden) {
        recovered_digits(
            chunk,
            reader_prefers_hidden,
            plan_matches(plan_from(chunk, prefer_hidden, 0, hidden).0),
        )
    } else {
        Seq::empty()
    }
}

/// The digits that a reader gets from the blocks of a frame with the content
/// `data`.
pub open spec fn blocks_digits(
    data: Seq<u8>,
    prefer_hidden: bool,
    hidden: DecoderState,
    reader_prefers_hidden: bool,
) -> Seq<(u16, u16)>
    decreases data.len(),
{
    if data.len() == 0 {
        Seq::empty()
    } else {
        let size = first_block_size(data.len());
        let chunk = data.subrange(0, size as int);
        block_digits(chunk, prefer_hidden, hidden, reader_prefers_hidden) + blocks_digits(
            data.skip(size as int),
            prefer_hidden,
            block_of(chunk, prefer_hidden, hidden).1,
            reader_prefers_hidden,
        )
    }
}

/// A reader that gets the piece it needs, and more behind it, makes its step
/// on the piece and goes on with what is behind.
pub proof fn lemma_read_piece(
    state: FrameState,
    piece: Seq<u8>,
    behind: Seq<u8>,
    prefer_hidden: bool,
)
    requires
        !(state.stage is Done),
        piece.len() == bytes_needed(state.stage),
    ensures
        read_frame(state, piece + behind, prefer_hidden) == match frame_step(
            state,
            piece,
            prefer_hidden,
        ) {
            Ok(next) => read_frame(next, behind, prefer_hidden),
            Err(e) => Err(e),
        },
{
    reveal(read_frame);
    let input = piece + behind;
    assert(input.take(piece.len() as int) =~= piece);
    assert(input.skip(piece.len() as int) =~= behind);
}

/// The sequences of a block are at least one byte.
pub proof fn lemma_plan_bytes_not_empty(data: Seq<u8>, plan: Seq<Match>, anchor: int)
    ensures
        plan_bytes(data, plan, anchor).len() >= 1,
{
}

/// A reader at a size word, given a size word that is not 0, the bytes of
/// the block and more behind them, makes its step on the bytes of the block
/// and goes on with what is behind.
pub proof fn lemma_sized_block_reads(
    state: FrameState,
    word: u32,
    payload: Seq<u8>,
    behind: Seq<u8>,
    prefer_hidden: bool,
)
    requires
        state.stage is BlockSize,
        word != 0,
        payload.len() == word % 0x8000_0000,
    ensures
        read_frame(state, u32_le_bytes(word) + payload + behind, prefer_hidden) == match frame_step(
            FrameState {
                stage: Stage::Block {
                    size: (word % 0x8000_0000) as usize,
                    uncompressed: word >= 0x8000_0000,
                },
                content_checksum: state.content_checksum,
                content: state.content,
                digits: state.digits,
            },
            payload,
            prefer_hidden,
        ) {
            Ok(next) => read_frame(next, behind, prefer_hidden),
            Err(e) => Err(e),
        },
{
    lemma_u32_le_round_trip(word);
    assert(u32_le_bytes(word) + payload + behind =~= u32_le_bytes(word) + (payload + behind));
    lemma_read_piece(state, u32_le_bytes(word), payload + behind, prefer_hidden);
    let in_block = FrameState {
        stage: Stage::Block {
            size: (word % 0x8000_0000) as usize,
            uncompressed: word >= 0x8000_0000,
        },
        content_checksum: state.content_checksum,
        content: state.content,
        digits: state.digits,
    };
    assert(frame_step(state, u32_le_bytes(word), prefer_hidden) == Ok::<FrameState, Seq<char>>(
        in_block,
    ));
    lemma_read_piece(in_block, payload, behind, prefer_hidden);
}

/// The sequences that the compressor makes of `chunk` decode to `chunk`, and
/// give the matches of its plan.
pub proof fn lemma_payload_decodes(chunk: Seq<u8>, prefer_hidden: bool, hidden: DecoderState)
    requires
        chunk.len() <= MAX_BLOCK_SIZE,
        plan_terminated(chunk, plan_from(chunk, prefer_hidden, 0, hidden).0, 0),
    ensures
        compressed_payload(chunk, prefer_hidden, hidden).len() >= 1,
        decode_block(compressed_payload(chunk, prefer_hidden, hidden)) == Ok::<
            (Seq<u8>, Seq<(usize, usize)>),
            Seq<char>,
        >((chunk, plan_matches(plan_from(chunk, prefer_hidden, 0, hidden).0))),
{
    let plan = plan_from(chunk, prefer_hidden, 0, hidden).0;
    lemma_plan_bytes_not_empty(chunk, plan, 0);
    lemma_plan_from_valid(chunk, prefer_hidden, 0, hidden);
    lemma_plan_decodes(chunk, plan, 0, Seq::empty());
    assert(chunk.take(0) =~= Seq::<u8>::empty());
    assert(Seq::<(usize, usize)>::empty() + plan_matches(plan) =~= plan_matches(plan));
}

/// A reader at a size word, given the block that the compressor makes of
/// `chunk` and more behind it, adds `chunk` to the content and stands at the
/// next size word.
pub proof fn lemma_block_reads(
    chunk: Seq<u8>,
    prefer_hidden: bool,
    hidden: DecoderState,
    state: FrameState,
    behind: Seq<u8>,
    reader_prefers_hidden: bool,
)
    requires
        state.stage is BlockSize,
        0 < chunk.len() <= MAX_BLOCK_SIZE,
        block_terminated(chunk, prefer_hidden, hidden),
    ensures
        read_frame(
            state,
            block_of(chunk, prefer_hidden, hidden).0 + behind,
            reader_prefers_hidden,
        ) == read_frame(
            FrameState {
                stage: Stage::BlockSize,
                content_checksum: state.content_checksum,
                content: state.content + chunk,
                digits: state.digits + block_digits(
                    chunk,
                    prefer_hidden,
                    hidden,
                    reader_prefers_hidden,
                ),
            },
            behind,
            reader_prefers_hidden,
        ),
{
    if stays_compressed(chunk, prefer_hidden, hidden) {
        let payload = compressed_payload(chunk, prefer_hidden, hidden);
        lemma_payload_decodes(chunk, prefer_hidden, hidden);
        lemma_sized_block_reads(
            state,
            payload.len() as u32,
            payload,
            behind,
            reader_prefers_hidden,
        );
    } else {
        lemma_sized_block_reads(
            state,
            (0x8000_0000 + chunk.len()) as u32,
            chunk,
            behind,
            reader_prefers_hidden,
        );
        assert(state.digits + Seq::<(u16, u16)>::empty() =~= state.digits);
    }
}

/// A reader at a size word, given the blocks that the compressor makes of
/// `data` and more behind them, adds `data` to the content and stands at the
/// next size word.
pub proof fn lemma_blocks_read(
    data: Seq<u8>,
    prefer_hidden: bool,
    hidden: DecoderState,
    state: FrameState,
    behind: Seq<u8>,
    reader_prefers_hidden: bool,
)
    requires
        state.stage is BlockSize,
        blocks_terminated(data, prefer_hidden, hidden),
    ensures
        read_frame(
            state,
            blocks_of(data, prefer_hidden, hidden, true).bytes + behind,
            reader_prefers_hidden,
        ) == read_frame(
            FrameState {
                stage: Stage::BlockSize,
                content_checksum: state.content_checksum,
                content: state.content + data,
                digits: state.digits + blocks_digits(
                    data,
                    prefer_hidden,
                    hidden,
                    reader_prefers_hidden,
                ),
            },
            behind,
            reader_prefers_hidden,
        ),
    decreases data.len(),
{
    if data.len() == 0 {
        assert(Seq::<u8>::empty() + behind =~= behind);
        assert(state.content + data =~= state.content);
        assert(state.digits + Seq::<(u16, u16)>::empty() =~= state.digits);
    } else {
        let size = first_block_size(data.len());
        let chunk = data.subrange(0, size as int);
        let rest = data.skip(size as int);
        let first = block_of(chunk, prefer_hidden, hidden);
        let later = blocks_of(rest, prefer_hidden, first.1, true);
        assert(blocks_of(data, prefer_hidden, hidden, true).bytes + behind =~= first.0 + (
        later.bytes + behind));
        lemma_block_reads(
            chunk,
            prefer_hidden,
            hidden,
            state,
            later.bytes + behind,
            reader_prefers_hidden,
        );
        let digits = block_digits(chunk, prefer_hidden, hidden, reader_prefers_hidden);
        let next = FrameState {
            stage: Stage::BlockSize,
            content_checksum: state.content_checksum,
            content: state.content + chunk,
            digits: state.digits + digits,
        };
        lemma_blocks_read(rest, prefer_hidden, first.1, next, behind, reader_prefers_hidden);
        assert((state.content + chunk) + rest =~= state.content + data);
        assert((state.digits + digits) + blocks_digits(
            rest,
            prefer_hidden,
            first.1,
            reader_prefers_hidden,
        ) =~= state.digits + blocks_digits(data, prefer_hidden, hidden, reader_prefers_hidden));
    }
}

/// The header that the compressor writes is read as that of a frame with a
/// checksum of the content.
pub proof fn lemma_header_reads()
    ensures
        frame_header().len() == 7,
        decode_header(frame_header()) == Ok::<bool, Seq<char>>(true),
{
    lemma_u32_le_round_trip(LZ4_MAGIC_NUMBER);
    let header = frame_header();
    let magic = u32_le_bytes(LZ4_MAGIC_NUMBER);
    assert(header[0] == magic[0] && header[1] == magic[1] && header[2] == magic[2] && header[3]
        == magic[3]);
    assert(u32_from_le(header) == LZ4_MAGIC_NUMBER);
    assert(header[4] == frame_descriptor()[0]);
    assert(header[5] == frame_descriptor()[1]);
}

/// The frame that the compressor makes of `data` decodes to `data`, whatever
/// hidden data went into its choices and whatever the reader prefers,
/// provided that every length that was written comes to an end.
pub proof fn lemma_frame_round_trip(
    data: Seq<u8>,
    prefer_hidden: bool,
    hidden: DecoderState,
    reader_prefers_hidden: bool,
)
    requires
        blocks_terminated(data, prefer_hidden, hidden),
    ensures
        decode_frame(frame_of(data, prefer_hidden, hidden), reader_prefers_hidden) == Ok::<
            (Seq<u8>, Seq<(u16, u16)>),
            Seq<char>,
        >((data, blocks_digits(data, prefer_hidden, hidden, reader_prefers_hidden))),
{
    let blocks = blocks_of(data, prefer_hidden, hidden, true).bytes;
    let checksum = xxh32_stream_value(data, 0);
    let end_mark = u32_le_bytes(0);
    let tail = u32_le_bytes(checksum);
    let footer = frame_footer(data);
    let digits = blocks_digits(data, prefer_hidden, hidden, reader_prefers_hidden);
    lemma_header_reads();
    assert(frame_of(data, prefer_hidden, hidden) =~= frame_header() + (blocks + footer));
    lemma_read_piece(
        initial_frame_state(),
        frame_header(),
        blocks + footer,
        reader_prefers_hidden,
    );
    let at_blocks = FrameState {
        stage: Stage::BlockSize,
        content_checksum: true,
        content: Seq::empty(),
        digits: Seq::empty(),
    };
    assert(frame_step(initial_frame_state(), frame_header(), reader_prefers_hidden) == Ok::<
        FrameState,
        Seq<char>,
    >(at_blocks));
    lemma_blocks_read(data, prefer_hidden, hidden, at_blocks, footer, reader_prefers_hidden);
    let at_end = FrameState {
        stage: Stage::BlockSize,
        content_checksum: true,
        content: data,
        digits,
    };
    assert(Seq::<u8>::empty() + data =~= data);
    assert(Seq::<(u16, u16)>::empty() + digits =~= digits);
    lemma_u32_le_round_trip(0);
    lemma_read_piece(at_end, end_mark, tail, reader_prefers_hidden);
    let at_checksum = FrameState {
        stage: Stage::Checksum,
        content_checksum: true,
        content: data,
        digits,
    };
    assert(frame_step(at_end, end_mark, reader_prefers_hidden) == Ok::<FrameState, Seq<char>>(
        at_checksum,
    ));
    lemma_u32_le_round_trip(checksum);
    assert(tail =~= tail + Seq::<u8>::empty());
    lemma_read_piece(at_checksum, tail, Seq::empty(), reader_prefers_hidden);
    let done = FrameState { stage: Stage::Done, content_checksum: true, content: data, digits };
    assert(frame_step(at_checksum, tail, reader_prefers_hidden) == Ok::<FrameState, Seq<char>>(
        done,
    ));
    assert(read_frame(done, Seq::empty(), reader_prefers_hidden) == Ok::<FrameState, Seq<char>>(
        done,
    )) by {
        reveal(read_frame);
    }
    assert(read_frame(at_end, footer, reader_prefers_hidden) == Ok::<FrameState, Seq<char>>(
        done,
    ));
    assert(read_frame(at_blocks, blocks + footer, reader_prefers_hidden) == Ok::<
        FrameState,
        Seq<char>,
    >(done));
}

/// A frame that the compressor makes without hidden data, taking the longest
/// match at every place, is a frame of the LZ4 format that holds `data`.
pub proof fn lemma_plain_frame_decodes(data: Seq<u8>, reader_prefers_hidden: bool)
    requires
        blocks_terminated(data, false, initial_state(Seq::empty())),
    ensures
        decode_frame(
            frame_of(data, false, initial_state(Seq::empty())),
            reader_prefers_hidden,
        ) is Ok,
        decode_frame(
            frame_of(data, false, initial_state(Seq::empty())),
            reader_prefers_hidden,
        )->Ok_0.0 == data,
{
    lemma_frame_round_trip(data, false, initial_state(Seq::empty()), reader_prefers_hidden);
}

/// The digits that the compressor draws at the places of a block, from
/// `index` on, where it takes a match: the number of the candidate that was
/// taken, with the count of the candidates as the bound.
pub open spec fn plan_digits(
    data: Seq<u8>,
    prefer_hidden: bool,
    index: int,
    hidden: DecoderState,
) -> Seq<(u16, u16)>
    decreases data.len() - index,
{
    if index < 0 || index + END_LITERAL_NUM >= data.len() {
        Seq::empty()
    } else {
        let found = candidates(data, index, prefer_hidden);
        if found.len() == 0 {
            plan_digits(data, prefer_hidden, index + 1, hidden)
        } else {
            let drawn = draw(hidden, found.len());
            let length = match_length_at(data, index, found[drawn.0 as int] as int);
            if length < MATCH_LENGTH_OFFSET {
                plan_digits(data, prefer_hidden, index + 1, drawn.1)
            } else {
                seq![(drawn.0 as u16, found.len() as u16)] + plan_digits(
                    data,
                    prefer_hidden,
                    index + length,
                    drawn.1,
                )
            }
        }
    }
}

/// The digits of matches are those of the first match and those of the rest.
pub proof fn lemma_recovered_digits_first(
    data: Seq<u8>,
    prefer_hidden: bool,
    first: (usize, usize),
    rest: Seq<(usize, usize)>,
)
    ensures
        recovered_digits(data, prefer_hidden, seq![first] + rest) == (match site_digit(
            data,
            prefer_hidden,
            first.0,
            first.1,
        ) {
            Some(digit) => seq![digit],
            None => Seq::empty(),
        }) + recovered_digits(data, prefer_hidden, rest),
    decreases rest.len(),
{
    let all = seq![first] + rest;
    let head = match site_digit(data, prefer_hidden, first.0, first.1) {
        Some(digit) => seq![digit],
        None => Seq::empty(),
    };
    if rest.len() == 0 {
        assert(all.drop_last() =~= Seq::<(usize, usize)>::empty());
        assert(all.last() == first);
        assert(recovered_digits(data, prefer_hidden, all.drop_last()) =~= Seq::<
            (u16, u16),
        >::empty());
        assert(rest =~= Seq::<(usize, usize)>::empty());
        assert(recovered_digits(data, prefer_hidden, all) =~= head);
        assert(head + recovered_digits(data, prefer_hidden, rest) =~= head);
    } else {
        lemma_recovered_digits_first(data, prefer_hidden, first, rest.drop_last());
        assert(all.drop_last() =~= seq![first] + rest.drop_last());
        assert(all.last() == rest.last());
        let before = recovered_digits(data, prefer_hidden, rest.drop_last());
        match site_digit(data, prefer_hidden, rest.last().0, rest.last().1) {
            Some(digit) => {
                assert((head + before).push(digit) =~= head + before.push(digit));
            },
            None => {},
        }
    }
}

/// A reader that prefers what the compressor preferred gets from the matches
/// of a block the digits that the compressor drew where it took them.
pub proof fn lemma_digits_recovered(
    data: Seq<u8>,
    prefer_hidden: bool,
    index: int,
    hidden: DecoderState,
)
    requires
        0 <= index <= data.len() <= usize::MAX,
    ensures
        recovered_digits(
            data,
            prefer_hidden,
            plan_matches(plan_from(data, prefer_hidden, index, hidden).0),
        ) == plan_digits(data, prefer_hidden, index, hidden),
    decreases data.len() - index,
{
    let plan = plan_from(data, prefer_hidden, index, hidden).0;
    if index + END_LITERAL_NUM < data.len() {
        let found = candidates(data, index, prefer_hidden);
        if found.len() == 0 {
            lemma_digits_recovered(data, prefer_hidden, index + 1, hidden);
        } else {
            let drawn = draw(hidden, found.len());
            lemma_draw_bound(hidden, found.len());
            let from = found[drawn.0 as int];
            let length = match_length_at(data, index, from as int);
            if length < MATCH_LENGTH_OFFSET {
                lemma_digits_recovered(data, prefer_hidden, index + 1, drawn.1);
            } else {
                lemma_candidates(data, index, prefer_hidden);
                let behind = plan_from(data, prefer_hidden, index + length, drawn.1).0;
                lemma_match_is_copy(data, index, from as int);
                lemma_digits_recovered(data, prefer_hidden, index + length, drawn.1);
                assert(plan_matches(plan) =~= seq![(index as usize, from)] + plan_matches(behind));
                lemma_recovered_digits_first(
                    data,
                    prefer_hidden,
                    (index as usize, from),
                    plan_matches(behind),
                );
                assert(found.contains(from));
                let number = found.index_of(from);
                assert(0 <= number < found.len() && found[number] == from);
                if number < drawn.0 {
                    assert(found[number] < found[drawn.0 as int]);
                }
                if drawn.0 < number {
                    assert(found[drawn.0 as int] < found[number]);
                }
            }
        }
    } else {
        assert(plan_matches(plan) =~= Seq::<(usize, usize)>::empty());
    }
}

} // verus!
