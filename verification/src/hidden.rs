//! The hidden data comes back: where the choices of a frame have taken in
//! all of the hidden data, the digits that a reader finds in the frame stand
//! for the bytes that were hidden.

use crate::constants::END_LITERAL_NUM;
use crate::constants::MATCH_LENGTH_OFFSET;
use crate::constants::MIN_COMPRESS_LENGTH;
use crate::encoding::plan_from;
use crate::frame::block_of;
use crate::frame::blocks_of;
use crate::frame::decode_frame;
use crate::frame::first_block_size;
use crate::frame::frame_of;
use crate::matching::candidates;
use crate::matching::lemma_candidates;
use crate::numeral_coding::draw;
use crate::numeral_coding::encode_digits;
use crate::numeral_coding::initial_state;
use crate::numeral_coding::le_digits;
use crate::numeral_coding::lemma_draw_mirrors;
use crate::numeral_coding::lemma_first_draw_gives_input;
use crate::numeral_coding::lemma_settled_after_draw;
use crate::numeral_coding::mirrors;
use crate::numeral_coding::settled;
use crate::numeral_coding::without_leading_zeros;
use crate::numeral_coding::DecoderState;
use crate::occurrence_map::match_length_at;
use crate::round_trip::blocks_digits;
use crate::round_trip::blocks_terminated;
use crate::round_trip::lemma_digits_recovered;
use crate::round_trip::lemma_frame_round_trip;
use crate::round_trip::lemma_taken_match_valid;
use crate::round_trip::plan_digits;
use crate::round_trip::stays_compressed;
use vstd::prelude::*;

verus! {

/// The decoder has given out all that it was given: nothing is left in its
/// register or in its input, and every further digit is 0.
pub open spec fn run_dry(state: DecoderState) -> bool {
    state.register == 0 && state.remaining.len() == 0
}

/// A decoder as it stands between two digits: settled, or one that has read
/// nothing yet.
pub open spec fn sound(state: DecoderState) -> bool {
    state.register < 65536 && (settled(state) || state.register == 0)
}

/// The digits are what the decoder still holds: an encoder that has taken
/// them in stands where the decoder stands, or, for a decoder that has read
/// nothing yet, the bytes for the digits are its input without the zeros at
/// the front.
pub open spec fn stands_for(state: DecoderState, digits: Seq<(u16, u16)>) -> bool {
    if settled(state) {
        mirrors(state, digits)
    } else {
        state.register == 0 && encode_digits(digits) == without_leading_zeros(state.remaining)
    }
}

/// From the place `index` of a block on, no digit is drawn in vain: where a
/// digit is drawn and no match is taken, the decoder has run dry before.
pub open spec fn draws_kept(
    data: Seq<u8>,
    prefer_hidden: bool,
    index: int,
    hidden: DecoderState,
) -> bool
    decreases data.len() - index,
{
    if index < 0 || index + END_LITERAL_NUM >= data.len() {
        true
    } else {
        let found = candidates(data, index, prefer_hidden);
        if found.len() == 0 {
            draws_kept(data, prefer_hidden, index + 1, hidden)
        } else {
            let drawn = draw(hidden, found.len());
            let length = match_length_at(data, index, found[drawn.0 as int] as int);
            if length < MATCH_LENGTH_OFFSET {
                run_dry(hidden) && draws_kept(data, prefer_hidden, index + 1, drawn.1)
            } else {
                draws_kept(data, prefer_hidden, index + length, drawn.1)
            }
        }
    }
}

/// In the block of `chunk` no digit is drawn in vain: the block stays
/// compressed and keeps its draws, or the decoder has run dry before, or the
/// chunk is too short for any draw.
pub open spec fn block_keeps(chunk: Seq<u8>, prefer_hidden: bool, hidden: DecoderState) -> bool {
    if chunk.len() < MIN_COMPRESS_LENGTH {
        true
    } else if stays_compressed(chunk, prefer_hidden, hidden) {
        draws_kept(chunk, prefer_hidden, 0, hidden)
    } else {
        run_dry(hidden)
    }
}

/// In the blocks of a frame with the content `data` no digit is drawn in
/// vain.
pub open spec fn blocks_keep(data: Seq<u8>, prefer_hidden: bool, hidden: DecoderState) -> bool
    decreases data.len(),
{
    if data.len() == 0 {
        true
    } else {
        let size = first_block_size(data.len());
        let chunk = data.subrange(0, size as int);
        &&& block_keeps(chunk, prefer_hidden, hidden)
        &&& blocks_keep(data.skip(size as int), prefer_hidden, block_of(chunk, prefer_hidden, hidden).1)
    }
}

/// A digit from a decoder that has run dry is 0 and leaves it dry.
proof fn lemma_dry_draw(state: DecoderState, bound: nat)
    requires
        run_dry(state),
        bound >= 1,
    ensures
        run_dry(draw(state, bound).1),
        draw(state, bound).0 == 0,
{
    assert(0nat % bound == 0 && 0nat / bound == 0) by (nonlinear_arith)
        requires
            bound >= 1,
    ;
}

/// The decoder stays sound over the places of a block, and stays dry once it
/// has run dry.
proof fn lemma_plan_keeps_sound(
    data: Seq<u8>,
    prefer_hidden: bool,
    index: int,
    hidden: DecoderState,
)
    requires
        0 <= index <= data.len() <= usize::MAX,
        sound(hidden),
    ensures
        sound(plan_from(data, prefer_hidden, index, hidden).1),
        run_dry(hidden) ==> run_dry(plan_from(data, prefer_hidden, index, hidden).1),
    decreases data.len() - index,
{
    if index + END_LITERAL_NUM < data.len() {
        let found = candidates(data, index, prefer_hidden);
        if found.len() == 0 {
            lemma_plan_keeps_sound(data, prefer_hidden, index + 1, hidden);
        } else {
            lemma_candidates(data, index, prefer_hidden);
            let drawn = draw(hidden, found.len());
            lemma_settled_after_draw(hidden, found.len());
            if run_dry(hidden) {
                lemma_dry_draw(hidden, found.len());
            }
            let length = match_length_at(data, index, found[drawn.0 as int] as int);
            if length < MATCH_LENGTH_OFFSET {
                lemma_plan_keeps_sound(data, prefer_hidden, index + 1, drawn.1);
            } else {
                lemma_taken_match_valid(data, prefer_hidden, index, drawn.0 as int);
                lemma_plan_keeps_sound(data, prefer_hidden, index + length, drawn.1);
            }
        }
    }
}

/// Where the digits `later` are what the decoder holds after a digit, the
/// digit and `later` are what it held before.
proof fn lemma_draw_stands(state: DecoderState, bound: u16, later: Seq<(u16, u16)>)
    requires
        sound(state),
        bound >= 1,
        stands_for(draw(state, bound as nat).1, later),
    ensures
        stands_for(state, seq![(draw(state, bound as nat).0 as u16, bound)] + later),
{
    lemma_settled_after_draw(state, bound as nat);
    if settled(state) {
        lemma_draw_mirrors(state, bound, later);
    } else {
        let fresh = initial_state(state.remaining);
        assert(draw(fresh, bound as nat).0 == draw(state, bound as nat).0);
        assert(draw(fresh, bound as nat).1.register == draw(state, bound as nat).1.register);
        assert(draw(fresh, bound as nat).1.remaining == draw(state, bound as nat).1.remaining);
        lemma_first_draw_gives_input(state.remaining, bound, later);
    }
}

/// Where no digit is drawn in vain from a place of a block on, and the
/// digits `later` are what the decoder holds at the end of the block, the
/// digits that are drawn at the matches from that place on, and `later`, are
/// what the decoder holds at that place.
proof fn lemma_plan_digits_stand(
    data: Seq<u8>,
    prefer_hidden: bool,
    index: int,
    hidden: DecoderState,
    later: Seq<(u16, u16)>,
)
    requires
        0 <= index <= data.len() <= usize::MAX,
        sound(hidden),
        draws_kept(data, prefer_hidden, index, hidden),
        stands_for(plan_from(data, prefer_hidden, index, hidden).1, later),
    ensures
        stands_for(hidden, plan_digits(data, prefer_hidden, index, hidden) + later),
    decreases data.len() - index,
{
    let digits = plan_digits(data, prefer_hidden, index, hidden);
    if index + END_LITERAL_NUM < data.len() {
        let found = candidates(data, index, prefer_hidden);
        if found.len() == 0 {
            lemma_plan_digits_stand(data, prefer_hidden, index + 1, hidden, later);
        } else {
            lemma_candidates(data, index, prefer_hidden);
            let bound = found.len() as u16;
            let drawn = draw(hidden, found.len());
            lemma_settled_after_draw(hidden, found.len());
            let length = match_length_at(data, index, found[drawn.0 as int] as int);
            if length < MATCH_LENGTH_OFFSET {
                lemma_dry_draw(hidden, found.len());
                lemma_plan_digits_stand(data, prefer_hidden, index + 1, drawn.1, later);
            } else {
                lemma_taken_match_valid(data, prefer_hidden, index, drawn.0 as int);
                lemma_plan_digits_stand(data, prefer_hidden, index + length, drawn.1, later);
                let behind = plan_digits(data, prefer_hidden, index + length, drawn.1);
                lemma_draw_stands(hidden, bound, behind + later);
                assert(seq![(drawn.0 as u16, bound)] + (behind + later) =~= digits + later);
            }
        }
    } else {
        assert(digits + later =~= later);
    }
}

/// Where no digit is drawn in vain in the blocks of a frame, and the decoder
/// of the hidden data has run dry at the end, the digits that a reader with
/// the same preference gets from the blocks are what the decoder held at the
/// start.
proof fn lemma_blocks_digits_stand(data: Seq<u8>, prefer_hidden: bool, hidden: DecoderState)
    requires
        sound(hidden),
        blocks_keep(data, prefer_hidden, hidden),
        run_dry(blocks_of(data, prefer_hidden, hidden, true).hidden),
    ensures
        stands_for(hidden, blocks_digits(data, prefer_hidden, hidden, prefer_hidden)),
    decreases data.len(),
{
    if data.len() == 0 {
        assert(hidden.remaining.reverse() =~= Seq::<u8>::empty());
    } else {
        let size = first_block_size(data.len());
        let chunk = data.subrange(0, size as int);
        let rest = data.skip(size as int);
        let next = block_of(chunk, prefer_hidden, hidden).1;
        let later = blocks_digits(rest, prefer_hidden, next, prefer_hidden);
        if chunk.len() >= MIN_COMPRESS_LENGTH {
            lemma_plan_keeps_sound(chunk, prefer_hidden, 0, hidden);
        }
        lemma_blocks_digits_stand(rest, prefer_hidden, next);
        if chunk.len() < MIN_COMPRESS_LENGTH {
            assert(Seq::<(u16, u16)>::empty() + later =~= later);
        } else if stays_compressed(chunk, prefer_hidden, hidden) {
            lemma_digits_recovered(chunk, prefer_hidden, 0, hidden);
            lemma_plan_digits_stand(chunk, prefer_hidden, 0, hidden, later);
        } else {
            assert(Seq::<(u16, u16)>::empty() + later =~= later);
        }
    }
}

/// A frame gives back what was hidden in it: where the choices of the frame
/// have taken in all of the hidden data and no digit was drawn in vain, what
/// a reader with the same preference finds are the content and digits that
/// stand for the hidden bytes, but for zeros at their front.
pub proof fn lemma_hidden_data_comes_back(
    data: Seq<u8>,
    hidden_data: Seq<u8>,
    prefer_hidden: bool,
)
    requires
        blocks_terminated(data, prefer_hidden, initial_state(hidden_data)),
        blocks_keep(data, prefer_hidden, initial_state(hidden_data)),
        run_dry(blocks_of(data, prefer_hidden, initial_state(hidden_data), true).hidden),
    ensures
        decode_frame(frame_of(data, prefer_hidden, initial_state(hidden_data)), prefer_hidden)
            is Ok,
        decode_frame(
            frame_of(data, prefer_hidden, initial_state(hidden_data)),
            prefer_hidden,
        )->Ok_0.0 == data,
        encode_digits(
            decode_frame(
                frame_of(data, prefer_hidden, initial_state(hidden_data)),
                prefer_hidden,
            )->Ok_0.1,
        ) == without_leading_zeros(hidden_data),
{
    let hidden = initial_state(hidden_data);
    lemma_frame_round_trip(data, prefer_hidden, hidden, prefer_hidden);
    lemma_blocks_digits_stand(data, prefer_hidden, hidden);
    let digits = blocks_digits(data, prefer_hidden, hidden, prefer_hidden);
    if settled(hidden) {
        assert(hidden_data.reverse() =~= Seq::<u8>::empty());
        assert(le_digits(0) =~= Seq::<u8>::empty());
        assert(encode_digits(digits) =~= Seq::<u8>::empty());
    }
}

} // verus!
