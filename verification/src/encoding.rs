//! What the compressor makes of a block, stated on the bytes of the block.
//!
//! The compressor goes through the block from the front. Where the place it
//! stands at has candidates for a match, it draws a digit below their number
//! from the hidden data and takes the candidate with that number; a match of
//! fewer than four bytes is not taken. The matches that are taken, in their
//! order, are the plan of the block; what lies between them are literals.

use crate::bytes::u32_le_bytes;
use crate::constants::END_LITERAL_NUM;
use crate::constants::MATCH_LENGTH_OFFSET;
use crate::constants::MAX_BLOCK_SIZE;
use crate::constants::TOKEN_MAX_VAL;
use crate::format::lsic_terminated;
use crate::format::sequence_bytes;
use crate::matching::candidates;
use crate::numeral_coding::DecoderState;
use crate::numeral_coding::draw;
use crate::occurrence_map::match_length_at;
use vstd::prelude::*;

verus! {

/// A match: `length` bytes at the place `at` of a block are those from the
/// earlier place `from` on.
pub struct Match {
    pub at: usize,
    pub from: usize,
    pub length: usize,
}

/// The matches that the compressor takes from the place `index` of a block
/// on, and what the decoder of the hidden data holds at the end of the block.
pub open spec fn plan_from(
    data: Seq<u8>,
    prefer_hidden: bool,
    index: int,
    hidden: DecoderState,
) -> (Seq<Match>, DecoderState)
    decreases data.len() - index,
{
    if index < 0 || index + END_LITERAL_NUM >= data.len() {
        (Seq::empty(), hidden)
    } else {
        let found = candidates(data, index, prefer_hidden);
        if found.len() == 0 {
            plan_from(data, prefer_hidden, index + 1, hidden)
        } else {
            let drawn = draw(hidden, found.len());
            let from = found[drawn.0 as int];
            let length = match_length_at(data, index, from as int);
            if length < MATCH_LENGTH_OFFSET {
                plan_from(data, prefer_hidden, index + 1, drawn.1)
            } else {
                let behind = plan_from(data, prefer_hidden, index + length, drawn.1);
                (
                    seq![Match { at: index as usize, from, length: length as usize }] + behind.0,
                    behind.1,
                )
            }
        }
    }
}

/// The bytes of a block for a plan, from the place `anchor` on, up to which
/// the block has been written: for each match a sequence with the literals
/// in front of it, and a last sequence with the literals that are left.
pub open spec fn plan_bytes(data: Seq<u8>, plan: Seq<Match>, anchor: int) -> Seq<u8>
    decreases plan.len(),
{
    if plan.len() == 0 {
        sequence_bytes(data.subrange(anchor, data.len() as int), 0, MATCH_LENGTH_OFFSET)
    } else {
        sequence_bytes(
            data.subrange(anchor, plan[0].at as int),
            (plan[0].at - plan[0].from) as u16,
            plan[0].length as u32,
        ) + plan_bytes(data, plan.drop_first(), plan[0].at + plan[0].length)
    }
}

/// Every length that the plan writes ends in a byte below 255 (see
/// `lsic_terminated`), so that a reader finds its end.
pub open spec fn plan_terminated(data: Seq<u8>, plan: Seq<Match>, anchor: int) -> bool
    decreases plan.len(),
{
    if plan.len() == 0 {
        lsic_terminated((data.len() - anchor) as nat, TOKEN_MAX_VAL as nat)
    } else {
        &&& lsic_terminated((plan[0].at - anchor) as nat, TOKEN_MAX_VAL as nat)
        &&& lsic_terminated((plan[0].length - MATCH_LENGTH_OFFSET) as nat, TOKEN_MAX_VAL as nat)
        &&& plan_terminated(data, plan.drop_first(), plan[0].at + plan[0].length)
    }
}

/// The sequences of the block that the compressor makes of `data`.
pub open spec fn compressed_payload(
    data: Seq<u8>,
    prefer_hidden: bool,
    hidden: DecoderState,
) -> Seq<u8> {
    plan_bytes(data, plan_from(data, prefer_hidden, 0, hidden).0, 0)
}

/// A block that holds `data` as it is: the length with the highest bit set,
/// then the bytes.
pub open spec fn uncompressed_block(data: Seq<u8>) -> Seq<u8> {
    u32_le_bytes((0x8000_0000 + data.len()) as u32) + data
}

/// The block that the compressor makes of `data`: the length of the
/// sequences and the sequences, or, where these come to more than the
/// largest block, the data as it is.
pub open spec fn compressed_block(
    data: Seq<u8>,
    prefer_hidden: bool,
    hidden: DecoderState,
) -> Seq<u8> {
    let payload = compressed_payload(data, prefer_hidden, hidden);
    if payload.len() <= MAX_BLOCK_SIZE {
        u32_le_bytes(payload.len() as u32) + payload
    } else {
        uncompressed_block(data)
    }
}

} // verus!
