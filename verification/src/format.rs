//! The LZ4 block format, stated on byte sequences.
//!
//! A block is a run of sequences. A sequence is a token, the literals with
//! their length, and, in all but the last sequence of a block, a match: an
//! offset back into what has been decoded and a length. Lengths of 15 and
//! more continue in further bytes behind the token.

use crate::bytes::u16_from_le;
use crate::bytes::u16_le_bytes;
use crate::constants::MATCH_LENGTH_OFFSET;
use crate::constants::TOKEN_MAX_VAL;
use crate::descriptors::Token;
use crate::errors::LENGTH_TOO_LARGE;
use crate::errors::OFFSET_OUT_OF_RANGE;
use crate::errors::OFFSET_ZERO;
use crate::errors::UNEXPECTED_END;
use vstd::prelude::*;

verus! {

/// The continuation bytes for what a length has beyond the token's share:
/// a 255 for every full 255 but the last, then the rest.
pub open spec fn lsic_tail(rest: nat) -> Seq<u8>
    decreases rest,
{
    if rest > 255 {
        seq![255u8] + lsic_tail((rest - 255) as nat)
    } else {
        seq![rest as u8]
    }
}

/// The bytes that follow the token for the length `val`, where the token
/// itself holds lengths below `max_val`.
pub open spec fn lsic_bytes(val: nat, max_val: nat) -> Seq<u8> {
    if val < max_val {
        Seq::empty()
    } else {
        lsic_tail((val - max_val) as nat)
    }
}

/// The token's share of the length `val`.
pub open spec fn lsic_initial(val: nat, max_val: nat) -> nat {
    if val < max_val {
        val
    } else {
        max_val
    }
}

/// A reader of continuation bytes comes to a stop behind the bytes of this
/// length: it is below `max_val`, or what it has beyond `max_val` is zero or
/// no multiple of 255.
pub open spec fn lsic_terminated(val: nat, max_val: nat) -> bool {
    val <= max_val || (val - max_val) % 255 != 0
}

/// Reads continuation bytes from the front of `input` and adds them to `acc`
/// up to and including the first byte below 255: the sum and the number of
/// bytes read.
pub open spec fn lsic_continuation(input: Seq<u8>, acc: nat) -> Result<(nat, nat), Seq<char>>
    decreases input.len(),
{
    if input.len() == 0 {
        Err(UNEXPECTED_END@)
    } else if acc + input[0] > u32::MAX {
        Err(LENGTH_TOO_LARGE@)
    } else if input[0] < 255 {
        Ok((acc + input[0] as nat, 1))
    } else {
        match lsic_continuation(input.drop_first(), acc + input[0] as nat) {
            Ok((val, count)) => Ok((val, count + 1)),
            Err(e) => Err(e),
        }
    }
}

/// The length whose token share is `initial`, read from the front of `input`:
/// the length and the number of bytes read.
pub open spec fn parse_lsic(input: Seq<u8>, initial: nat, max_val: nat) -> Result<
    (nat, nat),
    Seq<char>,
> {
    if initial < max_val {
        Ok((initial, 0))
    } else {
        lsic_continuation(input, initial)
    }
}

/// A length that was read fits in 32 bits and took at least one byte, and no
/// more than the input holds.
pub proof fn lemma_lsic_continuation_bounds(input: Seq<u8>, acc: nat)
    ensures
        match lsic_continuation(input, acc) {
            Ok((val, count)) => acc <= val <= u32::MAX && 1 <= count <= input.len(),
            Err(_) => true,
        },
    decreases input.len(),
{
    if input.len() > 0 && acc + input[0] <= u32::MAX && input[0] == 255 {
        lemma_lsic_continuation_bounds(input.drop_first(), acc + input[0] as nat);
    }
}

proof fn lemma_lsic_tail_round_trip(rest: nat, acc: nat, behind: Seq<u8>)
    requires
        rest == 0 || rest % 255 != 0,
        acc + rest <= u32::MAX,
    ensures
        lsic_continuation(lsic_tail(rest) + behind, acc) == Ok::<(nat, nat), Seq<char>>(
            (acc + rest, lsic_tail(rest).len()),
        ),
    decreases rest,
{
    let input = lsic_tail(rest) + behind;
    if rest > 255 {
        let shorter = (rest - 255) as nat;
        lemma_lsic_tail_round_trip(shorter, acc + 255, behind);
        assert(input.drop_first() =~= lsic_tail(shorter) + behind);
        assert(input[0] == 255);
    } else {
        assert(input[0] == rest);
    }
}

/// A length that was written is read back, together with the number of bytes
/// that it took, whatever follows it in the input, unless its bytes end in
/// 255 (see `lsic_terminated`).
pub proof fn lemma_lsic_round_trip(val: u32, max_val: u8, behind: Seq<u8>)
    requires
        lsic_terminated(val as nat, max_val as nat),
    ensures
        parse_lsic(
            lsic_bytes(val as nat, max_val as nat) + behind,
            lsic_initial(val as nat, max_val as nat),
            max_val as nat,
        ) == Ok::<(nat, nat), Seq<char>>(
            (val as nat, lsic_bytes(val as nat, max_val as nat).len()),
        ),
{
    if val >= max_val {
        lemma_lsic_tail_round_trip((val - max_val) as nat, max_val as nat, behind);
    }
}

/// A length is read within the input and fits in 32 bits.
pub proof fn lemma_parse_lsic_bounds(input: Seq<u8>, initial: nat, max_val: nat)
    requires
        initial <= u32::MAX,
    ensures
        match parse_lsic(input, initial, max_val) {
            Ok((val, count)) => initial <= val <= u32::MAX && count <= input.len(),
            Err(_) => true,
        },
{
    if initial >= max_val {
        lemma_lsic_continuation_bounds(input, initial);
    }
}

/// The token of a sequence with `literals_len` literals and the match length
/// `match_length`: the two lengths, each held at 15, in the two halves.
pub open spec fn token_byte(literals_len: nat, match_length: nat) -> u8 {
    (16 * lsic_initial(literals_len, TOKEN_MAX_VAL as nat) + lsic_initial(
        (match_length - MATCH_LENGTH_OFFSET) as nat,
        TOKEN_MAX_VAL as nat,
    )) as u8
}

/// The bytes of one sequence: the token, the rest of the literals' length,
/// the literals, and, unless the offset is 0 (which marks the last sequence
/// of a block), the offset and the rest of the match length.
pub open spec fn sequence_bytes(literals: Seq<u8>, offset: u16, match_length: u32) -> Seq<u8> {
    seq![token_byte(literals.len(), match_length as nat)] + lsic_bytes(
        literals.len(),
        TOKEN_MAX_VAL as nat,
    ) + literals + (if offset != 0 {
        u16_le_bytes(offset) + lsic_bytes(
            (match_length - MATCH_LENGTH_OFFSET) as nat,
            TOKEN_MAX_VAL as nat,
        )
    } else {
        Seq::empty()
    })
}

/// `out` with `length` more bytes, each a copy of the byte `offset` places
/// before it; a byte that was just copied may be copied again.
pub open spec fn copy_match(out: Seq<u8>, offset: nat, length: nat) -> Seq<u8>
    decreases length,
{
    if length == 0 || offset == 0 || offset > out.len() {
        out
    } else {
        copy_match(out.push(out[out.len() - offset]), offset, (length - 1) as nat)
    }
}

/// The literals of the sequence at the front of `input`: where they start
/// and where they end.
pub open spec fn parse_literals(input: Seq<u8>) -> Result<(nat, nat), Seq<char>> {
    if input.len() == 0 {
        Err(UNEXPECTED_END@)
    } else {
        match parse_lsic(
            input.skip(1),
            Token(input[0]).literals_length() as nat,
            TOKEN_MAX_VAL as nat,
        ) {
            Err(e) => Err(e),
            Ok((literals_len, count)) => {
                if 1 + count + literals_len > input.len() {
                    Err(UNEXPECTED_END@)
                } else {
                    Ok((1 + count, 1 + count + literals_len))
                }
            },
        }
    }
}

/// The match at the front of `input`, where the token's share of its length
/// is `share`: the offset, the length, and how many bytes describe it.
pub open spec fn parse_match(input: Seq<u8>, share: nat) -> Result<(u16, nat, nat), Seq<char>> {
    if input.len() < 2 {
        Err(UNEXPECTED_END@)
    } else if u16_from_le(input) == 0 {
        Err(OFFSET_ZERO@)
    } else {
        match parse_lsic(input.skip(2), share, TOKEN_MAX_VAL as nat) {
            Err(e) => Err(e),
            Ok((stored, count)) => {
                if stored + MATCH_LENGTH_OFFSET > u32::MAX {
                    Err(LENGTH_TOO_LARGE@)
                } else {
                    Ok((u16_from_le(input), stored + MATCH_LENGTH_OFFSET as nat, 2 + count))
                }
            },
        }
    }
}

/// The literals lie within the input, behind the token.
pub proof fn lemma_parse_literals_bounds(input: Seq<u8>)
    ensures
        match parse_literals(input) {
            Ok((start, end)) => 1 <= start <= end <= input.len() && end - start <= u32::MAX,
            Err(_) => true,
        },
{
    if input.len() > 0 {
        lemma_parse_lsic_bounds(
            input.skip(1),
            Token(input[0]).literals_length() as nat,
            TOKEN_MAX_VAL as nat,
        );
    }
}

/// The description of a match lies within the input, and its length is at
/// least 4 and fits in 32 bits.
pub proof fn lemma_parse_match_bounds(input: Seq<u8>, share: nat)
    requires
        share <= TOKEN_MAX_VAL,
    ensures
        match parse_match(input, share) {
            Ok((offset, length, count)) => offset >= 1 && MATCH_LENGTH_OFFSET <= length
                <= u32::MAX && 2 <= count <= input.len(),
            Err(_) => true,
        },
{
    if input.len() >= 2 {
        lemma_parse_lsic_bounds(input.skip(2), share, TOKEN_MAX_VAL as nat);
    }
}

/// What the sequences in `input` decode to, behind the bytes `out` that
/// earlier sequences of the block gave: the bytes of the block, and for each
/// match the place where it starts and the place that it copies from. The
/// sequence whose literals reach the end of the input is the last one.
#[verifier::opaque]
pub open spec fn decode_sequences(
    input: Seq<u8>,
    out: Seq<u8>,
    matches: Seq<(usize, usize)>,
) -> Result<(Seq<u8>, Seq<(usize, usize)>), Seq<char>>
    decreases input.len(),
{
    match parse_literals(input) {
        Err(e) => Err(e),
        Ok((start, end)) => {
            let out = out + input.subrange(start as int, end as int);
            if end >= input.len() {
                Ok((out, matches))
            } else {
                match parse_match(input.skip(end as int), Token(input[0]).match_length() as nat) {
                    Err(e) => Err(e),
                    Ok((offset, length, count)) => {
                        if offset > out.len() {
                            Err(OFFSET_OUT_OF_RANGE@)
                        } else {
                            proof {
                                lemma_parse_literals_bounds(input);
                                lemma_parse_match_bounds(
                                    input.skip(end as int),
                                    Token(input[0]).match_length() as nat,
                                );
                            }
                            decode_sequences(
                                input.skip((end + count) as int),
                                copy_match(out, offset as nat, length),
                                matches.push((out.len() as usize, (out.len() - offset) as usize)),
                            )
                        }
                    },
                }
            }
        },
    }
}

/// What a compressed block decodes to.
pub open spec fn decode_block(input: Seq<u8>) -> Result<
    (Seq<u8>, Seq<(usize, usize)>),
    Seq<char>,
> {
    decode_sequences(input, Seq::empty(), Seq::empty())
}

/// A match adds as many bytes as it is long.
pub proof fn lemma_copy_match_len(out: Seq<u8>, offset: nat, length: nat)
    requires
        1 <= offset <= out.len(),
    ensures
        copy_match(out, offset, length).len() == out.len() + length,
    decreases length,
{
    if length > 0 {
        lemma_copy_match_len(out.push(out[out.len() - offset]), offset, (length - 1) as nat);
    }
}

/// The matches of a block are in the order of their places, and each has at
/// least four bytes of the block from its place on.
pub open spec fn matches_ordered(matches: Seq<(usize, usize)>, len: nat) -> bool {
    &&& forall|j: int|
        0 <= j < matches.len() ==> (#[trigger] matches[j]).0 + MATCH_LENGTH_OFFSET <= len
    &&& forall|j: int, k: int|
        0 <= j < k < matches.len() ==> (#[trigger] matches[j]).0 <= (#[trigger] matches[k]).0
}

/// Decoding on from matches that are in order gives matches that are in order.
pub proof fn lemma_decode_sequences_ordered(
    input: Seq<u8>,
    out: Seq<u8>,
    matches: Seq<(usize, usize)>,
)
    requires
        matches_ordered(matches, out.len()),
        decode_sequences(input, out, matches) is Ok,
        decode_sequences(input, out, matches)->Ok_0.0.len() <= usize::MAX,
    ensures
        matches_ordered(
            decode_sequences(input, out, matches)->Ok_0.1,
            decode_sequences(input, out, matches)->Ok_0.0.len(),
        ),
        out.len() <= decode_sequences(input, out, matches)->Ok_0.0.len(),
    decreases input.len(),
{
    reveal(decode_sequences);
    let (start, end) = parse_literals(input)->Ok_0;
    let with_literals = out + input.subrange(start as int, end as int);
    lemma_parse_literals_bounds(input);
    if end < input.len() {
        let share = Token(input[0]).match_length() as nat;
        lemma_parse_match_bounds(input.skip(end as int), share);
        let (offset, length, count) = parse_match(input.skip(end as int), share)->Ok_0;
        let copied = copy_match(with_literals, offset as nat, length);
        lemma_copy_match_len(with_literals, offset as nat, length);
        let at = with_literals.len() as usize;
        let from = (with_literals.len() - offset) as usize;
        let more = matches.push((at, from));
        let rest = input.skip((end + count) as int);
        lemma_decode_grows(rest, copied, more);
        assert(matches_ordered(more, copied.len()));
        lemma_decode_sequences_ordered(rest, copied, more);
    }
}

/// Decoding only adds to what has been decoded.
pub proof fn lemma_decode_grows(input: Seq<u8>, out: Seq<u8>, matches: Seq<(usize, usize)>)
    requires
        decode_sequences(input, out, matches) is Ok,
    ensures
        out.len() <= decode_sequences(input, out, matches)->Ok_0.0.len(),
    decreases input.len(),
{
    reveal(decode_sequences);
    let (start, end) = parse_literals(input)->Ok_0;
    let with_literals = out + input.subrange(start as int, end as int);
    lemma_parse_literals_bounds(input);
    if end < input.len() {
        let share = Token(input[0]).match_length() as nat;
        lemma_parse_match_bounds(input.skip(end as int), share);
        let (offset, length, count) = parse_match(input.skip(end as int), share)->Ok_0;
        lemma_copy_match_len(with_literals, offset as nat, length);
        lemma_decode_grows(
            input.skip((end + count) as int),
            copy_match(with_literals, offset as nat, length),
            matches.push(
                (with_literals.len() as usize, (with_literals.len() - offset) as usize),
            ),
        );
    }
}

} // verus!
