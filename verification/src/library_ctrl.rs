//! Whole frames in memory: compressing all of an input at once, and
//! decompressing all of a frame at once.

use crate::compressor::Compressor;
use crate::decompressor::Decompressor;
use crate::errors::DecompressResult;
use crate::frame::blocks_of;
use crate::frame::bytes_needed;
use crate::frame::decode_frame;
use crate::frame::frame_of;
use crate::frame::in_block;
use crate::frame::initial_frame_state;
use crate::frame::lemma_blocks_resume;
use crate::frame::lemma_frame_step_extends;
use crate::frame::read_frame;
use crate::numeral_coding::encode_digits;
use crate::numeral_coding::initial_state;
use vstd::prelude::*;

verus! {

/// The frame that holds `input`, with `hidden_data` in its choices among the
/// candidates for a match, and how many whole bytes of hidden data these
/// choices could carry.
pub fn compress(input: &[u8], hidden_data: &[u8], prefer_hidden: bool) -> (result: (
    Vec<u8>,
    usize,
))
    ensures
        result.0@ == frame_of(input@, prefer_hidden, initial_state(hidden_data@)),
        result.1 == blocks_of(
            input@,
            prefer_hidden,
            initial_state(hidden_data@),
            true,
        ).hidden.capacity / 32,
{
    let mut compressor = Compressor::new_with_hidden_data(hidden_data, prefer_hidden);
    compressor.write(input);
    proof {
        let hidden = initial_state(hidden_data@);
        lemma_blocks_resume(input@, Seq::empty(), prefer_hidden, hidden, true);
        let first = blocks_of(input@, prefer_hidden, hidden, false);
        assert(Seq::<u8>::empty() + input@ =~= input@);
        assert(input@ + Seq::<u8>::empty() =~= input@);
        assert(input@.skip(first.consumed as int) + Seq::<u8>::empty() =~= input@.skip(
            first.consumed as int,
        ));
        assert(Seq::<u8>::empty() + input@.take(first.consumed as int) + input@.skip(
            first.consumed as int,
        ) =~= input@);
    }
    compressor.finish()
}

/// The content of the frame at the front of `input`, and the bytes that
/// stand for the digits that its matches give away. Which digits these are
/// depends on `prefer_hidden`, which says how the candidates for a match are
/// counted.
pub fn decompress(input: &[u8], prefer_hidden: bool) -> (result: DecompressResult<
    (Vec<u8>, Vec<u8>),
>)
    ensures
        match decode_frame(input@, prefer_hidden) {
            Ok((content, digits)) => result is Ok && result->Ok_0.0@ == content
                && result->Ok_0.1@ == encode_digits(digits),
            Err(message) => result is Err && result->Err_0@ == message,
        },
{
    let mut decompressor = Decompressor::new(prefer_hidden);
    let mut content: Vec<u8> = Vec::new();
    let mut pos: usize = 0;
    assert(input@.skip(0) =~= input@);
    while !decompressor.is_done()
        invariant
            decompressor.well_formed(),
            pos <= input@.len(),
            decompressor@.prefer_hidden == prefer_hidden,
            decompressor@.delivered == decompressor@.frame.content.len(),
            content@ == decompressor@.frame.content,
            read_frame(decompressor@.frame, input@.skip(pos as int), prefer_hidden) == read_frame(
                initial_frame_state(),
                input@,
                prefer_hidden,
            ),
        decreases
                input@.len() - pos,
                (if in_block(decompressor@.frame.stage) {
                    1nat
                } else {
                    0nat
                }),
    {
        let rest = &input[pos..input.len()];
        let ghost frame_before = decompressor@.frame;
        proof {
            reveal(read_frame);
        }
        assert(rest@ =~= input@.skip(pos as int));
        let taken = match decompressor.feed(rest) {
            Ok(taken) => taken,
            Err(e) => {
                return Err(e);
            },
        };
        let ghost before = content@;
        let waiting = decompressor.available();
        let mut bytes = decompressor.read(waiting);
        content.append(&mut bytes);
        proof {
            lemma_frame_step_extends(
                frame_before,
                rest@.take(bytes_needed(frame_before.stage) as int),
                prefer_hidden,
            );
            assert(input@.skip(pos as int).skip(taken as int) =~= input@.skip(pos + taken));
            assert(content@ =~= decompressor@.frame.content);
        }
        pos += taken;
    }
    proof {
        reveal(read_frame);
    }
    Ok((content, decompressor.finish()))
}

} // verus!
