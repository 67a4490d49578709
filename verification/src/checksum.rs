//! The xxHash-32 checksums of the frame format, computed by `xxhash_rust`.
//!
//! What is said below of the functions of that crate is not proved: each
//! contract states what the crate documents of the function, and the rest of
//! the library is verified against these contracts.

use vstd::prelude::*;
use xxhash_rust::xxh32::Xxh32;
use xxhash_rust::xxh32::xxh32;

verus! {

/// The streaming hasher of `xxhash_rust`; nothing inside it is visible here.
#[verifier::external_type_specification]
#[verifier::external_body]
pub struct ExXxh32(Xxh32);

/// The hash that `xxhash_rust::xxh32::xxh32` returns for `data` and `seed`.
pub uninterp spec fn xxh32_value(data: Seq<u8>, seed: u32) -> u32;

/// All the bytes that a streaming hasher has been given, in order.
pub uninterp spec fn hasher_input(hasher: Xxh32) -> Seq<u8>;

/// The seed that a streaming hasher was made with.
pub uninterp spec fn hasher_seed(hasher: Xxh32) -> u32;

/// The hash that `Xxh32::digest` returns once `input` has been given to a
/// hasher made with `seed`.
pub uninterp spec fn xxh32_stream_value(input: Seq<u8>, seed: u32) -> u32;

/// `xxh32` hashes a whole buffer at once; its result depends on the bytes and
/// the seed alone.
pub assume_specification[ xxh32 ](input: &[u8], seed: u32) -> (hash: u32)
    ensures
        hash == xxh32_value(input@, seed),
;

/// `Xxh32::new` makes a hasher that has been given no bytes yet.
pub assume_specification[ Xxh32::new ](seed: u32) -> (hasher: Xxh32)
    ensures
        hasher_input(hasher) == Seq::<u8>::empty(),
        hasher_seed(hasher) == seed,
;

/// `Xxh32::update` gives the hasher more bytes. The hasher counts in 32 bits
/// and holds up to 15 bytes back, so one call takes fewer than 2^32 - 15
/// bytes.
pub assume_specification[ Xxh32::update ](hasher: &mut Xxh32, input: &[u8])
    requires
        input@.len() <= 0xFFFF_FFF0,
    ensures
        hasher_input(*final(hasher)) == hasher_input(*old(hasher)) + input@,
        hasher_seed(*final(hasher)) == hasher_seed(*old(hasher)),
;

/// `Xxh32::digest` returns the hash of everything given so far and leaves the
/// hasher as it was; the result depends on those bytes and the seed alone,
/// not on how they were split over the calls of `update`.
pub assume_specification[ Xxh32::digest ](hasher: &Xxh32) -> (hash: u32)
    ensures
        hash == xxh32_stream_value(hasher_input(*hasher), hasher_seed(*hasher)),
;

/// Gives `data` to the hasher, in pieces that it can take.
pub fn hash_bytes(hasher: &mut Xxh32, data: &[u8])
    ensures
        hasher_input(*final(hasher)) == hasher_input(*old(hasher)) + data@,
        hasher_seed(*final(hasher)) == hasher_seed(*old(hasher)),
{
    let mut pos: usize = 0;
    assert(hasher_input(*hasher) + data@.take(0) =~= hasher_input(*hasher));
    while pos < data.len()
        invariant
            pos <= data@.len(),
            hasher_input(*hasher) == hasher_input(*old(hasher)) + data@.take(pos as int),
            hasher_seed(*hasher) == hasher_seed(*old(hasher)),
        decreases data@.len() - pos,
    {
        let end = if data.len() - pos > 0x4000_0000 {
            pos + 0x4000_0000
        } else {
            data.len()
        };
        let piece = &data[pos..end];
        hasher.update(piece);
        assert(data@.take(pos as int) + piece@ =~= data@.take(end as int));
        pos = end;
    }
    assert(data@.take(pos as int) =~= data@);
}

} // verus!
