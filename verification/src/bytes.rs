//! Little-endian integers in byte strings, read and written by `byteorder`.

use byteorder::LittleEndian;
use byteorder::ReadBytesExt;
use byteorder::WriteBytesExt;
use vstd::prelude::*;

verus! {

/// The two bytes of `n`, low byte first.
pub open spec fn u16_le_bytes(n: u16) -> Seq<u8> {
    seq![(n % 256) as u8, (n / 256) as u8]
}

/// The four bytes of `n`, low byte first.
pub open spec fn u32_le_bytes(n: u32) -> Seq<u8> {
    seq![
        (n % 256) as u8,
        (n / 256 % 256) as u8,
        (n / 65536 % 256) as u8,
        (n / 16777216) as u8,
    ]
}

/// The integer whose low byte is `s[0]` and whose high byte is `s[1]`.
pub open spec fn u16_from_le(s: Seq<u8>) -> u16
    recommends
        s.len() >= 2,
{
    (s[0] + 256 * s[1]) as u16
}

/// The integer whose bytes, low byte first, are `s[0]` to `s[3]`.
pub open spec fn u32_from_le(s: Seq<u8>) -> u32
    recommends
        s.len() >= 4,
{
    (s[0] + 256 * s[1] + 65536 * s[2] + 16777216 * s[3]) as u32
}

/// Reading back what was written gives the integer again.
pub proof fn lemma_u16_le_round_trip(n: u16)
    ensures
        u16_le_bytes(n).len() == 2,
        u16_from_le(u16_le_bytes(n)) == n,
{
}

/// Reading back what was written gives the integer again.
pub proof fn lemma_u32_le_round_trip(n: u32)
    ensures
        u32_le_bytes(n).len() == 4,
        u32_from_le(u32_le_bytes(n)) == n,
{
}

/// `ReadBytesExt::read_u16::<LittleEndian>` on a byte slice: the first two
/// bytes as a little-endian integer, or nothing where the slice is shorter.
#[verifier::external_body]
pub(crate) fn read_u16_le(buf: &[u8]) -> (n: Option<u16>)
    ensures
        n == if buf@.len() >= 2 {
            Some(u16_from_le(buf@))
        } else {
            None
        },
{
    let mut rest = buf;
    rest.read_u16::<LittleEndian>().ok()
}

/// `ReadBytesExt::read_u32::<LittleEndian>` on a byte slice: the first four
/// bytes as a little-endian integer, or nothing where the slice is shorter.
#[verifier::external_body]
pub(crate) fn read_u32_le(buf: &[u8]) -> (n: Option<u32>)
    ensures
        n == if buf@.len() >= 4 {
            Some(u32_from_le(buf@))
        } else {
            None
        },
{
    let mut rest = buf;
    rest.read_u32::<LittleEndian>().ok()
}

/// `WriteBytesExt::write_u16::<LittleEndian>` on a vector appends the two
/// bytes of `n`, low byte first. Writing to a vector does not fail.
#[verifier::external_body]
pub(crate) fn write_u16_le(out: &mut Vec<u8>, n: u16)
    ensures
        final(out)@ == old(out)@ + u16_le_bytes(n),
{
    let _ = out.write_u16::<LittleEndian>(n);
}

/// `WriteBytesExt::write_u32::<LittleEndian>` on a vector appends the four
/// bytes of `n`, low byte first. Writing to a vector does not fail.
#[verifier::external_body]
pub(crate) fn write_u32_le(out: &mut Vec<u8>, n: u32)
    ensures
        final(out)@ == old(out)@ + u32_le_bytes(n),
{
    let _ = out.write_u32::<LittleEndian>(n);
}

} // verus!
