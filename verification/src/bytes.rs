//! Little-endian field encoding, the byte order of every integer in a bigWig file.

use vstd::prelude::*;
use byteorder::ByteOrder;
use byteorder::LittleEndian;

verus! {

/// The two bytes of `x`, least significant first.
#[verifier::opaque]
pub open spec fn u16_le(x: u16) -> Seq<u8> {
    seq![(x % 256) as u8, (x / 256) as u8]
}

/// The four bytes of `x`, least significant first.
#[verifier::opaque]
pub open spec fn u32_le(x: u32) -> Seq<u8> {
    seq![
        (x % 256) as u8,
        ((x / 0x100) % 256) as u8,
        ((x / 0x1_0000) % 256) as u8,
        (x / 0x100_0000) as u8,
    ]
}

/// The eight bytes of `x`, least significant first: its low half, then its high half.
#[verifier::opaque]
pub open spec fn u64_le(x: u64) -> Seq<u8> {
    u32_le((x % 0x1_0000_0000) as u32) + u32_le((x / 0x1_0000_0000) as u32)
}

/// The number that the first two bytes of `s` hold, least significant first.
pub open spec fn le_u16(s: Seq<u8>) -> u16 {
    (s[0] as int + 0x100 * s[1] as int) as u16
}

/// The number that the first four bytes of `s` hold, least significant first.
pub open spec fn le_u32(s: Seq<u8>) -> u32 {
    (s[0] as int + 0x100 * s[1] as int + 0x1_0000 * s[2] as int + 0x100_0000 * s[3] as int) as u32
}

/// The number that the first eight bytes of `s` hold, least significant first.
pub open spec fn le_u64(s: Seq<u8>) -> u64 {
    (le_u32(s.subrange(0, 4)) as int + 0x1_0000_0000 * le_u32(s.subrange(4, 8)) as int) as u64
}

/// Two bytes decode to the number they encode.
pub proof fn lemma_u16_round_trip(x: u16)
    ensures
        u16_le(x).len() == 2,
        le_u16(u16_le(x)) == x,
{
    reveal(u16_le);
}

/// Four bytes decode to the number they encode.
pub proof fn lemma_u32_round_trip(x: u32)
    ensures
        u32_le(x).len() == 4,
        le_u32(u32_le(x)) == x,
{
    reveal(u32_le);
}

/// Eight bytes decode to the number they encode.
pub proof fn lemma_u64_round_trip(x: u64)
    ensures
        u64_le(x).len() == 8,
        le_u64(u64_le(x)) == x,
{
    reveal(u64_le);
    let lo = (x % 0x1_0000_0000) as u32;
    let hi = (x / 0x1_0000_0000) as u32;
    lemma_u32_round_trip(lo);
    lemma_u32_round_trip(hi);
    assert(u64_le(x).subrange(0, 4) =~= u32_le(lo));
    assert(u64_le(x).subrange(4, 8) =~= u32_le(hi));
}

/// A field takes as many bytes as its width.
pub proof fn lemma_le_lens()
    ensures
        forall|x: u16| (#[trigger] u16_le(x)).len() == 2,
        forall|x: u32| (#[trigger] u32_le(x)).len() == 4,
        forall|x: u64| (#[trigger] u64_le(x)).len() == 8,
{
    assert forall|x: u16| (#[trigger] u16_le(x)).len() == 2 by {
        lemma_u16_round_trip(x);
    }
    assert forall|x: u32| (#[trigger] u32_le(x)).len() == 4 by {
        lemma_u32_round_trip(x);
    }
    assert forall|x: u64| (#[trigger] u64_le(x)).len() == 8 by {
        lemma_u64_round_trip(x);
    }
}

/// Appends `x` as two little-endian bytes.
///
/// Rests on `byteorder::LittleEndian::write_u16`, which stores `x.to_le_bytes()` in the
/// first two bytes of the buffer it is given.
#[verifier::external_body]
pub(crate) fn put_u16(bytes: &mut Vec<u8>, x: u16)
    ensures
        final(bytes)@ == old(bytes)@ + u16_le(x),
{
    let mut buf = [0u8; 2];
    LittleEndian::write_u16(&mut buf, x);
    bytes.extend_from_slice(&buf);
}

/// Appends `x` as four little-endian bytes.
///
/// Rests on `byteorder::LittleEndian::write_u32`, which stores `x.to_le_bytes()` in the
/// first four bytes of the buffer it is given.
#[verifier::external_body]
pub(crate) fn put_u32(bytes: &mut Vec<u8>, x: u32)
    ensures
        final(bytes)@ == old(bytes)@ + u32_le(x),
{
    let mut buf = [0u8; 4];
    LittleEndian::write_u32(&mut buf, x);
    bytes.extend_from_slice(&buf);
}

/// Appends `x` as eight little-endian bytes.
///
/// Rests on `byteorder::LittleEndian::write_u64`, which stores `x.to_le_bytes()` in the
/// first eight bytes of the buffer it is given.
#[verifier::external_body]
pub(crate) fn put_u64(bytes: &mut Vec<u8>, x: u64)
    ensures
        final(bytes)@ == old(bytes)@ + u64_le(x),
{
    let mut buf = [0u8; 8];
    LittleEndian::write_u64(&mut buf, x);
    bytes.extend_from_slice(&buf);
}

} // verus!
