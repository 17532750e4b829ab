//! Little-endian integers as they stand in a block and in an archive.

use byteorder::{ByteOrder, LittleEndian};
use vstd::prelude::*;

verus! {

/// The eight bytes of `x`, least significant first.
#[verifier::opaque]
pub open spec fn spec_u64_to_le(x: u64) -> Seq<u8> {
    seq![
        (x & 0xff) as u8,
        ((x >> 8) & 0xff) as u8,
        ((x >> 16) & 0xff) as u8,
        ((x >> 24) & 0xff) as u8,
        ((x >> 32) & 0xff) as u8,
        ((x >> 40) & 0xff) as u8,
        ((x >> 48) & 0xff) as u8,
        ((x >> 56) & 0xff) as u8,
    ]
}

/// The number whose little-endian form is the first eight bytes of `s`.
#[verifier::opaque]
pub open spec fn spec_u64_from_le(s: Seq<u8>) -> u64
    recommends
        s.len() >= 8,
{
    (s[0] as u64) | (s[1] as u64) << 8 | (s[2] as u64) << 16 | (s[3] as u64) << 24 | (s[4] as u64)
        << 32 | (s[5] as u64) << 40 | (s[6] as u64) << 48 | (s[7] as u64) << 56
}

/// The number whose little-endian form is the first four bytes of `s`.
pub open spec fn spec_u32_from_le(s: Seq<u8>) -> u32
    recommends
        s.len() >= 4,
{
    (s[0] as u32) | (s[1] as u32) << 8 | (s[2] as u32) << 16 | (s[3] as u32) << 24
}

/// Decoding what was encoded gives the number back.
pub proof fn lemma_u64_le_round_trip(x: u64)
    ensures
        spec_u64_to_le(x).len() == 8,
        spec_u64_from_le(spec_u64_to_le(x)) == x,
{
    reveal(spec_u64_to_le);
    reveal(spec_u64_from_le);
    assert(x == (((x & 0xff) as u8 as u64)
        | (((x >> 8) & 0xff) as u8 as u64) << 8
        | (((x >> 16) & 0xff) as u8 as u64) << 16
        | (((x >> 24) & 0xff) as u8 as u64) << 24
        | (((x >> 32) & 0xff) as u8 as u64) << 32
        | (((x >> 40) & 0xff) as u8 as u64) << 40
        | (((x >> 48) & 0xff) as u8 as u64) << 48
        | (((x >> 56) & 0xff) as u8 as u64) << 56)) by (bit_vector);
}

/// The encoding of a number is eight bytes long, and decoding reads nothing
/// beyond them.
pub proof fn lemma_u64_le_prefix(x: u64, rest: Seq<u8>)
    ensures
        spec_u64_to_le(x).len() == 8,
        spec_u64_from_le(spec_u64_to_le(x) + rest) == x,
{
    lemma_u64_le_round_trip(x);
    let a = spec_u64_to_le(x);
    assert(a.subrange(0, 8) =~= (a + rest).subrange(0, 8));
    lemma_u64_from_le_prefix(a, a + rest);
}

/// Decoding reads the first eight bytes only.
pub proof fn lemma_u64_from_le_prefix(a: Seq<u8>, b: Seq<u8>)
    requires
        a.len() >= 8,
        b.len() >= 8,
        a.subrange(0, 8) == b.subrange(0, 8),
    ensures
        spec_u64_from_le(a) == spec_u64_from_le(b),
{
    reveal(spec_u64_from_le);
    let p = a.subrange(0, 8);
    let q = b.subrange(0, 8);
    assert(a[0] == p[0] && a[1] == p[1] && a[2] == p[2] && a[3] == p[3]);
    assert(a[4] == p[4] && a[5] == p[5] && a[6] == p[6] && a[7] == p[7]);
    assert(b[0] == q[0] && b[1] == q[1] && b[2] == q[2] && b[3] == q[3]);
    assert(b[4] == q[4] && b[5] == q[5] && b[6] == q[6] && b[7] == q[7]);
}

/// `byteorder::LittleEndian::read_u64`: the little-endian value of the first
/// eight bytes of `buf`. The call panics on a shorter buffer, which the
/// precondition rules out.
#[verifier::external_body]
pub(crate) fn read_u64_le(buf: &[u8]) -> (r: u64)
    requires
        buf@.len() >= 8,
    ensures
        r == spec_u64_from_le(buf@),
{
    LittleEndian::read_u64(buf)
}

/// `byteorder::LittleEndian::read_u32`: the little-endian value of the first
/// four bytes of `buf`. The call panics on a shorter buffer, which the
/// precondition rules out.
#[verifier::external_body]
pub(crate) fn read_u32_le(buf: &[u8]) -> (r: u32)
    requires
        buf@.len() >= 4,
    ensures
        r == spec_u32_from_le(buf@),
{
    LittleEndian::read_u32(buf)
}

/// `byteorder::LittleEndian::write_u64` into a fresh eight-byte buffer: the
/// bytes of `n`, least significant first.
#[verifier::external_body]
pub(crate) fn u64_le_bytes(n: u64) -> (r: [u8; 8])
    ensures
        r@ == spec_u64_to_le(n),
{
    let mut buf = [0u8; 8];
    LittleEndian::write_u64(&mut buf, n);
    buf
}

/// Appends `src` to `w`.
pub fn append_bytes(w: &mut Vec<u8>, src: &[u8])
    ensures
        final(w)@ == old(w)@ + src@,
{
    w.extend_from_slice(src);
}

/// Appends the little-endian form of `n` to `w`.
pub fn write_u64_le(w: &mut Vec<u8>, n: u64)
    ensures
        final(w)@ == old(w)@ + spec_u64_to_le(n),
{
    let bytes = u64_le_bytes(n);
    append_bytes(w, bytes.as_slice());
}

} // verus!
