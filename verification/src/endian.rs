//! Byte encodings of 32-bit words: little-endian for on-disk structures
//! and pointers, big-endian for metadata tags. The conversions are made by
//! zerocopy's byte-order types.

use vstd::prelude::*;
use zerocopy::byteorder::{U32, LittleEndian, BigEndian};

verus! {

/// The number that four bytes encode, least significant byte first.
pub open spec fn spec_le32(b: Seq<u8>) -> int {
    b[0] + 256 * b[1] + 65536 * b[2] + 16777216 * b[3]
}

/// The number that four bytes encode, most significant byte first.
pub open spec fn spec_be32(b: Seq<u8>) -> int {
    b[3] + 256 * b[2] + 65536 * b[1] + 16777216 * b[0]
}

/// The four bytes of `x`, least significant first.
pub open spec fn spec_le32_bytes(x: u32) -> Seq<u8> {
    seq![(x & 0xffu32) as u8, ((x >> 8u32) & 0xffu32) as u8, ((x >> 16u32) & 0xffu32) as u8,
        ((x >> 24u32) & 0xffu32) as u8]
}

/// The four bytes of `x`, most significant first.
pub open spec fn spec_be32_bytes(x: u32) -> Seq<u8> {
    seq![((x >> 24u32) & 0xffu32) as u8, ((x >> 16u32) & 0xffu32) as u8,
        ((x >> 8u32) & 0xffu32) as u8, (x & 0xffu32) as u8]
}

/// Calls zerocopy's `U32::<LittleEndian>::from_bytes` and `get`, which
/// read four bytes as a little-endian number: the contract states that
/// number.
#[verifier::external_body]
fn zc_le32_decode(b: [u8; 4]) -> (r: u32)
    ensures
        r == spec_le32(b@),
{
    U32::<LittleEndian>::from_bytes(b).get()
}

/// Calls zerocopy's `U32::<LittleEndian>::new` and `to_bytes`, which give
/// the little-endian bytes of a number: the contract states them.
#[verifier::external_body]
fn zc_le32_encode(x: u32) -> (r: [u8; 4])
    ensures
        r@ == spec_le32_bytes(x),
{
    U32::<LittleEndian>::new(x).to_bytes()
}

/// Calls zerocopy's `U32::<BigEndian>::from_bytes` and `get`, which read
/// four bytes as a big-endian number: the contract states that number.
#[verifier::external_body]
fn zc_be32_decode(b: [u8; 4]) -> (r: u32)
    ensures
        r == spec_be32(b@),
{
    U32::<BigEndian>::from_bytes(b).get()
}

/// Calls zerocopy's `U32::<BigEndian>::new` and `to_bytes`, which give the
/// big-endian bytes of a number: the contract states them.
#[verifier::external_body]
fn zc_be32_encode(x: u32) -> (r: [u8; 4])
    ensures
        r@ == spec_be32_bytes(x),
{
    U32::<BigEndian>::new(x).to_bytes()
}

/// The word that the first four bytes of `b` encode, least significant
/// byte first.
pub fn le32_from_bytes(b: &[u8]) -> (r: u32)
    requires
        b@.len() >= 4,
    ensures
        r == spec_le32(b@),
{
    zc_le32_decode([b[0], b[1], b[2], b[3]])
}

/// The word that the four bytes of `b` from `at` encode, least
/// significant byte first.
pub fn le32_at(b: &[u8], at: usize) -> (r: u32)
    requires
        at + 4 <= b@.len(),
    ensures
        r == spec_le32(b@.subrange(at as int, at + 4)),
{
    zc_le32_decode([b[at], b[at + 1], b[at + 2], b[at + 3]])
}

/// The word that the first four bytes of `b` encode, most significant byte
/// first.
pub fn be32_from_bytes(b: &[u8]) -> (r: u32)
    requires
        b@.len() >= 4,
    ensures
        r == spec_be32(b@),
{
    zc_be32_decode([b[0], b[1], b[2], b[3]])
}

/// The little-endian bytes of `x`.
pub fn le32_to_bytes(x: u32) -> (r: [u8; 4])
    ensures
        r@ == spec_le32_bytes(x),
        spec_le32(r@) == x,
{
    let r = zc_le32_encode(x);
    proof {
        lemma_le32_roundtrip(x);
    }
    r
}

/// The big-endian bytes of `x`.
pub fn be32_to_bytes(x: u32) -> (r: [u8; 4])
    ensures
        r@ == spec_be32_bytes(x),
        spec_be32(r@) == x,
{
    let r = zc_be32_encode(x);
    proof {
        lemma_be32_roundtrip(x);
    }
    r
}

/// Decoding the little-endian bytes of a word gives the word back.
pub proof fn lemma_le32_roundtrip(x: u32)
    ensures
        spec_le32(spec_le32_bytes(x)) == x,
{
    let b = spec_le32_bytes(x);
    assert(((x & 0xffu32) as u8) as int + 256 * (((x >> 8u32) & 0xffu32) as u8) as int
        + 65536 * (((x >> 16u32) & 0xffu32) as u8) as int + 16777216 * (((x >> 24u32) & 0xffu32) as u8) as int
        == x as int) by (bit_vector);
}

/// Decoding the big-endian bytes of a word gives the word back.
pub proof fn lemma_be32_roundtrip(x: u32)
    ensures
        spec_be32(spec_be32_bytes(x)) == x,
{
    assert(((x & 0xffu32) as u8) as int + 256 * (((x >> 8u32) & 0xffu32) as u8) as int
        + 65536 * (((x >> 16u32) & 0xffu32) as u8) as int + 16777216 * (((x >> 24u32) & 0xffu32) as u8) as int
        == x as int) by (bit_vector);
}

/// Encoding the word that four bytes decode to gives the bytes back.
pub proof fn lemma_le32_bytes_roundtrip(b: Seq<u8>)
    requires
        b.len() == 4,
    ensures
        0 <= spec_le32(b) <= u32::MAX,
        spec_le32_bytes(spec_le32(b) as u32) == b,
{
    let (b0, b1, b2, b3) = (b[0], b[1], b[2], b[3]);
    assert(0 <= b0 as int + 256 * b1 as int + 65536 * b2 as int + 16777216 * b3 as int <= 0xffff_ffff) by (nonlinear_arith)
        requires b0 <= 255, b1 <= 255, b2 <= 255, b3 <= 255;
    let x = (b0 as int + 256 * b1 as int + 65536 * b2 as int + 16777216 * b3 as int) as u32;
    assert(x as int == b0 as int + 256 * b1 as int + 65536 * b2 as int + 16777216 * b3 as int);
    assert(((x & 0xffu32) as u8) == b0 && (((x >> 8u32) & 0xffu32) as u8) == b1
        && (((x >> 16u32) & 0xffu32) as u8) == b2 && (((x >> 24u32) & 0xffu32) as u8) == b3) by (bit_vector)
        requires x as int == b0 as int + 256 * b1 as int + 65536 * b2 as int + 16777216 * b3 as int;
    assert(spec_le32_bytes(x) =~= b);
}

} // verus!
