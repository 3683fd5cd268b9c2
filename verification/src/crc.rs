//! CRC-32 (reflected polynomial 0xedb88320, no final xor), computed a
//! nibble at a time through a sixteen-entry table.

use vstd::prelude::*;

verus! {

/// One bit of CRC-32 shift-register division.
pub open spec fn crc_bit(c: u32, bit: u32) -> u32 {
    if (c ^ bit) & 1u32 == 1u32 {
        (c >> 1u32) ^ 0xedb8_8320u32
    } else {
        c >> 1u32
    }
}

/// The CRC register after one byte, its low bit first.
pub open spec fn crc_byte(c: u32, b: u8) -> u32 {
    let x = b as u32;
    crc_bit(crc_bit(crc_bit(crc_bit(crc_bit(crc_bit(crc_bit(crc_bit(c, x & 1u32),
        (x >> 1u32) & 1u32), (x >> 2u32) & 1u32), (x >> 3u32) & 1u32), (x >> 4u32) & 1u32),
        (x >> 5u32) & 1u32), (x >> 6u32) & 1u32), (x >> 7u32) & 1u32)
}

/// The CRC register after the bytes of `s`, starting from `c`.
pub open spec fn spec_crc(c: u32, s: Seq<u8>) -> u32
    decreases s.len(),
{
    if s.len() == 0 {
        c
    } else {
        crc_byte(spec_crc(c, s.drop_last()), s.last())
    }
}

spec fn crc_table(i: u32) -> u32 {
    if i == 0u32 { 0x00000000u32 } else
    if i == 1u32 { 0x1db71064u32 } else
    if i == 2u32 { 0x3b6e20c8u32 } else
    if i == 3u32 { 0x26d930acu32 } else
    if i == 4u32 { 0x76dc4190u32 } else
    if i == 5u32 { 0x6b6b51f4u32 } else
    if i == 6u32 { 0x4db26158u32 } else
    if i == 7u32 { 0x5005713cu32 } else
    if i == 8u32 { 0xedb88320u32 } else
    if i == 9u32 { 0xf00f9344u32 } else
    if i == 10u32 { 0xd6d6a3e8u32 } else
    if i == 11u32 { 0xcb61b38cu32 } else
    if i == 12u32 { 0x9b64c2b0u32 } else
    if i == 13u32 { 0x86d3d2d4u32 } else
    if i == 14u32 { 0xa00ae278u32 } else
    { 0xbdbdf21cu32 }
}

/// The register after four bits, through the table.
spec fn crc_nibble(c: u32, n: u32) -> u32 {
    (c >> 4u32) ^ crc_table((c ^ n) & 0xfu32)
}

proof fn lemma_crc_byte_by_nibbles(c: u32, b: u8)
    ensures
        crc_byte(c, b) == crc_nibble(crc_nibble(c, b as u32), (b >> 4u8) as u32),
{
    assert(crc_byte(c, b) == crc_nibble(crc_nibble(c, b as u32), (b >> 4u8) as u32)) by (bit_vector);
}

fn crc_table_entry(i: u32) -> (r: u32)
    requires
        i < 16,
    ensures
        r == crc_table(i),
{
    match i {
        0 => 0x00000000,
        1 => 0x1db71064,
        2 => 0x3b6e20c8,
        3 => 0x26d930ac,
        4 => 0x76dc4190,
        5 => 0x6b6b51f4,
        6 => 0x4db26158,
        7 => 0x5005713c,
        8 => 0xedb88320,
        9 => 0xf00f9344,
        10 => 0xd6d6a3e8,
        11 => 0xcb61b38c,
        12 => 0x9b64c2b0,
        13 => 0x86d3d2d4,
        14 => 0xa00ae278,
        _ => 0xbdbdf21c,
    }
}

/// Extends the CRC `crc` over the bytes of `buffer`.
pub fn lfs_crc(crc: u32, buffer: &[u8]) -> (r: u32)
    ensures
        r == spec_crc(crc, buffer@),
{
    let mut c = crc;
    let mut i: usize = 0;
    while i < buffer.len()
        invariant
            i <= buffer@.len(),
            c == spec_crc(crc, buffer@.subrange(0, i as int)),
        decreases buffer@.len() - i,
    {
        let byte = buffer[i];
        proof {
            lemma_crc_byte_by_nibbles(c, byte);
            assert(buffer@.subrange(0, i as int + 1).drop_last() =~= buffer@.subrange(0, i as int));
        }
        let idx = (c ^ (byte as u32)) & 0xf;
        assert(idx < 16) by (bit_vector) requires idx == (c ^ (byte as u32)) & 0xfu32;
        c = (c >> 4) ^ crc_table_entry(idx);
        let idx = (c ^ ((byte >> 4) as u32)) & 0xf;
        assert(idx < 16) by (bit_vector) requires idx == (c ^ ((byte >> 4u8) as u32)) & 0xfu32;
        c = (c >> 4) ^ crc_table_entry(idx);
        i = i + 1;
    }
    proof {
        assert(buffer@.subrange(0, buffer@.len() as int) =~= buffer@);
    }
    c
}

/// The CRC of a concatenation is the CRC of the second part started from
/// the CRC of the first: a CRC can be computed piece by piece.
pub proof fn lemma_crc_concat(c: u32, a: Seq<u8>, b: Seq<u8>)
    ensures
        spec_crc(c, a + b) == spec_crc(spec_crc(c, a), b),
    decreases b.len(),
{
    if b.len() == 0 {
        assert(a + b =~= a);
    } else {
        lemma_crc_concat(c, a, b.drop_last());
        assert((a + b).drop_last() =~= a + b.drop_last());
        assert((a + b).last() == b.last());
    }
}

} // verus!
