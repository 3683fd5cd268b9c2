//! Metadata tags: a 32-bit word made of a valid bit, an 11-bit type, a
//! 10-bit id and a 10-bit size.

#![allow(non_camel_case_types)]

use vstd::prelude::*;
use crate::types::{lfs_tag_t, lfs_size_t, lfs_block_t, lfs_off_t};

verus! {

/// The type field (11 bits) of a tag.
pub open spec fn spec_tag_type3(t: u32) -> u32 {
    (t >> 20u32) & 0x7ffu32
}

/// The id field (10 bits) of a tag.
pub open spec fn spec_tag_id(t: u32) -> u32 {
    (t >> 10u32) & 0x3ffu32
}

/// The size field (10 bits) of a tag.
pub open spec fn spec_tag_size(t: u32) -> u32 {
    t & 0x3ffu32
}

/// A tag whose size field is all ones marks a deletion.
pub open spec fn spec_tag_isdelete(t: u32) -> bool {
    t & 0x3ffu32 == 0x3ffu32
}

/// The tag made of a type, an id and a size.
pub open spec fn spec_mktag(type_: u32, id: u32, size: u32) -> u32 {
    (type_ << 20u32) | (id << 10u32) | size
}

/// Builds a tag from a type, an id and a size.
pub fn lfs_mktag(type_: u32, id: u32, size: u32) -> (r: lfs_tag_t)
    ensures
        r == spec_mktag(type_, id, size),
        type_ <= 0xfff && id <= 0x3ff && size <= 0x3ff ==> spec_tag_size(r) == size
            && spec_tag_id(r) == id && spec_tag_type3(r) == type_ & 0x7ff,
{
    proof {
        lemma_mktag_fields(type_, id, size);
    }
    (type_ << 20) | (id << 10) | size
}

/// Builds a tag when `cond` holds, and the no-op tag otherwise.
pub fn lfs_mktag_if(cond: bool, type_: u32, id: u32, size: u32) -> (r: lfs_tag_t)
    ensures
        r == (if cond { spec_mktag(type_, id, size) } else { spec_mktag(crate::lfs_type::LFS_FROM_NOOP, 0, 0) }),
{
    if cond {
        lfs_mktag(type_, id, size)
    } else {
        lfs_mktag(crate::lfs_type::LFS_FROM_NOOP, 0, 0)
    }
}

/// The bit identities behind the tag field accessors.
proof fn lemma_tag_bits(tag: u32)
    ensures
        (((tag as i32) << 22i32) >> 22i32 == -1i32) <==> (tag & 0x3ffu32 == 0x3ffu32),
        (((tag & 0x7000_0000u32) >> 20u32) as u16) as u32 == (tag >> 20u32) & 0x700u32,
        (((tag & 0x7800_0000u32) >> 20u32) as u16) as u32 == (tag >> 20u32) & 0x780u32,
        (((tag & 0x7ff0_0000u32) >> 20u32) as u16) as u32 == (tag >> 20u32) & 0x7ffu32,
        (((tag & 0x0ff0_0000u32) >> 20u32) as u8) as u32 == (tag >> 20u32) & 0xffu32,
        ((((tag & 0x0ff0_0000u32) >> 20u32) as u8) as i8) == ((((tag >> 20u32) & 0xffu32) as u8) as i8),
        (((tag & 0x000f_fc00u32) >> 10u32) as u16) as u32 == (tag >> 10u32) & 0x3ffu32,
        tag & 0x3ffu32 <= 0x3ffu32,
        (tag >> 10u32) & 0x3ffu32 <= 0x3ffu32,
        ((((tag >> 20u32) & 0xffu32) as u8) as i8) as int == (if (tag >> 20u32) & 0xffu32 < 0x80u32 {
            ((tag >> 20u32) & 0xffu32) as int
        } else {
            ((tag >> 20u32) & 0xffu32) as int - 0x100
        }),
{
    assert(((((tag as i32) << 22i32) >> 22i32 == -1i32) <==> (tag & 0x3ffu32 == 0x3ffu32)) && (((tag & 0x7000_0000u32)
        >> 20u32) as u16) as u32 == (tag >> 20u32) & 0x700u32 && (((tag & 0x7800_0000u32) >> 20u32) as u16) as u32 == (tag
        >> 20u32) & 0x780u32 && (((tag & 0x7ff0_0000u32) >> 20u32) as u16) as u32 == (tag >> 20u32) & 0x7ffu32 && (((tag
        & 0x0ff0_0000u32) >> 20u32) as u8) as u32 == (tag >> 20u32) & 0xffu32 && ((((tag & 0x0ff0_0000u32) >> 20u32)
        as u8) as i8) == ((((tag >> 20u32) & 0xffu32) as u8) as i8) && (((tag & 0x000f_fc00u32) >> 10u32) as u16) as u32
        == (tag >> 10u32) & 0x3ffu32 && tag & 0x3ffu32 <= 0x3ffu32 && (tag >> 10u32) & 0x3ffu32 <= 0x3ffu32 && ((((tag >> 20u32) & 0xffu32) as u8) as i8) as int
        == (if (tag >> 20u32) & 0xffu32 < 0x80u32 { ((tag >> 20u32) & 0xffu32) as int } else { ((tag >> 20u32)
        & 0xffu32) as int - 0x100 })) by (bit_vector);
}

/// A tag is valid when its top bit is clear.
pub fn lfs_tag_isvalid(tag: lfs_tag_t) -> (r: bool)
    ensures
        r <==> tag & 0x8000_0000u32 == 0,
{
    (tag & 0x8000_0000) == 0
}

/// Whether the tag marks a deletion (its size field is all ones).
pub fn lfs_tag_isdelete(tag: lfs_tag_t) -> (r: bool)
    ensures
        r <==> spec_tag_isdelete(tag),
{
    let s = (tag as i32) << 22;
    let r = (s >> 22) == -1;
    proof {
        lemma_tag_bits(tag);
    }
    r
}

/// The three top bits of the type.
pub fn lfs_tag_type1(tag: lfs_tag_t) -> (r: u16)
    ensures
        r == (tag >> 20u32) & 0x700u32,
{
    let r = ((tag & 0x7000_0000) >> 20) as u16;
    proof {
        lemma_tag_bits(tag);
    }
    r
}

/// The four top bits of the type.
pub fn lfs_tag_type2(tag: lfs_tag_t) -> (r: u16)
    ensures
        r == (tag >> 20u32) & 0x780u32,
{
    let r = ((tag & 0x7800_0000) >> 20) as u16;
    proof {
        lemma_tag_bits(tag);
    }
    r
}

/// The full 11-bit type.
pub fn lfs_tag_type3(tag: lfs_tag_t) -> (r: u16)
    ensures
        r == spec_tag_type3(tag),
{
    let r = ((tag & 0x7ff0_0000) >> 20) as u16;
    proof {
        lemma_tag_bits(tag);
    }
    r
}

/// The low eight bits of the type.
pub fn lfs_tag_chunk(tag: lfs_tag_t) -> (r: u8)
    ensures
        r == (tag >> 20u32) & 0xffu32,
{
    let r = ((tag & 0x0ff0_0000) >> 20) as u8;
    proof {
        lemma_tag_bits(tag);
    }
    r
}

/// The chunk of a tag read as a signed id delta.
pub open spec fn spec_tag_splice(t: u32) -> i8 {
    (((t >> 20u32) & 0xffu32) as u8) as i8
}

/// The chunk read as a signed id delta.
pub fn lfs_tag_splice(tag: lfs_tag_t) -> (r: i8)
    ensures
        r == spec_tag_splice(tag),
        r as int == (if (tag >> 20u32) & 0xffu32 < 0x80 { ((tag >> 20u32) & 0xffu32) as int }
            else { ((tag >> 20u32) & 0xffu32) as int - 0x100 }),
{
    let c = lfs_tag_chunk(tag);
    let r = c as i8;
    proof {
        lemma_tag_bits(tag);
    }
    r
}

/// The 10-bit id.
pub fn lfs_tag_id(tag: lfs_tag_t) -> (r: u16)
    ensures
        r == spec_tag_id(tag),
        r <= 0x3ff,
{
    let r = ((tag & 0x000f_fc00) >> 10) as u16;
    proof {
        lemma_tag_bits(tag);
    }
    r
}

/// The 10-bit size.
pub fn lfs_tag_size(tag: lfs_tag_t) -> (r: lfs_size_t)
    ensures
        r == spec_tag_size(tag),
{
    tag & 0x0000_03ff
}

/// Bytes the tag takes on disk: the tag word and its data (none for a
/// deletion).
pub fn lfs_tag_dsize(tag: lfs_tag_t) -> (r: lfs_size_t)
    ensures
        r == 4 + (if spec_tag_isdelete(tag) { 0 } else { spec_tag_size(tag) as int }),
        4 <= r <= 4 + 0x3ff,
{
    let size = if lfs_tag_isdelete(tag) {
        let t1 = tag.wrapping_add(1);
        proof {
            assert(t1 == (if tag == 0xffff_ffffu32 { 0u32 } else { (tag + 1) as u32 }));
            assert(tag & 0x3ffu32 == 0x3ffu32 ==> t1 & 0x3ffu32 == 0u32) by (bit_vector)
                requires t1 == (if tag == 0xffff_ffffu32 { 0u32 } else { (tag + 1) as u32 });
        }
        lfs_tag_size(t1)
    } else {
        lfs_tag_size(tag)
    };
    proof {
        lemma_tag_bits(tag);
    }
    4 + size
}

pub(crate) proof fn lemma_mktag_fields(type_: u32, id: u32, size: u32)
    ensures
        type_ <= 0xfff && id <= 0x3ff && size <= 0x3ff ==> spec_tag_size(spec_mktag(type_, id, size)) == size
            && spec_tag_id(spec_mktag(type_, id, size)) == id
            && spec_tag_type3(spec_mktag(type_, id, size)) == type_ & 0x7ff,
{
    assert(type_ <= 0xfffu32 && id <= 0x3ffu32 && size <= 0x3ffu32 ==>
        ((((type_ << 20u32) | (id << 10u32) | size) & 0x3ffu32) == size
        && ((((type_ << 20u32) | (id << 10u32) | size) >> 10u32) & 0x3ffu32) == id
        && ((((type_ << 20u32) | (id << 10u32) | size) >> 20u32) & 0x7ffu32) == type_ & 0x7ffu32))
        by (bit_vector);
}

/// An attribute to commit: a tag and the bytes it carries.
pub struct lfs_mattr<'a> {
    pub tag: lfs_tag_t,
    pub buffer: &'a [u8],
}

/// A location on disk: a block and an offset in it.
#[derive(Clone, Copy, Debug, PartialEq, Eq, Structural)]
pub struct lfs_diskoff {
    pub block: lfs_block_t,
    pub off: lfs_off_t,
}

} // verus!
