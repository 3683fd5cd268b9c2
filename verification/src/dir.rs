//! Metadata pairs and directory handles, and the small callbacks that
//! commits and traversals of a pair's log use.

use vstd::prelude::*;
use crate::error::Error;
use crate::lfs_type::{LFS_FROM_NOOP, LFS_TYPE_DELETE, LFS_TYPE_SPLICE};
use crate::superblock::le_converted;
use crate::tag::{spec_mktag, spec_tag_id, spec_tag_isdelete, spec_tag_splice, spec_tag_type3, lfs_mktag, lfs_tag_id,
    lfs_tag_isdelete, lfs_tag_splice, lfs_tag_type1, lfs_tag_type3, lfs_tag_dsize};
use crate::types::{lfs_block_t, lfs_off_t};
use crate::util::{lfs_fromle32, lfs_tole32};

verus! {

/// A metadata pair as loaded: its blocks, revision, the offset and tag
/// where its log ends, its entry count, and its tail.
#[derive(Clone, Copy, Debug)]
pub struct LfsMdir {
    pub pair: [lfs_block_t; 2],
    pub rev: u32,
    pub off: u32,
    pub etag: u32,
    pub count: u16,
    pub erased: bool,
    pub split: bool,
    pub tail: [lfs_block_t; 2],
}

/// An open directory.
pub struct LfsDir {
    pub id: u16,
    pub type_: u8,
    pub m: LfsMdir,
    pub pos: lfs_off_t,
    pub head: [lfs_block_t; 2],
}

/// A forward CRC: the size and CRC of the bytes that follow a commit.
#[derive(Clone, Copy, Debug)]
pub struct LfsFcrc {
    pub size: u32,
    pub crc: u32,
}

/// Converts both words of a forward CRC from little-endian form.
pub fn lfs_fcrc_fromle32(fcrc: &mut LfsFcrc)
    ensures
        le_converted(old(fcrc).size, final(fcrc).size),
        le_converted(old(fcrc).crc, final(fcrc).crc),
{
    fcrc.size = lfs_fromle32(fcrc.size);
    fcrc.crc = lfs_fromle32(fcrc.crc);
}

/// Converts both words of a forward CRC to little-endian form.
pub fn lfs_fcrc_tole32(fcrc: &mut LfsFcrc)
    ensures
        le_converted(old(fcrc).size, final(fcrc).size),
        le_converted(old(fcrc).crc, final(fcrc).crc),
{
    fcrc.size = lfs_tole32(fcrc.size);
    fcrc.crc = lfs_tole32(fcrc.crc);
}

/// What a search for a name in a directory compares entries against.
pub struct LfsDirFindMatch<'a> {
    pub name: &'a [u8],
}

/// What a search for the parent of a metadata pair looks for.
#[derive(Clone, Copy, Debug)]
pub struct LfsFsParentMatch {
    pub pair: [lfs_block_t; 2],
}

/// The mask under which a later tag makes `filtertag` redundant: the full
/// type when the tag's unique bit is set, else the type's top bits.
pub open spec fn filter_mask(tag: u32) -> u32 {
    if tag & spec_mktag(0x100, 0, 0) != 0 {
        spec_mktag(0x7ff, 0x3ff, 0)
    } else {
        spec_mktag(0x700, 0x3ff, 0)
    }
}

/// A later tag makes the one being filtered redundant: it replaces it,
/// the filtered tag is itself a delete, or the tag deletes its id.
pub open spec fn filter_redundant(tag: u32, ft: u32) -> bool {
    ||| filter_mask(tag) & tag == filter_mask(tag) & ft
    ||| spec_tag_isdelete(ft)
    ||| spec_mktag(0x7ff, 0x3ff, 0) & tag == (spec_mktag(LFS_TYPE_DELETE, 0, 0) | (spec_mktag(0, 0x3ff, 0) & ft))
}

/// Runs one later tag of a log past `*filtertag`, the tag being kept or
/// dropped by a compaction: returns 1 and turns it into a no-op when the
/// later tag makes it redundant; otherwise shifts its id by the later tag's
/// splice (a create or delete at or before it) and returns 0.
pub fn lfs_dir_traverse_filter(filtertag: &mut u32, tag: u32, buffer: &[u8]) -> (r: Result<i32, Error>)
    ensures
        filter_redundant(tag, *old(filtertag)) ==> r == Ok::<i32, Error>(1) && *final(filtertag) == spec_mktag(
            LFS_FROM_NOOP,
            0,
            0,
        ),
        !filter_redundant(tag, *old(filtertag)) ==> r == Ok::<i32, Error>(0) && *final(filtertag) == (if (tag
            >> 20u32) & 0x700u32 == LFS_TYPE_SPLICE && spec_tag_id(tag) <= spec_tag_id(*old(filtertag)) {
            old(filtertag).wrapping_add(spec_mktag(0, spec_tag_splice(tag) as u32, 0))
        } else {
            *old(filtertag)
        }),
{
    let ft = *filtertag;
    let mask = if (tag & lfs_mktag(0x100, 0, 0)) != 0 {
        lfs_mktag(0x7ff, 0x3ff, 0)
    } else {
        lfs_mktag(0x700, 0x3ff, 0)
    };
    if (mask & tag) == (mask & ft) || lfs_tag_isdelete(ft) || (lfs_mktag(0x7ff, 0x3ff, 0) & tag) == (lfs_mktag(
        LFS_TYPE_DELETE,
        0,
        0,
    ) | (lfs_mktag(0, 0x3ff, 0) & ft)) {
        *filtertag = lfs_mktag(LFS_FROM_NOOP, 0, 0);
        return Ok(1);
    }
    if lfs_tag_type1(tag) as u32 == LFS_TYPE_SPLICE && lfs_tag_id(tag) <= lfs_tag_id(ft) {
        let sp = lfs_tag_splice(tag);
        *filtertag = ft.wrapping_add(lfs_mktag(0, sp as u32, 0));
    }
    Ok(0)
}

/// Adds the on-disk size of `tag` to `*size`, the running size of a
/// commit.
pub fn lfs_dir_commit_size(size: &mut u32, tag: u32, buffer: &[u8]) -> (r: Result<i32, Error>)
    requires
        *old(size) + 4 + 0x3ff <= u32::MAX,
    ensures
        r == Ok::<i32, Error>(0),
        *final(size) == *old(size) + 4 + (if spec_tag_isdelete(tag) { 0 } else { crate::tag::spec_tag_size(tag) as int }),
{
    let d = lfs_tag_dsize(tag);
    *size = *size + d;
    Ok(0)
}

/// Whether a metadata pair is due to move for wear leveling: with
/// `block_cycles` set, each time its revision count reaches a multiple of
/// `(block_cycles + 1) | 1`.
pub fn lfs_dir_needsrelocation(block_cycles: i32, dir: &LfsMdir) -> (r: bool)
    ensures
        r == (block_cycles > 0 && (dir.rev.wrapping_add(1)) % (((block_cycles + 1) as u32) | 1u32) == 0),
{
    if block_cycles <= 0 {
        return false;
    }
    let w = (block_cycles as u32) + 1;
    let modulus = w | 1;
    assert(modulus >= 1) by (bit_vector)
        requires modulus == w | 1u32;
    dir.rev.wrapping_add(1) % modulus == 0
}

/// What a test traversal records: the types of the first eight tags it
/// meets and the first byte of each one's data.
#[derive(Clone, Copy, Debug)]
pub struct TraverseTestOut {
    pub call_count: u32,
    pub tags: [u16; 8],
    pub first_bytes: [u8; 8],
}

/// Records `tag` in `out`, while fewer than eight have been recorded.
pub fn lfs_dir_traverse_test_cb(out: &mut TraverseTestOut, tag: u32, buffer: &[u8]) -> (r: Result<i32, Error>)
    ensures
        r == Ok::<i32, Error>(0),
        old(out).call_count >= 8 ==> *final(out) == *old(out),
        old(out).call_count < 8 ==> {
            let i = old(out).call_count as int;
            &&& final(out).call_count == old(out).call_count + 1
            &&& final(out).tags@ == old(out).tags@.update(i, spec_tag_type3(tag) as u16)
            &&& final(out).first_bytes@ == old(out).first_bytes@.update(i, if buffer@.len() == 0 { 0u8 } else { buffer@[0] })
        },
{
    if out.call_count >= 8 {
        return Ok(0);
    }
    let i = out.call_count as usize;
    out.tags[i] = lfs_tag_type3(tag);
    out.first_bytes[i] = if buffer.len() == 0 {
        0
    } else {
        buffer[0]
    };
    out.call_count = out.call_count + 1;
    Ok(0)
}

} // verus!
