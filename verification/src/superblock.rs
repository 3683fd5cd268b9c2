//! The superblock: the on-disk format version and the geometry and
//! limits a filesystem was formatted with.

use vstd::prelude::*;
use crate::util::{lfs_fromle32, lfs_tole32, spec_swap32};

verus! {

/// The superblock's fields.
#[derive(Clone, Copy, Debug)]
pub struct LfsSuperblock {
    pub version: u32,
    pub block_size: u32,
    pub block_count: u32,
    pub name_max: u32,
    pub file_max: u32,
    pub attr_max: u32,
}

/// Each word is kept or has its bytes swapped.
pub open spec fn le_converted(a: u32, b: u32) -> bool {
    b == a || b == spec_swap32(a)
}

/// Converts every word of the superblock from little-endian form.
pub fn lfs_superblock_fromle32(sb: &mut LfsSuperblock)
    ensures
        le_converted(old(sb).version, final(sb).version),
        le_converted(old(sb).block_size, final(sb).block_size),
        le_converted(old(sb).block_count, final(sb).block_count),
        le_converted(old(sb).name_max, final(sb).name_max),
        le_converted(old(sb).file_max, final(sb).file_max),
        le_converted(old(sb).attr_max, final(sb).attr_max),
{
    sb.version = lfs_fromle32(sb.version);
    sb.block_size = lfs_fromle32(sb.block_size);
    sb.block_count = lfs_fromle32(sb.block_count);
    sb.name_max = lfs_fromle32(sb.name_max);
    sb.file_max = lfs_fromle32(sb.file_max);
    sb.attr_max = lfs_fromle32(sb.attr_max);
}

/// Converts every word of the superblock to little-endian form.
pub fn lfs_superblock_tole32(sb: &mut LfsSuperblock)
    ensures
        le_converted(old(sb).version, final(sb).version),
        le_converted(old(sb).block_size, final(sb).block_size),
        le_converted(old(sb).block_count, final(sb).block_count),
        le_converted(old(sb).name_max, final(sb).name_max),
        le_converted(old(sb).file_max, final(sb).file_max),
        le_converted(old(sb).attr_max, final(sb).attr_max),
{
    sb.version = lfs_tole32(sb.version);
    sb.block_size = lfs_tole32(sb.block_size);
    sb.block_count = lfs_tole32(sb.block_count);
    sb.name_max = lfs_tole32(sb.name_max);
    sb.file_max = lfs_tole32(sb.file_max);
    sb.attr_max = lfs_tole32(sb.attr_max);
}

} // verus!
