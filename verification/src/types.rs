//! Type definitions and limits of the on-disk format.

#![allow(non_camel_case_types)]

use vstd::prelude::*;

verus! {

/// Unsigned size.
pub type lfs_size_t = u32;
/// Unsigned offset.
pub type lfs_off_t = u32;
/// Signed offset.
pub type lfs_soff_t = i32;
/// Block index.
pub type lfs_block_t = u32;
/// Metadata tag.
pub type lfs_tag_t = u32;
/// Signed tag.
pub type lfs_stag_t = i32;

/// Max name length in bytes.
pub const LFS_NAME_MAX: usize = 255;
/// Max file size in bytes.
pub const LFS_FILE_MAX: i64 = 2_147_483_647;
/// Max custom attribute size in bytes.
pub const LFS_ATTR_MAX: usize = 1022;

/// Library version.
pub const LFS_VERSION: u32 = 0x0002_000b;
pub const LFS_VERSION_MAJOR: u32 = 0x0002;
pub const LFS_VERSION_MINOR: u32 = 0x000b;

/// On-disk version.
pub const LFS_DISK_VERSION: u32 = 0x0002_0001;
pub const LFS_DISK_VERSION_MAJOR: u32 = 0x0002;
pub const LFS_DISK_VERSION_MINOR: u32 = 0x0001;

/// The null block address.
pub const LFS_BLOCK_NULL: lfs_block_t = 0xffff_ffff;
/// The block address that marks inline file data.
pub const LFS_BLOCK_INLINE: lfs_block_t = 0xffff_fffe;

} // verus!
