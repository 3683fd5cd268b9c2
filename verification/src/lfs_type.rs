//! File types, tag types and open flags.

#![allow(non_camel_case_types)]

use vstd::prelude::*;

verus! {

/// Kind of a directory entry.
#[derive(Debug, Clone, Copy, PartialEq, Eq, Structural)]
pub enum LsfType {
    NONE,
    REG,
    DIR,
}

impl LsfType {
    /// The on-disk code of the kind.
    pub fn code(&self) -> (r: u8)
        ensures
            r == (match self {
                LsfType::NONE => 0u8,
                LsfType::REG => 1u8,
                LsfType::DIR => 2u8,
            }),
    {
        match self {
            LsfType::NONE => 0,
            LsfType::REG => 1,
            LsfType::DIR => 2,
        }
    }
}

pub const LFS_TYPE3_REG: u32 = 0x001;
pub const LFS_TYPE3_DIR: u32 = 0x002;
pub const LFS_TYPE_SPLICE: u32 = 0x400;
pub const LFS_TYPE_NAME: u32 = 0x000;
pub const LFS_TYPE_STRUCT: u32 = 0x200;
pub const LFS_TYPE_USERATTR: u32 = 0x300;
pub const LFS_TYPE_FROM: u32 = 0x100;
pub const LFS_TYPE_TAIL: u32 = 0x600;
pub const LFS_TYPE_GLOBALS: u32 = 0x700;
pub const LFS_TYPE_CRC: u32 = 0x500;
pub const LFS_TYPE_CREATE: u32 = 0x401;
pub const LFS_TYPE_DELETE: u32 = 0x4ff;
pub const LFS_TYPE_SUPERBLOCK: u32 = 0x0ff;
pub const LFS_TYPE_DIRSTRUCT: u32 = 0x200;
pub const LFS_TYPE_CTZSTRUCT: u32 = 0x202;
pub const LFS_TYPE_INLINESTRUCT: u32 = 0x201;
pub const LFS_TYPE_SOFTTAIL: u32 = 0x600;
pub const LFS_TYPE_HARDTAIL: u32 = 0x601;
pub const LFS_TYPE_MOVESTATE: u32 = 0x7ff;
pub const LFS_TYPE_CCRC: u32 = 0x500;
pub const LFS_TYPE_FCRC: u32 = 0x5ff;
pub const LFS_FROM_NOOP: u32 = 0x000;
pub const LFS_FROM_MOVE: u32 = 0x101;
pub const LFS_FROM_USERATTRS: u32 = 0x102;

/// Open flags.
pub const LFS_O_RDONLY: u32 = 0x1;
pub const LFS_O_WRONLY: u32 = 0x2;
pub const LFS_O_RDWR: u32 = 0x3;
pub const LFS_O_CREAT: u32 = 0x100;
pub const LFS_O_EXCL: u32 = 0x200;
pub const LFS_O_TRUNC: u32 = 0x400;
pub const LFS_O_APPEND: u32 = 0x800;
/// Internal file state flags.
pub const LFS_F_DIRTY: u32 = 0x010000;
pub const LFS_F_WRITING: u32 = 0x020000;
pub const LFS_F_READING: u32 = 0x040000;
pub const LFS_F_ERRED: u32 = 0x080000;
pub const LFS_F_INLINE: u32 = 0x100000;

/// Seek origins.
pub const LFS_SEEK_SET: i32 = 0;
pub const LFS_SEEK_CUR: i32 = 1;
pub const LFS_SEEK_END: i32 = 2;

} // verus!
