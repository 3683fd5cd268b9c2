//! The filesystem state.

use vstd::prelude::*;
use crate::bd::{LfsCache, LfsConfig};
use crate::lfs_gstate::LfsGstate;
use crate::storage::Storage;

verus! {

/// The lookahead window of the block allocator: a bitmap of `size` blocks
/// from `start`, where a set bit marks a block in use. `next` is the next
/// position to try; `ckpoint` counts the blocks that may still be looked at
/// before the device is declared full.
pub struct LfsLookahead {
    pub start: u32,
    pub size: u32,
    pub next: u32,
    pub ckpoint: u32,
    pub buffer: Vec<u8>,
}

/// An entry of the list of open files and directories.
#[derive(Clone, Copy, Debug)]
pub struct LfsMlist {
    pub id: u16,
    pub type_: u8,
    pub m: crate::dir::LfsMdir,
}

/// The filesystem.
pub struct Lfs<S> {
    pub cfg: LfsConfig<S>,
    pub rcache: LfsCache,
    pub pcache: LfsCache,
    pub root: [u32; 2],
    pub mlist: Vec<LfsMlist>,
    pub seed: u32,
    pub gstate: LfsGstate,
    pub gdisk: LfsGstate,
    pub gdelta: LfsGstate,
    pub lookahead: LfsLookahead,
    pub block_count: u32,
    pub name_max: u32,
    pub file_max: u32,
    pub attr_max: u32,
    pub inline_max: u32,
}

impl<S: Storage> Lfs<S> {
    /// The caches fit the configuration and the device.
    pub open spec fn caches_wf(&self) -> bool {
        &&& self.cfg.wf()
        &&& self.block_count <= self.cfg.block_count
        &&& self.rcache.wf(self.cfg.cache_size)
        &&& self.pcache.wf(self.cfg.cache_size)
        &&& crate::bd::rcache_agrees(self.rcache, self.cfg.disk())
        &&& crate::bd::pcache_fits(self.pcache, self.cfg.disk())
        &&& self.pcache.off % self.cfg.prog_size == 0
    }
}

} // verus!
