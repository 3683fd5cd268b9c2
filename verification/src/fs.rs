//! Filesystem set-up and the global-state bookkeeping: initialisation
//! from a configuration, the list of open handles, cycle detection on the
//! list of metadata pairs, the pending superblock, orphan and move
//! markers, and the parts of mounting that check and adopt a superblock.

use vstd::prelude::*;
use crate::bd::{LfsCache, LfsConfig, lfs_cache_zero, zero_vec};
use crate::block_alloc::lfs_alloc_drop;
use crate::dir::LfsMdir;
use crate::error::Error;
use crate::lfs::{Lfs, LfsLookahead, LfsMlist};
use crate::lfs_gstate::{LfsGstateT, lfs_gstate_hasorphans, lfs_gstate_iszero, spec_gstate_iszero};
use crate::lfs_type::LFS_TYPE_DELETE;
use crate::storage::Storage;
use crate::superblock::LfsSuperblock;
use crate::tag::{spec_mktag, spec_tag_size, lfs_mktag, lfs_tag_isvalid, lfs_tag_size};
use crate::types::LFS_BLOCK_NULL;
use crate::util::{lfs_min, lfs_pair_issync, spec_aligndown};

verus! {

/// The name length limit when the configuration sets none.
pub const LFS_NAME_MAX_U32: u32 = 255;
/// The file size limit when the configuration sets none.
pub const LFS_FILE_MAX_U32: u32 = 2_147_483_647;
/// The attribute size limit when the configuration sets none.
pub const LFS_ATTR_MAX_U32: u32 = 1022;

/// A configuration that initialisation accepts.
pub open spec fn cfg_acceptable<S: Storage>(cfg: LfsConfig<S>) -> bool {
    &&& cfg.wf()
    &&& cfg.block_size >= 128
    &&& cfg.block_cycles != 0
    &&& (cfg.compact_thresh == 0 || cfg.compact_thresh >= cfg.block_size / 2)
    &&& (cfg.compact_thresh == u32::MAX || cfg.compact_thresh <= cfg.block_size)
    &&& (cfg.metadata_max == 0 || (cfg.metadata_max % cfg.read_size == 0 && cfg.metadata_max % cfg.prog_size == 0
        && cfg.block_size % cfg.metadata_max == 0))
    &&& 0 < cfg.lookahead_size <= 0x1fff_ffff
    &&& cfg.name_max <= LFS_NAME_MAX_U32
    &&& cfg.file_max <= LFS_FILE_MAX_U32
    &&& cfg.attr_max <= LFS_ATTR_MAX_U32
    &&& cfg.metadata_max <= cfg.block_size
    &&& (cfg.inline_max == u32::MAX || (cfg.inline_max <= cfg.cache_size && cfg.inline_max <= spec_limit(
        cfg.attr_max,
        LFS_ATTR_MAX_U32,
    ) && cfg.inline_max <= metadata_limit(cfg) / 8))
}

/// A configured limit, or the default when it is 0.
pub open spec fn spec_limit(configured: u32, default: u32) -> u32 {
    if configured == 0 {
        default
    } else {
        configured
    }
}

/// The size a metadata log may grow to.
pub open spec fn metadata_limit<S>(cfg: LfsConfig<S>) -> u32 {
    if cfg.metadata_max != 0 {
        cfg.metadata_max
    } else {
        cfg.block_size
    }
}

/// The inline file size limit: none when the configuration says -1, else
/// the configured one, or by default the least of the cache size, the
/// attribute limit and an eighth of a metadata log.
pub open spec fn spec_inline_max<S>(cfg: LfsConfig<S>) -> u32 {
    if cfg.inline_max == u32::MAX {
        0
    } else if cfg.inline_max == 0 {
        let a = spec_limit(cfg.attr_max, LFS_ATTR_MAX_U32);
        let m = metadata_limit(cfg) / 8;
        let am = if a < m { a } else { m };
        if cfg.cache_size < am { cfg.cache_size } else { am }
    } else {
        cfg.inline_max
    }
}

/// An empty cache of `n` bytes.
fn new_cache(n: u32) -> (c: LfsCache)
    ensures
        c.block == LFS_BLOCK_NULL,
        c.off == 0,
        c.size == 0,
        c.buffer@ == Seq::new(n as nat, |_i: int| 0xffu8),
{
    let mut c = LfsCache { block: 0, off: 0, size: 0, buffer: zero_vec(n) };
    lfs_cache_zero(&mut c);
    c
}

/// Sets up a filesystem over `cfg`: caches of the configured size, empty
/// and filled with `0xff`, a zeroed lookahead buffer, the size limits
/// (each one defaulted when the configuration gives 0), no root, no open
/// handles and a zero global state.
pub fn lfs_init<S: Storage>(cfg: LfsConfig<S>) -> (r: Result<Lfs<S>, Error>)
    requires
        cfg_acceptable(cfg),
    ensures
        r matches Ok(lfs) && {
            &&& lfs.cfg == cfg
            &&& lfs.block_count == cfg.block_count
            &&& lfs.rcache.block == LFS_BLOCK_NULL && lfs.rcache.off == 0 && lfs.rcache.size == 0
            &&& lfs.rcache.buffer@ == Seq::new(cfg.cache_size as nat, |_i: int| 0xffu8)
            &&& lfs.pcache.block == LFS_BLOCK_NULL && lfs.pcache.off == 0 && lfs.pcache.size == 0
            &&& lfs.pcache.buffer@ == Seq::new(cfg.cache_size as nat, |_i: int| 0xffu8)
            &&& lfs.lookahead.buffer@.len() == cfg.lookahead_size
            &&& lfs.lookahead.start == 0 && lfs.lookahead.size == 0 && lfs.lookahead.next == 0
                && lfs.lookahead.ckpoint == 0
            &&& lfs.name_max == spec_limit(cfg.name_max, LFS_NAME_MAX_U32)
            &&& lfs.file_max == spec_limit(cfg.file_max, LFS_FILE_MAX_U32)
            &&& lfs.attr_max == spec_limit(cfg.attr_max, LFS_ATTR_MAX_U32)
            &&& lfs.inline_max == spec_inline_max(cfg)
            &&& lfs.root == [LFS_BLOCK_NULL, LFS_BLOCK_NULL]
            &&& lfs.mlist@.len() == 0
            &&& lfs.seed == 0
            &&& spec_gstate_iszero(lfs.gstate) && spec_gstate_iszero(lfs.gdisk) && spec_gstate_iszero(lfs.gdelta)
            &&& lfs.caches_wf()
        },
{
    let rcache = new_cache(cfg.cache_size);
    let pcache = new_cache(cfg.cache_size);
    let lookahead = LfsLookahead { start: 0, size: 0, next: 0, ckpoint: 0, buffer: zero_vec(cfg.lookahead_size) };
    let name_max = if cfg.name_max == 0 { LFS_NAME_MAX_U32 } else { cfg.name_max };
    let file_max = if cfg.file_max == 0 { LFS_FILE_MAX_U32 } else { cfg.file_max };
    let attr_max = if cfg.attr_max == 0 { LFS_ATTR_MAX_U32 } else { cfg.attr_max };
    let inline_max = if cfg.inline_max == u32::MAX {
        0
    } else if cfg.inline_max == 0 {
        let m = if cfg.metadata_max != 0 { cfg.metadata_max } else { cfg.block_size };
        lfs_min(cfg.cache_size, lfs_min(attr_max, m / 8))
    } else {
        cfg.inline_max
    };
    let zero = LfsGstateT { tag: 0, pair: [0, 0] };
    let block_count = cfg.block_count;
    Ok(
        Lfs {
            cfg,
            rcache,
            pcache,
            root: [LFS_BLOCK_NULL, LFS_BLOCK_NULL],
            mlist: Vec::new(),
            seed: 0,
            gstate: zero,
            gdisk: zero,
            gdelta: zero,
            lookahead,
            block_count,
            name_max,
            file_max,
            attr_max,
            inline_max,
        },
    )
}

/// Releases what the filesystem holds. Its buffers are owned values, so
/// nothing is left to release by hand.
pub fn lfs_deinit<S: Storage>(lfs: &mut Lfs<S>) -> (r: Result<(), Error>)
    ensures
        r is Ok,
        *final(lfs) == *old(lfs),
{
    Ok(())
}

/// Unmounts the filesystem.
pub fn lfs_unmount_<S: Storage>(lfs: &mut Lfs<S>) -> (r: Result<(), Error>)
    ensures
        r is Ok,
        *final(lfs) == *old(lfs),
{
    lfs_deinit(lfs)
}

/// Unmounts the filesystem.
pub fn lfs_unmount<S: Storage>(lfs: &mut Lfs<S>) -> (r: Result<(), Error>)
    ensures
        r is Ok,
        *final(lfs) == *old(lfs),
{
    lfs_unmount_(lfs)
}

/// Adds an open handle at the head of the list of open handles.
pub fn lfs_mlist_append<S>(lfs: &mut Lfs<S>, mlist: LfsMlist)
    ensures
        final(lfs).mlist@ == seq![mlist] + old(lfs).mlist@,
        *final(lfs) == (Lfs { mlist: final(lfs).mlist, ..*old(lfs) }),
{
    lfs.mlist.insert(0, mlist);
    proof {
        assert(lfs.mlist@ =~= seq![mlist] + old(lfs).mlist@);
    }
}

/// Whether two metadata pairs as loaded are the same.
fn mdir_eq(a: &LfsMdir, b: &LfsMdir) -> (r: bool)
    ensures
        r == (*a == *b),
{
    let r = a.pair[0] == b.pair[0] && a.pair[1] == b.pair[1] && a.rev == b.rev && a.off == b.off && a.etag == b.etag
        && a.count == b.count && a.erased == b.erased && a.split == b.split && a.tail[0] == b.tail[0] && a.tail[1]
        == b.tail[1];
    proof {
        if r {
            assert(a.pair =~= b.pair);
            assert(a.tail =~= b.tail);
        }
    }
    r
}

/// Whether an entry of the list stands for the handle `(id, type_, m)`.
pub open spec fn mlist_is(e: LfsMlist, id: u16, type_: u8, m: LfsMdir) -> bool {
    e.id == id && e.type_ == type_ && e.m == m
}

/// Removes the first entry of the list of open handles that stands for
/// the handle `(id, type_, m)`, if there is one.
pub fn lfs_mlist_remove<S>(lfs: &mut Lfs<S>, id: u16, type_: u8, m: &LfsMdir)
    ensures
        final(lfs).cfg == old(lfs).cfg,
        final(lfs).gstate == old(lfs).gstate,
        final(lfs).block_count == old(lfs).block_count,
        (forall|k: int| 0 <= k < old(lfs).mlist@.len() ==> !mlist_is(#[trigger] old(lfs).mlist@[k], id, type_, *m))
            ==> final(lfs).mlist@ == old(lfs).mlist@,
        forall|k: int|
            0 <= k < old(lfs).mlist@.len() && mlist_is(#[trigger] old(lfs).mlist@[k], id, type_, *m) && (forall|j: int|
                0 <= j < k ==> !mlist_is(#[trigger] old(lfs).mlist@[j], id, type_, *m)) ==> final(lfs).mlist@
                == old(lfs).mlist@.remove(k),
{
    let n = lfs.mlist.len();
    let mut i: usize = 0;
    while i < n
        invariant
            i <= n,
            n == lfs.mlist@.len(),
            *lfs == *old(lfs),
            forall|j: int| 0 <= j < i ==> !mlist_is(#[trigger] lfs.mlist@[j], id, type_, *m),
        decreases n - i,
    {
        let e = lfs.mlist[i];
        if e.id == id && e.type_ == type_ && mdir_eq(&e.m, m) {
            lfs.mlist.remove(i);
            return;
        }
        i = i + 1;
    }
}

/// Whether the list of open handles holds an entry that stands for the
/// handle `(id, type_, m)`.
pub fn lfs_mlist_isopen<S>(lfs: &Lfs<S>, id: u16, type_: u8, m: &LfsMdir) -> (r: bool)
    ensures
        r <==> exists|k: int| 0 <= k < lfs.mlist@.len() && mlist_is(#[trigger] lfs.mlist@[k], id, type_, *m),
{
    let n = lfs.mlist.len();
    let mut i: usize = 0;
    while i < n
        invariant
            i <= n,
            n == lfs.mlist@.len(),
            forall|j: int| 0 <= j < i ==> !mlist_is(#[trigger] lfs.mlist@[j], id, type_, *m),
        decreases n - i,
    {
        let e = lfs.mlist[i];
        if e.id == id && e.type_ == type_ && mdir_eq(&e.m, m) {
            return true;
        }
        i = i + 1;
    }
    false
}

/// Brent's cycle detection over the list of metadata pairs: a tortoise
/// pair that jumps to the current position whenever `i` reaches
/// `period`, which then doubles.
#[derive(Clone, Copy, Debug)]
pub struct LfsTortoise {
    pub pair: [u32; 2],
    pub i: u32,
    pub period: u32,
}

/// One step of the cycle detection: the tail of `dir` meeting the
/// tortoise means the list loops, which is corruption.
pub fn lfs_tortoise_detectcycles(dir: &LfsMdir, tortoise: &mut LfsTortoise) -> (r: Result<(), Error>)
    requires
        old(tortoise).i == old(tortoise).period ==> old(tortoise).period <= 0x7fff_ffff,
        old(tortoise).i != old(tortoise).period ==> old(tortoise).i < u32::MAX,
    ensures
        crate::util::spec_pair_issync(dir.tail, old(tortoise).pair) ==> r == Err::<(), Error>(Error::Corrupt)
            && *final(tortoise) == *old(tortoise),
        !crate::util::spec_pair_issync(dir.tail, old(tortoise).pair) ==> r is Ok && (if old(tortoise).i == old(
            tortoise,
        ).period {
            final(tortoise).pair == dir.tail && final(tortoise).i == 1 && final(tortoise).period == 2 * old(
                tortoise,
            ).period
        } else {
            final(tortoise).pair == old(tortoise).pair && final(tortoise).i == old(tortoise).i + 1
                && final(tortoise).period == old(tortoise).period
        }),
        r is Ok && 1 <= old(tortoise).i <= old(tortoise).period ==> 1 <= final(tortoise).i <= final(tortoise).period,
{
    if lfs_pair_issync(&dir.tail, &tortoise.pair) {
        return Err(Error::Corrupt);
    }
    if tortoise.i == tortoise.period {
        tortoise.pair = dir.tail;
        tortoise.i = 0;
        tortoise.period = tortoise.period * 2;
    }
    tortoise.i = tortoise.i + 1;
    Ok(())
}

/// Everything but the tracked global state is unchanged.
pub open spec fn same_but_gstate<S>(a: Lfs<S>, b: Lfs<S>) -> bool {
    &&& a.cfg == b.cfg
    &&& a.rcache == b.rcache
    &&& a.pcache == b.pcache
    &&& a.root == b.root
    &&& a.mlist == b.mlist
    &&& a.seed == b.seed
    &&& a.gdisk == b.gdisk
    &&& a.gdelta == b.gdelta
    &&& a.lookahead == b.lookahead
    &&& a.block_count == b.block_count
    &&& a.name_max == b.name_max
    &&& a.file_max == b.file_max
    &&& a.attr_max == b.attr_max
    &&& a.inline_max == b.inline_max
}

/// Records in the global state whether the superblock must be rewritten
/// (bit 9 of the tag).
pub fn lfs_fs_prepsuperblock<S>(lfs: &mut Lfs<S>, needssuperblock: bool)
    ensures
        final(lfs).gstate.tag == (old(lfs).gstate.tag & !spec_mktag(0, 0, 0x200)) | (if needssuperblock {
            0x200u32
        } else {
            0u32
        }),
        final(lfs).gstate.pair == old(lfs).gstate.pair,
        same_but_gstate(*final(lfs), *old(lfs)),
{
    let b: u32 = if needssuperblock { 1 } else { 0 };
    assert((b << 9u32) == (if b == 1 { 0x200u32 } else { 0u32 })) by (bit_vector)
        requires b == 0 || b == 1;
    lfs.gstate.tag = (lfs.gstate.tag & !lfs_mktag(0, 0, 0x200)) | (b << 9);
}

/// The global-state tag after `orphans` is added to its orphan count:
/// the count is the size field, and the top bit says whether it is not
/// zero.
pub open spec fn orphans_added(tag: u32, orphans: i8) -> u32 {
    let t = tag.wrapping_add(orphans as u32);
    (t & !spec_mktag(0x800, 0, 0)) | (if spec_tag_size(t) != 0 { 0x8000_0000u32 } else { 0u32 })
}

/// Adds `orphans` (which may be negative) to the count of orphans the
/// global state records.
pub fn lfs_fs_preporphans<S>(lfs: &mut Lfs<S>, orphans: i8) -> (r: Result<(), Error>)
    requires
        spec_tag_size(old(lfs).gstate.tag) > 0 || orphans >= 0,
        spec_tag_size(old(lfs).gstate.tag) < 0x1ff || orphans <= 0,
    ensures
        r is Ok,
        final(lfs).gstate.tag == orphans_added(old(lfs).gstate.tag, orphans),
        final(lfs).gstate.pair == old(lfs).gstate.pair,
        same_but_gstate(*final(lfs), *old(lfs)),
{
    lfs.gstate.tag = lfs.gstate.tag.wrapping_add(orphans as u32);
    let has: u32 = if lfs_gstate_hasorphans(&lfs.gstate) { 1 } else { 0 };
    assert((has << 31u32) == (if has == 1 { 0x8000_0000u32 } else { 0u32 })) by (bit_vector)
        requires has == 0 || has == 1;
    lfs.gstate.tag = (lfs.gstate.tag & !lfs_mktag(0x800, 0, 0)) | (has << 31);
    Ok(())
}

/// Whether the global state records orphans.
pub fn lfs_fs_hasorphans<S>(lfs: &Lfs<S>) -> (r: bool)
    ensures
        r <==> spec_tag_size(lfs.gstate.tag) != 0,
{
    lfs_gstate_hasorphans(&lfs.gstate)
}

/// Records in the global state a pending move of entry `id` out of
/// `pair`; id `0x3ff` clears it.
pub fn lfs_fs_prepmove<S>(lfs: &mut Lfs<S>, id: u16, pair: Option<&[u32; 2]>)
    requires
        id <= 0x3ff,
    ensures
        final(lfs).gstate.tag == (old(lfs).gstate.tag & !spec_mktag(0x7ff, 0x3ff, 0)) | (if id != 0x3ff {
            spec_mktag(LFS_TYPE_DELETE, id as u32, 0)
        } else {
            0u32
        }),
        final(lfs).gstate.pair == (match pair {
            Some(p) => if id != 0x3ff { *p } else { [0u32, 0u32] },
            None => [0u32, 0u32],
        }),
        same_but_gstate(*final(lfs), *old(lfs)),
{
    let m = if id != 0x3ff { lfs_mktag(LFS_TYPE_DELETE, id as u32, 0) } else { 0 };
    lfs.gstate.tag = (lfs.gstate.tag & !lfs_mktag(0x7ff, 0x3ff, 0)) | m;
    match pair {
        Some(p) => {
            if id != 0x3ff {
                lfs.gstate.pair = [p[0], p[1]];
                proof {
                    assert(lfs.gstate.pair =~= *p);
                }
            } else {
                lfs.gstate.pair = [0, 0];
            }
        },
        None => {
            lfs.gstate.pair = [0, 0];
        },
    }
}

/// The format version a superblock gives: major in the high half,
/// minor in the low half.
pub open spec fn sb_major(sb: LfsSuperblock) -> u32 {
    (sb.version >> 16u32) & 0xffffu32
}

pub open spec fn sb_minor(sb: LfsSuperblock) -> u32 {
    sb.version & 0xffffu32
}

/// A superblock that a mount accepts: a version this code reads, limits
/// within the configured ones, and the configured geometry.
pub open spec fn sb_acceptable<S>(lfs: Lfs<S>, sb: LfsSuperblock) -> bool {
    &&& sb_major(sb) == crate::types::LFS_DISK_VERSION_MAJOR
    &&& sb_minor(sb) <= crate::types::LFS_DISK_VERSION_MINOR
    &&& (sb.name_max == 0 || sb.name_max <= lfs.name_max)
    &&& (sb.file_max == 0 || sb.file_max <= lfs.file_max)
    &&& (sb.attr_max == 0 || sb.attr_max <= lfs.attr_max)
    &&& (lfs.cfg.block_count == 0 || sb.block_count == lfs.cfg.block_count)
    &&& sb.block_size == lfs.cfg.block_size
}

/// Checks a superblock found while mounting and adopts what it says: an
/// older minor version asks for the superblock to be rewritten, nonzero
/// limits replace the configured ones (the inline limit follows the
/// attribute limit), and the block count is taken. A version this code
/// cannot read, a limit beyond the configured one or another geometry is
/// refused.
pub fn lfs_mount_superblock<S>(lfs: &mut Lfs<S>, sb: &LfsSuperblock) -> (r: Result<(), Error>)
    ensures
        r is Ok <==> sb_acceptable(*old(lfs), *sb),
        r is Err ==> r == Err::<(), Error>(Error::Invalid),
        final(lfs).cfg == old(lfs).cfg,
        r is Ok ==> {
            &&& final(lfs).name_max == spec_limit(sb.name_max, old(lfs).name_max)
            &&& final(lfs).file_max == spec_limit(sb.file_max, old(lfs).file_max)
            &&& final(lfs).attr_max == spec_limit(sb.attr_max, old(lfs).attr_max)
            &&& final(lfs).inline_max == (if sb.attr_max != 0 && sb.attr_max < old(lfs).inline_max {
                sb.attr_max
            } else {
                old(lfs).inline_max
            })
            &&& final(lfs).block_count == sb.block_count
            &&& final(lfs).gstate.tag == (old(lfs).gstate.tag & !spec_mktag(0, 0, 0x200)) | (if sb_minor(*sb)
                < crate::types::LFS_DISK_VERSION_MINOR {
                0x200u32
            } else {
                0u32
            })
            &&& final(lfs).gstate.pair == old(lfs).gstate.pair
            &&& *final(lfs) == (Lfs {
                name_max: final(lfs).name_max,
                file_max: final(lfs).file_max,
                attr_max: final(lfs).attr_max,
                inline_max: final(lfs).inline_max,
                block_count: final(lfs).block_count,
                gstate: final(lfs).gstate,
                ..*old(lfs)
            })
        },
{
    let major = (sb.version >> 16) & 0xffff;
    let minor = sb.version & 0xffff;
    if major != crate::types::LFS_DISK_VERSION_MAJOR || minor > crate::types::LFS_DISK_VERSION_MINOR {
        return Err(Error::Invalid);
    }
    let needssuperblock = minor < crate::types::LFS_DISK_VERSION_MINOR;
    lfs_fs_prepsuperblock(lfs, needssuperblock);
    if sb.name_max != 0 {
        if sb.name_max > lfs.name_max {
            return Err(Error::Invalid);
        }
        lfs.name_max = sb.name_max;
    }
    if sb.file_max != 0 {
        if sb.file_max > lfs.file_max {
            return Err(Error::Invalid);
        }
        lfs.file_max = sb.file_max;
    }
    if sb.attr_max != 0 {
        if sb.attr_max > lfs.attr_max {
            return Err(Error::Invalid);
        }
        lfs.attr_max = sb.attr_max;
        lfs.inline_max = lfs_min(lfs.inline_max, lfs.attr_max);
    }
    if lfs.cfg.block_count != 0 && sb.block_count != lfs.cfg.block_count {
        return Err(Error::Invalid);
    }
    lfs.block_count = sb.block_count;
    if sb.block_size != lfs.cfg.block_size {
        return Err(Error::Invalid);
    }
    Ok(())
}

/// The last step of a mount: a global state that is not zero gets the
/// valid bit of its tag counted in, the state is what is on disk, the
/// allocator starts at the seed and its window is dropped.
pub fn lfs_mount_finish<S: Storage>(lfs: &mut Lfs<S>)
    requires
        old(lfs).block_count > 0,
    ensures
        final(lfs).gstate.tag == (if spec_gstate_iszero(old(lfs).gstate) {
            old(lfs).gstate.tag
        } else {
            old(lfs).gstate.tag.wrapping_add(if old(lfs).gstate.tag & 0x8000_0000u32 == 0 { 0u32 } else { 1u32 })
        }),
        final(lfs).gstate.pair == old(lfs).gstate.pair,
        final(lfs).gdisk == final(lfs).gstate,
        final(lfs).lookahead.start == old(lfs).seed % old(lfs).block_count,
        final(lfs).lookahead.size == 0,
        final(lfs).lookahead.next == 0,
        final(lfs).lookahead.ckpoint == old(lfs).block_count,
        final(lfs).lookahead.buffer@ == old(lfs).lookahead.buffer@,
        final(lfs).block_count == old(lfs).block_count,
        final(lfs).cfg == old(lfs).cfg,
        *final(lfs) == (Lfs { gstate: final(lfs).gstate, gdisk: final(lfs).gdisk, lookahead: final(lfs).lookahead, ..*old(
            lfs) }),
{
    if !lfs_gstate_iszero(&lfs.gstate) {
        let add: u32 = if lfs_tag_isvalid(lfs.gstate.tag) { 0 } else { 1 };
        lfs.gstate.tag = lfs.gstate.tag.wrapping_add(add);
    }
    lfs.gdisk = lfs.gstate;
    lfs.lookahead.start = lfs.seed % lfs.block_count;
    lfs_alloc_drop(lfs);
}

} // verus!
