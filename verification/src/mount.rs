//! Mounting: the metadata pairs are walked from the root along their
//! tails; the superblock found on the way is checked and adopted, and the
//! global-state deltas of all pairs are XORed together.

use vstd::prelude::*;
use crate::bd::{rcache_agrees, same_params};
use crate::ctz::{lfs_read_ready, same_but_cfg_rcache};
use crate::dir::LfsMdir;
use crate::dir_get::{getslice_result, lfs_dir_get};
use crate::endian::{spec_le32, le32_at};
use crate::error::Error;
use crate::fetch::{fetch_frame, lfs_dir_fetch};
use crate::fs::{LfsTortoise, lfs_tortoise_detectcycles, lfs_init, lfs_mount_superblock, lfs_mount_finish, cfg_acceptable,
    sb_acceptable, sb_minor, spec_limit, spec_inline_max, LFS_NAME_MAX_U32, LFS_FILE_MAX_U32, LFS_ATTR_MAX_U32};
use crate::lfs::Lfs;
use crate::lfs_gstate::{LfsGstateT, spec_gstate_xor, spec_gstate_iszero, lfs_gstate_xor};
use crate::lfs_type::{LFS_TYPE_MOVESTATE, LFS_TYPE_SUPERBLOCK, LFS_TYPE_INLINESTRUCT};
use crate::storage::Storage;
use crate::superblock::LfsSuperblock;
use crate::tag::{spec_mktag, spec_tag_size, lfs_mktag, lfs_tag_size};
use crate::traverse::{walk_loaded, lemma_walk_push};
use crate::types::{LFS_BLOCK_NULL, LFS_DISK_VERSION_MINOR};
use crate::util::lfs_pair_isnull;
use crate::bd::LfsConfig;

verus! {

/// The `n` bytes a search reads when it finds `tag` at `off`: the tag's
/// data, zero-filled past its end.
pub open spec fn found_bytes<S: Storage>(lfs: Lfs<S>, dir: LfsMdir, tag: u32, off: u32, n: int) -> Seq<u8> {
    let m = if (spec_tag_size(tag) as int) < n { spec_tag_size(tag) as int } else { n };
    Seq::new(n as nat, |k: int| if k < m { lfs.cfg.disk()[dir.pair[0] as int][off + 4 + k] } else { 0u8 })
}

/// A global-state delta stored little-endian: its tag, then its pair.
pub open spec fn gstate_of_bytes(b: Seq<u8>) -> LfsGstateT {
    LfsGstateT {
        tag: spec_le32(b.subrange(0, 4)) as u32,
        pair: [spec_le32(b.subrange(4, 8)) as u32, spec_le32(b.subrange(8, 12)) as u32],
    }
}

/// `g` with the global-state delta that `dir` holds XORed in, if it holds
/// one.
pub open spec fn dir_gstate<S: Storage>(lfs: Lfs<S>, dir: LfsMdir, g: LfsGstateT) -> LfsGstateT {
    match getslice_result(lfs, dir, spec_mktag(0x7ff, 0, 0), spec_mktag(LFS_TYPE_MOVESTATE, 0, 12)) {
        None => g,
        Some((tag, off, _gdiff)) => spec_gstate_xor(g, gstate_of_bytes(found_bytes(lfs, dir, tag, off, 12))),
    }
}

/// XORs the global-state delta that the pair `dir` holds, if any, into
/// `gstate`.
pub fn lfs_dir_getgstate<S: Storage>(lfs: &mut Lfs<S>, dir: &LfsMdir, gstate: &mut LfsGstateT) -> (r: Result<(), Error>)
    requires
        lfs_read_ready(*old(lfs)),
        old(lfs).rcache.wf(old(lfs).cfg.cache_size),
        rcache_agrees(old(lfs).rcache, old(lfs).cfg.disk()),
        dir.off <= old(lfs).cfg.block_size,
    ensures
        lfs_read_ready(*final(lfs)),
        same_params(final(lfs).cfg, old(lfs).cfg),
        final(lfs).cfg.disk() == old(lfs).cfg.disk(),
        same_but_cfg_rcache(*final(lfs), *old(lfs)),
        final(lfs).rcache.wf(old(lfs).cfg.cache_size),
        rcache_agrees(final(lfs).rcache, old(lfs).cfg.disk()),
        r matches Err(e) ==> crate::storage::device_error(e),
        r is Ok ==> *final(gstate) == dir_gstate(*old(lfs), *dir, *old(gstate)),
{
    let mut buf: Vec<u8> = vec![0u8, 0u8, 0u8, 0u8, 0u8, 0u8, 0u8, 0u8, 0u8, 0u8, 0u8, 0u8];
    let gmask = lfs_mktag(0x7ff, 0, 0);
    let gtag = lfs_mktag(LFS_TYPE_MOVESTATE, 0, 12);
    let ghost l0 = *lfs;
    let res = lfs_dir_get(lfs, dir, gmask, gtag, buf.as_mut_slice());
    match res {
        Err(e) => {
            if e == Error::NoEntry {
                return Ok(());
            }
            return Err(e);
        },
        Ok(_) => {},
    }
    proof {
        let (t0, off, gd) = getslice_result(l0, *dir, gmask, gtag)->Some_0;
        let d = found_bytes(l0, *dir, t0, off, 12);
        let n = if spec_tag_size(t0) < 12 { spec_tag_size(t0) as int } else { 12int };
        let blk = l0.cfg.disk()[dir.pair[0] as int];
        assert forall|k: int| 0 <= k < 12 implies buf@[k] == d[k] by {
            if k < n {
                assert(buf@.subrange(0, n)[k] == buf@[k]);
                assert(blk.subrange(off + 4, off + 4 + n)[k] == blk[off + 4 + k]);
            }
        }
        assert(buf@ =~= d);
        assert(buf@.subrange(0, 4) =~= d.subrange(0, 4));
        assert(buf@.subrange(4, 8) =~= d.subrange(4, 8));
        assert(buf@.subrange(8, 12) =~= d.subrange(8, 12));
    }
    let delta = LfsGstateT { tag: le32_at(buf.as_slice(), 0), pair: [le32_at(buf.as_slice(), 4), le32_at(buf.as_slice(), 8)] };
    lfs_gstate_xor(gstate, &delta);
    Ok(())
}

/// The name a superblock entry holds: "littlefs".
pub open spec fn magic_bytes() -> Seq<u8> {
    seq![0x6cu8, 0x69u8, 0x74u8, 0x74u8, 0x6cu8, 0x65u8, 0x66u8, 0x73u8]
}

/// The search for the superblock entry: its type, id 0.
pub open spec fn sb_mask() -> u32 {
    spec_mktag(0x7ff, 0x3ff, 0)
}

/// The pair `dir` holds a superblock entry: the newest superblock tag of
/// id 0 has eight bytes of data, the name "littlefs".
pub open spec fn sb_named<S: Storage>(lfs: Lfs<S>, dir: LfsMdir) -> bool {
    getslice_result(lfs, dir, sb_mask(), spec_mktag(LFS_TYPE_SUPERBLOCK, 0, 8)) matches Some((t, off, gdiff)) && spec_tag_size(
        t.wrapping_add(gdiff),
    ) == 8 && found_bytes(lfs, dir, t, off, 8) == magic_bytes()
}

/// A superblock stored little-endian, field by field.
pub open spec fn sb_of_bytes(b: Seq<u8>) -> LfsSuperblock {
    LfsSuperblock {
        version: spec_le32(b.subrange(0, 4)) as u32,
        block_size: spec_le32(b.subrange(4, 8)) as u32,
        block_count: spec_le32(b.subrange(8, 12)) as u32,
        name_max: spec_le32(b.subrange(12, 16)) as u32,
        file_max: spec_le32(b.subrange(16, 20)) as u32,
        attr_max: spec_le32(b.subrange(20, 24)) as u32,
    }
}

/// The superblock that the inline struct of id 0 in `dir` holds, if it
/// holds one.
pub open spec fn sb_struct<S: Storage>(lfs: Lfs<S>, dir: LfsMdir) -> Option<LfsSuperblock> {
    match getslice_result(lfs, dir, sb_mask(), spec_mktag(LFS_TYPE_INLINESTRUCT, 0, 24)) {
        None => None,
        Some((t, off, _gdiff)) => Some(sb_of_bytes(found_bytes(lfs, dir, t, off, 24))),
    }
}

/// Whether the pair `dir` holds the superblock entry.
fn mount_sb_named<S: Storage>(lfs: &mut Lfs<S>, dir: &LfsMdir) -> (r: Result<bool, Error>)
    requires
        lfs_read_ready(*old(lfs)),
        old(lfs).rcache.wf(old(lfs).cfg.cache_size),
        rcache_agrees(old(lfs).rcache, old(lfs).cfg.disk()),
        dir.off <= old(lfs).cfg.block_size,
    ensures
        lfs_read_ready(*final(lfs)),
        same_params(final(lfs).cfg, old(lfs).cfg),
        final(lfs).cfg.disk() == old(lfs).cfg.disk(),
        same_but_cfg_rcache(*final(lfs), *old(lfs)),
        final(lfs).rcache.wf(old(lfs).cfg.cache_size),
        rcache_agrees(final(lfs).rcache, old(lfs).cfg.disk()),
        r matches Err(e) ==> crate::storage::device_error(e),
        r matches Ok(b) ==> b == sb_named(*old(lfs), *dir),
{
    let mut buf: Vec<u8> = vec![0u8, 0u8, 0u8, 0u8, 0u8, 0u8, 0u8, 0u8];
    let gmask = lfs_mktag(0x7ff, 0x3ff, 0);
    let gtag = lfs_mktag(LFS_TYPE_SUPERBLOCK, 0, 8);
    let ghost l0 = *lfs;
    let res = lfs_dir_get(lfs, dir, gmask, gtag, buf.as_mut_slice());
    let tag = match res {
        Err(e) => {
            if e == Error::NoEntry {
                return Ok(false);
            }
            return Err(e);
        },
        Ok(t) => t,
    };
    proof {
        let (t0, off, gd) = getslice_result(l0, *dir, gmask, gtag)->Some_0;
        let d = found_bytes(l0, *dir, t0, off, 8);
        let n = if spec_tag_size(t0) < 8 { spec_tag_size(t0) as int } else { 8int };
        let blk = l0.cfg.disk()[dir.pair[0] as int];
        assert forall|k: int| 0 <= k < 8 implies buf@[k] == d[k] by {
            if k < n {
                assert(buf@.subrange(0, n)[k] == buf@[k]);
                assert(blk.subrange(off + 4, off + 4 + n)[k] == blk[off + 4 + k]);
            }
        }
        assert(buf@ =~= d);
    }
    let same = buf[0] == 0x6c && buf[1] == 0x69 && buf[2] == 0x74 && buf[3] == 0x74 && buf[4] == 0x6c && buf[5] == 0x65
        && buf[6] == 0x66 && buf[7] == 0x73;
    proof {
        if same {
            assert(buf@ =~= magic_bytes());
        } else {
            assert(buf@ != magic_bytes()) by {
                if buf@ == magic_bytes() {
                    assert(buf@[0] == magic_bytes()[0]);
                }
            }
        }
    }
    Ok(lfs_tag_size(tag) == 8 && same)
}

/// Reads the superblock that the inline struct of id 0 in `dir` holds.
fn mount_sb_struct<S: Storage>(lfs: &mut Lfs<S>, dir: &LfsMdir) -> (r: Result<LfsSuperblock, Error>)
    requires
        lfs_read_ready(*old(lfs)),
        old(lfs).rcache.wf(old(lfs).cfg.cache_size),
        rcache_agrees(old(lfs).rcache, old(lfs).cfg.disk()),
        dir.off <= old(lfs).cfg.block_size,
    ensures
        lfs_read_ready(*final(lfs)),
        same_params(final(lfs).cfg, old(lfs).cfg),
        final(lfs).cfg.disk() == old(lfs).cfg.disk(),
        same_but_cfg_rcache(*final(lfs), *old(lfs)),
        final(lfs).rcache.wf(old(lfs).cfg.cache_size),
        rcache_agrees(final(lfs).rcache, old(lfs).cfg.disk()),
        r matches Err(e) ==> e == Error::NoEntry || crate::storage::device_error(e),
        r == Err::<LfsSuperblock, Error>(Error::NoEntry) ==> sb_struct(*old(lfs), *dir) is None,
        sb_struct(*old(lfs), *dir) is None ==> r is Err,
        r matches Ok(sb) ==> sb_struct(*old(lfs), *dir) == Some(sb),
{
    let mut buf: Vec<u8> = vec![0u8, 0u8, 0u8, 0u8, 0u8, 0u8, 0u8, 0u8, 0u8, 0u8, 0u8, 0u8, 0u8, 0u8, 0u8, 0u8, 0u8, 0u8,
        0u8, 0u8, 0u8, 0u8, 0u8, 0u8];
    let gmask = lfs_mktag(0x7ff, 0x3ff, 0);
    let gtag = lfs_mktag(LFS_TYPE_INLINESTRUCT, 0, 24);
    let ghost l0 = *lfs;
    let res = lfs_dir_get(lfs, dir, gmask, gtag, buf.as_mut_slice());
    match res {
        Err(e) => {
            return Err(e);
        },
        Ok(_) => {},
    }
    proof {
        let (t0, off, gd) = getslice_result(l0, *dir, gmask, gtag)->Some_0;
        let d = found_bytes(l0, *dir, t0, off, 24);
        let n = if spec_tag_size(t0) < 24 { spec_tag_size(t0) as int } else { 24int };
        let blk = l0.cfg.disk()[dir.pair[0] as int];
        assert forall|k: int| 0 <= k < 24 implies buf@[k] == d[k] by {
            if k < n {
                assert(buf@.subrange(0, n)[k] == buf@[k]);
                assert(blk.subrange(off + 4, off + 4 + n)[k] == blk[off + 4 + k]);
            }
        }
        assert(buf@ =~= d);
        assert(buf@.subrange(0, 4) =~= d.subrange(0, 4));
        assert(buf@.subrange(4, 8) =~= d.subrange(4, 8));
        assert(buf@.subrange(8, 12) =~= d.subrange(8, 12));
        assert(buf@.subrange(12, 16) =~= d.subrange(12, 16));
        assert(buf@.subrange(16, 20) =~= d.subrange(16, 20));
        assert(buf@.subrange(20, 24) =~= d.subrange(20, 24));
    }
    Ok(
        LfsSuperblock {
            version: le32_at(buf.as_slice(), 0),
            block_size: le32_at(buf.as_slice(), 4),
            block_count: le32_at(buf.as_slice(), 8),
            name_max: le32_at(buf.as_slice(), 12),
            file_max: le32_at(buf.as_slice(), 16),
            attr_max: le32_at(buf.as_slice(), 20),
        },
    )
}

/// The state a superblock that passes its checks leaves: the pair that
/// holds it is the root, its nonzero limits replace the configured ones,
/// its block count is taken, and an older minor version asks for the
/// superblock to be rewritten.
pub open spec fn sb_adopt<S: Storage>(l: Lfs<S>, sb: LfsSuperblock, pair: [u32; 2]) -> Lfs<S> {
    Lfs {
        root: pair,
        name_max: spec_limit(sb.name_max, l.name_max),
        file_max: spec_limit(sb.file_max, l.file_max),
        attr_max: spec_limit(sb.attr_max, l.attr_max),
        inline_max: if sb.attr_max != 0 && sb.attr_max < l.inline_max { sb.attr_max } else { l.inline_max },
        block_count: sb.block_count,
        gstate: LfsGstateT {
            tag: (l.gstate.tag & !spec_mktag(0, 0, 0x200)) | (if sb_minor(sb) < LFS_DISK_VERSION_MINOR {
                0x200u32
            } else {
                0u32
            }),
            pair: l.gstate.pair,
        },
        ..l
    }
}

/// What mounting does with one loaded pair: a superblock entry there is
/// read, checked and adopted (a missing superblock struct is `NoEntry`, a
/// superblock this filesystem cannot use is `Invalid`), and the pair's
/// global-state delta is XORed in.
pub open spec fn mount_step<S: Storage>(l: Lfs<S>, d: LfsMdir) -> Result<Lfs<S>, Error> {
    if sb_named(l, d) {
        match sb_struct(l, d) {
            None => Err(Error::NoEntry),
            Some(sb) => if sb_acceptable(l, sb) {
                let a = sb_adopt(l, sb, d.pair);
                Ok(Lfs { gstate: dir_gstate(l, d, a.gstate), ..a })
            } else {
                Err(Error::Invalid)
            },
        }
    } else {
        Ok(Lfs { gstate: dir_gstate(l, d, l.gstate), ..l })
    }
}

/// Mounting over the first `n` loaded pairs.
pub open spec fn mount_walk<S: Storage>(l: Lfs<S>, dirs: Seq<LfsMdir>, n: nat) -> Result<Lfs<S>, Error>
    decreases n,
{
    if n == 0 {
        Ok(l)
    } else {
        match mount_walk(l, dirs, (n - 1) as nat) {
            Err(e) => Err(e),
            Ok(w) => mount_step(w, dirs[n - 1]),
        }
    }
}

/// A global state as mounting leaves it: one that is not zero counts the
/// valid bit of its tag in.
pub open spec fn finish_gstate(g: LfsGstateT) -> LfsGstateT {
    if spec_gstate_iszero(g) {
        g
    } else {
        LfsGstateT { tag: g.tag.wrapping_add(if g.tag & 0x8000_0000u32 == 0 { 0u32 } else { 1u32 }), pair: g.pair }
    }
}

/// `l` is a filesystem freshly set up over `cfg`, before anything is read.
pub open spec fn fresh_state<S: Storage>(l: Lfs<S>, cfg: LfsConfig<S>) -> bool {
    &&& l.cfg == cfg
    &&& l.block_count == cfg.block_count
    &&& l.root == [LFS_BLOCK_NULL, LFS_BLOCK_NULL]
    &&& l.name_max == spec_limit(cfg.name_max, LFS_NAME_MAX_U32)
    &&& l.file_max == spec_limit(cfg.file_max, LFS_FILE_MAX_U32)
    &&& l.attr_max == spec_limit(cfg.attr_max, LFS_ATTR_MAX_U32)
    &&& l.inline_max == spec_inline_max(cfg)
    &&& spec_gstate_iszero(l.gstate)
    &&& spec_gstate_iszero(l.gdisk)
}

/// Mounting over `dirs` leads from a fresh state to `w`.
pub open spec fn mount_reaches<S: Storage>(cfg: LfsConfig<S>, dirs: Seq<LfsMdir>, w: Result<Lfs<S>, Error>) -> bool {
    exists|l1: Lfs<S>| #[trigger] fresh_state(l1, cfg) && mount_walk(l1, dirs, dirs.len()) == w
}

/// Mounting one more pair goes on from the walk so far.
proof fn lemma_mount_push<S: Storage>(l: Lfs<S>, dirs: Seq<LfsMdir>, d: LfsMdir)
    ensures
        mount_walk(l, dirs.push(d), dirs.len() + 1) == (match mount_walk(l, dirs, dirs.len()) {
            Err(e) => Err(e),
            Ok(w) => mount_step(w, d),
        }),
{
    lemma_mount_prefix(l, dirs, dirs.push(d), dirs.len());
}

/// Mounting over the first `n` pairs does not depend on the pairs after
/// them.
proof fn lemma_mount_prefix<S: Storage>(l: Lfs<S>, a: Seq<LfsMdir>, b: Seq<LfsMdir>, n: nat)
    requires
        n <= a.len(),
        n <= b.len(),
        forall|i: int| 0 <= i < n ==> a[i] == b[i],
    ensures
        mount_walk(l, a, n) == mount_walk(l, b, n),
    decreases n,
{
    if n > 0 {
        lemma_mount_prefix(l, a, b, (n - 1) as nat);
    }
}

/// Mounts the filesystem on the device of `cfg`: the metadata pairs are
/// loaded from the root `[0, 1]` along their tails; the superblock entry
/// found on the way is checked and adopted, and the global-state deltas
/// of all pairs are XORed into the global state, which is then also what
/// is on disk. A tail list that loops is `Corrupt`.
#[verifier::rlimit(60)]
pub fn lfs_mount_<S: Storage>(cfg: LfsConfig<S>) -> (r: Result<Lfs<S>, Error>)
    requires
        cfg_acceptable(cfg),
        cfg.block_size <= 0x4000_0000,
    ensures
        r matches Err(e) ==> e == Error::Invalid || e == Error::NoEntry || crate::storage::device_error(e),
        r is Err && (r->Err_0 == Error::Invalid || r->Err_0 == Error::NoEntry) ==> exists|dirs: Seq<LfsMdir>|
            #![trigger walk_loaded(cfg.disk(), cfg.block_size, dirs)]
            walk_loaded(cfg.disk(), cfg.block_size, dirs) && mount_reaches(cfg, dirs, Err(r->Err_0)),
        r matches Ok(l) ==> {
            &&& l.cfg.disk() == cfg.disk()
            &&& same_params(l.cfg, cfg)
            &&& l.gdisk == l.gstate
            &&& exists|dirs: Seq<LfsMdir>, w: Lfs<S>|
                #![trigger walk_loaded(cfg.disk(), cfg.block_size, dirs), mount_reaches(cfg, dirs, Ok(w))]
                {
                    &&& dirs.len() > 0
                    &&& walk_loaded(cfg.disk(), cfg.block_size, dirs)
                    &&& (dirs.last().tail[0] == LFS_BLOCK_NULL || dirs.last().tail[1] == LFS_BLOCK_NULL)
                    &&& mount_reaches(cfg, dirs, Ok(w))
                    &&& l.root == w.root
                    &&& l.name_max == w.name_max && l.file_max == w.file_max && l.attr_max == w.attr_max
                    &&& l.inline_max == w.inline_max
                    &&& l.block_count == w.block_count
                    &&& l.gstate == finish_gstate(w.gstate)
                }
        },
{
    let mut lfs = match lfs_init(cfg) {
        Ok(l) => l,
        Err(e) => {
            return Err(e);
        },
    };
    let ghost l1 = lfs;
    if lfs.block_count == 0 {
        return Err(Error::Corrupt);
    }
    proof {
        assert(fresh_state(l1, cfg));
    }
    let mut dir = LfsMdir {
        pair: [0, 0],
        rev: 0,
        off: 0,
        etag: 0,
        count: 0,
        erased: false,
        split: false,
        tail: [0, 1],
    };
    let mut tortoise = LfsTortoise { pair: [LFS_BLOCK_NULL, LFS_BLOCK_NULL], i: 1, period: 1 };
    let ghost mut dirs: Seq<LfsMdir> = seq![];
    let ghost mut w: Lfs<S> = l1;
    while !lfs_pair_isnull(&dir.tail)
        invariant
            fresh_state(l1, cfg),
            l1.cfg == cfg,
            cfg.block_size <= 0x4000_0000,
            lfs_read_ready(lfs),
            lfs.rcache.wf(cfg.cache_size),
            rcache_agrees(lfs.rcache, cfg.disk()),
            lfs.cfg.disk() == cfg.disk(),
            same_params(lfs.cfg, cfg),
            w.cfg == cfg,
            lfs == (Lfs { cfg: lfs.cfg, rcache: lfs.rcache, seed: lfs.seed, ..w }),
            1 <= tortoise.i <= tortoise.period,
            walk_loaded(cfg.disk(), cfg.block_size, dirs),
            dirs.len() == 0 ==> dir.tail == [0u32, 1u32],
            dirs.len() > 0 ==> dir == dirs.last(),
            mount_walk(l1, dirs, dirs.len()) == Ok::<Lfs<S>, Error>(w),
        decreases (0x1_0000_0000 - tortoise.period) * 0x1_0000_0000 + (tortoise.period - tortoise.i),
    {
        if tortoise.i == tortoise.period && tortoise.period > 0x7fff_ffff {
            return Err(Error::Corrupt);
        }
        let ghost t0 = tortoise;
        let res = lfs_tortoise_detectcycles(&dir, &mut tortoise);
        match res {
            Err(_) => {
                return Err(Error::Corrupt);
            },
            Ok(()) => {},
        }
        proof {
            if t0.i == t0.period {
                assert((0x1_0000_0000 - 2 * t0.period) * 0x1_0000_0000 + (2 * t0.period - 1) < (0x1_0000_0000
                    - t0.period) * 0x1_0000_0000 + (t0.period - t0.i)) by (nonlinear_arith)
                    requires
                        1 <= t0.period <= 0x7fff_ffff,
                        t0.i == t0.period,
                ;
            }
        }
        let q = dir.tail;
        lfs_dir_fetch(&mut lfs, &mut dir, q)?;
        let ghost lf = lfs;
        proof {
            lemma_walk_push(l1, dirs, dir, q, false);
            lemma_mount_push(l1, dirs, dir);
            assert(getslice_result(lf, dir, sb_mask(), spec_mktag(LFS_TYPE_SUPERBLOCK, 0, 8)) == getslice_result(w, dir,
                sb_mask(), spec_mktag(LFS_TYPE_SUPERBLOCK, 0, 8)));
            assert(getslice_result(lf, dir, sb_mask(), spec_mktag(LFS_TYPE_INLINESTRUCT, 0, 24)) == getslice_result(w,
                dir, sb_mask(), spec_mktag(LFS_TYPE_INLINESTRUCT, 0, 24)));
            assert(getslice_result(lf, dir, spec_mktag(0x7ff, 0, 0), spec_mktag(LFS_TYPE_MOVESTATE, 0, 12))
                == getslice_result(w, dir, spec_mktag(0x7ff, 0, 0), spec_mktag(LFS_TYPE_MOVESTATE, 0, 12)));
            assert(sb_named(lf, dir) == sb_named(w, dir));
            assert(sb_struct(lf, dir) == sb_struct(w, dir));
        }
        let named = mount_sb_named(&mut lfs, &dir)?;
        let ghost nw: Lfs<S>;
        if named {
            let ghost ls = lfs;
            let sb = match mount_sb_struct(&mut lfs, &dir) {
                Ok(sb) => sb,
                Err(e) => {
                    proof {
                        if e == Error::NoEntry {
                            assert(mount_walk(l1, dirs.push(dir), dirs.len() + 1) == Err::<Lfs<S>, Error>(Error::NoEntry));
                            assert(fresh_state(l1, cfg) && mount_walk(l1, dirs.push(dir), dirs.push(dir).len()) == Err::<
                                Lfs<S>,
                                Error,
                            >(e));
                        }
                    }
                    return Err(e);
                },
            };
            lfs.root = dir.pair;
            let ghost lr = lfs;
            proof {
                assert(sb_acceptable(lr, sb) == sb_acceptable(w, sb));
            }
            match lfs_mount_superblock(&mut lfs, &sb) {
                Ok(()) => {},
                Err(e) => {
                    proof {
                        assert(mount_walk(l1, dirs.push(dir), dirs.len() + 1) == Err::<Lfs<S>, Error>(Error::Invalid));
                        assert(fresh_state(l1, cfg) && mount_walk(l1, dirs.push(dir), dirs.push(dir).len()) == Err::<
                            Lfs<S>,
                            Error,
                        >(e));
                    }
                    return Err(e);
                },
            }
            proof {
                nw = sb_adopt(w, sb, dir.pair);
                assert(lfs == (Lfs { cfg: lfs.cfg, rcache: lfs.rcache, seed: lfs.seed, ..nw }));
            }
        } else {
            proof {
                nw = w;
            }
        }
        let ghost lg = lfs;
        let mut g = lfs.gstate;
        lfs_dir_getgstate(&mut lfs, &dir, &mut g)?;
        lfs.gstate = g;
        proof {
            assert(dir_gstate(lg, dir, nw.gstate) == dir_gstate(w, dir, nw.gstate));
            w = Lfs { gstate: dir_gstate(w, dir, nw.gstate), ..nw };
            dirs = dirs.push(dir);
            assert(lfs == (Lfs { cfg: lfs.cfg, rcache: lfs.rcache, seed: lfs.seed, ..w }));
        }
    }
    let ghost wf = w;
    lfs_mount_finish(&mut lfs);
    proof {
        assert(dirs.len() > 0) by {
            if dirs.len() == 0 {
                assert(dir.tail == [0u32, 1u32]);
            }
        }
        assert(mount_reaches(cfg, dirs, Ok::<Lfs<S>, Error>(wf)));
    }
    Ok(lfs)
}

} // verus!
