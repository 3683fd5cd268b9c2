//! Reading a metadata pair's log: the most recent tag that matches a
//! search, found by walking the log backwards from its end, with the ids
//! that later creates and deletes shifted.

use vstd::prelude::*;
use crate::bd::{LfsCache, lfs_bd_read, rcache_agrees, view_range, copy_bytes, zero_vec, same_params};
use crate::types::LFS_BLOCK_INLINE;
use crate::util::{lfs_min, lfs_aligndown, lfs_alignup, spec_aligndown};
use crate::ctz::{lfs_read_ready, same_but_cfg_rcache};
use crate::dir::LfsMdir;
use crate::endian::{spec_be32, be32_from_bytes};
use crate::error::Error;
use crate::lfs::Lfs;
use crate::lfs_gstate::lfs_gstate_hasmovehere;
use crate::lfs_type::{LFS_TYPE_SPLICE, LFS_TYPE_CREATE};
use crate::storage::Storage;
use crate::tag::{spec_mktag, spec_tag_id, spec_tag_size, spec_tag_isdelete, spec_tag_splice, lfs_mktag, lfs_tag_dsize,
    lfs_tag_id, lfs_tag_isdelete, lfs_tag_size, lfs_tag_type1, lfs_tag_splice};

verus! {

/// Bytes a tag takes on disk.
pub open spec fn spec_tag_dsize(t: u32) -> u32 {
    (4 + (if spec_tag_isdelete(t) { 0 } else { spec_tag_size(t) as int })) as u32
}

/// The id shift of a splice tag, as a tag word.
pub open spec fn splice_delta(t: u32) -> u32 {
    spec_mktag(0, spec_tag_splice(t) as u32, 0)
}

/// A splice met on the way back moves the searched id, or ends the search
/// when it is the create of that very id: the new shift, or `None`.
pub open spec fn getslice_splice(tag: u32, gmask: u32, gtag: u32, gdiff: u32) -> Option<u32> {
    let g = gtag.wrapping_sub(gdiff);
    if spec_tag_id(gmask) != 0 && (tag >> 20u32) & 0x700u32 == LFS_TYPE_SPLICE && spec_tag_id(tag) <= spec_tag_id(g) {
        if tag == (spec_mktag(LFS_TYPE_CREATE, 0, 0) | (spec_mktag(0, 0x3ff, 0) & g)) {
            None
        } else {
            Some(gdiff.wrapping_add(splice_delta(tag)))
        }
    } else {
        Some(gdiff)
    }
}

/// The walk back through the log of block `blk` from offset `off`, where
/// `ntag` is the tag just after: the matching tag, its offset and the id
/// shift at it, or `None` when nothing matches, a delete or the create of
/// the id is met first.
pub open spec fn getslice_walk(blk: Seq<u8>, off: u32, ntag: u32, gmask: u32, gtag: u32, gdiff: u32) -> Option<(u32, u32, u32)>
    decreases off,
{
    let ds = spec_tag_dsize(ntag);
    if (off as int) < 4 + ds || ds < 4 {
        None
    } else {
        let off2 = (off - ds) as u32;
        let tag = ntag;
        let ntag2 = ((spec_be32(blk.subrange(off2 as int, off2 + 4)) as u32) ^ tag) & 0x7fff_ffffu32;
        match getslice_splice(tag, gmask, gtag, gdiff) {
            None => None,
            Some(gdiff2) => {
                if gmask & tag == gmask & gtag.wrapping_sub(gdiff2) {
                    if spec_tag_isdelete(tag) {
                        None
                    } else {
                        Some((tag, off2, gdiff2))
                    }
                } else {
                    getslice_walk(blk, off2, ntag2, gmask, gtag, gdiff2)
                }
            },
        }
    }
}

/// The id shift a search starts with: a pending move out of this pair
/// hides its entry (`None`) and shifts the ids after it down by one.
pub open spec fn getslice_start(gdisk: crate::lfs_gstate::LfsGstateT, pair: [u32; 2], gmask: u32, gtag: u32) -> Option<u32> {
    let here = (gdisk.tag >> 20u32) & 0x700u32 != 0 && (gdisk.pair[0] == pair[0] || gdisk.pair[1] == pair[1]
        || gdisk.pair[0] == pair[1] || gdisk.pair[1] == pair[0]);
    if here && spec_tag_id(gmask) != 0 {
        if spec_tag_id(gdisk.tag) == spec_tag_id(gtag) {
            None
        } else if spec_tag_id(gdisk.tag) < spec_tag_id(gtag) {
            Some(0u32.wrapping_sub(spec_mktag(0, 1, 0)))
        } else {
            Some(0u32)
        }
    } else {
        Some(0u32)
    }
}

/// The result of a search of a metadata pair's log: the matching tag,
/// its offset and the id shift there.
pub open spec fn getslice_result<S: Storage>(lfs: Lfs<S>, dir: LfsMdir, gmask: u32, gtag: u32) -> Option<(u32, u32, u32)> {
    match getslice_start(lfs.gdisk, dir.pair, gmask, gtag) {
        None => None,
        Some(g0) => getslice_walk(lfs.cfg.disk()[dir.pair[0] as int], dir.off, dir.etag, gmask, gtag, g0),
    }
}

/// Finds the most recent tag of the pair `dir` that matches `gtag` under
/// `gmask` and reads `gsize` bytes of its data from offset `goff` into
/// `gbuffer`, zero-filling past the data's end. Returns the tag with its
/// id shifted by the creates and deletes since.
pub fn lfs_dir_getslice<S: Storage>(
    lfs: &mut Lfs<S>,
    dir: &LfsMdir,
    gmask: u32,
    gtag: u32,
    goff: u32,
    gbuffer: &mut [u8],
    gsize: u32,
) -> (r: Result<u32, Error>)
    requires
        lfs_read_ready(*old(lfs)),
        old(lfs).rcache.wf(old(lfs).cfg.cache_size),
        rcache_agrees(old(lfs).rcache, old(lfs).cfg.disk()),
        dir.off <= old(lfs).cfg.block_size,
        goff <= old(lfs).cfg.block_size,
        gsize <= old(gbuffer)@.len(),
    ensures
        lfs_read_ready(*final(lfs)),
        same_params(final(lfs).cfg, old(lfs).cfg),
        final(lfs).cfg.disk() == old(lfs).cfg.disk(),
        final(lfs).block_count == old(lfs).block_count,
        final(lfs).gdisk == old(lfs).gdisk,
        same_but_cfg_rcache(*final(lfs), *old(lfs)),
        final(lfs).rcache.wf(old(lfs).cfg.cache_size),
        rcache_agrees(final(lfs).rcache, old(lfs).cfg.disk()),
        final(gbuffer)@.len() == old(gbuffer)@.len(),
        getslice_result(*old(lfs), *dir, gmask, gtag) is None ==> r is Err,
        r == Err::<u32, Error>(Error::NoEntry) ==> getslice_result(*old(lfs), *dir, gmask, gtag) is None,
        r matches Err(e) ==> e == Error::NoEntry || crate::storage::device_error(e),
        getslice_start(old(lfs).gdisk, dir.pair, gmask, gtag) is None ==> r == Err::<u32, Error>(Error::NoEntry)
            && *final(lfs) == *old(lfs) && final(gbuffer)@ == old(gbuffer)@,
        r matches Ok(t) ==> getslice_result(*old(lfs), *dir, gmask, gtag) matches Some((tag, off, gdiff)) && t
            == tag.wrapping_add(gdiff) && {
            let diff = if spec_tag_size(tag) < gsize { spec_tag_size(tag) } else { gsize };
            &&& off + 4 + goff + diff <= old(lfs).cfg.block_size
            &&& dir.pair[0] < old(lfs).block_count
            &&& final(gbuffer)@.subrange(0, diff as int) == old(lfs).cfg.disk()[dir.pair[0] as int].subrange(
                off + 4 + goff,
                off + 4 + goff + diff,
            )
            &&& forall|k: int| diff <= k < gsize ==> #[trigger] final(gbuffer)@[k] == 0u8
        },
{
    let ghost disk = lfs.cfg.disk();
    let ghost blk = disk[dir.pair[0] as int];
    let mut off = dir.off;
    let mut ntag = dir.etag;
    let mut gdiff: u32 = 0;
    if lfs_gstate_hasmovehere(&lfs.gdisk, &dir.pair) && lfs_tag_id(gmask) != 0 {
        if lfs_tag_id(lfs.gdisk.tag) == lfs_tag_id(gtag) {
            return Err(Error::NoEntry);
        } else if lfs_tag_id(lfs.gdisk.tag) < lfs_tag_id(gtag) {
            gdiff = gdiff.wrapping_sub(lfs_mktag(0, 1, 0));
        }
    }
    let ghost g0 = gdiff;
    proof {
        crate::bd::lemma_cfg_sizes(lfs.cfg);
    }
    loop
        invariant
            lfs_read_ready(*lfs),
            same_params(lfs.cfg, old(lfs).cfg),
            lfs.cfg.disk() == disk,
            disk == old(lfs).cfg.disk(),
            blk == disk[dir.pair[0] as int],
            lfs.block_count == old(lfs).block_count,
            lfs.gdisk == old(lfs).gdisk,
            same_but_cfg_rcache(*lfs, *old(lfs)),
            lfs.rcache.wf(lfs.cfg.cache_size),
            rcache_agrees(lfs.rcache, disk),
            lfs.cfg.read_size <= lfs.cfg.block_size,
            off <= lfs.cfg.block_size,
            goff <= lfs.cfg.block_size,
            gsize <= gbuffer@.len(),
            gbuffer@.len() == old(gbuffer)@.len(),
            getslice_start(lfs.gdisk, dir.pair, gmask, gtag) == Some(g0),
            getslice_walk(blk, off, ntag, gmask, gtag, gdiff) == getslice_walk(blk, dir.off, dir.etag, gmask, gtag, g0),
        decreases off,
    {
        let ds = lfs_tag_dsize(ntag);
        if off < 4 + ds {
            return Err(Error::NoEntry);
        }
        off = off - ds;
        let tag = ntag;
        let mut buf: Vec<u8> = vec![0u8, 0u8, 0u8, 0u8];
        let res = lfs_bd_read(&mut lfs.cfg, lfs.block_count, None, &mut lfs.rcache, 4, dir.pair[0], off, buf.as_mut_slice());
        match res {
            Err(e) => {
                return Err(e);
            },
            Ok(()) => {},
        }
        proof {
            assert(buf@ =~= blk.subrange(off as int, off + 4));
        }
        ntag = (be32_from_bytes(buf.as_slice()) ^ tag) & 0x7fff_ffff;
        if lfs_tag_id(gmask) != 0 && lfs_tag_type1(tag) as u32 == LFS_TYPE_SPLICE && lfs_tag_id(tag) <= lfs_tag_id(
            gtag.wrapping_sub(gdiff),
        ) {
            if tag == (lfs_mktag(LFS_TYPE_CREATE, 0, 0) | (lfs_mktag(0, 0x3ff, 0) & gtag.wrapping_sub(gdiff))) {
                return Err(Error::NoEntry);
            }
            let sp = lfs_tag_splice(tag);
            gdiff = gdiff.wrapping_add(lfs_mktag(0, sp as u32, 0));
        }
        if (gmask & tag) == (gmask & gtag.wrapping_sub(gdiff)) {
            if lfs_tag_isdelete(tag) {
                return Err(Error::NoEntry);
            }
            let tsize = lfs_tag_size(tag);
            let diff = if tsize < gsize { tsize } else { gsize };
            let mut data = zero_vec(diff);
            let res = lfs_bd_read(&mut lfs.cfg, lfs.block_count, None, &mut lfs.rcache, diff, dir.pair[0], off + 4 + goff,
                data.as_mut_slice());
            match res {
                Err(e) => {
                    return Err(e);
                },
                Ok(()) => {},
            }
            copy_bytes(gbuffer, 0, data.as_slice(), 0, diff as usize);
            let ghost copied = gbuffer@;
            if gbuffer.len() > 0 && diff < gsize {
                let mut k: usize = diff as usize;
                while k < gsize as usize
                    invariant
                        diff <= k <= gsize,
                        gsize <= gbuffer@.len(),
                        gbuffer@.len() == copied.len(),
                        forall|j: int| 0 <= j < diff ==> #[trigger] gbuffer@[j] == copied[j],
                        forall|j: int| diff <= j < k ==> #[trigger] gbuffer@[j] == 0u8,
                    decreases gsize - k,
                {
                    gbuffer[k] = 0;
                    k = k + 1;
                }
            }
            proof {
                assert(gbuffer@.subrange(0, diff as int) =~= blk.subrange(off + 4 + goff, off + 4 + goff + diff)) by {
                    assert forall|j: int| 0 <= j < diff implies #[trigger] gbuffer@[j] == blk[off + 4 + goff + j] by {
                        assert(copied[j] == data@[j]);
                    }
                }
            }
            return Ok(tag.wrapping_add(gdiff));
        }
    }
}

/// Finds the most recent tag of `dir` that matches `gtag` under `gmask`
/// and reads its data, as much as the size field of `gtag` asks for.
pub fn lfs_dir_get<S: Storage>(lfs: &mut Lfs<S>, dir: &LfsMdir, gmask: u32, gtag: u32, buffer: &mut [u8]) -> (r: Result<
    u32,
    Error,
>)
    requires
        lfs_read_ready(*old(lfs)),
        old(lfs).rcache.wf(old(lfs).cfg.cache_size),
        rcache_agrees(old(lfs).rcache, old(lfs).cfg.disk()),
        dir.off <= old(lfs).cfg.block_size,
        spec_tag_size(gtag) <= old(buffer)@.len(),
    ensures
        lfs_read_ready(*final(lfs)),
        same_params(final(lfs).cfg, old(lfs).cfg),
        final(lfs).cfg.disk() == old(lfs).cfg.disk(),
        final(lfs).block_count == old(lfs).block_count,
        final(lfs).gdisk == old(lfs).gdisk,
        same_but_cfg_rcache(*final(lfs), *old(lfs)),
        final(lfs).rcache.wf(old(lfs).cfg.cache_size),
        rcache_agrees(final(lfs).rcache, old(lfs).cfg.disk()),
        final(buffer)@.len() == old(buffer)@.len(),
        getslice_result(*old(lfs), *dir, gmask, gtag) is None ==> r is Err,
        r == Err::<u32, Error>(Error::NoEntry) ==> getslice_result(*old(lfs), *dir, gmask, gtag) is None,
        r matches Err(e) ==> e == Error::NoEntry || crate::storage::device_error(e),
        getslice_start(old(lfs).gdisk, dir.pair, gmask, gtag) is None ==> r == Err::<u32, Error>(Error::NoEntry)
            && *final(lfs) == *old(lfs) && final(buffer)@ == old(buffer)@,
        r matches Ok(t) ==> getslice_result(*old(lfs), *dir, gmask, gtag) matches Some((tag, off, gdiff)) && t
            == tag.wrapping_add(gdiff) && {
            let diff = if spec_tag_size(tag) < spec_tag_size(gtag) { spec_tag_size(tag) } else { spec_tag_size(gtag) };
            &&& off + 4 + diff <= old(lfs).cfg.block_size
            &&& dir.pair[0] < old(lfs).block_count
            &&& final(buffer)@.subrange(0, diff as int) == old(lfs).cfg.disk()[dir.pair[0] as int].subrange(
                off + 4,
                off + 4 + diff,
            )
            &&& forall|k: int| diff <= k < spec_tag_size(gtag) ==> #[trigger] final(buffer)@[k] == 0u8
        },
{
    lfs_dir_getslice(lfs, dir, gmask, gtag, 0, buffer, lfs_tag_size(gtag))
}

/// The size of the data of the tag that a search of `dir` finds.
pub open spec fn tag_data_size<S: Storage>(lfs: Lfs<S>, dir: LfsMdir, gmask: u32, gtag: u32) -> int {
    match getslice_result(lfs, dir, gmask, gtag) {
        Some((tag, _off, _gdiff)) => spec_tag_size(tag) as int,
        None => 0,
    }
}

/// Byte `p` of the data of the tag that a search of `dir` finds.
pub open spec fn tag_data_byte<S: Storage>(lfs: Lfs<S>, dir: LfsMdir, gmask: u32, gtag: u32, p: int) -> u8 {
    match getslice_result(lfs, dir, gmask, gtag) {
        Some((_tag, off, _gdiff)) => lfs.cfg.disk()[dir.pair[0] as int][off + 4 + p],
        None => 0u8,
    }
}

/// A cache that holds inline data holds the tag's data wherever its
/// window lies within that data.
pub open spec fn inline_cache_ok<S: Storage>(c: LfsCache, lfs: Lfs<S>, dir: LfsMdir, gmask: u32, gtag: u32) -> bool {
    c.block == LFS_BLOCK_INLINE ==> {
        &&& c.size <= c.buffer@.len()
        &&& forall|j: int| 0 <= j < c.size && c.off + j < tag_data_size(lfs, dir, gmask, gtag) ==> #[trigger] c.buffer@[j]
            == tag_data_byte(lfs, dir, gmask, gtag, c.off + j)
    }
}

/// Byte `p` of inline data as a reader sees it: from a program cache that
/// holds inline data and covers it, else the tag's own data.
pub open spec fn inline_view_byte<S: Storage>(
    pcache: Option<LfsCache>,
    lfs: Lfs<S>,
    dir: LfsMdir,
    gmask: u32,
    gtag: u32,
    p: int,
) -> u8 {
    match pcache {
        Some(pc) => if pc.block == LFS_BLOCK_INLINE && pc.off <= p < pc.off + pc.size {
            pc.buffer@[p - pc.off]
        } else {
            tag_data_byte(lfs, dir, gmask, gtag, p)
        },
        None => tag_data_byte(lfs, dir, gmask, gtag, p),
    }
}

/// Whether a program cache that holds inline data covers position `p`.
pub open spec fn pcache_covers(pcache: Option<LfsCache>, p: int) -> bool {
    match pcache {
        Some(pc) => pc.block == LFS_BLOCK_INLINE && pc.off <= p < pc.off + pc.size,
        None => false,
    }
}

/// With no program cache, the read cache holds inline data covering all of
/// the `n` bytes at `off`, so a read is served from it.
pub open spec fn cache_serves(pcache: Option<&LfsCache>, rc: LfsCache, off: u32, n: nat) -> bool {
    &&& pcache is None
    &&& rc.block == LFS_BLOCK_INLINE
    &&& rc.off <= off
    &&& off + n <= rc.off + rc.size
}

/// Reads `buffer.len()` bytes of the inline data that a search of `dir`
/// for `gtag` finds, from offset `off`: bytes waiting in `pcache` come
/// from it, the rest through `rcache`, which is refilled with a window of
/// the data of about `hint` bytes when it does not cover them.
pub fn lfs_dir_getread<S: Storage>(
    lfs: &mut Lfs<S>,
    dir: &LfsMdir,
    pcache: Option<&LfsCache>,
    rcache: &mut LfsCache,
    hint: u32,
    gmask: u32,
    gtag: u32,
    off: u32,
    buffer: &mut [u8],
) -> (r: Result<(), Error>)
    requires
        lfs_read_ready(*old(lfs)),
        old(lfs).rcache.wf(old(lfs).cfg.cache_size),
        rcache_agrees(old(lfs).rcache, old(lfs).cfg.disk()),
        dir.off <= old(lfs).cfg.block_size,
        0 < hint <= old(lfs).cfg.block_size,
        old(rcache).wf(old(lfs).cfg.cache_size),
        old(rcache).off + old(rcache).size <= u32::MAX,
        inline_cache_ok(*old(rcache), *old(lfs), *dir, gmask, gtag) || cache_serves(pcache, *old(rcache), off,
            old(buffer)@.len()),
        pcache matches Some(pc) ==> pc.size <= pc.buffer@.len() && pc.off + pc.size <= u32::MAX,
        off + old(buffer)@.len() <= u32::MAX,
    ensures
        lfs_read_ready(*final(lfs)),
        same_params(final(lfs).cfg, old(lfs).cfg),
        final(lfs).cfg.disk() == old(lfs).cfg.disk(),
        final(lfs).block_count == old(lfs).block_count,
        final(lfs).gdisk == old(lfs).gdisk,
        same_but_cfg_rcache(*final(lfs), *old(lfs)),
        final(lfs).rcache.wf(old(lfs).cfg.cache_size),
        rcache_agrees(final(lfs).rcache, old(lfs).cfg.disk()),
        final(rcache).wf(old(lfs).cfg.cache_size),
        final(buffer)@.len() == old(buffer)@.len(),
        off + old(buffer)@.len() > old(lfs).cfg.block_size ==> r == Err::<(), Error>(Error::Corrupt),
        r matches Err(e) ==> e == Error::NoEntry || crate::storage::device_error(e),
        cache_serves(pcache, *old(rcache), off, old(buffer)@.len()) && off + old(buffer)@.len()
            <= old(lfs).cfg.block_size ==> r is Ok && *final(rcache) == *old(rcache) && final(buffer)@ == old(
            rcache,
        ).buffer@.subrange(off - old(rcache).off, off + old(buffer)@.len() - old(rcache).off),
        r is Ok && inline_cache_ok(*old(rcache), *old(lfs), *dir, gmask, gtag) ==> inline_cache_ok(*final(rcache), *old(lfs),
            *dir, gmask, gtag),
        r is Ok ==> final(rcache).off + final(rcache).size <= u32::MAX,
        r is Ok && inline_cache_ok(*old(rcache), *old(lfs), *dir, gmask, gtag) ==> forall|k: int|
            0 <= k < old(buffer)@.len() && (off + k < tag_data_size(*old(lfs), *dir, gmask, gtag) || pcache_covers(
                crate::bd::opt_cache(pcache),
                off + k,
            )) ==> #[trigger] final(buffer)@[k] == inline_view_byte(crate::bd::opt_cache(pcache), *old(lfs), *dir, gmask,
                gtag, off + k),
{
    let size = buffer.len() as u32;
    if off as u64 + size as u64 > lfs.cfg.block_size as u64 {
        return Err(Error::Corrupt);
    }
    let ghost lfs0 = *lfs;
    let ghost pc = crate::bd::opt_cache(pcache);
    let ghost tsize = tag_data_size(lfs0, *dir, gmask, gtag);
    let read_size = lfs.cfg.read_size;
    let cache_size = lfs.cfg.cache_size;
    proof {
        crate::bd::lemma_cfg_sizes(lfs.cfg);
    }
    let mut done: u32 = 0;
    while done < size
        invariant
            lfs_read_ready(*lfs),
            same_params(lfs.cfg, lfs0.cfg),
            lfs.cfg.disk() == lfs0.cfg.disk(),
            lfs.block_count == lfs0.block_count,
            lfs.gdisk == lfs0.gdisk,
            same_but_cfg_rcache(*lfs, lfs0),
            lfs0 == *old(lfs),
            lfs.rcache.wf(lfs.cfg.cache_size),
            rcache_agrees(lfs.rcache, lfs.cfg.disk()),
            read_size == lfs.cfg.read_size,
            cache_size == lfs.cfg.cache_size,
            0 < read_size <= cache_size,
            cache_size <= lfs.cfg.block_size,
            dir.off <= lfs.cfg.block_size,
            0 < hint <= lfs.cfg.block_size,
            lfs.cfg.block_size <= 0x4000_0000,
            pc == crate::bd::opt_cache(pcache),
            pcache matches Some(p) ==> p.size <= p.buffer@.len() && p.off + p.size <= u32::MAX,
            rcache.off + rcache.size <= u32::MAX,
            tsize == tag_data_size(lfs0, *dir, gmask, gtag),
            size == buffer@.len(),
            size == old(buffer)@.len(),
            done <= size,
            off + size <= lfs.cfg.block_size,
            rcache.wf(cache_size),
            inline_cache_ok(*old(rcache), lfs0, *dir, gmask, gtag) ==> inline_cache_ok(*rcache, lfs0, *dir, gmask, gtag),
            inline_cache_ok(*old(rcache), lfs0, *dir, gmask, gtag) ==> forall|k: int|
                0 <= k < done && (off + k < tsize || pcache_covers(pc, off + k)) ==> #[trigger] buffer@[k]
                    == inline_view_byte(pc, lfs0, *dir, gmask, gtag, off + k),
            inline_cache_ok(*old(rcache), lfs0, *dir, gmask, gtag) || cache_serves(pcache, *old(rcache), off, size as nat),
            cache_serves(pcache, *old(rcache), off, size as nat) ==> *rcache == *old(rcache) && forall|k: int|
                0 <= k < done ==> #[trigger] buffer@[k] == old(rcache).buffer@[off - old(rcache).off + k],
        decreases (size - done) * 2 + (if rcache.block == LFS_BLOCK_INLINE && rcache.off <= off + done && off + done
            < rcache.off + rcache.size { 0int } else { 1int }),
    {
        let cur = off + done;
        let mut diff = size - done;
        match pcache {
            Some(p) => {
                if p.block == LFS_BLOCK_INLINE && cur < p.off + p.size {
                    if cur >= p.off {
                        diff = lfs_min(diff, p.size - (cur - p.off));
                        let ghost before = buffer@;
                        copy_bytes(buffer, done as usize, p.buffer.as_slice(), (cur - p.off) as usize, diff as usize);
                        proof {
                            assert forall|k: int|
                                0 <= k < done + diff && (off + k < tsize || pcache_covers(pc, off + k)) implies #[trigger] buffer@[k]
                                == inline_view_byte(pc, lfs0, *dir, gmask, gtag, off + k) by {
                                if k >= done {
                                    assert(buffer@[k] == p.buffer@[(cur - p.off) + k - done]);
                                } else {
                                    assert(buffer@[k] == before[k]);
                                }
                            }
                        }
                        done = done + diff;
                        continue;
                    }
                    diff = lfs_min(diff, p.off - cur);
                }
            },
            None => {},
        }
        if rcache.block == LFS_BLOCK_INLINE && cur < rcache.off + rcache.size && cur >= rcache.off {
            diff = lfs_min(diff, rcache.size - (cur - rcache.off));
            let ghost before = buffer@;
            copy_bytes(buffer, done as usize, rcache.buffer.as_slice(), (cur - rcache.off) as usize, diff as usize);
            proof {
                if inline_cache_ok(*old(rcache), lfs0, *dir, gmask, gtag) {
                    assert forall|k: int|
                        0 <= k < done + diff && (off + k < tsize || pcache_covers(pc, off + k)) implies #[trigger] buffer@[k]
                        == inline_view_byte(pc, lfs0, *dir, gmask, gtag, off + k) by {
                        if k >= done {
                            let j = (cur - rcache.off) + k - done;
                            assert(buffer@[k] == rcache.buffer@[j]);
                            if pcache_covers(pc, off + k) {
                                assert(false);
                            }
                        } else {
                            assert(buffer@[k] == before[k]);
                        }
                    }
                }
                if cache_serves(pcache, *old(rcache), off, size as nat) {
                    assert forall|k: int| 0 <= k < done + diff implies #[trigger] buffer@[k] == old(rcache).buffer@[off
                        - old(rcache).off + k] by {
                        if k >= done {
                            let j = (cur - rcache.off) + k - done;
                            assert(buffer@[k] == rcache.buffer@[j]);
                        } else {
                            assert(buffer@[k] == before[k]);
                        }
                    }
                }
            }
            done = done + diff;
            continue;
        }
        proof {
            if cache_serves(pcache, *old(rcache), off, size as nat) {
                assert(false);
            }
        }
        let roff = lfs_aligndown(cur as usize, read_size as usize) as u32;
        let up = lfs_alignup((cur as usize) + (hint as usize), read_size as usize);
        let rsize = if up < cache_size as usize { up as u32 } else { cache_size };
        rcache.block = LFS_BLOCK_INLINE;
        rcache.off = roff;
        rcache.size = rsize;
        let ghost lfs_before = *lfs;
        assert(getslice_result(lfs_before, *dir, gmask, gtag) == getslice_result(lfs0, *dir, gmask, gtag));
        let res = lfs_dir_getslice(lfs, dir, gmask, gtag, roff, rcache.buffer.as_mut_slice(), rsize);
        match res {
            Err(e) => {
                return Err(e);
            },
            Ok(_) => {},
        }
        proof {
            assert forall|j: int| 0 <= j < rcache.size && rcache.off + j < tag_data_size(lfs0, *dir, gmask, gtag) implies #[trigger] rcache.buffer@[j]
                == tag_data_byte(lfs0, *dir, gmask, gtag, rcache.off + j) by {
                let (tag, toff, gd) = getslice_result(lfs0, *dir, gmask, gtag)->Some_0;
                let d = if spec_tag_size(tag) < rsize { spec_tag_size(tag) } else { rsize };
                assert(j < d);
                assert(rcache.buffer@.subrange(0, d as int)[j] == rcache.buffer@[j]);
                assert(lfs0.cfg.disk()[dir.pair[0] as int].len() == lfs0.cfg.block_size);
                assert(lfs0.cfg.disk()[dir.pair[0] as int].subrange(toff + 4 + roff, toff + 4 + roff + d)[j]
                    == lfs0.cfg.disk()[dir.pair[0] as int][toff + 4 + roff + j]);
            }
        }
    }
    Ok(())
}

} // verus!
