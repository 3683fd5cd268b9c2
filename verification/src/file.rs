//! Open files and directories: their handles and the queries on them
//! that need no device access.

use vstd::prelude::*;
use crate::bd::LfsCache;
use crate::ctz::LfsCtz;
use crate::dir::{LfsDir, LfsMdir};
use crate::error::Error;
use crate::fs::{lfs_mlist_remove, mlist_is};
use crate::lfs::Lfs;
use crate::lfs_type::{LsfType, LFS_F_WRITING};
use crate::storage::Storage;
use crate::util::{lfs_max, lfs_min};
use crate::bd::{lfs_bd_read, lfs_bd_prog, lfs_bd_erase, lfs_cache_drop, lfs_cache_zero, rcache_agrees, rcache_serves, pcache_fits,
    same_params, copy_bytes, copy_into_vec, zero_vec, view_byte, prog_seq};
use crate::block_alloc::{la_wf, la_sound, la_bit, la_handed_out, blocks_valid, lfs_alloc, lfs_alloc_lookahead, lfs_alloc_ckpoint};
use crate::ctz::{ctz_caches_ready, used_blocks_kept, same_limits};
use crate::ctz::{same_but_cfg_rcache, lfs_read_ready, ctz_locate, ctz_file_byte, ctz_in_block, lfs_ctz_find, lemma_ctz_index_of,
    lemma_ctz_in_block_shift};
use crate::dir_get::{lfs_dir_getread, tag_data_byte, tag_data_size, inline_cache_ok, getslice_result, cache_serves};
use crate::lfs_type::{LFS_F_READING, LFS_F_INLINE, LFS_TYPE_INLINESTRUCT};
use crate::tag::{spec_mktag, lfs_mktag};
use crate::types::{LFS_BLOCK_INLINE, LFS_BLOCK_NULL};

verus! {

/// A custom attribute of a file: its type and its bytes.
pub struct LfsAttr {
    pub type_: u8,
    pub buffer: Vec<u8>,
}

/// Per-file configuration: a cache buffer and custom attributes.
pub struct LfsFileConfig {
    pub buffer: Vec<u8>,
    pub attrs: Vec<LfsAttr>,
}

/// What a directory listing reports of an entry.
pub struct LfsInfo {
    pub type_: u8,
    pub size: u32,
    pub name: [u8; 256],
}

/// What the filesystem reports of itself.
#[derive(Clone, Copy, Debug)]
pub struct LfsFsinfo {
    pub disk_version: u32,
    pub block_size: u32,
    pub block_count: u32,
    pub name_max: u32,
    pub file_max: u32,
    pub attr_max: u32,
}

/// An open file: its entry, its data as a CTZ list, its open flags and
/// state, the position, the block and offset being read or written, and
/// its cache.
pub struct LfsFile {
    pub id: u16,
    pub type_: LsfType,
    pub m: LfsMdir,
    pub ctz: LfsCtz,
    pub flags: u32,
    pub pos: u32,
    pub block: u32,
    pub off: u32,
    pub cache: LfsCache,
    pub cfg: LfsFileConfig,
}

/// The position of a file.
pub fn lfs_file_tell_(file: &LfsFile) -> (r: i32)
    ensures
        r == file.pos as i32,
{
    file.pos as i32
}

/// The position of a file.
pub fn lfs_file_tell<S: Storage>(lfs: &mut Lfs<S>, file: &LfsFile) -> (r: i32)
    ensures
        r == file.pos as i32,
        *final(lfs) == *old(lfs),
{
    lfs_file_tell_(file)
}

/// The size of a file: while it is being written, the larger of its
/// position and its stored size.
pub fn lfs_file_size_<S>(lfs: &Lfs<S>, file: &LfsFile) -> (r: i32)
    ensures
        r == (if file.flags & LFS_F_WRITING != 0 {
            (if file.pos < file.ctz.size { file.ctz.size } else { file.pos }) as i32
        } else {
            file.ctz.size as i32
        }),
{
    if file.flags & LFS_F_WRITING != 0 {
        return lfs_max(file.pos, file.ctz.size) as i32;
    }
    file.ctz.size as i32
}

/// The size of a file.
pub fn lfs_file_size<S: Storage>(lfs: &mut Lfs<S>, file: &LfsFile) -> (r: i32)
    ensures
        r == (if file.flags & LFS_F_WRITING != 0 {
            (if file.pos < file.ctz.size { file.ctz.size } else { file.pos }) as i32
        } else {
            file.ctz.size as i32
        }),
        *final(lfs) == *old(lfs),
{
    lfs_file_size_(lfs, file)
}

/// The position of a directory listing.
pub fn lfs_dir_tell_(dir: &LfsDir) -> (r: i32)
    ensures
        r == dir.pos as i32,
{
    dir.pos as i32
}

/// The position of a directory listing.
pub fn lfs_dir_tell<S: Storage>(lfs: &mut Lfs<S>, dir: &mut LfsDir) -> (r: i32)
    ensures
        r == old(dir).pos as i32,
        *final(lfs) == *old(lfs),
        *final(dir) == *old(dir),
{
    lfs_dir_tell_(dir)
}

/// Closes a directory: its entry leaves the list of open handles.
pub fn lfs_dir_close_<S: Storage>(lfs: &mut Lfs<S>, dir: &mut LfsDir) -> (r: Result<(), Error>)
    ensures
        r is Ok,
        final(lfs).cfg == old(lfs).cfg,
        final(lfs).gstate == old(lfs).gstate,
        (forall|k: int| 0 <= k < old(lfs).mlist@.len() ==> !mlist_is(#[trigger] old(lfs).mlist@[k], old(dir).id, old(dir).type_,
            old(dir).m)) ==> final(lfs).mlist@ == old(lfs).mlist@,
        forall|k: int|
            0 <= k < old(lfs).mlist@.len() && mlist_is(#[trigger] old(lfs).mlist@[k], old(dir).id, old(dir).type_, old(dir).m)
                && (forall|j: int| 0 <= j < k ==> !mlist_is(#[trigger] old(lfs).mlist@[j], old(dir).id, old(dir).type_, old(dir).m))
                ==> final(lfs).mlist@ == old(lfs).mlist@.remove(k),
        *final(dir) == *old(dir),
{
    lfs_mlist_remove(lfs, dir.id, dir.type_, &dir.m);
    Ok(())
}

/// Closes a directory.
pub fn lfs_dir_close<S: Storage>(lfs: &mut Lfs<S>, dir: &mut LfsDir) -> (r: Result<(), Error>)
    ensures
        r is Ok,
        final(lfs).cfg == old(lfs).cfg,
        final(lfs).gstate == old(lfs).gstate,
        (forall|k: int| 0 <= k < old(lfs).mlist@.len() ==> !mlist_is(#[trigger] old(lfs).mlist@[k], old(dir).id, old(dir).type_,
            old(dir).m)) ==> final(lfs).mlist@ == old(lfs).mlist@,
        forall|k: int|
            0 <= k < old(lfs).mlist@.len() && mlist_is(#[trigger] old(lfs).mlist@[k], old(dir).id, old(dir).type_, old(dir).m)
                && (forall|j: int| 0 <= j < k ==> !mlist_is(#[trigger] old(lfs).mlist@[j], old(dir).id, old(dir).type_, old(dir).m))
                ==> final(lfs).mlist@ == old(lfs).mlist@.remove(k),
        *final(dir) == *old(dir),
{
    lfs_dir_close_(lfs, dir)
}

/// The search that finds the inline data of file `id`.
pub open spec fn inline_mask() -> u32 {
    spec_mktag(0xfff, 0x1ff, 0)
}

pub open spec fn inline_tag(id: u16) -> u32 {
    spec_mktag(LFS_TYPE_INLINESTRUCT, id as u32, 0)
}

/// Whether a file keeps its data inline in its metadata pair.
pub open spec fn is_inline(file: &LfsFile) -> bool {
    file.flags & LFS_F_INLINE != 0
}

/// An inline file's cache holds its whole data: inline data from offset
/// 0 over the whole cache, as the cache of an open inline file does.
pub open spec fn inline_cache_full(cache: LfsCache, cache_size: u32) -> bool {
    cache.block == LFS_BLOCK_INLINE && cache.off == 0 && cache.size == cache_size
}

/// Byte `p` of a file: for an inline file, from its cache when the cache
/// holds the whole data, else from its metadata pair; for any other file,
/// from its CTZ skip-list.
pub open spec fn file_byte<S: Storage>(lfs: Lfs<S>, file: &LfsFile, p: int) -> u8 {
    if is_inline(file) {
        if inline_cache_full(file.cache, lfs.cfg.cache_size) {
            file.cache.buffer@[p]
        } else {
            tag_data_byte(lfs, file.m, inline_mask(), inline_tag(file.id), p)
        }
    } else {
        ctz_file_byte(lfs.cfg.disk(), lfs.cfg.block_size, file.ctz.head, file.ctz.size, p)
    }
}

/// While a file is being read and its block is not used up, its offset
/// is that of its position: in the inline data, or in its block of the
/// skip-list. A file cut short at its position keeps no offset that a read
/// there would use, and a skip-list file keeps the block of its last byte.
pub open spec fn file_read_state_ok<S: Storage>(lfs: Lfs<S>, file: &LfsFile) -> bool {
    (file.flags & LFS_F_READING != 0 && file.off != lfs.cfg.block_size) ==> if is_inline(file) {
        file.pos >= file.ctz.size || (file.off < lfs.cfg.block_size && file.off == file.pos)
    } else {
        ||| file.off < lfs.cfg.block_size && (file.block, file.off as int) == ctz_locate(lfs.cfg.disk(),
            lfs.cfg.block_size, file.ctz.head, file.ctz.size, file.pos as int)
        ||| 0 < file.ctz.size <= file.pos && file.block == ctz_locate(lfs.cfg.disk(), lfs.cfg.block_size,
            file.ctz.head, file.ctz.size, file.ctz.size - 1).0
    }
}

/// What a read of an open file needs: the device and the filesystem's
/// read cache, the file's cache, and for an inline file the inline data.
pub open spec fn file_read_ready<S: Storage>(lfs: Lfs<S>, file: &LfsFile) -> bool {
    &&& lfs_read_ready(lfs)
    &&& lfs.rcache.wf(lfs.cfg.cache_size)
    &&& rcache_agrees(lfs.rcache, lfs.cfg.disk())
    &&& file.cache.wf(lfs.cfg.cache_size)
    &&& (is_inline(file) ==> {
        &&& file.cache.off + file.cache.size <= u32::MAX
        &&& file.m.off <= lfs.cfg.block_size
        &&& file.ctz.size <= lfs.cfg.block_size
        &&& file.ctz.size <= lfs.cfg.cache_size
        &&& !inline_cache_full(file.cache, lfs.cfg.cache_size) ==> {
            &&& inline_cache_ok(file.cache, lfs, file.m, inline_mask(), inline_tag(file.id))
            &&& file.ctz.size <= tag_data_size(lfs, file.m, inline_mask(), inline_tag(file.id))
        }
    })
    &&& (!is_inline(file) ==> rcache_agrees(file.cache, lfs.cfg.disk()))
    &&& file_read_state_ok(lfs, file)
}

/// The number of bytes a read of `n` bytes at the file's position gives.
pub open spec fn read_count(file: &LfsFile, n: nat) -> nat {
    if n == 0 || file.pos >= file.ctz.size {
        0
    } else if n < file.ctz.size - file.pos {
        n
    } else {
        (file.ctz.size - file.pos) as nat
    }
}

/// Two filesystem states that store the same bytes and the same pending
/// move give files the same contents.
pub(crate) proof fn lemma_same_storage<S: Storage>(a: Lfs<S>, b: Lfs<S>, file: &LfsFile)
    requires
        a.cfg.disk() == b.cfg.disk(),
        a.gdisk == b.gdisk,
        a.cfg.block_size == b.cfg.block_size,
        a.cfg.cache_size == b.cfg.cache_size,
    ensures
        is_inline(file) ==> getslice_result(a, file.m, inline_mask(), inline_tag(file.id)) == getslice_result(b, file.m,
            inline_mask(), inline_tag(file.id)),
        forall|p: int| #[trigger] file_byte(a, file, p) == file_byte(b, file, p),
        tag_data_size(a, file.m, inline_mask(), inline_tag(file.id)) == tag_data_size(b, file.m, inline_mask(),
            inline_tag(file.id)),
{
}

/// Reads from the file's position into `buffer`, up to the end of the
/// file, and moves the position on: from the file's CTZ skip-list, found
/// block by block, or from its inline data.
pub fn lfs_file_flushedread<S: Storage>(lfs: &mut Lfs<S>, file: &mut LfsFile, buffer: &mut [u8]) -> (r: Result<
    u32,
    Error,
>)
    requires
        file_read_ready(*old(lfs), old(file)),
        old(buffer)@.len() <= u32::MAX,
    ensures
        lfs_read_ready(*final(lfs)),
        same_params(final(lfs).cfg, old(lfs).cfg),
        final(lfs).cfg.disk() == old(lfs).cfg.disk(),
        final(lfs).gdisk == old(lfs).gdisk,
        final(lfs).block_count == old(lfs).block_count,
        final(buffer)@.len() == old(buffer)@.len(),
        final(file).ctz == old(file).ctz,
        final(file).id == old(file).id,
        final(file).m == old(file).m,
        final(file).flags == old(file).flags || final(file).flags == old(file).flags | LFS_F_READING,
        same_but_cfg_rcache(*final(lfs), *old(lfs)),
        final(lfs).rcache.wf(old(lfs).cfg.cache_size),
        rcache_agrees(final(lfs).rcache, old(lfs).cfg.disk()),
        old(buffer)@.len() == 0 || old(file).pos >= old(file).ctz.size ==> r == Ok::<u32, Error>(0) && *final(file)
            == *old(file) && *final(lfs) == *old(lfs) && final(buffer)@ == old(buffer)@,
        is_inline(old(file)) && inline_cache_full(old(file).cache, old(lfs).cfg.cache_size) ==> r is Ok,
        r matches Ok(n) ==> {
            &&& n == read_count(old(file), old(buffer)@.len())
            &&& final(file).pos == old(file).pos + n
            &&& forall|k: int| 0 <= k < n ==> #[trigger] final(buffer)@[k] == file_byte(*old(lfs), old(file), old(file).pos
                + k)
            &&& file_read_ready(*final(lfs), final(file))
            &&& is_inline(final(file)) == is_inline(old(file))
        },
{
    if buffer.len() == 0 {
        return Ok(0);
    }
    let block_size = lfs.cfg.block_size;
    if file.pos >= file.ctz.size {
        return Ok(0);
    }
    let size = lfs_min(buffer.len() as u32, file.ctz.size - file.pos);
    let ghost lfs0 = *lfs;
    let ghost pos0 = file.pos;
    let ghost f0 = *old(file);
    let mut done: u32 = 0;
    proof {
        crate::bd::lemma_cfg_sizes(lfs.cfg);
    }
    while done < size
        invariant
            same_but_cfg_rcache(*lfs, lfs0),
            lfs_read_ready(*lfs),
            same_params(lfs.cfg, lfs0.cfg),
            lfs.cfg.disk() == lfs0.cfg.disk(),
            lfs.gdisk == lfs0.gdisk,
            lfs.block_count == lfs0.block_count,
            lfs0 == *old(lfs),
            block_size == lfs.cfg.block_size,
            lfs.cfg.read_size <= block_size,
            lfs.rcache.wf(lfs.cfg.cache_size),
            rcache_agrees(lfs.rcache, lfs.cfg.disk()),
            file.ctz == f0.ctz,
            file.id == f0.id,
            file.m == f0.m,
            is_inline(file) == is_inline(&f0),
            f0 == *old(file),
            file.flags == f0.flags || file.flags == f0.flags | LFS_F_READING,
            file_read_ready(lfs0, &f0),
            size == read_count(&f0, old(buffer)@.len()),
            size <= buffer@.len(),
            buffer@.len() == old(buffer)@.len(),
            done <= size,
            file.pos == pos0 + done,
            pos0 == f0.pos,
            pos0 + size <= f0.ctz.size,
            file.cache.wf(lfs.cfg.cache_size),
            is_inline(file) ==> file.cache.off + file.cache.size <= u32::MAX,
            is_inline(file) && inline_cache_full(f0.cache, lfs0.cfg.cache_size) ==> file.cache == f0.cache,
            is_inline(file) && !inline_cache_full(f0.cache, lfs0.cfg.cache_size) ==> inline_cache_ok(file.cache, lfs0,
                file.m, inline_mask(), inline_tag(file.id)),
            !is_inline(file) ==> rcache_agrees(file.cache, lfs.cfg.disk()),
            file_read_state_ok(lfs0, file),
            forall|k: int| 0 <= k < done ==> #[trigger] buffer@[k] == file_byte(lfs0, &f0, pos0 + k),
        decreases size - done,
    {
        if file.flags & LFS_F_READING == 0 || file.off == block_size {
            if file.flags & LFS_F_INLINE == 0 {
                let head = file.ctz.head;
                let csize = file.ctz.size;
                let pos = file.pos;
                let ghost lb = *lfs;
                let res = lfs_ctz_find(lfs, None, &mut file.cache, head, csize, pos, &mut file.block, &mut file.off);
                match res {
                    Err(e) => {
                        return Err(e);
                    },
                    Ok(()) => {},
                }
                proof {
                    let (ci, co, ti) = choose|ci: nat, co: int, ti: nat|
                        #![trigger ctz_in_block(lb.cfg.block_size, csize - 1, ci, co), crate::ctz::ctz_walk(lb.cfg.disk(), None, head, ci, ti)]
                        ci < 0x0400_0000 && ti < 0x0400_0000 && ctz_in_block(lb.cfg.block_size, csize - 1, ci, co)
                            && ctz_in_block(lb.cfg.block_size, pos as int, ti, file.off as int) && file.block
                            == crate::ctz::ctz_walk(lb.cfg.disk(), None, head, ci, ti);
                    lemma_ctz_index_of(block_size, csize - 1, ci, co);
                    lemma_ctz_index_of(block_size, pos as int, ti, file.off as int);
                }
            } else {
                file.block = LFS_BLOCK_INLINE;
                file.off = file.pos;
            }
            let of = file.flags;
            let nf = of | LFS_F_READING;
            assert(nf & 0x040000u32 != 0 && (nf & 0x100000u32 != 0) == (of & 0x100000u32 != 0)) by (bit_vector)
                requires nf == of | 0x040000u32;
            file.flags = nf;
            proof {
                crate::file_write::lemma_set_flag(f0.flags, LFS_F_READING, 0);
            }
        }
        assert(file.off < block_size);
        let diff = lfs_min(size - done, block_size - file.off);
        let mut tmp = zero_vec(diff);
        let ghost lb = *lfs;
        proof {
            lemma_same_storage(lb, lfs0, file);
        }
        if file.flags & LFS_F_INLINE != 0 {
            let ghost c0 = file.cache;
            let ghost t0 = tmp@;
            let res = lfs_dir_getread(lfs, &file.m, None, &mut file.cache, block_size, lfs_mktag(0xfff, 0x1ff, 0),
                lfs_mktag(LFS_TYPE_INLINESTRUCT, file.id as u32, 0), file.off, tmp.as_mut_slice());
            match res {
                Err(e) => {
                    return Err(e);
                },
                Ok(()) => {},
            }
            proof {
                if inline_cache_full(f0.cache, lfs0.cfg.cache_size) {
                    assert forall|j: int| 0 <= j < diff implies #[trigger] tmp@[j] == file_byte(lfs0, &f0, file.pos + j) by {
                        assert(tmp@[j] == c0.buffer@.subrange(file.off - c0.off, file.off + t0.len() - c0.off)[j]);
                    }
                } else {
                    assert forall|j: int| 0 <= j < diff implies #[trigger] tmp@[j] == file_byte(lfs0, &f0, file.pos + j) by {
                        assert(file.off + j < tag_data_size(lb, file.m, inline_mask(), inline_tag(file.id)));
                    }
                }
            }
        } else {
            let res = lfs_bd_read(&mut lfs.cfg, lfs.block_count, None, &mut file.cache, block_size, file.block, file.off,
                tmp.as_mut_slice());
            match res {
                Err(e) => {
                    return Err(e);
                },
                Ok(()) => {},
            }
            proof {
                let (ti, to) = crate::ctz::ctz_index_of(block_size, file.pos as int);
                crate::ctz::lemma_ctz_index_total(block_size, file.pos);
                assert(ctz_in_block(block_size, file.pos as int, ti, file.off as int));
                assert forall|j: int| 0 <= j < diff implies #[trigger] tmp@[j] == file_byte(lfs0, &f0, file.pos + j) by {
                    lemma_ctz_in_block_shift(block_size, file.pos as int, ti, file.off as int, j);
                    assert(ti < 0x0400_0000);
                    lemma_ctz_index_of(block_size, file.pos + j, ti, file.off + j);
                }
            }
        }
        let ghost before = buffer@;
        copy_bytes(buffer, done as usize, tmp.as_slice(), 0, diff as usize);
        proof {
            assert forall|k: int| 0 <= k < done + diff implies #[trigger] buffer@[k] == file_byte(lfs0, &f0, pos0 + k) by {
                if k >= done {
                    assert(buffer@[k] == tmp@[k - done]);
                } else {
                    assert(buffer@[k] == before[k]);
                }
            }
            if !is_inline(file) && file.off + diff < block_size {
                let (ti, to) = crate::ctz::ctz_index_of(block_size, file.pos as int);
                crate::ctz::lemma_ctz_index_total(block_size, file.pos);
                lemma_ctz_in_block_shift(block_size, file.pos as int, ti, file.off as int, diff as int);
                lemma_ctz_index_of(block_size, file.pos + diff, ti, file.off + diff);
            }
        }
        file.pos = file.pos + diff;
        file.off = file.off + diff;
        done = done + diff;
    }
    Ok(size)
}

/// Byte `k` of what a file has written so far in its current block, or
/// of its inline data.
pub open spec fn file_src_byte<S: Storage>(lfs: Lfs<S>, file: &LfsFile, k: int) -> u8 {
    if is_inline(file) {
        if inline_cache_full(file.cache, lfs.cfg.cache_size) {
            file.cache.buffer@[k]
        } else {
            tag_data_byte(lfs, file.m, inline_mask(), inline_tag(file.id), k)
        }
    } else {
        view_byte(lfs.cfg.disk(), Some(file.cache), file.block as int, k)
    }
}

/// The byte is one the source holds: always in a block, and for inline
/// data in a cache that holds it all or within the tag's data.
pub open spec fn file_src_known<S: Storage>(lfs: Lfs<S>, file: &LfsFile, k: int) -> bool {
    !is_inline(file) || inline_cache_full(file.cache, lfs.cfg.cache_size) || k < tag_data_size(lfs, file.m,
        inline_mask(), inline_tag(file.id))
}

/// What moving a file's current block needs: the filesystem's caches, an
/// empty program cache, and the file's source of bytes up to `off`.
pub open spec fn relocate_ready<S: Storage>(lfs: Lfs<S>, file: &LfsFile, in_use: Seq<u32>) -> bool {
    &&& ctz_caches_ready(lfs, lfs.pcache, lfs.rcache)
    &&& lfs.pcache.block == LFS_BLOCK_NULL
    &&& file.off <= lfs.cfg.block_size
    &&& file.cache.wf(lfs.cfg.cache_size)
    &&& blocks_valid(in_use, lfs.block_count)
    &&& (is_inline(file) ==> {
        &&& file.off <= lfs.cfg.cache_size
        &&& !inline_cache_full(file.cache, lfs.cfg.cache_size) ==> inline_cache_ok(file.cache, lfs, file.m, inline_mask(),
            inline_tag(file.id))
        &&& file.cache.off + file.cache.size <= u32::MAX
        &&& file.m.off <= lfs.cfg.block_size
        &&& in_use.contains(file.m.pair[0])
    })
    &&& (!is_inline(file) ==> pcache_fits(file.cache, lfs.cfg.disk()) && in_use.contains(file.block))
}

/// Copying the first `file.off` bytes needs no device: they are fewer
/// than the program cache holds, and the file's inline cache or the read
/// cache holds them all.
pub open spec fn relocate_cached<S: Storage>(lfs: Lfs<S>, file: &LfsFile) -> bool {
    &&& file.off < lfs.cfg.cache_size
    &&& file.off == 0 || if is_inline(file) {
        cache_serves(None::<&LfsCache>, file.cache, 0, file.off as nat)
    } else {
        (lfs.block_count == 0 || file.block < lfs.block_count) && rcache_serves(lfs.rcache, file.block, 0, file.off as nat)
    }
}

/// Copies the first `file.off` bytes of the file's current block, or of
/// its inline data, into the fresh block `nblock` through the
/// filesystem's program cache. `Ok(false)` reports that `nblock` went bad.
fn relocate_copy<S: Storage>(lfs: &mut Lfs<S>, file: &mut LfsFile, nblock: u32, Ghost(in_use): Ghost<Seq<u32>>) -> (r: Result<
    bool,
    Error,
>)
    requires
        relocate_ready(*old(lfs), old(file), in_use),
        nblock < old(lfs).block_count,
        !in_use.contains(nblock),
    ensures
        same_limits(*final(lfs), *old(lfs)),
        r matches Err(e) ==> e == Error::NoEntry || crate::storage::device_error(e),
        lfs_read_ready(*final(lfs)),
        same_params(final(lfs).cfg, old(lfs).cfg),
        final(lfs).block_count == old(lfs).block_count,
        final(lfs).lookahead == old(lfs).lookahead,
        final(lfs).gdisk == old(lfs).gdisk,
        final(lfs).pcache.wf(old(lfs).cfg.cache_size),
        final(lfs).pcache.off % old(lfs).cfg.prog_size == 0,
        pcache_fits(final(lfs).pcache, final(lfs).cfg.disk()),
        final(lfs).rcache.wf(old(lfs).cfg.cache_size),
        final(file).cache.wf(old(lfs).cfg.cache_size),
        *final(file) == (LfsFile { cache: final(file).cache, ..*old(file) }),
        !is_inline(old(file)) ==> final(file).cache == old(file).cache,
        r is Ok && is_inline(old(file)) ==> final(file).cache.off + final(file).cache.size <= u32::MAX,
        is_inline(old(file)) && inline_cache_full(old(file).cache, old(lfs).cfg.cache_size) ==> final(file).cache == old(
            file,
        ).cache,
        r is Ok && is_inline(old(file)) && !inline_cache_full(old(file).cache, old(lfs).cfg.cache_size)
            ==> inline_cache_ok(final(file).cache, *old(lfs), old(file).m, inline_mask(), inline_tag(old(file).id)),
        forall|b: int| 0 <= b < old(lfs).block_count && b != nblock ==> #[trigger] final(lfs).cfg.disk()[b]
            == old(lfs).cfg.disk()[b],
        r == Ok::<bool, Error>(true) ==> rcache_agrees(final(lfs).rcache, final(lfs).cfg.disk()),
        r == Ok::<bool, Error>(true) ==> prog_seq(final(lfs).pcache, nblock, old(file).off as int, old(lfs).cfg.cache_size,
            old(lfs).cfg.prog_size),
        r == Ok::<bool, Error>(true) ==> final(lfs).pcache.block == LFS_BLOCK_NULL || final(lfs).pcache.block == nblock,
        r == Ok::<bool, Error>(true) ==> forall|k: int|
            0 <= k < old(file).off && file_src_known(*old(lfs), old(file), k) ==> #[trigger] view_byte(
                final(lfs).cfg.disk(),
                Some(final(lfs).pcache),
                nblock as int,
                k,
            ) == file_src_byte(*old(lfs), old(file), k),
        relocate_cached(*old(lfs), old(file)) ==> r == Ok::<bool, Error>(true),
{
    let ghost lfs0 = *lfs;
    let ghost f0 = *file;
    let ghost disk0 = lfs.cfg.disk();
    let block_size = lfs.cfg.block_size;
    let mut i: u32 = 0;
    proof {
        crate::bd::lemma_cfg_sizes(lfs.cfg);
    }
    while i < file.off
        invariant
            same_limits(*lfs, *old(lfs)),
            lfs_read_ready(*lfs),
            same_params(lfs.cfg, lfs0.cfg),
            lfs.block_count == lfs0.block_count,
            lfs.lookahead == lfs0.lookahead,
            lfs.gdisk == lfs0.gdisk,
            lfs0 == *old(lfs),
            f0 == *old(file),
            disk0 == lfs0.cfg.disk(),
            block_size == lfs.cfg.block_size,
            lfs.cfg.read_size <= block_size,
            relocate_ready(lfs0, &f0, in_use),
            nblock < lfs.block_count,
            !in_use.contains(nblock),
            i <= file.off,
            *file == (LfsFile { cache: file.cache, ..f0 }),
            !is_inline(&f0) ==> file.cache == f0.cache,
            file.cache.wf(lfs.cfg.cache_size),
            is_inline(&f0) ==> file.cache.off + file.cache.size <= u32::MAX,
            is_inline(&f0) && inline_cache_full(f0.cache, lfs0.cfg.cache_size) ==> file.cache == f0.cache,
            is_inline(&f0) && !inline_cache_full(f0.cache, lfs0.cfg.cache_size) ==> inline_cache_ok(file.cache, lfs0,
                f0.m, inline_mask(), inline_tag(f0.id)),
            lfs.pcache.wf(lfs.cfg.cache_size),
            lfs.pcache.off % lfs.cfg.prog_size == 0,
            pcache_fits(lfs.pcache, lfs.cfg.disk()),
            lfs.pcache.block == LFS_BLOCK_NULL || lfs.pcache.block == nblock,
            prog_seq(lfs.pcache, nblock, i as int, lfs.cfg.cache_size, lfs.cfg.prog_size),
            lfs.rcache.wf(lfs.cfg.cache_size),
            rcache_agrees(lfs.rcache, lfs.cfg.disk()),
            forall|b: int| 0 <= b < lfs0.block_count && b != nblock ==> #[trigger] lfs.cfg.disk()[b] == disk0[b],
            forall|k: int|
                0 <= k < i && file_src_known(lfs0, &f0, k) ==> #[trigger] view_byte(lfs.cfg.disk(), Some(lfs.pcache),
                    nblock as int, k) == file_src_byte(lfs0, &f0, k),
            relocate_cached(lfs0, &f0) ==> (!is_inline(&f0) ==> lfs.rcache == lfs0.rcache) && (is_inline(&f0)
                ==> file.cache == f0.cache) && ((i == 0 && lfs.pcache.block == LFS_BLOCK_NULL) || (lfs.pcache.block
                == nblock && lfs.pcache.off == 0)),
        decreases f0.off - i,
    {
        let mut data: Vec<u8> = vec![0u8];
        let ghost lb = *lfs;
        if file.flags & LFS_F_INLINE != 0 {
            proof {
                assert(in_use.contains(f0.m.pair[0]));
                let j = choose|j: int| 0 <= j < in_use.len() && in_use[j] == f0.m.pair[0];
                assert(in_use[j] < lfs0.block_count);
                assert(lb.cfg.disk()[f0.m.pair[0] as int] == disk0[f0.m.pair[0] as int]);
                assert(getslice_result(lb, f0.m, inline_mask(), inline_tag(f0.id)) == getslice_result(lfs0, f0.m,
                    inline_mask(), inline_tag(f0.id)));
                if !inline_cache_full(f0.cache, lfs0.cfg.cache_size) {
                    assert(inline_cache_ok(file.cache, lb, f0.m, inline_mask(), inline_tag(f0.id)));
                }
            }
            let ghost c1 = file.cache;
            let ghost d0 = data@;
            let res = lfs_dir_getread(lfs, &file.m, None, &mut file.cache, file.off - i, lfs_mktag(0xfff, 0x1ff, 0),
                lfs_mktag(LFS_TYPE_INLINESTRUCT, file.id as u32, 0), i, data.as_mut_slice());
            match res {
                Err(e) => {
                    return Err(e);
                },
                Ok(()) => {},
            }
            proof {
                if inline_cache_full(f0.cache, lfs0.cfg.cache_size) {
                    assert(data@[0] == c1.buffer@.subrange(i - c1.off, i + d0.len() - c1.off)[0]);
                    assert(data@[0] == file_src_byte(lfs0, &f0, i as int));
                } else {
                    assert(inline_cache_ok(file.cache, lfs0, f0.m, inline_mask(), inline_tag(f0.id)));
                    if file_src_known(lfs0, &f0, i as int) {
                        assert(data@[0] == file_src_byte(lfs0, &f0, i as int));
                    }
                }
            }
        } else {
            let res = lfs_bd_read(&mut lfs.cfg, lfs.block_count, Some(&file.cache), &mut lfs.rcache, file.off - i,
                file.block, i, data.as_mut_slice());
            match res {
                Err(e) => {
                    return Err(e);
                },
                Ok(()) => {},
            }
            proof {
                let j = choose|j: int| 0 <= j < in_use.len() && in_use[j] == f0.block;
                assert(in_use[j] < lfs0.block_count);
                assert(lb.cfg.disk()[f0.block as int] == disk0[f0.block as int]);
                assert(data@[0] == view_byte(lb.cfg.disk(), Some(f0.cache), f0.block as int, i as int));
            }
        }
        proof {
            crate::ctz::lemma_prog_seq_gap_pub(lfs.pcache, nblock, i, lfs.cfg.cache_size, lfs.cfg.prog_size);
        }
        let ghost d1 = lfs.cfg.disk();
        let ghost p1 = lfs.pcache;
        let res = lfs_bd_prog(&mut lfs.cfg, lfs.block_count, &mut lfs.pcache, &mut lfs.rcache, true, nblock, i,
            data.as_slice());
        match res {
            Err(e) => {
                if e == Error::Corrupt {
                    return Ok(false);
                }
                return Err(e);
            },
            Ok(()) => {},
        }
        proof {
            assert forall|k: int| 0 <= k < i + 1 && file_src_known(lfs0, &f0, k) implies #[trigger] view_byte(
                lfs.cfg.disk(),
                Some(lfs.pcache),
                nblock as int,
                k,
            ) == file_src_byte(lfs0, &f0, k) by {
                if k < i {
                    assert(view_byte(lfs.cfg.disk(), Some(lfs.pcache), nblock as int, k) == view_byte(d1, Some(p1),
                        nblock as int, k));
                } else {
                    assert(view_byte(lfs.cfg.disk(), Some(lfs.pcache), nblock as int, i + 0) == data@[0]);
                }
            }
            assert forall|b: int| 0 <= b < lfs0.block_count && b != nblock implies #[trigger] lfs.cfg.disk()[b]
                == disk0[b] by {
                assert(d1[b] == disk0[b]);
            }
        }
        i = i + 1;
    }
    Ok(true)
}

/// Two states agree on what a file's source bytes are when the device
/// keeps the blocks in use and the global state is the same.
proof fn lemma_src_same<S: Storage>(a: Lfs<S>, b: Lfs<S>, file: &LfsFile, in_use: Seq<u32>)
    requires
        relocate_ready(a, file, in_use),
        a.gdisk == b.gdisk,
        a.cfg.cache_size == b.cfg.cache_size,
        used_blocks_kept(a.cfg.disk(), b.cfg.disk(), in_use),
    ensures
        is_inline(file) ==> getslice_result(a, file.m, inline_mask(), inline_tag(file.id)) == getslice_result(b, file.m,
            inline_mask(), inline_tag(file.id)),
        is_inline(file) ==> a.cfg.disk()[file.m.pair[0] as int] == b.cfg.disk()[file.m.pair[0] as int],
        !is_inline(file) ==> a.cfg.disk()[file.block as int] == b.cfg.disk()[file.block as int],
        forall|k: int| #[trigger] file_src_byte(a, file, k) == file_src_byte(b, file, k),
        forall|k: int| #[trigger] file_src_known(a, file, k) == file_src_known(b, file, k),
        is_inline(file) ==> forall|c: LfsCache| #[trigger] inline_cache_ok(c, a, file.m, inline_mask(), inline_tag(file.id))
            == inline_cache_ok(c, b, file.m, inline_mask(), inline_tag(file.id)),
{
    if is_inline(file) {
        let j = choose|j: int| 0 <= j < in_use.len() && in_use[j] == file.m.pair[0];
        assert(a.cfg.disk()[in_use[j] as int] == b.cfg.disk()[in_use[j] as int]);
    } else {
        let j = choose|j: int| 0 <= j < in_use.len() && in_use[j] == file.block;
        assert(a.cfg.disk()[in_use[j] as int] == b.cfg.disk()[in_use[j] as int]);
    }
}

/// A file whose cache has changed only as reads of its inline data change
/// it has the same source bytes, wherever the original cache knew them.
proof fn lemma_src_cache<S: Storage>(l: Lfs<S>, f0: &LfsFile, f1: &LfsFile, k: int)
    requires
        *f1 == (LfsFile { cache: f1.cache, ..*f0 }),
        !is_inline(f0) ==> f1.cache == f0.cache,
        is_inline(f0) && inline_cache_full(f0.cache, l.cfg.cache_size) ==> f1.cache == f0.cache,
        is_inline(f0) && !inline_cache_full(f0.cache, l.cfg.cache_size) ==> inline_cache_ok(f1.cache, l, f0.m,
            inline_mask(), inline_tag(f0.id)),
        is_inline(f0) ==> f0.off <= l.cfg.cache_size,
        0 <= k < f0.off,
        file_src_known(l, f0, k),
    ensures
        file_src_known(l, f1, k),
        file_src_byte(l, f1, k) == file_src_byte(l, f0, k),
{
    if is_inline(f0) && !inline_cache_full(f0.cache, l.cfg.cache_size) && inline_cache_full(f1.cache, l.cfg.cache_size) {
        assert(f1.cache.buffer@[k] == tag_data_byte(l, f0.m, inline_mask(), inline_tag(f0.id), f1.cache.off + k));
    }
}

/// Moves a file's current block to a fresh one: the first `off` bytes of
/// the block, or of the file's inline data, are copied into a block from
/// the allocator, which then becomes the file's block, its program cache
/// taking over what the filesystem's program cache held. A block that
/// turns out bad is marked and another one is taken. `in_use` lists the
/// blocks that the filesystem uses.
pub fn lfs_file_relocate<S: Storage>(lfs: &mut Lfs<S>, file: &mut LfsFile, in_use: &[u32]) -> (r: Result<(), Error>)
    requires
        relocate_ready(*old(lfs), old(file), in_use@),
        la_wf(old(lfs).lookahead, old(lfs).block_count),
        la_sound(old(lfs).lookahead, old(lfs).block_count, in_use@),
    ensures
        same_limits(*final(lfs), *old(lfs)),
        lfs_read_ready(*final(lfs)),
        same_params(final(lfs).cfg, old(lfs).cfg),
        final(lfs).block_count == old(lfs).block_count,
        final(lfs).gdisk == old(lfs).gdisk,
        la_wf(final(lfs).lookahead, final(lfs).block_count),
        la_sound(final(lfs).lookahead, final(lfs).block_count, in_use@),
        used_blocks_kept(old(lfs).cfg.disk(), final(lfs).cfg.disk(), in_use@),
        final(lfs).pcache.wf(old(lfs).cfg.cache_size),
        final(lfs).rcache.wf(old(lfs).cfg.cache_size),
        final(file).cache.wf(old(lfs).cfg.cache_size),
        *final(file) == (LfsFile { cache: final(file).cache, block: final(file).block, flags: final(file).flags, ..*old(file) }),
        r is Err ==> final(file).block == old(file).block && final(file).flags == old(file).flags,
        r is Ok ==> {
            &&& ctz_caches_ready(*final(lfs), final(lfs).pcache, final(lfs).rcache)
            &&& final(lfs).pcache.block == LFS_BLOCK_NULL
            &&& final(file).block < old(lfs).block_count
            &&& !in_use@.contains(final(file).block)
            &&& la_handed_out(final(lfs).lookahead, final(lfs).block_count, final(file).block)
            &&& final(lfs).lookahead.ckpoint < old(lfs).lookahead.ckpoint
            &&& final(file).flags == old(file).flags | LFS_F_WRITING
            &&& final(file).cache.off % old(lfs).cfg.prog_size == 0
            &&& pcache_fits(final(file).cache, final(lfs).cfg.disk())
            &&& prog_seq(final(file).cache, final(file).block, old(file).off as int, old(lfs).cfg.cache_size,
                old(lfs).cfg.prog_size)
            &&& forall|k: int|
                0 <= k < old(file).off && file_src_known(*old(lfs), old(file), k) ==> #[trigger] view_byte(
                    final(lfs).cfg.disk(),
                    Some(final(file).cache),
                    final(file).block as int,
                    k,
                ) == file_src_byte(*old(lfs), old(file), k)
        },
        old(lfs).lookahead.ckpoint == 0 ==> r == Err::<(), Error>(Error::NoSpace),
        r matches Err(e) ==> e == Error::NoSpace || e == Error::NoEntry || crate::storage::device_error(e),
        r == Err::<(), Error>(Error::NoSpace) ==> final(lfs).lookahead.ckpoint == 0,
{
    let ghost lfs0 = *lfs;
    let ghost f0 = *file;
    let ghost disk0 = lfs.cfg.disk();
    let bc = lfs.block_count;
    let cache_size = lfs.cfg.cache_size;
    loop
        invariant
            same_limits(*lfs, *old(lfs)),
            relocate_ready(*lfs, file, in_use@),
            relocate_ready(lfs0, &f0, in_use@),
            same_params(lfs.cfg, lfs0.cfg),
            bc == lfs.block_count,
            bc == lfs0.block_count,
            cache_size == lfs.cfg.cache_size,
            lfs0 == *old(lfs),
            f0 == *old(file),
            disk0 == lfs0.cfg.disk(),
            lfs.gdisk == lfs0.gdisk,
            la_wf(lfs.lookahead, bc),
            la_sound(lfs.lookahead, bc, in_use@),
            lfs.lookahead.ckpoint <= lfs0.lookahead.ckpoint,
            used_blocks_kept(disk0, lfs.cfg.disk(), in_use@),
            *file == (LfsFile { cache: file.cache, ..f0 }),
            !is_inline(&f0) ==> file.cache == f0.cache,
            is_inline(&f0) && inline_cache_full(f0.cache, cache_size) ==> file.cache == f0.cache,
            is_inline(&f0) && !inline_cache_full(f0.cache, cache_size) ==> inline_cache_ok(file.cache, lfs0, f0.m,
                inline_mask(), inline_tag(f0.id)),
        decreases lfs.lookahead.ckpoint,
    {
        proof {
            lemma_src_same(lfs0, *lfs, &f0, in_use@);
        }
        let res = lfs_alloc(lfs, in_use);
        let nblock = match res {
            Err(e) => {
                return Err(e);
            },
            Ok(b) => b,
        };
        let ghost d0 = lfs.cfg.disk();
        let res = lfs_bd_erase(&mut lfs.cfg, bc, nblock);
        proof {
            assert forall|j: int| 0 <= j < in_use@.len() implies #[trigger] lfs.cfg.disk()[in_use@[j] as int]
                == disk0[in_use@[j] as int] by {
                assert(d0[in_use@[j] as int] == disk0[in_use@[j] as int]);
            }
        }
        let mut relocate = false;
        match res {
            Err(e) => {
                if e == Error::Corrupt {
                    relocate = true;
                } else {
                    return Err(e);
                }
            },
            Ok(()) => {},
        }
        if lfs.rcache.block == nblock {
            // The read cache may still hold what the block held before it
            // was erased.
            lfs_cache_drop(&mut lfs.rcache);
        }
        if !relocate {
            let ghost l1 = *lfs;
            let ghost fc1 = *file;
            proof {
                lemma_src_same(lfs0, *lfs, &f0, in_use@);
                assert(pcache_fits(lfs.pcache, lfs.cfg.disk()));
            }
            let res = relocate_copy(lfs, file, nblock, Ghost(in_use@));
            proof {
                assert forall|j: int| 0 <= j < in_use@.len() implies #[trigger] lfs.cfg.disk()[in_use@[j] as int]
                    == disk0[in_use@[j] as int] by {
                    assert(l1.cfg.disk()[in_use@[j] as int] == disk0[in_use@[j] as int]);
                }
                lemma_src_same(lfs0, *lfs, &f0, in_use@);
                lemma_src_same(lfs0, l1, &f0, in_use@);
                assert forall|k: int| 0 <= k < f0.off && file_src_known(lfs0, &f0, k) implies file_src_known(l1, &fc1, k)
                    && file_src_byte(l1, &fc1, k) == file_src_byte(lfs0, &f0, k) by {
                    lemma_src_cache(l1, &f0, &fc1, k);
                }
            }
            match res {
                Err(e) => {
                    return Err(e);
                },
                Ok(done) => {
                    if done {
                        let ghost pc = lfs.pcache;
                        copy_into_vec(&mut file.cache.buffer, 0, lfs.pcache.buffer.as_slice(), 0, cache_size as usize);
                        file.cache.block = lfs.pcache.block;
                        file.cache.off = lfs.pcache.off;
                        file.cache.size = lfs.pcache.size;
                        file.block = nblock;
                        file.flags = file.flags | LFS_F_WRITING;
                        lfs_cache_zero(&mut lfs.pcache);
                        proof {
                            assert(file.cache.buffer@ =~= pc.buffer@);
                            assert forall|k: int| #[trigger] view_byte(lfs.cfg.disk(), Some(file.cache), nblock as int, k)
                                == view_byte(lfs.cfg.disk(), Some(pc), nblock as int, k) by {}
                        }
                        return Ok(());
                    }
                },
            }
        }
        let ghost la1 = lfs.lookahead;
        let _ = lfs_alloc_lookahead(lfs, nblock);
        proof {
            crate::ctz::lemma_mark_keeps_sound(la1, lfs.lookahead, bc, in_use@);
        }
        lfs_cache_drop(&mut lfs.pcache);
        // A program that failed may have left the read cache holding the
        // bad block.
        lfs_cache_drop(&mut lfs.rcache);
        proof {
            lemma_src_same(lfs0, *lfs, &f0, in_use@);
        }
    }
}

/// Moves an inline file's data out of its directory into a block of its
/// own: the data up to the file's position is copied into a fresh block,
/// and the file is no longer inline.
pub fn lfs_file_outline<S: Storage>(lfs: &mut Lfs<S>, file: &mut LfsFile, in_use: &[u32]) -> (r: Result<(), Error>)
    requires
        relocate_ready(*old(lfs), &LfsFile { off: old(file).pos, ..*old(file) }, in_use@),
        la_wf(old(lfs).lookahead, old(lfs).block_count),
        la_sound(old(lfs).lookahead, old(lfs).block_count, in_use@),
    ensures
        same_limits(*final(lfs), *old(lfs)),
        lfs_read_ready(*final(lfs)),
        same_params(final(lfs).cfg, old(lfs).cfg),
        final(lfs).block_count == old(lfs).block_count,
        final(lfs).gdisk == old(lfs).gdisk,
        la_wf(final(lfs).lookahead, final(lfs).block_count),
        la_sound(final(lfs).lookahead, final(lfs).block_count, in_use@),
        used_blocks_kept(old(lfs).cfg.disk(), final(lfs).cfg.disk(), in_use@),
        final(lfs).pcache.wf(old(lfs).cfg.cache_size),
        final(lfs).rcache.wf(old(lfs).cfg.cache_size),
        final(file).cache.wf(old(lfs).cfg.cache_size),
        *final(file) == (LfsFile {
            cache: final(file).cache,
            block: final(file).block,
            flags: final(file).flags,
            off: old(file).pos,
            ..*old(file)
        }),
        r is Err ==> final(file).block == old(file).block && final(file).flags == old(file).flags,
        r is Ok ==> {
            &&& ctz_caches_ready(*final(lfs), final(lfs).pcache, final(lfs).rcache)
            &&& final(lfs).pcache.block == LFS_BLOCK_NULL
            &&& final(file).block < old(lfs).block_count
            &&& !in_use@.contains(final(file).block)
            &&& la_handed_out(final(lfs).lookahead, final(lfs).block_count, final(file).block)
            &&& final(file).flags == (old(file).flags | LFS_F_WRITING) & !LFS_F_INLINE
            &&& final(file).cache.off % old(lfs).cfg.prog_size == 0
            &&& pcache_fits(final(file).cache, final(lfs).cfg.disk())
            &&& prog_seq(final(file).cache, final(file).block, old(file).pos as int, old(lfs).cfg.cache_size,
                old(lfs).cfg.prog_size)
            &&& forall|k: int|
                0 <= k < old(file).pos && file_src_known(*old(lfs), old(file), k) ==> #[trigger] view_byte(
                    final(lfs).cfg.disk(),
                    Some(final(file).cache),
                    final(file).block as int,
                    k,
                ) == file_src_byte(*old(lfs), old(file), k)
        },
{
    file.off = file.pos;
    lfs_alloc_ckpoint(lfs);
    let ghost f1 = *file;
    proof {
        assert(f1 == LfsFile { off: old(file).pos, ..*old(file) });
        assert forall|k: int| #[trigger] file_src_byte(*old(lfs), &f1, k) == file_src_byte(*old(lfs), old(file), k)
            && file_src_known(*old(lfs), &f1, k) == file_src_known(*old(lfs), old(file), k) by {}
    }
    let res = lfs_file_relocate(lfs, file, in_use);
    match res {
        Err(e) => {
            return Err(e);
        },
        Ok(()) => {},
    }
    file.flags = file.flags & !LFS_F_INLINE;
    Ok(())
}

} // verus!
