//! The blocks that the entries of a metadata pair use, in the order a
//! traversal of the filesystem lists them.

use vstd::prelude::*;
use crate::bd::{LfsCache, rcache_agrees, same_params};
use crate::ctz::{lfs_read_ready, lfs_ctz_traverse, ctz_visits, ctz_in_block, same_but_cfg_rcache,
    lemma_ctz_in_block_unique};
use crate::dir::LfsMdir;
use crate::dir_get::{getslice_result, lfs_dir_get};
use crate::endian::{spec_le32, le32_at};
use crate::error::Error;
use crate::file_write::cache_placeholder;
use crate::lfs::Lfs;
use crate::lfs_type::{LFS_TYPE_STRUCT, LFS_TYPE_CTZSTRUCT, LFS_TYPE_DIRSTRUCT};
use crate::storage::Storage;
use crate::bd::pcache_fits;
use crate::file::LfsFile;
use crate::lfs_type::{LsfType, LFS_F_DIRTY, LFS_F_INLINE, LFS_F_WRITING};
use crate::fetch::{fetched, fetch_frame, lfs_dir_fetch};
use crate::fs::{LfsTortoise, lfs_tortoise_detectcycles};
use crate::util::{lfs_pair_isnull, lfs_pair_cmp};
use crate::types::LFS_BLOCK_NULL;
use crate::tag::{spec_mktag, spec_tag_size, spec_tag_type3, lfs_mktag, lfs_tag_type3};

verus! {

/// The index, in its skip list, of the last block of a file of `size`
/// bytes.
pub open spec fn ctz_last_index(block_size: u32, size: u32) -> nat {
    let (ci, _co) = choose|ci: nat, co: int|
        #![trigger ctz_in_block(block_size, size - 1, ci, co)]
        ci < 0x0400_0000 && ctz_in_block(block_size, size - 1, ci, co);
    ci
}

/// The blocks of a file stored as a skip list, from its last block back
/// to its first, in traversal order.
pub open spec fn ctz_file_visits(disk: Seq<Seq<u8>>, pcache: Option<LfsCache>, block_size: u32, head: u32, size: u32) -> Seq<
    u32,
> {
    if size == 0 {
        seq![]
    } else {
        ctz_visits(disk, pcache, head, ctz_last_index(block_size, size))
    }
}

/// The search for the struct of entry `id`: any struct type, that id.
pub open spec fn struct_mask() -> u32 {
    spec_mktag(0x700, 0x3ff, 0)
}

/// The struct tag of entry `id`, asking for eight bytes.
pub open spec fn struct_tag(id: u32) -> u32 {
    spec_mktag(LFS_TYPE_STRUCT, id, 8)
}

/// The eight bytes a struct search reads when it finds `tag` at `off`:
/// the tag's data, zero-filled past its end.
pub open spec fn struct_data<S: Storage>(lfs: Lfs<S>, dir: LfsMdir, tag: u32, off: u32) -> Seq<u8> {
    let n = if spec_tag_size(tag) < 8 { spec_tag_size(tag) as int } else { 8int };
    Seq::new(8, |k: int| if k < n { lfs.cfg.disk()[dir.pair[0] as int][off + 4 + k] } else { 0u8 })
}

/// The blocks that entry `id` of `dir` uses: those of its file when it is
/// stored as a skip list, the metadata pair of its directory when
/// `includeorphans` asks for those, and none otherwise.
pub open spec fn entry_blocks<S: Storage>(lfs: Lfs<S>, dir: LfsMdir, id: u32, includeorphans: bool) -> Seq<u32> {
    match getslice_result(lfs, dir, struct_mask(), struct_tag(id)) {
        None => seq![],
        Some((tag, off, gdiff)) => {
            let t = tag.wrapping_add(gdiff);
            let d = struct_data(lfs, dir, tag, off);
            let p0 = spec_le32(d.subrange(0, 4)) as u32;
            let p1 = spec_le32(d.subrange(4, 8)) as u32;
            if spec_tag_type3(t) == LFS_TYPE_CTZSTRUCT {
                ctz_file_visits(lfs.cfg.disk(), None, lfs.cfg.block_size, p0, p1)
            } else if includeorphans && spec_tag_type3(t) == LFS_TYPE_DIRSTRUCT {
                seq![p0, p1]
            } else {
                seq![]
            }
        },
    }
}

/// The blocks that entries `0..n` of `dir` use, in order.
pub open spec fn dir_blocks<S: Storage>(lfs: Lfs<S>, dir: LfsMdir, includeorphans: bool, n: nat) -> Seq<u32>
    decreases n,
{
    if n == 0 {
        seq![]
    } else {
        dir_blocks(lfs, dir, includeorphans, (n - 1) as nat) + entry_blocks(lfs, dir, (n - 1) as u32, includeorphans)
    }
}

/// Lists the blocks that the entries of the metadata pair `dir` use, as a
/// traversal of the filesystem visits them: for each entry, the blocks of
/// its file, and the pair of its directory when `includeorphans` is set.
/// Entries without a struct are skipped.
pub fn lfs_fs_traverse_dir<S: Storage>(lfs: &mut Lfs<S>, dir: &LfsMdir, includeorphans: bool, visited: &mut Vec<u32>) -> (r:
    Result<(), Error>)
    requires
        lfs_read_ready(*old(lfs)),
        old(lfs).rcache.wf(old(lfs).cfg.cache_size),
        rcache_agrees(old(lfs).rcache, old(lfs).cfg.disk()),
        dir.off <= old(lfs).cfg.block_size,
    ensures
        lfs_read_ready(*final(lfs)),
        same_params(final(lfs).cfg, old(lfs).cfg),
        final(lfs).cfg.disk() == old(lfs).cfg.disk(),
        final(lfs).block_count == old(lfs).block_count,
        same_but_cfg_rcache(*final(lfs), *old(lfs)),
        final(lfs).rcache.wf(old(lfs).cfg.cache_size),
        rcache_agrees(final(lfs).rcache, old(lfs).cfg.disk()),
        old(visited)@.is_prefix_of(final(visited)@),
        r matches Err(e) ==> crate::storage::device_error(e),
        r is Ok ==> final(visited)@ == old(visited)@ + dir_blocks(*old(lfs), *dir, includeorphans, dir.count as nat),
        dir.count == 0 ==> r is Ok && final(visited)@ == old(visited)@ && *final(lfs) == *old(lfs),
{
    let ghost l0 = *lfs;
    let ghost v0 = visited@;
    let mut id: u16 = 0;
    while id < dir.count
        invariant
            l0 == *old(lfs),
            v0 == old(visited)@,
            id <= dir.count,
            lfs_read_ready(*lfs),
            same_params(lfs.cfg, l0.cfg),
            lfs.cfg.disk() == l0.cfg.disk(),
            lfs.block_count == l0.block_count,
            lfs.gdisk == l0.gdisk,
            same_but_cfg_rcache(*lfs, l0),
            lfs.rcache.wf(l0.cfg.cache_size),
            rcache_agrees(lfs.rcache, l0.cfg.disk()),
            dir.off <= l0.cfg.block_size,
            visited@ == v0 + dir_blocks(l0, *dir, includeorphans, id as nat),
            id == 0 ==> *lfs == l0,
        decreases dir.count - id,
    {
        let ghost vb = visited@;
        let mut raw: Vec<u8> = vec![0u8, 0u8, 0u8, 0u8, 0u8, 0u8, 0u8, 0u8];
        let gmask = lfs_mktag(0x700, 0x3ff, 0);
        let gtag = lfs_mktag(LFS_TYPE_STRUCT, id as u32, 8);
        proof {
            let i = id as u32;
            assert(((0x200u32 << 20u32) | (i << 10u32) | 8u32) & 0x3ffu32 == 8u32) by (bit_vector);
            assert(spec_tag_size(gtag) == 8);
            assert(getslice_result(*lfs, *dir, gmask, gtag) == getslice_result(l0, *dir, gmask, gtag));
        }
        let res = lfs_dir_get(lfs, dir, gmask, gtag, raw.as_mut_slice());
        match res {
            Err(e) => {
                if e == Error::NoEntry {
                    proof {
                        assert(entry_blocks(l0, *dir, id as u32, includeorphans) =~= seq![]);
                        assert(visited@ =~= v0 + dir_blocks(l0, *dir, includeorphans, (id + 1) as nat));
                    }
                    id = id + 1;
                    continue;
                }
                return Err(e);
            },
            Ok(tag) => {
                let ghost found = getslice_result(l0, *dir, gmask, gtag);
                assert(found is Some);
                proof {
                    let (t0, off, gd) = found->Some_0;
                    let d = struct_data(l0, *dir, t0, off);
                    assert(raw@ =~= d) by {
                        let n = if spec_tag_size(t0) < 8 { spec_tag_size(t0) as int } else { 8int };
                        assert forall|k: int| 0 <= k < 8 implies raw@[k] == d[k] by {
                            let blk = l0.cfg.disk()[dir.pair[0] as int];
                            if k < n {
                                assert(raw@.subrange(0, n)[k] == raw@[k]);
                                assert(blk.subrange(off + 4, off + 4 + n)[k] == blk[off + 4 + k]);
                            }
                        }
                    }
                }
                let p0 = le32_at(raw.as_slice(), 0);
                let p1 = le32_at(raw.as_slice(), 4);
                if lfs_tag_type3(tag) as u32 == LFS_TYPE_CTZSTRUCT {
                    let mut rc = cache_placeholder();
                    core::mem::swap(&mut rc, &mut lfs.rcache);
                    let ghost lt = *lfs;
                    let res = lfs_ctz_traverse(lfs, None, &mut rc, p0, p1, visited);
                    core::mem::swap(&mut rc, &mut lfs.rcache);
                    match res {
                        Err(e) => {
                            return Err(e);
                        },
                        Ok(()) => {},
                    }
                    proof {
                        let bs = l0.cfg.block_size;
                        if p1 > 0 {
                            let (ci, co) = choose|ci: nat, co: int|
                                #![trigger ctz_in_block(bs, p1 - 1, ci, co)]
                                ci < 0x0400_0000 && ctz_in_block(bs, p1 - 1, ci, co) && visited@ == vb + ctz_visits(
                                    l0.cfg.disk(),
                                    None,
                                    p0,
                                    ci,
                                );
                            let (cl, col) = choose|ci: nat, co: int|
                                #![trigger ctz_in_block(bs, p1 - 1, ci, co)]
                                ci < 0x0400_0000 && ctz_in_block(bs, p1 - 1, ci, co);
                            lemma_ctz_in_block_unique(bs, p1 - 1, ci, co, cl, col);
                            assert(ctz_last_index(bs, p1) == cl);
                        }
                        assert(entry_blocks(l0, *dir, id as u32, includeorphans) == ctz_file_visits(l0.cfg.disk(), None, bs,
                            p0, p1));
                        assert(visited@ =~= v0 + dir_blocks(l0, *dir, includeorphans, (id + 1) as nat));
                    }
                } else if includeorphans && lfs_tag_type3(tag) as u32 == LFS_TYPE_DIRSTRUCT {
                    visited.push(p0);
                    visited.push(p1);
                    proof {
                        assert(visited@ =~= v0 + dir_blocks(l0, *dir, includeorphans, (id + 1) as nat));
                    }
                } else {
                    proof {
                        assert(visited@ =~= v0 + dir_blocks(l0, *dir, includeorphans, (id + 1) as nat));
                    }
                }
            },
        }
        id = id + 1;
    }
    Ok(())
}

/// The blocks of an open file that a traversal lists: those of the
/// file it last stored, when that has changed since the file was
/// opened, and those of the file being written, up to its position.
/// Inline files hold no blocks.
pub open spec fn file_blocks(disk: Seq<Seq<u8>>, block_size: u32, f: LfsFile) -> Seq<u32> {
    if f.type_ == LsfType::REG && f.flags & LFS_F_INLINE == 0 {
        (if f.flags & LFS_F_DIRTY != 0 {
            ctz_file_visits(disk, Some(f.cache), block_size, f.ctz.head, f.ctz.size)
        } else {
            seq![]
        }) + (if f.flags & LFS_F_WRITING != 0 {
            ctz_file_visits(disk, Some(f.cache), block_size, f.block, f.pos)
        } else {
            seq![]
        })
    } else {
        seq![]
    }
}

/// The blocks of the first `n` open files, in order.
pub open spec fn files_blocks(disk: Seq<Seq<u8>>, block_size: u32, files: Seq<LfsFile>, n: nat) -> Seq<u32>
    decreases n,
{
    if n == 0 {
        seq![]
    } else {
        files_blocks(disk, block_size, files, (n - 1) as nat) + file_blocks(disk, block_size, files[n - 1])
    }
}

/// The listing of the first `n` open files holds, in one piece, the
/// listing of each of them.
proof fn lemma_files_blocks_segment(disk: Seq<Seq<u8>>, bs: u32, files: Seq<LfsFile>, n: nat, i: int)
    requires
        0 <= i < n <= files.len(),
    ensures
        exists|a: Seq<u32>, b: Seq<u32>| files_blocks(disk, bs, files, n) == a + file_blocks(disk, bs, files[i]) + b,
    decreases n,
{
    if i == n - 1 {
        let a = files_blocks(disk, bs, files, (n - 1) as nat);
        let e: Seq<u32> = seq![];
        assert(files_blocks(disk, bs, files, n) =~= a + file_blocks(disk, bs, files[i]) + e);
    } else {
        lemma_files_blocks_segment(disk, bs, files, (n - 1) as nat, i);
        let (a, b) = choose|a: Seq<u32>, b: Seq<u32>| files_blocks(disk, bs, files, (n - 1) as nat) == a + file_blocks(
            disk,
            bs,
            files[i],
        ) + b;
        let b2 = b + file_blocks(disk, bs, files[n - 1]);
        assert(files_blocks(disk, bs, files, n) =~= a + file_blocks(disk, bs, files[i]) + b2);
    }
}

/// An open file that is not inline and is being written holds the blocks
/// of the skip list that ends at its current block and position: a
/// traversal over any list of open files that holds it lists those
/// blocks, in one piece, whether or not the file also has a stored skip
/// list that changed.
pub proof fn law_traversal_lists_blocks_being_written(disk: Seq<Seq<u8>>, bs: u32, files: Seq<LfsFile>, i: int)
    requires
        0 <= i < files.len(),
        files[i].type_ == LsfType::REG,
        files[i].flags & LFS_F_INLINE == 0,
        files[i].flags & LFS_F_WRITING != 0,
    ensures
        exists|a: Seq<u32>, b: Seq<u32>| files_blocks(disk, bs, files, files.len()) == a + ctz_file_visits(
            disk,
            Some(files[i].cache),
            bs,
            files[i].block,
            files[i].pos,
        ) + b,
{
    lemma_files_blocks_segment(disk, bs, files, files.len(), i);
    let f = files[i];
    let (a, b) = choose|a: Seq<u32>, b: Seq<u32>| files_blocks(disk, bs, files, files.len()) == a + file_blocks(disk, bs, f)
        + b;
    let w = ctz_file_visits(disk, Some(f.cache), bs, f.block, f.pos);
    let d = if f.flags & LFS_F_DIRTY != 0 {
        ctz_file_visits(disk, Some(f.cache), bs, f.ctz.head, f.ctz.size)
    } else {
        seq![]
    };
    assert(file_blocks(disk, bs, f) == d + w);
    assert(files_blocks(disk, bs, files, files.len()) =~= (a + d) + w + b);
}

/// An open file that is not inline and whose stored skip list changed
/// since it was opened holds that list's blocks: a traversal over any
/// list of open files that holds it lists them, in one piece.
pub proof fn law_traversal_lists_changed_stored_blocks(disk: Seq<Seq<u8>>, bs: u32, files: Seq<LfsFile>, i: int)
    requires
        0 <= i < files.len(),
        files[i].type_ == LsfType::REG,
        files[i].flags & LFS_F_INLINE == 0,
        files[i].flags & LFS_F_DIRTY != 0,
    ensures
        exists|a: Seq<u32>, b: Seq<u32>| files_blocks(disk, bs, files, files.len()) == a + ctz_file_visits(
            disk,
            Some(files[i].cache),
            bs,
            files[i].ctz.head,
            files[i].ctz.size,
        ) + b,
{
    lemma_files_blocks_segment(disk, bs, files, files.len(), i);
    let f = files[i];
    let (a, b) = choose|a: Seq<u32>, b: Seq<u32>| files_blocks(disk, bs, files, files.len()) == a + file_blocks(disk, bs, f)
        + b;
    let d = ctz_file_visits(disk, Some(f.cache), bs, f.ctz.head, f.ctz.size);
    let w = if f.flags & LFS_F_WRITING != 0 {
        ctz_file_visits(disk, Some(f.cache), bs, f.block, f.pos)
    } else {
        seq![]
    };
    assert(file_blocks(disk, bs, f) == d + w);
    assert(files_blocks(disk, bs, files, files.len()) =~= a + d + (w + b));
}

/// A file that is both written and has a changed stored skip list is
/// listed with both lists: the stored one, then the one being written.
pub proof fn law_written_and_changed_file_lists_both(disk: Seq<Seq<u8>>, bs: u32, f: LfsFile)
    requires
        f.type_ == LsfType::REG,
        f.flags & LFS_F_INLINE == 0,
        f.flags & LFS_F_DIRTY != 0,
        f.flags & LFS_F_WRITING != 0,
    ensures
        file_blocks(disk, bs, f) == ctz_file_visits(disk, Some(f.cache), bs, f.ctz.head, f.ctz.size) + ctz_file_visits(
            disk,
            Some(f.cache),
            bs,
            f.block,
            f.pos,
        ),
        files_blocks(disk, bs, seq![f], 1) == ctz_file_visits(disk, Some(f.cache), bs, f.ctz.head, f.ctz.size)
            + ctz_file_visits(disk, Some(f.cache), bs, f.block, f.pos),
{
    assert(files_blocks(disk, bs, seq![f], 0) =~= seq![]);
    assert(files_blocks(disk, bs, seq![f], 1) =~= file_blocks(disk, bs, f));
}

/// A list that ends with the listing of open files holds, in one piece,
/// the blocks being written and the changed stored blocks of each of them.
proof fn lemma_files_listed(disk: Seq<Seq<u8>>, bs: u32, files: Seq<LfsFile>, v0: Seq<u32>, v: Seq<u32>)
    requires
        v == v0 + files_blocks(disk, bs, files, files.len()),
    ensures
        forall|i: int|
            0 <= i < files.len() && (#[trigger] files[i]).type_ == LsfType::REG && files[i].flags & LFS_F_INLINE == 0
                && files[i].flags & LFS_F_WRITING != 0 ==> exists|a: Seq<u32>, b: Seq<u32>| v == v0 + a + ctz_file_visits(
                disk, Some(files[i].cache), bs, files[i].block, files[i].pos) + b,
        forall|i: int|
            0 <= i < files.len() && (#[trigger] files[i]).type_ == LsfType::REG && files[i].flags & LFS_F_INLINE == 0
                && files[i].flags & LFS_F_DIRTY != 0 ==> exists|a: Seq<u32>, b: Seq<u32>| v == v0 + a + ctz_file_visits(
                disk, Some(files[i].cache), bs, files[i].ctz.head, files[i].ctz.size) + b,
{
    assert forall|i: int|
        0 <= i < files.len() && (#[trigger] files[i]).type_ == LsfType::REG && files[i].flags & LFS_F_INLINE == 0
            && files[i].flags & LFS_F_WRITING != 0 implies exists|a: Seq<u32>, b: Seq<u32>| v == v0 + a + ctz_file_visits(
            disk, Some(files[i].cache), bs, files[i].block, files[i].pos) + b by {
        law_traversal_lists_blocks_being_written(disk, bs, files, i);
        let w = ctz_file_visits(disk, Some(files[i].cache), bs, files[i].block, files[i].pos);
        let (a, b) = choose|a: Seq<u32>, b: Seq<u32>| files_blocks(disk, bs, files, files.len()) == a + w + b;
        assert(v =~= v0 + a + w + b);
    }
    assert forall|i: int|
        0 <= i < files.len() && (#[trigger] files[i]).type_ == LsfType::REG && files[i].flags & LFS_F_INLINE == 0
            && files[i].flags & LFS_F_DIRTY != 0 implies exists|a: Seq<u32>, b: Seq<u32>| v == v0 + a + ctz_file_visits(
            disk, Some(files[i].cache), bs, files[i].ctz.head, files[i].ctz.size) + b by {
        law_traversal_lists_changed_stored_blocks(disk, bs, files, i);
        let w = ctz_file_visits(disk, Some(files[i].cache), bs, files[i].ctz.head, files[i].ctz.size);
        let (a, b) = choose|a: Seq<u32>, b: Seq<u32>| files_blocks(disk, bs, files, files.len()) == a + w + b;
        assert(v =~= v0 + a + w + b);
    }
}

/// Blocks listed in one piece after a prefix are listed in one piece
/// after a shorter prefix too.
proof fn lemma_listed_after(disk: Seq<Seq<u8>>, bs: u32, files: Seq<LfsFile>, v0: Seq<u32>, wb: Seq<u32>, vw: Seq<u32>, v: Seq<
    u32,
>)
    requires
        vw == v0 + wb,
        forall|i: int|
            0 <= i < files.len() && (#[trigger] files[i]).type_ == LsfType::REG && files[i].flags & LFS_F_INLINE == 0
                && files[i].flags & LFS_F_WRITING != 0 ==> exists|a: Seq<u32>, b: Seq<u32>| v == vw + a + ctz_file_visits(
                disk, Some(files[i].cache), bs, files[i].block, files[i].pos) + b,
        forall|i: int|
            0 <= i < files.len() && (#[trigger] files[i]).type_ == LsfType::REG && files[i].flags & LFS_F_INLINE == 0
                && files[i].flags & LFS_F_DIRTY != 0 ==> exists|a: Seq<u32>, b: Seq<u32>| v == vw + a + ctz_file_visits(
                disk, Some(files[i].cache), bs, files[i].ctz.head, files[i].ctz.size) + b,
    ensures
        forall|i: int|
            0 <= i < files.len() && (#[trigger] files[i]).type_ == LsfType::REG && files[i].flags & LFS_F_INLINE == 0
                && files[i].flags & LFS_F_WRITING != 0 ==> exists|a: Seq<u32>, b: Seq<u32>| v == v0 + a + ctz_file_visits(
                disk, Some(files[i].cache), bs, files[i].block, files[i].pos) + b,
        forall|i: int|
            0 <= i < files.len() && (#[trigger] files[i]).type_ == LsfType::REG && files[i].flags & LFS_F_INLINE == 0
                && files[i].flags & LFS_F_DIRTY != 0 ==> exists|a: Seq<u32>, b: Seq<u32>| v == v0 + a + ctz_file_visits(
                disk, Some(files[i].cache), bs, files[i].ctz.head, files[i].ctz.size) + b,
{
    assert forall|i: int|
        0 <= i < files.len() && (#[trigger] files[i]).type_ == LsfType::REG && files[i].flags & LFS_F_INLINE == 0
                && files[i].flags & LFS_F_WRITING != 0 implies exists|a: Seq<u32>, b: Seq<u32>| v == v0 + a + ctz_file_visits(
            disk, Some(files[i].cache), bs, files[i].block, files[i].pos) + b by {
        let w = ctz_file_visits(disk, Some(files[i].cache), bs, files[i].block, files[i].pos);
        let (a, b) = choose|a: Seq<u32>, b: Seq<u32>| v == vw + a + w + b;
        assert(v =~= v0 + (wb + a) + w + b);
    }
    assert forall|i: int|
        0 <= i < files.len() && (#[trigger] files[i]).type_ == LsfType::REG && files[i].flags & LFS_F_INLINE == 0
                && files[i].flags & LFS_F_DIRTY != 0 implies exists|a: Seq<u32>, b: Seq<u32>| v == v0 + a + ctz_file_visits(
            disk, Some(files[i].cache), bs, files[i].ctz.head, files[i].ctz.size) + b by {
        let w = ctz_file_visits(disk, Some(files[i].cache), bs, files[i].ctz.head, files[i].ctz.size);
        let (a, b) = choose|a: Seq<u32>, b: Seq<u32>| v == vw + a + w + b;
        assert(v =~= v0 + (wb + a) + w + b);
    }
}

/// The listing of the first `n` entries of a pair holds, in one piece,
/// the listing of each of them.
proof fn lemma_dir_blocks_segment<S: Storage>(l: Lfs<S>, dir: LfsMdir, incl: bool, n: nat, id: u32)
    requires
        id < n,
    ensures
        exists|a: Seq<u32>, b: Seq<u32>| dir_blocks(l, dir, incl, n) == a + entry_blocks(l, dir, id, incl) + b,
    decreases n,
{
    if id == n - 1 {
        let a = dir_blocks(l, dir, incl, (n - 1) as nat);
        let e: Seq<u32> = seq![];
        assert(dir_blocks(l, dir, incl, n) =~= a + entry_blocks(l, dir, id, incl) + e);
    } else {
        lemma_dir_blocks_segment(l, dir, incl, (n - 1) as nat, id);
        let (a, b) = choose|a: Seq<u32>, b: Seq<u32>| dir_blocks(l, dir, incl, (n - 1) as nat) == a + entry_blocks(
            l,
            dir,
            id,
            incl,
        ) + b;
        let b2 = b + entry_blocks(l, dir, (n - 1) as u32, incl);
        assert(dir_blocks(l, dir, incl, n) =~= a + entry_blocks(l, dir, id, incl) + b2);
    }
}

/// An entry of a pair whose newest struct names a file stored as a skip
/// list has that list's blocks listed, in one piece, by a traversal of
/// the pair: the list ends at the head and size the struct holds.
pub proof fn law_traversal_lists_file_entries<S: Storage>(l: Lfs<S>, dir: LfsMdir, incl: bool, n: nat, id: u32)
    requires
        id < n,
        getslice_result(l, dir, struct_mask(), struct_tag(id)) is Some,
        spec_tag_type3(getslice_result(l, dir, struct_mask(), struct_tag(id))->Some_0.0.wrapping_add(
            getslice_result(l, dir, struct_mask(), struct_tag(id))->Some_0.2,
        )) == LFS_TYPE_CTZSTRUCT,
    ensures
        ({
            let (tag, off, _gdiff) = getslice_result(l, dir, struct_mask(), struct_tag(id))->Some_0;
            let d = struct_data(l, dir, tag, off);
            let head = spec_le32(d.subrange(0, 4)) as u32;
            let size = spec_le32(d.subrange(4, 8)) as u32;
            let w = ctz_file_visits(l.cfg.disk(), None, l.cfg.block_size, head, size);
            exists|a: Seq<u32>, b: Seq<u32>| dir_blocks(l, dir, incl, n) == a + w + b
        }),
{
    lemma_dir_blocks_segment(l, dir, incl, n, id);
}

/// With orphans included, an entry of a pair whose newest struct names a
/// directory has that directory's pair listed by a traversal of the pair.
pub proof fn law_traversal_lists_directory_entries<S: Storage>(l: Lfs<S>, dir: LfsMdir, n: nat, id: u32)
    requires
        id < n,
        getslice_result(l, dir, struct_mask(), struct_tag(id)) is Some,
        spec_tag_type3(getslice_result(l, dir, struct_mask(), struct_tag(id))->Some_0.0.wrapping_add(
            getslice_result(l, dir, struct_mask(), struct_tag(id))->Some_0.2,
        )) == LFS_TYPE_DIRSTRUCT,
    ensures
        ({
            let (tag, off, _gdiff) = getslice_result(l, dir, struct_mask(), struct_tag(id))->Some_0;
            let d = struct_data(l, dir, tag, off);
            let p = seq![spec_le32(d.subrange(0, 4)) as u32, spec_le32(d.subrange(4, 8)) as u32];
            exists|a: Seq<u32>, b: Seq<u32>| dir_blocks(l, dir, true, n) == a + p + b
        }),
{
    lemma_dir_blocks_segment(l, dir, true, n, id);
}

/// A walk lists each pair it loads, as asked for, followed by the blocks
/// that pair's entries use.
pub proof fn law_walk_lists_each_pair<S: Storage>(l: Lfs<S>, dirs: Seq<LfsMdir>, incl: bool, i: int)
    requires
        0 <= i < dirs.len(),
    ensures
        exists|a: Seq<u32>, b: Seq<u32>| walk_blocks(l, dirs, incl, dirs.len()) == a + seq![
            walk_request(dirs, i)[0],
            walk_request(dirs, i)[1],
        ] + dir_blocks(l, dirs[i], incl, dirs[i].count as nat) + b,
{
    lemma_walk_segment(l, dirs, incl, dirs.len(), i);
}

proof fn lemma_walk_segment<S: Storage>(l: Lfs<S>, dirs: Seq<LfsMdir>, incl: bool, n: nat, i: int)
    requires
        0 <= i < n <= dirs.len(),
    ensures
        exists|a: Seq<u32>, b: Seq<u32>| walk_blocks(l, dirs, incl, n) == a + seq![
            walk_request(dirs, i)[0],
            walk_request(dirs, i)[1],
        ] + dir_blocks(l, dirs[i], incl, dirs[i].count as nat) + b,
    decreases n,
{
    let q = walk_request(dirs, i);
    let seg = seq![q[0], q[1]] + dir_blocks(l, dirs[i], incl, dirs[i].count as nat);
    if i == n - 1 {
        let a = walk_blocks(l, dirs, incl, (n - 1) as nat);
        let e: Seq<u32> = seq![];
        assert(walk_blocks(l, dirs, incl, n) =~= a + seq![q[0], q[1]] + dir_blocks(l, dirs[i], incl, dirs[i].count as nat)
            + e);
    } else {
        lemma_walk_segment(l, dirs, incl, (n - 1) as nat, i);
        let (a, b) = choose|a: Seq<u32>, b: Seq<u32>| walk_blocks(l, dirs, incl, (n - 1) as nat) == a + seq![q[0], q[1]]
            + dir_blocks(l, dirs[i], incl, dirs[i].count as nat) + b;
        let qn = walk_request(dirs, n - 1);
        let b2 = b + seq![qn[0], qn[1]] + dir_blocks(l, dirs[n - 1], incl, dirs[n - 1].count as nat);
        assert(walk_blocks(l, dirs, incl, n) =~= a + seq![q[0], q[1]] + dir_blocks(l, dirs[i], incl, dirs[i].count as nat)
            + b2);
    }
}

/// A skip-list traversal's result, in terms of the index of the file's
/// last block.
proof fn lemma_ctz_visits_of(disk: Seq<Seq<u8>>, pc: Option<LfsCache>, bs: u32, head: u32, size: u32, ci: nat, co: int)
    requires
        bs >= 128,
        size > 0,
        ci < 0x0400_0000,
        ctz_in_block(bs, size - 1, ci, co),
    ensures
        ctz_file_visits(disk, pc, bs, head, size) == ctz_visits(disk, pc, head, ci),
{
    let (cl, col) = choose|ci: nat, co: int|
        #![trigger ctz_in_block(bs, size - 1, ci, co)]
        ci < 0x0400_0000 && ctz_in_block(bs, size - 1, ci, co);
    lemma_ctz_in_block_unique(bs, size - 1, ci, co, cl, col);
}

/// A file whose blocks a traversal lists without reading the device:
/// each skip list it names ends in its first block.
pub open spec fn file_lists_without_reads(block_size: u32, f: LfsFile) -> bool {
    f.type_ == LsfType::REG && f.flags & LFS_F_INLINE == 0 ==> (f.flags & LFS_F_DIRTY == 0 || f.ctz.size <= block_size)
        && (f.flags & LFS_F_WRITING == 0 || f.pos <= block_size)
}

/// Lists the blocks that open files hold, as a traversal of the
/// filesystem visits them after the metadata pairs: for each file that is
/// not inline, the blocks of the file it last stored when that changed,
/// and those of the file it is writing, seen through its cache.
#[verifier::rlimit(40)]
pub fn lfs_fs_traverse_files<S: Storage>(lfs: &mut Lfs<S>, files: &[LfsFile], visited: &mut Vec<u32>) -> (r: Result<
    (),
    Error,
>)
    requires
        lfs_read_ready(*old(lfs)),
        old(lfs).rcache.wf(old(lfs).cfg.cache_size),
        rcache_agrees(old(lfs).rcache, old(lfs).cfg.disk()),
        forall|i: int| 0 <= i < files@.len() ==> pcache_fits(#[trigger] files@[i].cache, old(lfs).cfg.disk()),
    ensures
        lfs_read_ready(*final(lfs)),
        same_params(final(lfs).cfg, old(lfs).cfg),
        final(lfs).cfg.disk() == old(lfs).cfg.disk(),
        final(lfs).block_count == old(lfs).block_count,
        same_but_cfg_rcache(*final(lfs), *old(lfs)),
        final(lfs).rcache.wf(old(lfs).cfg.cache_size),
        rcache_agrees(final(lfs).rcache, old(lfs).cfg.disk()),
        old(visited)@.is_prefix_of(final(visited)@),
        r matches Err(e) ==> crate::storage::device_error(e),
        r is Ok ==> final(visited)@ == old(visited)@ + files_blocks(old(lfs).cfg.disk(), old(lfs).cfg.block_size,
            files@, files@.len()),
        r is Ok ==> forall|i: int|
            0 <= i < files@.len() && (#[trigger] files@[i]).type_ == LsfType::REG && files@[i].flags & LFS_F_INLINE == 0
                && files@[i].flags & LFS_F_WRITING != 0 ==> exists|a: Seq<u32>, b: Seq<u32>| final(visited)@ == old(
                visited,
            )@ + a + ctz_file_visits(old(lfs).cfg.disk(), Some(files@[i].cache), old(lfs).cfg.block_size, files@[i].block,
                files@[i].pos) + b,
        r is Ok ==> forall|i: int|
            0 <= i < files@.len() && (#[trigger] files@[i]).type_ == LsfType::REG && files@[i].flags & LFS_F_INLINE == 0
                && files@[i].flags & LFS_F_DIRTY != 0 ==> exists|a: Seq<u32>, b: Seq<u32>| final(visited)@ == old(
                visited,
            )@ + a + ctz_file_visits(old(lfs).cfg.disk(), Some(files@[i].cache), old(lfs).cfg.block_size,
                files@[i].ctz.head, files@[i].ctz.size) + b,
        (forall|i: int| 0 <= i < files@.len() ==> file_lists_without_reads(old(lfs).cfg.block_size, #[trigger] files@[i]))
            ==> r is Ok && *final(lfs) == *old(lfs),
{
    let ghost l0 = *lfs;
    let ghost v0 = visited@;
    let ghost disk = l0.cfg.disk();
    let ghost bs = l0.cfg.block_size;
    let mut i: usize = 0;
    while i < files.len()
        invariant
            l0 == *old(lfs),
            v0 == old(visited)@,
            disk == l0.cfg.disk(),
            bs == l0.cfg.block_size,
            i <= files@.len(),
            lfs_read_ready(*lfs),
            same_params(lfs.cfg, l0.cfg),
            lfs.cfg.disk() == disk,
            lfs.block_count == l0.block_count,
            same_but_cfg_rcache(*lfs, l0),
            lfs.rcache.wf(l0.cfg.cache_size),
            rcache_agrees(lfs.rcache, disk),
            forall|k: int| 0 <= k < files@.len() ==> pcache_fits(#[trigger] files@[k].cache, disk),
            visited@ == v0 + files_blocks(disk, bs, files@, i as nat),
            (forall|k: int| 0 <= k < files@.len() ==> file_lists_without_reads(bs, #[trigger] files@[k])) ==> *lfs == l0,
        decreases files@.len() - i,
    {
        let f = &files[i];
        let ghost vb = visited@;
        let ghost li = *lfs;
        let ghost quiet = forall|k: int| 0 <= k < files@.len() ==> file_lists_without_reads(bs, #[trigger] files@[k]);
        proof {
            if quiet {
                assert(file_lists_without_reads(bs, files@[i as int]));
            }
        }
        let is_reg = match f.type_ {
            LsfType::REG => true,
            _ => false,
        };
        if is_reg && f.flags & LFS_F_INLINE == 0 {
            let ghost va = visited@;
            if f.flags & LFS_F_DIRTY != 0 {
                let mut rc = cache_placeholder();
                core::mem::swap(&mut rc, &mut lfs.rcache);
                let res = lfs_ctz_traverse(lfs, Some(&f.cache), &mut rc, f.ctz.head, f.ctz.size, visited);
                core::mem::swap(&mut rc, &mut lfs.rcache);
                proof {
                    if quiet {
                        assert(*lfs == li);
                    }
                }
                match res {
                    Err(e) => {
                        return Err(e);
                    },
                    Ok(()) => {},
                }
                proof {
                    if f.ctz.size > 0 {
                        let (ci, co) = choose|ci: nat, co: int|
                            #![trigger ctz_in_block(bs, f.ctz.size - 1, ci, co)]
                            ci < 0x0400_0000 && ctz_in_block(bs, f.ctz.size - 1, ci, co) && visited@ == vb + ctz_visits(
                                disk, Some(f.cache), f.ctz.head, ci);
                        lemma_ctz_visits_of(disk, Some(f.cache), bs, f.ctz.head, f.ctz.size, ci, co);
                    } else {
                        assert(visited@ =~= vb + ctz_file_visits(disk, Some(f.cache), bs, f.ctz.head, f.ctz.size));
                    }
                }
            }
            let ghost vc = visited@;
            if f.flags & LFS_F_WRITING != 0 {
                let mut rc = cache_placeholder();
                core::mem::swap(&mut rc, &mut lfs.rcache);
                let res = lfs_ctz_traverse(lfs, Some(&f.cache), &mut rc, f.block, f.pos, visited);
                core::mem::swap(&mut rc, &mut lfs.rcache);
                proof {
                    if quiet {
                        assert(*lfs == li);
                    }
                }
                match res {
                    Err(e) => {
                        return Err(e);
                    },
                    Ok(()) => {},
                }
                proof {
                    if f.pos > 0 {
                        let (ci, co) = choose|ci: nat, co: int|
                            #![trigger ctz_in_block(bs, f.pos - 1, ci, co)]
                            ci < 0x0400_0000 && ctz_in_block(bs, f.pos - 1, ci, co) && visited@ == vc + ctz_visits(
                                disk, Some(f.cache), f.block, ci);
                        lemma_ctz_visits_of(disk, Some(f.cache), bs, f.block, f.pos, ci, co);
                    } else {
                        assert(visited@ =~= vc + ctz_file_visits(disk, Some(f.cache), bs, f.block, f.pos));
                    }
                }
            }
            proof {
                assert(visited@ =~= v0 + files_blocks(disk, bs, files@, (i + 1) as nat));
            }
        } else {
            proof {
                assert(visited@ =~= v0 + files_blocks(disk, bs, files@, (i + 1) as nat));
            }
        }
        i = i + 1;
    }
    proof {
        assert(files@.len() == files@.len() as nat);
        lemma_files_listed(disk, bs, files@, v0, visited@);
    }
    Ok(())
}

/// Two states that agree on the device, the global state on disk and the
/// block size list the same blocks for the entries of a pair.
proof fn lemma_dir_blocks_same<S: Storage>(a: Lfs<S>, b: Lfs<S>, dir: LfsMdir, incl: bool, n: nat)
    requires
        a.cfg.disk() == b.cfg.disk(),
        a.gdisk == b.gdisk,
        a.cfg.block_size == b.cfg.block_size,
    ensures
        dir_blocks(a, dir, incl, n) == dir_blocks(b, dir, incl, n),
    decreases n,
{
    if n > 0 {
        lemma_dir_blocks_same(a, b, dir, incl, (n - 1) as nat);
        assert(getslice_result(a, dir, struct_mask(), struct_tag((n - 1) as u32)) == getslice_result(b, dir, struct_mask(),
            struct_tag((n - 1) as u32)));
    }
}

/// The pair that step `i` of a walk of the metadata list asks for: the
/// root pair `[0, 1]` first, then the tail of the pair before.
pub open spec fn walk_request(dirs: Seq<LfsMdir>, i: int) -> [u32; 2] {
    if i == 0 {
        [0u32, 1u32]
    } else {
        dirs[i - 1].tail
    }
}

/// `dirs` are the pairs a walk of the metadata list loaded, in order: each
/// is the pair asked for, in either order, loaded from a valid log, and
/// each but the last names a tail.
pub open spec fn walk_loaded(disk: Seq<Seq<u8>>, bs: u32, dirs: Seq<LfsMdir>) -> bool {
    forall|i: int|
        0 <= i < dirs.len() ==> {
            let q = walk_request(dirs, i);
            &&& (#[trigger] dirs[i]).pair == q || dirs[i].pair == [q[1], q[0]]
            &&& fetched(disk[dirs[i].pair[0] as int], bs, dirs[i])
            &&& i > 0 ==> dirs[i - 1].tail[0] != LFS_BLOCK_NULL && dirs[i - 1].tail[1] != LFS_BLOCK_NULL
        }
}

/// The blocks that a walk over the first `n` loaded pairs lists: for each,
/// the pair as asked for, then the blocks its entries use.
pub open spec fn walk_blocks<S: Storage>(lfs: Lfs<S>, dirs: Seq<LfsMdir>, incl: bool, n: nat) -> Seq<u32>
    decreases n,
{
    if n == 0 {
        seq![]
    } else {
        let q = walk_request(dirs, n - 1);
        walk_blocks(lfs, dirs, incl, (n - 1) as nat) + seq![q[0], q[1]] + dir_blocks(lfs, dirs[n - 1], incl, dirs[n
            - 1].count as nat)
    }
}

/// Lists every block the filesystem uses, as a traversal visits them:
/// the metadata pairs from the root along their tails, each followed by
/// the blocks its entries use (directories' pairs too when
/// `includeorphans` is set), then the blocks the open `files` hold. A
/// tail list that loops back on itself is `Corrupt`.
/// Walks the metadata pairs from the root `[0, 1]` along their tails,
/// listing each pair as asked for and then the blocks its entries use. A
/// tail list that loops back on itself is `Corrupt`.
#[verifier::spinoff_prover]
#[verifier::rlimit(60)]
fn traverse_pairs<S: Storage>(lfs: &mut Lfs<S>, includeorphans: bool, visited: &mut Vec<u32>) -> (r: Result<(), Error>)
    requires
        lfs_read_ready(*old(lfs)),
        old(lfs).rcache.wf(old(lfs).cfg.cache_size),
        rcache_agrees(old(lfs).rcache, old(lfs).cfg.disk()),
    ensures
        lfs_read_ready(*final(lfs)),
        fetch_frame(*final(lfs), *old(lfs)),
        final(lfs).rcache.wf(old(lfs).cfg.cache_size),
        rcache_agrees(final(lfs).rcache, old(lfs).cfg.disk()),
        old(visited)@.is_prefix_of(final(visited)@),
        r matches Err(e) ==> crate::storage::device_error(e),
        r is Ok ==> exists|dirs: Seq<LfsMdir>|
            #![trigger walk_blocks(*old(lfs), dirs, includeorphans, dirs.len())]
            {
                &&& dirs.len() > 0
                &&& walk_loaded(old(lfs).cfg.disk(), old(lfs).cfg.block_size, dirs)
                &&& (dirs.last().tail[0] == LFS_BLOCK_NULL || dirs.last().tail[1] == LFS_BLOCK_NULL)
                &&& final(visited)@ == old(visited)@ + walk_blocks(*old(lfs), dirs, includeorphans, dirs.len())
            },
{
    let ghost l0 = *lfs;
    let ghost v0 = visited@;
    let mut dir = LfsMdir {
        pair: [0, 0],
        rev: 0,
        off: 0,
        etag: 0,
        count: 0,
        erased: false,
        split: false,
        tail: [0, 1],
    };
    let mut tortoise = LfsTortoise { pair: [LFS_BLOCK_NULL, LFS_BLOCK_NULL], i: 1, period: 1 };
    let ghost mut dirs: Seq<LfsMdir> = seq![];
    while !lfs_pair_isnull(&dir.tail)
        invariant
            l0 == *old(lfs),
            v0 == old(visited)@,
            lfs_read_ready(*lfs),
            fetch_frame(*lfs, l0),
            lfs.rcache.wf(l0.cfg.cache_size),
            rcache_agrees(lfs.rcache, l0.cfg.disk()),
            1 <= tortoise.i <= tortoise.period,
            walk_loaded(l0.cfg.disk(), l0.cfg.block_size, dirs),
            dirs.len() == 0 ==> dir.tail == [0u32, 1u32],
            dirs.len() > 0 ==> dir == dirs.last(),
            visited@ == v0 + walk_blocks(l0, dirs, includeorphans, dirs.len()),
        decreases (0x1_0000_0000 - tortoise.period) * 0x1_0000_0000 + (tortoise.period - tortoise.i),
    {
        if tortoise.i == tortoise.period && tortoise.period > 0x7fff_ffff {
            return Err(Error::Corrupt);
        }
        let ghost t0 = tortoise;
        let res = lfs_tortoise_detectcycles(&dir, &mut tortoise);
        match res {
            Err(_) => {
                return Err(Error::Corrupt);
            },
            Ok(()) => {},
        }
        proof {
            if t0.i == t0.period {
                assert((0x1_0000_0000 - 2 * t0.period) * 0x1_0000_0000 + (2 * t0.period - 1) < (0x1_0000_0000
                    - t0.period) * 0x1_0000_0000 + (t0.period - t0.i)) by (nonlinear_arith)
                    requires
                        1 <= t0.period <= 0x7fff_ffff,
                        t0.i == t0.period,
                ;
            }
        }
        let q = dir.tail;
        let ghost vb = visited@;
        let ghost lc = *lfs;
        traverse_pair(lfs, &mut dir, q, includeorphans, visited)?;
        proof {
            let nd = dirs.push(dir);
            lemma_walk_push(l0, dirs, dir, q, includeorphans);
            lemma_dir_blocks_same(lc, l0, dir, includeorphans, dir.count as nat);
            let wb = walk_blocks(l0, dirs, includeorphans, dirs.len());
            let db = dir_blocks(l0, dir, includeorphans, dir.count as nat);
            assert(vb == v0 + wb);
            assert(visited@ == vb + seq![q[0], q[1]] + db);
            assert(walk_blocks(l0, nd, includeorphans, nd.len()) == wb + seq![q[0], q[1]] + db);
            assert(visited@ =~= v0 + walk_blocks(l0, nd, includeorphans, nd.len()));
            dirs = nd;
        }
    }
    proof {
        assert(dirs.len() > 0) by {
            if dirs.len() == 0 {
                assert(dir.tail == [0u32, 1u32]);
            }
        }
        assert(v0.is_prefix_of(visited@)) by {
            assert(visited@.subrange(0, v0.len() as int) =~= v0);
        }
    }
    Ok(())
}

#[verifier::spinoff_prover]
#[verifier::rlimit(60)]
pub fn lfs_fs_traverse_<S: Storage>(lfs: &mut Lfs<S>, files: &[LfsFile], includeorphans: bool, visited: &mut Vec<u32>) -> (r:
    Result<(), Error>)
    requires
        lfs_read_ready(*old(lfs)),
        old(lfs).rcache.wf(old(lfs).cfg.cache_size),
        rcache_agrees(old(lfs).rcache, old(lfs).cfg.disk()),
        forall|i: int| 0 <= i < files@.len() ==> pcache_fits(#[trigger] files@[i].cache, old(lfs).cfg.disk()),
    ensures
        lfs_read_ready(*final(lfs)),
        fetch_frame(*final(lfs), *old(lfs)),
        final(lfs).rcache.wf(old(lfs).cfg.cache_size),
        rcache_agrees(final(lfs).rcache, old(lfs).cfg.disk()),
        old(visited)@.is_prefix_of(final(visited)@),
        r matches Err(e) ==> crate::storage::device_error(e),
        r is Ok ==> exists|dirs: Seq<LfsMdir>|
            #![trigger walk_blocks(*old(lfs), dirs, includeorphans, dirs.len())]
            {
                &&& dirs.len() > 0
                &&& walk_loaded(old(lfs).cfg.disk(), old(lfs).cfg.block_size, dirs)
                &&& (dirs.last().tail[0] == LFS_BLOCK_NULL || dirs.last().tail[1] == LFS_BLOCK_NULL)
                &&& final(visited)@ == old(visited)@ + walk_blocks(*old(lfs), dirs, includeorphans, dirs.len())
                    + files_blocks(old(lfs).cfg.disk(), old(lfs).cfg.block_size, files@, files@.len())
            },
        r is Ok ==> forall|i: int|
            0 <= i < files@.len() && (#[trigger] files@[i]).type_ == LsfType::REG && files@[i].flags & LFS_F_INLINE == 0
                && files@[i].flags & LFS_F_WRITING != 0 ==> exists|a: Seq<u32>, b: Seq<u32>| final(visited)@ == old(
                visited,
            )@ + a + ctz_file_visits(old(lfs).cfg.disk(), Some(files@[i].cache), old(lfs).cfg.block_size, files@[i].block,
                files@[i].pos) + b,
        r is Ok ==> forall|i: int|
            0 <= i < files@.len() && (#[trigger] files@[i]).type_ == LsfType::REG && files@[i].flags & LFS_F_INLINE == 0
                && files@[i].flags & LFS_F_DIRTY != 0 ==> exists|a: Seq<u32>, b: Seq<u32>| final(visited)@ == old(
                visited,
            )@ + a + ctz_file_visits(old(lfs).cfg.disk(), Some(files@[i].cache), old(lfs).cfg.block_size,
                files@[i].ctz.head, files@[i].ctz.size) + b,
{
    let ghost l0 = *lfs;
    let ghost v0 = visited@;
    traverse_pairs(lfs, includeorphans, visited)?;
    let ghost vw = visited@;
    let ghost lw = *lfs;
    lfs_fs_traverse_files(lfs, files, visited)?;
    proof {
        let dirs = choose|dirs: Seq<LfsMdir>|
            #![trigger walk_blocks(l0, dirs, includeorphans, dirs.len())]
            {
                &&& dirs.len() > 0
                &&& walk_loaded(l0.cfg.disk(), l0.cfg.block_size, dirs)
                &&& (dirs.last().tail[0] == LFS_BLOCK_NULL || dirs.last().tail[1] == LFS_BLOCK_NULL)
                &&& vw == v0 + walk_blocks(l0, dirs, includeorphans, dirs.len())
            };
        let wb = walk_blocks(l0, dirs, includeorphans, dirs.len());
        let fb = files_blocks(l0.cfg.disk(), l0.cfg.block_size, files@, files@.len());
        assert(visited@ == vw + fb);
        assert(visited@ =~= v0 + wb + fb);
        assert(v0.is_prefix_of(visited@)) by {
            assert(visited@.subrange(0, v0.len() as int) =~= v0);
        }
        lemma_listed_after(l0.cfg.disk(), l0.cfg.block_size, files@, v0, wb, vw, visited@);
        assert(dirs.len() > 0 && walk_loaded(l0.cfg.disk(), l0.cfg.block_size, dirs) && (dirs.last().tail[0]
            == LFS_BLOCK_NULL || dirs.last().tail[1] == LFS_BLOCK_NULL) && visited@ == v0 + walk_blocks(l0, dirs,
            includeorphans, dirs.len()) + files_blocks(l0.cfg.disk(), l0.cfg.block_size, files@, files@.len()));
    }
    Ok(())
}

/// One step of a traversal: lists the pair `q`, loads it into `dir`, and
/// lists the blocks its entries use.
fn traverse_pair<S: Storage>(lfs: &mut Lfs<S>, dir: &mut LfsMdir, q: [u32; 2], includeorphans: bool, visited: &mut Vec<u32>) -> (r:
    Result<(), Error>)
    requires
        lfs_read_ready(*old(lfs)),
        old(lfs).rcache.wf(old(lfs).cfg.cache_size),
        rcache_agrees(old(lfs).rcache, old(lfs).cfg.disk()),
    ensures
        lfs_read_ready(*final(lfs)),
        fetch_frame(*final(lfs), *old(lfs)),
        final(lfs).rcache.wf(old(lfs).cfg.cache_size),
        rcache_agrees(final(lfs).rcache, old(lfs).cfg.disk()),
        old(visited)@.is_prefix_of(final(visited)@),
        r matches Err(e) ==> crate::storage::device_error(e),
        r is Ok ==> {
            &&& final(dir).pair == q || final(dir).pair == [q[1], q[0]]
            &&& fetched(old(lfs).cfg.disk()[final(dir).pair[0] as int], old(lfs).cfg.block_size, *final(dir))
            &&& final(visited)@ == old(visited)@ + seq![q[0], q[1]] + dir_blocks(*old(lfs), *final(dir), includeorphans,
                final(dir).count as nat)
        },
{
    let ghost l0 = *lfs;
    let ghost v0 = visited@;
    visited.push(q[0]);
    visited.push(q[1]);
    let ghost vq = visited@;
    proof {
        assert(vq =~= v0 + seq![q[0], q[1]]);
        assert(v0.is_prefix_of(vq)) by {
            assert(vq.subrange(0, v0.len() as int) =~= v0);
        }
    }
    lfs_dir_fetch(lfs, dir, q)?;
    let ghost lf = *lfs;
    lfs_fs_traverse_dir(lfs, dir, includeorphans, visited)?;
    proof {
        lemma_dir_blocks_same(lf, l0, *dir, includeorphans, dir.count as nat);
        assert(v0.is_prefix_of(visited@)) by {
            assert(visited@.subrange(0, v0.len() as int) =~= vq.subrange(0, v0.len() as int));
        }
    }
    Ok(())
}

/// Loading one more pair, the one the walk asks for next, extends the walk
/// and its listing by that pair.
pub(crate) proof fn lemma_walk_push<S: Storage>(l0: Lfs<S>, dirs: Seq<LfsMdir>, dir: LfsMdir, q: [u32; 2], incl: bool)
    requires
        walk_loaded(l0.cfg.disk(), l0.cfg.block_size, dirs),
        dirs.len() == 0 ==> q == [0u32, 1u32],
        dirs.len() > 0 ==> q == dirs.last().tail && q[0] != LFS_BLOCK_NULL && q[1] != LFS_BLOCK_NULL,
        dir.pair == q || dir.pair == [q[1], q[0]],
        fetched(l0.cfg.disk()[dir.pair[0] as int], l0.cfg.block_size, dir),
    ensures
        walk_loaded(l0.cfg.disk(), l0.cfg.block_size, dirs.push(dir)),
        walk_blocks(l0, dirs.push(dir), incl, dirs.len() + 1) == walk_blocks(l0, dirs, incl, dirs.len()) + seq![q[0], q[1]]
            + dir_blocks(l0, dir, incl, dir.count as nat),
{
    let nd = dirs.push(dir);
    assert(walk_request(nd, dirs.len() as int) == q);
    assert forall|i: int| 0 <= i < nd.len() implies {
        let qq = walk_request(nd, i);
        &&& (#[trigger] nd[i]).pair == qq || nd[i].pair == [qq[1], qq[0]]
        &&& fetched(l0.cfg.disk()[nd[i].pair[0] as int], l0.cfg.block_size, nd[i])
        &&& i > 0 ==> nd[i - 1].tail[0] != LFS_BLOCK_NULL && nd[i - 1].tail[1] != LFS_BLOCK_NULL
    } by {
        if i < dirs.len() {
            assert(nd[i] == dirs[i]);
            assert(walk_request(nd, i) == walk_request(dirs, i));
        }
    }
    lemma_walk_prefix(l0, dirs, nd, incl, dirs.len() as nat);
}

/// The number of blocks the filesystem uses, as a traversal without
/// orphans counts them, open `files` included: each visit counts, and the
/// count stops at the largest size.
pub fn lfs_fs_size_<S: Storage>(lfs: &mut Lfs<S>, files: &[LfsFile]) -> (r: Result<u32, Error>)
    requires
        lfs_read_ready(*old(lfs)),
        old(lfs).rcache.wf(old(lfs).cfg.cache_size),
        rcache_agrees(old(lfs).rcache, old(lfs).cfg.disk()),
        forall|i: int| 0 <= i < files@.len() ==> pcache_fits(#[trigger] files@[i].cache, old(lfs).cfg.disk()),
    ensures
        lfs_read_ready(*final(lfs)),
        fetch_frame(*final(lfs), *old(lfs)),
        final(lfs).rcache.wf(old(lfs).cfg.cache_size),
        rcache_agrees(final(lfs).rcache, old(lfs).cfg.disk()),
        r matches Err(e) ==> crate::storage::device_error(e),
        r matches Ok(n) ==> exists|dirs: Seq<LfsMdir>|
            #![trigger walk_blocks(*old(lfs), dirs, false, dirs.len())]
            {
                let total = walk_blocks(*old(lfs), dirs, false, dirs.len()).len() + files_blocks(
                    old(lfs).cfg.disk(),
                    old(lfs).cfg.block_size,
                    files@,
                    files@.len(),
                ).len();
                &&& dirs.len() > 0
                &&& walk_loaded(old(lfs).cfg.disk(), old(lfs).cfg.block_size, dirs)
                &&& (dirs.last().tail[0] == LFS_BLOCK_NULL || dirs.last().tail[1] == LFS_BLOCK_NULL)
                &&& n == (if total < u32::MAX { total } else { u32::MAX as nat })
            },
{
    let mut visited: Vec<u32> = Vec::new();
    lfs_fs_traverse_(lfs, files, false, &mut visited)?;
    let n = visited.len();
    if n < u32::MAX as usize {
        Ok(n as u32)
    } else {
        Ok(u32::MAX)
    }
}

/// Two pairs share a block.
pub open spec fn pairs_overlap(a: [u32; 2], b: [u32; 2]) -> bool {
    a[0] == b[0] || a[1] == b[1] || a[0] == b[1] || a[1] == b[0]
}

/// Finds the metadata pair whose tail is `pair`, walking from the root
/// along the tails, and loads it into `pdir`. When `pair` is the root,
/// the root itself is loaded, and a root without a tail is `NoEntry`. A
/// pair that no tail names is `NoEntry`; a tail list that loops is
/// `Corrupt`.
#[verifier::spinoff_prover]
#[verifier::rlimit(60)]
pub fn lfs_fs_pred<S: Storage>(lfs: &mut Lfs<S>, pair: &[u32; 2], pdir: &mut LfsMdir) -> (r: Result<(), Error>)
    requires
        lfs_read_ready(*old(lfs)),
        old(lfs).rcache.wf(old(lfs).cfg.cache_size),
        rcache_agrees(old(lfs).rcache, old(lfs).cfg.disk()),
    ensures
        lfs_read_ready(*final(lfs)),
        fetch_frame(*final(lfs), *old(lfs)),
        final(lfs).rcache.wf(old(lfs).cfg.cache_size),
        rcache_agrees(final(lfs).rcache, old(lfs).cfg.disk()),
        r matches Err(e) ==> e == Error::NoEntry || crate::storage::device_error(e),
        r is Ok ==> exists|dirs: Seq<LfsMdir>|
            #![trigger walk_loaded(old(lfs).cfg.disk(), old(lfs).cfg.block_size, dirs)]
            {
                &&& dirs.len() > 0
                &&& walk_loaded(old(lfs).cfg.disk(), old(lfs).cfg.block_size, dirs)
                &&& *final(pdir) == dirs.last()
                &&& pairs_overlap(final(pdir).tail, *pair) || (dirs.len() == 1 && pairs_overlap([0u32, 1u32], *pair))
            },
        r == Err::<(), Error>(Error::NoEntry) ==> exists|dirs: Seq<LfsMdir>|
            #![trigger walk_loaded(old(lfs).cfg.disk(), old(lfs).cfg.block_size, dirs)]
            {
                &&& dirs.len() > 0
                &&& walk_loaded(old(lfs).cfg.disk(), old(lfs).cfg.block_size, dirs)
                &&& (dirs.last().tail[0] == LFS_BLOCK_NULL || dirs.last().tail[1] == LFS_BLOCK_NULL)
                &&& forall|i: int| 1 <= i < dirs.len() ==> !pairs_overlap(#[trigger] walk_request(dirs, i), *pair)
            },
{
    let ghost l0 = *lfs;
    pdir.tail = [0, 1];
    let mut tortoise = LfsTortoise { pair: [LFS_BLOCK_NULL, LFS_BLOCK_NULL], i: 1, period: 1 };
    let mut have_fetched = false;
    let ghost mut dirs: Seq<LfsMdir> = seq![];
    while !lfs_pair_isnull(&pdir.tail)
        invariant
            l0 == *old(lfs),
            lfs_read_ready(*lfs),
            fetch_frame(*lfs, l0),
            lfs.rcache.wf(l0.cfg.cache_size),
            rcache_agrees(lfs.rcache, l0.cfg.disk()),
            1 <= tortoise.i <= tortoise.period,
            walk_loaded(l0.cfg.disk(), l0.cfg.block_size, dirs),
            dirs.len() == 0 ==> pdir.tail == [0u32, 1u32] && !have_fetched,
            dirs.len() > 0 ==> *pdir == dirs.last() && have_fetched,
            forall|i: int| 1 <= i < dirs.len() ==> !pairs_overlap(#[trigger] walk_request(dirs, i), *pair),
        decreases (0x1_0000_0000 - tortoise.period) * 0x1_0000_0000 + (tortoise.period - tortoise.i),
    {
        if tortoise.i == tortoise.period && tortoise.period > 0x7fff_ffff {
            return Err(Error::Corrupt);
        }
        let ghost t0 = tortoise;
        let res = lfs_tortoise_detectcycles(pdir, &mut tortoise);
        match res {
            Err(_) => {
                return Err(Error::Corrupt);
            },
            Ok(()) => {},
        }
        proof {
            if t0.i == t0.period {
                assert((0x1_0000_0000 - 2 * t0.period) * 0x1_0000_0000 + (2 * t0.period - 1) < (0x1_0000_0000
                    - t0.period) * 0x1_0000_0000 + (t0.period - t0.i)) by (nonlinear_arith)
                    requires
                        1 <= t0.period <= 0x7fff_ffff,
                        t0.i == t0.period,
                ;
            }
        }
        let q = pdir.tail;
        if !lfs_pair_cmp(&q, pair) {
            if !have_fetched {
                lfs_dir_fetch(lfs, pdir, q)?;
                proof {
                    lemma_walk_push(l0, dirs, *pdir, q, false);
                    assert(dirs.push(*pdir).last() == *pdir);
                }
                if lfs_pair_isnull(&pdir.tail) {
                    proof {
                        let w = dirs.push(*pdir);
                        assert(dirs.len() == 0);
                        assert(w.len() == 1);
                        assert(walk_loaded(l0.cfg.disk(), l0.cfg.block_size, w));
                        assert(w.last() == *pdir);
                    }
                    return Err(Error::NoEntry);
                }
            }
            proof {
                let w = if have_fetched { dirs } else { dirs.push(*pdir) };
                assert(walk_loaded(l0.cfg.disk(), l0.cfg.block_size, w));
                assert(w.len() > 0 && *pdir == w.last());
            }
            return Ok(());
        }
        lfs_dir_fetch(lfs, pdir, q)?;
        have_fetched = true;
        proof {
            lemma_walk_push(l0, dirs, *pdir, q, false);
            let nd = dirs.push(*pdir);
            assert forall|i: int| 1 <= i < nd.len() implies !pairs_overlap(#[trigger] walk_request(nd, i), *pair) by {
                if i < dirs.len() {
                    assert(walk_request(nd, i) == walk_request(dirs, i));
                } else {
                    assert(walk_request(nd, i) == q);
                }
            }
            dirs = nd;
        }
    }
    proof {
        assert(dirs.len() > 0) by {
            if dirs.len() == 0 {
                assert(pdir.tail == [0u32, 1u32]);
            }
        }
    }
    Err(Error::NoEntry)
}

/// A walk's listing of its first `n` pairs does not depend on the pairs
/// loaded after them.
proof fn lemma_walk_prefix<S: Storage>(lfs: Lfs<S>, a: Seq<LfsMdir>, b: Seq<LfsMdir>, incl: bool, n: nat)
    requires
        n <= a.len(),
        n <= b.len(),
        forall|i: int| 0 <= i < n ==> a[i] == b[i],
    ensures
        walk_blocks(lfs, a, incl, n) == walk_blocks(lfs, b, incl, n),
    decreases n,
{
    if n > 0 {
        lemma_walk_prefix(lfs, a, b, incl, (n - 1) as nat);
        assert(walk_request(a, n - 1) == walk_request(b, n - 1));
    }
}

} // verus!
