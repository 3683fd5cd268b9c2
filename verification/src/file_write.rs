//! Writing files. An inline file keeps its whole data in its cache until
//! a write would take it past the inline limit; it then moves out into a
//! block of its own. A file kept in a skip-list that is being written keeps
//! its data in a chain of blocks, the last of them the block it is
//! writing, with the newest bytes still in its program cache; the chain is
//! a well-formed skip-list. Flushing writes the cache out and makes the
//! chain the file's stored skip-list. Reads, seeks and truncation flush a
//! file being written first.

use vstd::prelude::*;
use vstd::arithmetic::power2::pow2;
use crate::bd::{LfsCache, view_byte, view_range, pcache_fits, prog_seq, rcache_agrees, same_params, lfs_bd_flush,
    lfs_bd_prog, lfs_cache_drop, lfs_cache_zero, slice_part, copy_into_vec, zero_vec};
use crate::block_alloc::{la_wf, la_sound, blocks_valid, la_handed_out, lemma_sound_push, lfs_alloc_ckpoint};
use crate::error::Error;
use crate::file::{is_inline, lfs_file_relocate, relocate_ready, file_src_byte, file_src_known, file_byte, file_read_ready,
    lfs_file_flushedread, LfsFileConfig, read_count, lfs_file_size_, file_read_state_ok, inline_cache_full,
    lfs_file_outline};
use crate::dir::LfsMdir;
use crate::ctz::{ctz_locate, LfsCtz, lfs_ctz_index, same_limits};
use crate::util::lfs_max;
use crate::lfs_type::{LFS_F_INLINE, LFS_F_WRITING, LFS_F_ERRED, LFS_F_READING, LFS_F_DIRTY, LFS_O_RDONLY, LFS_O_WRONLY,
    LFS_O_APPEND, LFS_SEEK_SET, LFS_SEEK_CUR, LFS_SEEK_END};
use crate::util::lfs_min;
use crate::ctz::{ctz_skips, ctz_pos, ctz_in_block, ctz_index_of, ctz_walk, ctz_chain, ctz_chain_used, block_word,
    ctz_linked, ctz_copied, used_blocks_kept, lfs_ctz_find, lfs_ctz_extend, ctz_caches_ready, lemma_ctz_in_block_unique,
    ctz_file_byte, lfs_read_ready, lemma_ctz_index_of, lemma_ctz_index_total, lemma_ctz_pos_grows,
    lemma_ctz_blocks_abut};
use crate::ctz_list::{ctz_list_wf, list_byte, lemma_walk_wf, lemma_chain_wf, lemma_file_byte_list};
use crate::file::LfsFile;
use crate::lfs::Lfs;
use crate::storage::Storage;
use crate::types::{LFS_BLOCK_NULL, LFS_BLOCK_INLINE};
use crate::util::{ctz_nat, popc_nat, lemma_popc_ctz_bound};

verus! {

/// The index, counted from a file's first block, of the block whose data
/// begins `off` bytes before position `pos`.
pub open spec fn wr_index(block_size: u32, pos: u32, off: u32) -> nat {
    choose|i: nat| i < 0x0400_0000 && ctz_pos(block_size, i) + off == pos
}

/// Two views of block `b` agree on its bytes below `lim`.
pub open spec fn views_agree(
    d1: Seq<Seq<u8>>,
    p1: Option<LfsCache>,
    d2: Seq<Seq<u8>>,
    p2: Option<LfsCache>,
    b: u32,
    lim: int,
) -> bool {
    forall|x: int| 0 <= x < lim ==> #[trigger] view_byte(d2, p2, b as int, x) == view_byte(d1, p1, b as int, x)
}

/// A file being written into the chain `blocks`, whose last block is the
/// file's current block: the chain is a well-formed list as the file's
/// cache and the device show it, the current block differs from the
/// others, the file's position lies `off` bytes into the current block,
/// and the cache is ready to program the current block at `off`.
pub open spec fn wr_chain<S: Storage>(lfs: Lfs<S>, file: &LfsFile, blocks: Seq<u32>) -> bool {
    &&& wr_chain_core(lfs, file, blocks)
    &&& prog_seq(file.cache, file.block, file.off as int, lfs.cfg.cache_size, lfs.cfg.prog_size)
}

/// All of `wr_chain` but the readiness of the cache to go on programming.
pub open spec fn wr_chain_core<S: Storage>(lfs: Lfs<S>, file: &LfsFile, blocks: Seq<u32>) -> bool {
    let bs = lfs.cfg.block_size;
    let ci = blocks.len() - 1;
    &&& 0 < blocks.len() <= 0x0400_0000
    &&& blocks[ci] == file.block
    &&& forall|j: int| 0 <= j < blocks.len() ==> #[trigger] blocks[j] < lfs.block_count
    &&& forall|j: int| 0 <= j < ci ==> #[trigger] blocks[j] != file.block
    &&& ctz_pos(bs, ci as nat) + file.off == file.pos
    &&& 4 * ctz_skips(ci as nat) <= file.off <= bs
    &&& ctz_list_wf(lfs.cfg.disk(), Some(file.cache), blocks)
    &&& file.cache.wf(lfs.cfg.cache_size)
    &&& file.cache.off % lfs.cfg.prog_size == 0
    &&& pcache_fits(file.cache, lfs.cfg.disk())
    &&& (file.cache.block == LFS_BLOCK_NULL || file.cache.block == file.block)
}

/// Byte `p` of a file being written, as its cache and the device show
/// it: read from the block that a walk back from the current block finds.
pub open spec fn wr_byte<S: Storage>(lfs: Lfs<S>, file: &LfsFile, p: int) -> u8 {
    let bs = lfs.cfg.block_size;
    let disk = lfs.cfg.disk();
    let ci = wr_index(bs, file.pos, file.off);
    let (ti, to) = ctz_index_of(bs, p);
    view_byte(disk, Some(file.cache), ctz_walk(disk, Some(file.cache), file.block, ci, ti) as int, to)
}

/// A file stored as the well-formed list `blocks` of `size` bytes.
pub open spec fn ctz_stored_as(disk: Seq<Seq<u8>>, block_size: u32, block_count: u32, head: u32, size: u32, blocks: Seq<
    u32,
>) -> bool {
    &&& size > 0
    &&& blocks.len() == ctz_index_of(block_size, size - 1).0 + 1
    &&& blocks.last() == head
    &&& ctz_list_wf(disk, None, blocks)
    &&& forall|j: int| 0 <= j < blocks.len() ==> #[trigger] blocks[j] < block_count
}

/// A stored file is empty, or a well-formed list whose blocks are all in
/// `in_use` and are not `avoid`.
pub open spec fn ctz_stored(disk: Seq<Seq<u8>>, block_size: u32, block_count: u32, head: u32, size: u32, in_use: Seq<
    u32,
>, avoid: u32) -> bool {
    size == 0 || exists|blocks: Seq<u32>|
        ctz_stored_as(disk, block_size, block_count, head, size, blocks) && forall|j: int|
            0 <= j < blocks.len() ==> in_use.contains(#[trigger] blocks[j]) && blocks[j] != avoid
}

/// Positions before the end of a block's data lie in that block or an
/// earlier one.
proof fn lemma_index_before(bs: u32, ci: nat, off: int, p: int)
    requires
        bs >= 128,
        ci < 0x0400_0000,
        off <= bs,
        0 <= p < ctz_pos(bs, ci) + off,
        p <= u32::MAX,
    ensures
        ctz_index_of(bs, p).0 <= ci,
        ctz_index_of(bs, p).0 == ci ==> ctz_index_of(bs, p).1 < off,
        ctz_in_block(bs, p, ctz_index_of(bs, p).0, ctz_index_of(bs, p).1),
        ctz_index_of(bs, p).0 < 0x0400_0000,
{
    lemma_ctz_index_total(bs, p as u32);
    let (ti, to) = ctz_index_of(bs, p);
    if ti > ci {
        lemma_ctz_pos_grows(bs, ci, ti);
    }
}

/// The index of the block a file is writing is the one its chain ends at.
pub proof fn lemma_wr_index<S: Storage>(lfs: Lfs<S>, file: &LfsFile, blocks: Seq<u32>)
    requires
        wr_chain(lfs, file, blocks),
        lfs.cfg.block_size >= 128,
    ensures
        wr_index(lfs.cfg.block_size, file.pos, file.off) == blocks.len() - 1,
{
    let bs = lfs.cfg.block_size;
    let ci = (blocks.len() - 1) as nat;
    let w = wr_index(bs, file.pos, file.off);
    assert(ci < 0x0400_0000 && ctz_pos(bs, ci) + file.off == file.pos);
    if w != ci {
        lemma_pos_injective(bs, w, ci);
    }
}

proof fn lemma_pos_injective(bs: u32, i: nat, j: nat)
    requires
        bs >= 128,
        i < 0x0400_0000,
        j < 0x0400_0000,
        i != j,
    ensures
        ctz_pos(bs, i) != ctz_pos(bs, j),
{
    vstd::arithmetic::power2::lemma2_to64();
    if i < j {
        lemma_ctz_pos_grows(bs, i, j);
        lemma_popc_ctz_bound(j, 26);
    } else {
        lemma_ctz_pos_grows(bs, j, i);
        lemma_popc_ctz_bound(i, 26);
    }
}

/// What a file being written holds at each position before its position
/// is what its chain holds there.
pub proof fn lemma_wr_byte<S: Storage>(lfs: Lfs<S>, file: &LfsFile, blocks: Seq<u32>, p: int)
    requires
        wr_chain(lfs, file, blocks),
        lfs.cfg.block_size >= 128,
        0 <= p < file.pos,
    ensures
        wr_byte(lfs, file, p) == list_byte(lfs.cfg.disk(), Some(file.cache), lfs.cfg.block_size, blocks, p),
{
    let bs = lfs.cfg.block_size;
    let ci = (blocks.len() - 1) as nat;
    lemma_wr_index(lfs, file, blocks);
    lemma_index_before(bs, ci, file.off as int, p);
    let (ti, to) = ctz_index_of(bs, p);
    lemma_walk_wf(lfs.cfg.disk(), Some(file.cache), blocks, ci, ti);
}

/// Block `b2` as `d2` and `p2` show it matches block `b1` as `d1` and
/// `p1` show it, below `lim`.
pub open spec fn views_match(
    d1: Seq<Seq<u8>>,
    p1: Option<LfsCache>,
    b1: u32,
    d2: Seq<Seq<u8>>,
    p2: Option<LfsCache>,
    b2: u32,
    lim: int,
) -> bool {
    forall|x: int| 0 <= x < lim ==> #[trigger] view_byte(d2, p2, b2 as int, x) == view_byte(d1, p1, b1 as int, x)
}

/// A list keeps its pointers, and its bytes where the views agree, when
/// the views agree on every block but the last, and the last block, which
/// may be moved to another one, matches below `lim`, past its pointers.
pub proof fn lemma_list_transfer(
    d1: Seq<Seq<u8>>,
    p1: Option<LfsCache>,
    b1: Seq<u32>,
    d2: Seq<Seq<u8>>,
    p2: Option<LfsCache>,
    b2: Seq<u32>,
    bs: u32,
    lim: int,
)
    requires
        bs >= 128,
        0 < b1.len() <= 0x0400_0000,
        b2.len() == b1.len(),
        ctz_list_wf(d1, p1, b1),
        forall|j: int| 0 <= j < b1.len() - 1 ==> #[trigger] b2[j] == b1[j],
        forall|j: int| 0 <= j < b1.len() - 1 ==> #[trigger] views_agree(d1, p1, d2, p2, b1[j], bs as int),
        views_match(d1, p1, b1.last(), d2, p2, b2.last(), lim),
        4 * ctz_skips((b1.len() - 1) as nat) <= lim,
    ensures
        ctz_list_wf(d2, p2, b2),
        forall|p: int|
            0 <= p <= u32::MAX && (ctz_index_of(bs, p).0 < b1.len() - 1 || (ctz_index_of(bs, p).0 == b1.len() - 1
                && ctz_index_of(bs, p).1 < lim)) ==> #[trigger] list_byte(d2, p2, bs, b2, p) == list_byte(
                d1,
                p1,
                bs,
                b1,
                p,
            ),
{
    let ci = b1.len() - 1;
    assert forall|j: int, k: nat| 0 < j < b2.len() && k < ctz_skips(j as nat) implies #[trigger] block_word(
        d2,
        p2,
        b2[j],
        k,
    ) == b2[j - pow2(k)] by {
        vstd::arithmetic::power2::lemma2_to64();
        lemma_popc_ctz_bound(j as nat, 26);
        vstd::arithmetic::power2::lemma_pow2_pos(k);
        if j < ci {
            assert(views_agree(d1, p1, d2, p2, b1[j], bs as int));
            assert(view_range(d2, p2, b2[j] as int, (4 * k) as int, 4) =~= view_range(d1, p1, b1[j] as int, (4 * k) as int, 4));
        } else {
            assert(view_range(d2, p2, b2[j] as int, (4 * k) as int, 4) =~= view_range(d1, p1, b1[j] as int, (4 * k) as int, 4));
        }
        assert(block_word(d1, p1, b1[j], k) == b1[j - pow2(k)]);
        crate::ctz_list::lemma_pow2_ctz(j as nat);
        if k < ctz_nat(j as nat) {
            vstd::arithmetic::power2::lemma_pow2_strictly_increases(k, ctz_nat(j as nat));
        }
        assert(b2[j - pow2(k)] == b1[j - pow2(k)]);
    }
    assert forall|p: int|
        0 <= p <= u32::MAX && (ctz_index_of(bs, p).0 < b1.len() - 1 || (ctz_index_of(bs, p).0 == b1.len() - 1
            && ctz_index_of(bs, p).1 < lim)) implies #[trigger] list_byte(d2, p2, bs, b2, p) == list_byte(
        d1,
        p1,
        bs,
        b1,
        p,
    ) by {
        lemma_ctz_index_total(bs, p as u32);
        let (ti, to) = ctz_index_of(bs, p);
        if ti < ci {
            assert(views_agree(d1, p1, d2, p2, b1[ti as int], bs as int));
        }
    }
}

/// With a well-formed list whose blocks are all in use, the chain of
/// pointers from block `i` runs through blocks in use.
pub proof fn lemma_chain_used_wf(disk: Seq<Seq<u8>>, blocks: Seq<u32>, in_use: Seq<u32>, i: nat, k: nat)
    requires
        ctz_list_wf(disk, None, blocks),
        i < blocks.len(),
        k <= ctz_skips(i + 1),
        forall|j: int| 0 <= j < blocks.len() ==> in_use.contains(#[trigger] blocks[j]),
    ensures
        ctz_chain_used(disk, blocks[i as int], in_use, k),
    decreases k,
{
    if k > 0 {
        let k1 = (k - 1) as nat;
        lemma_chain_used_wf(disk, blocks, in_use, i, k1);
        lemma_chain_wf(disk, blocks, i, k1);
        vstd::arithmetic::power2::lemma_pow2_pos(k1);
        let j = (i + 1 - pow2(k1)) as int;
        assert(0 <= j < blocks.len());
        assert(in_use.contains(blocks[j]));
    }
}

/// A prefix of a well-formed list is well-formed.
pub proof fn lemma_list_prefix(disk: Seq<Seq<u8>>, pc: Option<LfsCache>, blocks: Seq<u32>, n: int)
    requires
        ctz_list_wf(disk, pc, blocks),
        0 <= n <= blocks.len(),
    ensures
        ctz_list_wf(disk, pc, blocks.subrange(0, n)),
{
    let s = blocks.subrange(0, n);
    assert forall|j: int, k: nat| 0 < j < s.len() && k < ctz_skips(j as nat) implies #[trigger] block_word(disk, pc, s[j], k)
        == s[j - pow2(k)] by {
        assert(block_word(disk, pc, blocks[j], k) == blocks[j - pow2(k)]);
        crate::ctz_list::lemma_pow2_ctz(j as nat);
        if k < ctz_nat(j as nat) {
            vstd::arithmetic::power2::lemma_pow2_strictly_increases(k, ctz_nat(j as nat));
        }
        vstd::arithmetic::power2::lemma_pow2_pos(k);
    }
}

/// A cache that holds none of a list's blocks leaves the list's view that
/// of the device.
pub proof fn lemma_list_no_cache(disk: Seq<Seq<u8>>, pc: LfsCache, bs: u32, blocks: Seq<u32>)
    requires
        forall|j: int| 0 <= j < blocks.len() ==> #[trigger] blocks[j] != pc.block,
    ensures
        forall|j: int| 0 <= j < blocks.len() ==> #[trigger] views_agree(disk, Some(pc), disk, None, blocks[j], bs as int),
        forall|j: int| 0 <= j < blocks.len() ==> #[trigger] views_agree(disk, None, disk, Some(pc), blocks[j], bs as int),
        ctz_list_wf(disk, Some(pc), blocks) ==> ctz_list_wf(disk, None, blocks),
        ctz_list_wf(disk, None, blocks) ==> ctz_list_wf(disk, Some(pc), blocks),
{
    assert forall|j: int, k: nat| 0 <= j < blocks.len() implies #[trigger] block_word(disk, Some(pc), blocks[j], k)
        == block_word(disk, None, blocks[j], k) by {
        assert(blocks[j] != pc.block);
        assert(view_range(disk, Some(pc), blocks[j] as int, (4 * k) as int, 4) =~= view_range(
            disk,
            None,
            blocks[j] as int,
            (4 * k) as int,
            4,
        ));
    }
    if ctz_list_wf(disk, Some(pc), blocks) {
        assert forall|j: int, k: nat| 0 < j < blocks.len() && k < ctz_skips(j as nat) implies #[trigger] block_word(
            disk,
            None,
            blocks[j],
            k,
        ) == blocks[j - pow2(k)] by {
            assert(block_word(disk, Some(pc), blocks[j], k) == blocks[j - pow2(k)]);
        }
    }
    if ctz_list_wf(disk, None, blocks) {
        assert forall|j: int, k: nat| 0 < j < blocks.len() && k < ctz_skips(j as nat) implies #[trigger] block_word(
            disk,
            Some(pc),
            blocks[j],
            k,
        ) == blocks[j - pow2(k)] by {
            assert(block_word(disk, None, blocks[j], k) == blocks[j - pow2(k)]);
        }
    }
}

/// Setting a flag: the flag is then set, setting it again changes
/// nothing, a flag already set stays as it is, and the other flags keep
/// their values.
pub proof fn lemma_set_flag(f: u32, flag: u32, other: u32)
    ensures
        (f | flag) & flag == flag,
        (f | flag) | flag == f | flag,
        f & flag == flag ==> f | flag == f,
        flag & other == 0 ==> (f | flag) & other == f & other,
        flag == 0x020000u32 || flag == 0x080000u32 || flag == 0x100000u32 || flag == 0x040000u32 ==> (f & flag != 0
            <==> f & flag == flag),
        (f & !flag) & flag == 0,
        flag & other == 0 ==> (f & !flag) & other == f & other,
        flag & other == 0 && f & other == 0 ==> (f | flag) & !other == f | flag,
        (f & !flag) & !flag == f & !flag,
        (flag & other == 0) == (other & flag == 0),
        0x020000u32 & 0x100000u32 == 0,
        0x100000u32 & 0x020000u32 == 0,
        0x080000u32 & 0x100000u32 == 0,
        0x010000u32 & 0x100000u32 == 0,
        0x010000u32 & 0x020000u32 == 0,
        0x040000u32 & 0x100000u32 == 0,
        0x040000u32 & 0x020000u32 == 0,
        0x1u32 & 0x100000u32 == 0,
        0x1u32 & 0x040000u32 == 0,
        0x080000u32 & 0x020000u32 == 0,
        0x010000u32 & 0x040000u32 == 0,
        0x040000u32 & 0x800u32 == 0,
        0x080000u32 & 0x800u32 == 0,
        0x020000u32 & 0x800u32 == 0,
        0x020000u32 & 0x040000u32 == 0,
        0x080000u32 & 0x040000u32 == 0,
        0x010000u32 & 0x2u32 == 0,
        0x020000u32 & 0x2u32 == 0,
        0x040000u32 & 0x2u32 == 0,
        0x080000u32 & 0x2u32 == 0,
        0x100000u32 & 0x2u32 == 0,
{
    assert((f | flag) & flag == flag && (f | flag) | flag == f | flag && (f & flag == flag ==> f | flag == f) && (flag
        & other == 0 ==> (f | flag) & other == f & other) && (flag == 0x020000u32 || flag == 0x080000u32 || flag
        == 0x100000u32 || flag == 0x040000u32 ==> (f & flag != 0 <==> f & flag == flag)) && (f & !flag) & flag == 0
        && (flag & other == 0 ==> (f & !flag) & other == f & other) && (flag & other == 0 && f & other == 0 ==> (f
        | flag) & !other == f | flag) && (f & !flag) & !flag == f & !flag && ((flag & other == 0) == (other & flag
        == 0)) && 0x100000u32 & 0x020000u32 == 0 && 0x020000u32 & 0x100000u32 == 0 && 0x080000u32
        & 0x100000u32 == 0 && 0x010000u32 & 0x100000u32 == 0 && 0x010000u32 & 0x020000u32 == 0 && 0x040000u32
        & 0x100000u32 == 0 && 0x040000u32 & 0x020000u32 == 0 && 0x1u32 & 0x100000u32 == 0 && 0x1u32 & 0x040000u32
        == 0 && 0x080000u32 & 0x020000u32 == 0 && 0x010000u32 & 0x040000u32 == 0 && 0x040000u32 & 0x800u32 == 0
        && 0x080000u32 & 0x800u32 == 0 && 0x020000u32 & 0x800u32 == 0 && 0x020000u32 & 0x040000u32 == 0
        && 0x080000u32 & 0x040000u32 == 0 && 0x010000u32 & 0x2u32 == 0 && 0x020000u32 & 0x2u32 == 0 && 0x040000u32
        & 0x2u32 == 0 && 0x080000u32 & 0x2u32 == 0 && 0x100000u32 & 0x2u32 == 0) by (bit_vector);
}

/// A well-formed list stays well-formed with a block after it whose
/// pointers name the blocks they should.
pub proof fn lemma_list_push(d: Seq<Seq<u8>>, pc: Option<LfsCache>, s: Seq<u32>, x: u32)
    requires
        ctz_list_wf(d, pc, s),
        forall|k: nat| k < ctz_skips(s.len()) ==> #[trigger] block_word(d, pc, x, k) == s[s.len() - pow2(k)],
    ensures
        ctz_list_wf(d, pc, s.push(x)),
{
    let t = s.push(x);
    assert forall|j: int, k: nat| 0 < j < t.len() && k < ctz_skips(j as nat) implies #[trigger] block_word(d, pc, t[j], k)
        == t[j - pow2(k)] by {
        crate::ctz_list::lemma_pow2_ctz(j as nat);
        if k < ctz_nat(j as nat) {
            vstd::arithmetic::power2::lemma_pow2_strictly_increases(k, ctz_nat(j as nat));
        }
        vstd::arithmetic::power2::lemma_pow2_pos(k);
        if j < s.len() {
            assert(block_word(d, pc, s[j], k) == s[j - pow2(k)]);
        }
    }
}

/// Blocks that the device keeps and the cache does not hold look the same
/// before and after.
proof fn lemma_kept_views(d0: Seq<Seq<u8>>, d1: Seq<Seq<u8>>, pc1: LfsCache, bs: u32, blocks: Seq<u32>, n: int, in_use: Seq<u32>)
    requires
        0 <= n <= blocks.len(),
        forall|j: int| 0 <= j < n ==> in_use.contains(#[trigger] blocks[j]),
        forall|j: int| 0 <= j < n ==> #[trigger] blocks[j] != pc1.block,
        used_blocks_kept(d0, d1, in_use),
    ensures
        forall|j: int| 0 <= j < n ==> #[trigger] views_agree(d0, None, d1, Some(pc1), blocks[j], bs as int),
{
    assert forall|j: int| 0 <= j < n implies #[trigger] views_agree(d0, None, d1, Some(pc1), blocks[j], bs as int) by {
        assert(in_use.contains(blocks[j]));
        let w = choose|w: int| 0 <= w < in_use.len() && in_use[w] == blocks[j];
        assert(d1[in_use[w] as int] == d0[in_use[w] as int]);
    }
}

/// A file stored as a list, extended from block `ti` by a copy of that
/// block's first `boff + 1` bytes: the list up to `ti`, ending in the
/// copy, holds the stored bytes.
pub proof fn lemma_extend_copy(
    d0: Seq<Seq<u8>>,
    d1: Seq<Seq<u8>>,
    pc1: LfsCache,
    bs: u32,
    blocks: Seq<u32>,
    ti: nat,
    boff: int,
    nb: u32,
    in_use: Seq<u32>,
)
    requires
        bs >= 128,
        ctz_list_wf(d0, None, blocks),
        ti < blocks.len() <= 0x0400_0000,
        4 * ctz_skips(ti) <= boff < bs,
        forall|j: int| 0 <= j < blocks.len() ==> in_use.contains(#[trigger] blocks[j]),
        forall|j: int| 0 <= j < blocks.len() ==> #[trigger] blocks[j] != LFS_BLOCK_NULL,
        used_blocks_kept(d0, d1, in_use),
        !in_use.contains(nb),
        pc1.block == LFS_BLOCK_NULL || pc1.block == nb,
        forall|k: int| 0 <= k < boff + 1 ==> #[trigger] view_byte(d1, Some(pc1), nb as int, k) == d0[blocks[ti as int] as int][k],
    ensures
        ctz_list_wf(d1, Some(pc1), blocks.subrange(0, ti as int).push(nb)),
        forall|p: int|
            0 <= p <= u32::MAX && (ctz_index_of(bs, p).0 < ti || (ctz_index_of(bs, p).0 == ti && ctz_index_of(bs, p).1
                < boff + 1)) ==> #[trigger] list_byte(d1, Some(pc1), bs, blocks.subrange(0, ti as int).push(nb), p)
                == list_byte(d0, None, bs, blocks, p),
{
    let prefix = blocks.subrange(0, ti as int + 1);
    let c = blocks.subrange(0, ti as int).push(nb);
    lemma_list_prefix(d0, None, blocks, ti as int + 1);
    assert forall|j: int| 0 <= j < ti implies #[trigger] prefix[j] != pc1.block by {
        assert(in_use.contains(blocks[j]));
    }
    assert forall|j: int| 0 <= j < ti implies in_use.contains(#[trigger] prefix[j]) by {
        assert(in_use.contains(blocks[j]));
    }
    lemma_kept_views(d0, d1, pc1, bs, prefix, ti as int, in_use);
    assert forall|j: int| 0 <= j < ti implies #[trigger] c[j] == prefix[j] by {}
    assert(views_match(d0, None, prefix.last(), d1, Some(pc1), c.last(), boff + 1));
    lemma_list_transfer(d0, None, prefix, d1, Some(pc1), c, bs, boff + 1);
    assert forall|p: int|
        0 <= p <= u32::MAX && (ctz_index_of(bs, p).0 < ti || (ctz_index_of(bs, p).0 == ti && ctz_index_of(bs, p).1
            < boff + 1)) implies #[trigger] list_byte(d1, Some(pc1), bs, c, p) == list_byte(d0, None, bs, blocks, p) by {
        assert(list_byte(d1, Some(pc1), bs, c, p) == list_byte(d0, None, bs, prefix, p));
    }
}

/// A file stored as a list, extended past its last block by a new block
/// whose pointers follow the chain from the last block: the list with the
/// new block after it is well-formed and holds the stored bytes.
pub proof fn lemma_extend_link(
    d0: Seq<Seq<u8>>,
    d1: Seq<Seq<u8>>,
    pc1: LfsCache,
    bs: u32,
    blocks: Seq<u32>,
    nb: u32,
    in_use: Seq<u32>,
)
    requires
        bs >= 128,
        ctz_list_wf(d0, None, blocks),
        0 < blocks.len() < 0x0400_0000,
        forall|j: int| 0 <= j < blocks.len() ==> in_use.contains(#[trigger] blocks[j]),
        forall|j: int| 0 <= j < blocks.len() ==> #[trigger] blocks[j] != LFS_BLOCK_NULL,
        used_blocks_kept(d0, d1, in_use),
        !in_use.contains(nb),
        pc1.block == LFS_BLOCK_NULL || pc1.block == nb,
        ctz_linked(d0, d1, pc1, blocks.last(), nb, in_use, ctz_skips(blocks.len())),
    ensures
        ctz_list_wf(d1, Some(pc1), blocks.push(nb)),
        forall|p: int|
            0 <= p <= u32::MAX && ctz_index_of(bs, p).0 < blocks.len() ==> #[trigger] list_byte(d1, Some(pc1), bs,
                blocks.push(nb), p) == list_byte(d0, None, bs, blocks, p),
{
    let n = blocks.len();
    let ci = (n - 1) as nat;
    assert forall|j: int| 0 <= j < n implies #[trigger] blocks[j] != pc1.block by {
        assert(in_use.contains(blocks[j]));
    }
    lemma_kept_views(d0, d1, pc1, bs, blocks, n as int, in_use);
    assert(views_agree(d0, None, d1, Some(pc1), blocks[n - 1], bs as int));
    vstd::arithmetic::power2::lemma2_to64();
    lemma_popc_ctz_bound(ci, 26);
    lemma_list_transfer(d0, None, blocks, d1, Some(pc1), blocks, bs, bs as int);
    assert forall|k: nat| k < ctz_skips(n) implies #[trigger] block_word(d1, Some(pc1), nb, k) == blocks[n - pow2(k)] by {
        lemma_chain_used_wf(d0, blocks, in_use, ci, k);
        lemma_chain_wf(d0, blocks, ci, k);
    }
    lemma_list_push(d1, Some(pc1), blocks, nb);
    assert forall|p: int| 0 <= p <= u32::MAX && ctz_index_of(bs, p).0 < n implies #[trigger] list_byte(d1, Some(pc1), bs,
        blocks.push(nb), p) == list_byte(d0, None, bs, blocks, p) by {
        lemma_ctz_index_total(bs, p as u32);
        assert(list_byte(d1, Some(pc1), bs, blocks, p) == list_byte(d0, None, bs, blocks, p));
    }
}

/// What writing needs of the filesystem: the device, its read cache, an
/// empty program cache, and an allocator window that is sound for the
/// blocks in use.
pub open spec fn wr_env<S: Storage>(lfs: Lfs<S>, in_use: Seq<u32>) -> bool {
    &&& lfs_read_ready(lfs)
    &&& lfs.rcache.wf(lfs.cfg.cache_size)
    &&& rcache_agrees(lfs.rcache, lfs.cfg.disk())
    &&& lfs.pcache.wf(lfs.cfg.cache_size)
    &&& lfs.pcache.block == LFS_BLOCK_NULL
    &&& lfs.pcache.off % lfs.cfg.prog_size == 0
    &&& la_wf(lfs.lookahead, lfs.block_count)
    &&& la_sound(lfs.lookahead, lfs.block_count, in_use)
    &&& blocks_valid(in_use, lfs.block_count)
}

/// The blocks of `in_use` other than `b` hold what they held.
pub open spec fn kept_but(d0: Seq<Seq<u8>>, d1: Seq<Seq<u8>>, in_use: Seq<u32>, b: u32) -> bool {
    forall|j: int| 0 <= j < in_use.len() && in_use[j] != b ==> #[trigger] d1[in_use[j] as int] == d0[in_use[j] as int]
}

/// `a` is `b` with more blocks after it.
pub open spec fn extends(a: Seq<u32>, b: Seq<u32>) -> bool {
    b.len() <= a.len() && a.subrange(0, b.len() as int) == b
}

/// Extending is transitive.
pub proof fn lemma_extends_trans(a: Seq<u32>, b: Seq<u32>, c: Seq<u32>)
    requires
        extends(a, b),
        extends(b, c),
    ensures
        extends(a, c),
{
    assert(a.subrange(0, c.len() as int) =~= b.subrange(0, c.len() as int));
}

/// Moves a file being written to a fresh block, as `lfs_file_relocate`
/// does, and counts the fresh block in use; the chain keeps its bytes.
fn wr_relocate<S: Storage>(lfs: &mut Lfs<S>, file: &mut LfsFile, in_use: &mut Vec<u32>, Ghost(chain): Ghost<Seq<u32>>) -> (r: Result<
    (),
    Error,
>)
    requires
        wr_env(*old(lfs), old(in_use)@),
        wr_chain_core(*old(lfs), old(file), chain),
        !is_inline(old(file)),
        old(file).flags & LFS_F_WRITING == LFS_F_WRITING,
        forall|j: int| 0 <= j < chain.len() ==> old(in_use)@.contains(#[trigger] chain[j]),
    ensures
        same_limits(*final(lfs), *old(lfs)),
        lfs_read_ready(*final(lfs)),
        same_params(final(lfs).cfg, old(lfs).cfg),
        final(lfs).block_count == old(lfs).block_count,
        final(lfs).gdisk == old(lfs).gdisk,
        la_wf(final(lfs).lookahead, final(lfs).block_count),
        la_sound(final(lfs).lookahead, final(lfs).block_count, final(in_use)@),
        blocks_valid(final(in_use)@, final(lfs).block_count),
        extends(final(in_use)@, old(in_use)@),
        kept_but(old(lfs).cfg.disk(), final(lfs).cfg.disk(), old(in_use)@, LFS_BLOCK_NULL),
        final(lfs).pcache.wf(old(lfs).cfg.cache_size),
        final(lfs).rcache.wf(old(lfs).cfg.cache_size),
        final(file).cache.wf(old(lfs).cfg.cache_size),
        *final(file) == (LfsFile { cache: final(file).cache, block: final(file).block, ..*old(file) }),
        r is Err ==> final(file).block == old(file).block,
        r is Ok ==> {
            &&& wr_env(*final(lfs), final(in_use)@)
            &&& final(lfs).lookahead.ckpoint < old(lfs).lookahead.ckpoint
            &&& !old(in_use)@.contains(final(file).block)
            &&& wr_chain(*final(lfs), final(file), chain.update(chain.len() - 1, final(file).block))
            &&& forall|j: int| 0 <= j < chain.len() ==> final(in_use)@.contains(
                #[trigger] chain.update(chain.len() - 1, final(file).block)[j],
            )
            &&& forall|p: int| 0 <= p < old(file).pos ==> #[trigger] list_byte(final(lfs).cfg.disk(), Some(final(file).cache),
                old(lfs).cfg.block_size, chain.update(chain.len() - 1, final(file).block), p) == list_byte(
                old(lfs).cfg.disk(), Some(old(file).cache), old(lfs).cfg.block_size, chain, p)
        },
{
    let ghost l0 = *lfs;
    let ghost f0 = *file;
    let ghost u0 = in_use@;
    proof {
        crate::bd::lemma_cfg_sizes(lfs.cfg);
        assert(in_use@.contains(chain[chain.len() - 1]));
    }
    let res = lfs_file_relocate(lfs, file, in_use.as_slice());
    match res {
        Err(e) => {
            proof {
                assert(in_use@.subrange(0, u0.len() as int) =~= u0);
            }
            return Err(e);
        },
        Ok(()) => {},
    }
    let nb = file.block;
    proof {
        lemma_set_flag(f0.flags, LFS_F_WRITING, 0);
        lemma_sound_push(lfs.lookahead, lfs.block_count, in_use@, nb);
    }
    in_use.push(nb);
    proof {
        let bs = l0.cfg.block_size;
        let ci = chain.len() - 1;
        let c2 = chain.update(ci, nb);
        assert(in_use@.subrange(0, u0.len() as int) =~= u0);
        assert forall|j: int| 0 <= j < ci implies #[trigger] views_agree(l0.cfg.disk(), Some(f0.cache), lfs.cfg.disk(),
            Some(file.cache), chain[j], bs as int) by {
            assert(u0.contains(chain[j]));
            let w = choose|w: int| 0 <= w < u0.len() && u0[w] == chain[j];
            assert(lfs.cfg.disk()[u0[w] as int] == l0.cfg.disk()[u0[w] as int]);
            assert(chain[j] != nb);
        }
        assert(views_match(l0.cfg.disk(), Some(f0.cache), chain[ci], lfs.cfg.disk(), Some(file.cache), nb,
            f0.off as int)) by {
            assert forall|x: int| 0 <= x < f0.off implies #[trigger] view_byte(lfs.cfg.disk(), Some(file.cache), nb as int, x)
                == view_byte(l0.cfg.disk(), Some(f0.cache), chain[ci] as int, x) by {
                assert(file_src_known(l0, &f0, x));
                assert(file_src_byte(l0, &f0, x) == view_byte(l0.cfg.disk(), Some(f0.cache), f0.block as int, x));
            }
        }
        lemma_list_transfer(l0.cfg.disk(), Some(f0.cache), chain, lfs.cfg.disk(), Some(file.cache), c2, bs,
            f0.off as int);
        assert forall|p: int| 0 <= p < f0.pos implies #[trigger] list_byte(lfs.cfg.disk(), Some(file.cache), bs, c2, p)
            == list_byte(l0.cfg.disk(), Some(f0.cache), bs, chain, p) by {
            lemma_index_before(bs, ci as nat, f0.off as int, p);
        }
        assert forall|j: int| 0 <= j < chain.len() implies in_use@.contains(#[trigger] c2[j]) by {
            if j == ci {
                assert(in_use@[in_use@.len() - 1] == nb);
            } else {
                assert(u0.contains(chain[j]));
                let w = choose|w: int| 0 <= w < u0.len() && u0[w] == chain[j];
                assert(in_use@[w] == chain[j]);
            }
        }
        assert forall|j: int| 0 <= j < in_use@.len() implies #[trigger] in_use@[j] < lfs.block_count by {
            if j < u0.len() {
                assert(in_use@[j] == u0[j]);
            }
        }
    }
    Ok(())
}

/// Writes a file's program cache out, moving the file to a fresh block
/// whenever its block turns out bad. Afterwards the device alone holds the
/// chain, with the bytes it had.
fn file_flush_cache<S: Storage>(lfs: &mut Lfs<S>, file: &mut LfsFile, in_use: &mut Vec<u32>, Ghost(chain): Ghost<
    Seq<u32>,
>) -> (r: Result<Ghost<Seq<u32>>, Error>)
    requires
        wr_env(*old(lfs), old(in_use)@),
        wr_chain(*old(lfs), old(file), chain),
        !is_inline(old(file)),
        old(file).flags & LFS_F_WRITING == LFS_F_WRITING,
        forall|j: int| 0 <= j < chain.len() ==> old(in_use)@.contains(#[trigger] chain[j]),
    ensures
        same_limits(*final(lfs), *old(lfs)),
        lfs_read_ready(*final(lfs)),
        same_params(final(lfs).cfg, old(lfs).cfg),
        final(lfs).block_count == old(lfs).block_count,
        final(lfs).gdisk == old(lfs).gdisk,
        la_wf(final(lfs).lookahead, final(lfs).block_count),
        la_sound(final(lfs).lookahead, final(lfs).block_count, final(in_use)@),
        blocks_valid(final(in_use)@, final(lfs).block_count),
        extends(final(in_use)@, old(in_use)@),
        kept_but(old(lfs).cfg.disk(), final(lfs).cfg.disk(), old(in_use)@, old(file).block),
        final(lfs).pcache.wf(old(lfs).cfg.cache_size),
        final(lfs).rcache.wf(old(lfs).cfg.cache_size),
        final(file).cache.wf(old(lfs).cfg.cache_size),
        *final(file) == (LfsFile { cache: final(file).cache, block: final(file).block, ..*old(file) }),
        r matches Ok(c) ==> {
            &&& wr_env(*final(lfs), final(in_use)@)
            &&& final(file).cache.block == LFS_BLOCK_NULL
            &&& final(file).cache.off % old(lfs).cfg.prog_size == 0
            &&& c@.len() == chain.len()
            &&& c@.last() == final(file).block
            &&& forall|j: int| 0 <= j < chain.len() - 1 ==> #[trigger] c@[j] == chain[j]
            &&& forall|j: int| 0 <= j < chain.len() - 1 ==> #[trigger] c@[j] != final(file).block
            &&& final(file).block < old(lfs).block_count
            &&& final(file).block == old(file).block || !old(in_use)@.contains(final(file).block)
            &&& forall|j: int| 0 <= j < chain.len() ==> final(in_use)@.contains(#[trigger] c@[j])
            &&& ctz_list_wf(final(lfs).cfg.disk(), None, c@)
            &&& forall|p: int| 0 <= p < old(file).pos ==> #[trigger] list_byte(final(lfs).cfg.disk(), None,
                old(lfs).cfg.block_size, c@, p) == list_byte(old(lfs).cfg.disk(), Some(old(file).cache),
                old(lfs).cfg.block_size, chain, p)
        },
{
    let ghost l0 = *lfs;
    let ghost f0 = *file;
    let ghost u0 = in_use@;
    let ghost mut cur = chain;
    proof {
        crate::bd::lemma_cfg_sizes(lfs.cfg);
        assert(in_use@.subrange(0, u0.len() as int) =~= u0);
    }
    loop
        invariant
            same_limits(*lfs, *old(lfs)),
            wr_env(*lfs, in_use@),
            wr_chain(*lfs, file, cur),
            same_params(lfs.cfg, l0.cfg),
            lfs.block_count == l0.block_count,
            lfs.gdisk == l0.gdisk,
            l0 == *old(lfs),
            f0 == *old(file),
            u0 == old(in_use)@,
            l0.cfg.block_size >= 128,
            wr_env(l0, u0),
            wr_chain(l0, &f0, chain),
            !is_inline(&f0),
            f0.flags & LFS_F_WRITING == LFS_F_WRITING,
            extends(in_use@, u0),
            kept_but(l0.cfg.disk(), lfs.cfg.disk(), u0, f0.block),
            *file == (LfsFile { cache: file.cache, block: file.block, ..f0 }),
            cur.len() == chain.len(),
            forall|j: int| 0 <= j < chain.len() - 1 ==> #[trigger] cur[j] == chain[j],
            file.block == f0.block || !u0.contains(file.block),
            forall|j: int| 0 <= j < chain.len() ==> in_use@.contains(#[trigger] cur[j]),
            forall|p: int| 0 <= p < f0.pos ==> #[trigger] list_byte(lfs.cfg.disk(), Some(file.cache), l0.cfg.block_size, cur, p)
                == list_byte(l0.cfg.disk(), Some(f0.cache), l0.cfg.block_size, chain, p),
        decreases lfs.lookahead.ckpoint,
    {
        let ghost l1 = *lfs;
        let ghost c1 = file.cache;
        let bc = lfs.block_count;
        let res = lfs_bd_flush(&mut lfs.cfg, bc, &mut file.cache, &mut lfs.rcache, true);
        proof {
            let bs = l0.cfg.block_size;
            let ci = chain.len() - 1;
            assert forall|j: int| 0 <= j < u0.len() && u0[j] != f0.block implies #[trigger] lfs.cfg.disk()[u0[j] as int]
                == l0.cfg.disk()[u0[j] as int] by {
                assert(l1.cfg.disk()[u0[j] as int] == l0.cfg.disk()[u0[j] as int]);
                if u0[j] == file.block {
                    assert(u0.contains(file.block));
                }
            }
        }
        match res {
            Ok(()) => {
                proof {
                    let bs = l0.cfg.block_size;
                    let ci = chain.len() - 1;
                    assert forall|j: int| 0 <= j < ci implies #[trigger] views_agree(l1.cfg.disk(), Some(c1),
                        lfs.cfg.disk(), Some(file.cache), cur[j], bs as int) by {
                        assert(cur[j] != file.block);
                        assert forall|x: int| 0 <= x < bs implies #[trigger] view_byte(lfs.cfg.disk(), Some(file.cache),
                            cur[j] as int, x) == view_byte(l1.cfg.disk(), Some(c1), cur[j] as int, x) by {}
                    }
                    assert(views_match(l1.cfg.disk(), Some(c1), cur[ci], lfs.cfg.disk(), Some(file.cache), cur[ci],
                        file.off as int));
                    lemma_list_transfer(l1.cfg.disk(), Some(c1), cur, lfs.cfg.disk(), Some(file.cache), cur, bs,
                        file.off as int);
                    lemma_list_no_cache(lfs.cfg.disk(), file.cache, bs, cur);
                    lemma_list_transfer(lfs.cfg.disk(), Some(file.cache), cur, lfs.cfg.disk(), None, cur, bs, bs as int);
                    assert forall|p: int| 0 <= p < f0.pos implies #[trigger] list_byte(lfs.cfg.disk(), None, bs, cur, p)
                        == list_byte(l0.cfg.disk(), Some(f0.cache), bs, chain, p) by {
                        lemma_index_before(bs, ci as nat, file.off as int, p);
                        assert(list_byte(l1.cfg.disk(), Some(c1), bs, cur, p) == list_byte(l0.cfg.disk(), Some(f0.cache),
                            bs, chain, p));
                    }
                }
                return Ok(Ghost(cur));
            },
            Err(e) => {
                if e != Error::Corrupt {
                    return Err(e);
                }
            },
        }
        // The failed program may have left the read cache holding the bad
        // block.
        lfs_cache_drop(&mut lfs.rcache);
        let ghost l2 = *lfs;
        proof {
            let bs = l0.cfg.block_size;
            let ci = chain.len() - 1;
            assert forall|j: int| 0 <= j < ci implies #[trigger] views_agree(l1.cfg.disk(), Some(c1), lfs.cfg.disk(),
                Some(file.cache), cur[j], bs as int) by {
                assert(cur[j] != file.block);
                assert forall|x: int| 0 <= x < bs implies #[trigger] view_byte(lfs.cfg.disk(), Some(file.cache),
                    cur[j] as int, x) == view_byte(l1.cfg.disk(), Some(c1), cur[j] as int, x) by {}
            }
            lemma_list_transfer(l1.cfg.disk(), Some(c1), cur, lfs.cfg.disk(), Some(file.cache), cur, bs, file.off as int);
            assert forall|p: int| 0 <= p < f0.pos implies #[trigger] list_byte(lfs.cfg.disk(), Some(file.cache), bs, cur, p)
                == list_byte(l0.cfg.disk(), Some(f0.cache), bs, chain, p) by {
                lemma_index_before(bs, ci as nat, file.off as int, p);
                assert(list_byte(l1.cfg.disk(), Some(c1), bs, cur, p) == list_byte(l0.cfg.disk(), Some(f0.cache), bs,
                    chain, p));
            }
        }
        let ghost u1 = in_use@;
        let ghost cur1 = cur;
        let res = wr_relocate(lfs, file, in_use, Ghost(cur));
        proof {
            assert(in_use@.subrange(0, u0.len() as int) =~= u0) by {
                assert(in_use@.subrange(0, u1.len() as int) == u1);
                assert(u1.subrange(0, u0.len() as int) == u0);
                assert(in_use@.subrange(0, u0.len() as int) =~= u1.subrange(0, u0.len() as int));
            }
            assert forall|j: int| 0 <= j < u0.len() && u0[j] != f0.block implies #[trigger] lfs.cfg.disk()[u0[j] as int]
                == l0.cfg.disk()[u0[j] as int] by {
                assert(u1[j] == u0[j]);
                assert(lfs.cfg.disk()[u1[j] as int] == l2.cfg.disk()[u1[j] as int]);
            }
        }
        match res {
            Err(e) => {
                return Err(e);
            },
            Ok(()) => {},
        }
        proof {
            cur = cur1.update(cur1.len() - 1, file.block);
            if u0.contains(file.block) {
                let w = choose|w: int| 0 <= w < u0.len() && u0[w] == file.block;
                assert(u1[w] == file.block);
            }
        }
    }
}

/// A file being written has stopped with data in its current block, or
/// has not started.
pub open spec fn wr_settled(file: &LfsFile, blocks: Seq<u32>) -> bool {
    file.pos == 0 || file.off > 4 * ctz_skips((blocks.len() - 1) as nat)
}

/// Every block of the chain is in `in_use`.
pub open spec fn chain_in(blocks: Seq<u32>, in_use: Seq<u32>) -> bool {
    forall|j: int| 0 <= j < blocks.len() ==> in_use.contains(#[trigger] blocks[j])
}

/// Whether a file is being written.
pub open spec fn is_writing(file: &LfsFile) -> bool {
    file.flags & LFS_F_WRITING != 0
}

/// The block a write must leave alone besides the stored file: the block
/// being written, if any.
pub open spec fn wr_avoid(file: &LfsFile) -> u32 {
    if is_writing(file) {
        file.block
    } else {
        LFS_BLOCK_NULL
    }
}

/// The stored file of `file` lies in blocks in use other than the one
/// being written.
pub open spec fn file_stored<S: Storage>(lfs: Lfs<S>, file: &LfsFile, in_use: Seq<u32>) -> bool {
    ctz_stored(lfs.cfg.disk(), lfs.cfg.block_size, lfs.block_count, file.ctz.head, file.ctz.size, in_use, wr_avoid(file))
}

/// A file kept in a skip-list that is ready to be written: the stored
/// file lies in blocks in use other than the one being written wherever a
/// write or a flush may still read it, that is unless the file is being
/// written past its end.
pub open spec fn ctz_write_ready<S: Storage>(lfs: Lfs<S>, file: &LfsFile, in_use: Seq<u32>) -> bool {
    &&& ctz_write_base(lfs, file, in_use)
    &&& (!is_writing(file) || file.pos < file.ctz.size) ==> file_stored(lfs, file, in_use)
}

/// All of `ctz_write_ready` but the stored file: the filesystem is ready,
/// and either the file is being written into a chain of blocks in use,
/// or its position lies within the stored file and its cache holds no
/// pending data.
pub open spec fn ctz_write_base<S: Storage>(lfs: Lfs<S>, file: &LfsFile, in_use: Seq<u32>) -> bool {
    &&& wr_env(lfs, in_use)
    &&& !is_inline(file)
    &&& file.cache.wf(lfs.cfg.cache_size)
    &&& if is_writing(file) {
        exists|c: Seq<u32>| wr_chain(lfs, file, c) && wr_settled(file, c) && chain_in(c, in_use)
    } else {
        &&& file.pos <= file.ctz.size
        &&& file.cache.off % lfs.cfg.prog_size == 0
        &&& pcache_fits(file.cache, lfs.cfg.disk())
        &&& (file.pos == 0 ==> file.cache.block == LFS_BLOCK_NULL)
    }
}

/// An inline file that is ready to be written: its cache holds its whole
/// data, which stays within the inline limit, and a file being written
/// stands at the offset of its position in that data. The metadata pair
/// that holds the file is in use.
pub open spec fn inline_write_ready<S: Storage>(lfs: Lfs<S>, file: &LfsFile, in_use: Seq<u32>) -> bool {
    &&& inline_write_base(lfs, file, in_use)
    &&& !is_writing(file) ==> file.pos <= file.ctz.size
}

/// All of `inline_write_ready` but where the position of a file that is
/// not being written lies.
pub open spec fn inline_write_base<S: Storage>(lfs: Lfs<S>, file: &LfsFile, in_use: Seq<u32>) -> bool {
    &&& wr_env(lfs, in_use)
    &&& is_inline(file)
    &&& file.cache.wf(lfs.cfg.cache_size)
    &&& inline_cache_full(file.cache, lfs.cfg.cache_size)
    &&& file.ctz.size <= lfs.inline_max
    &&& file.m.off <= lfs.cfg.block_size
    &&& in_use.contains(file.m.pair[0])
    &&& is_writing(file) ==> {
        &&& file.block == LFS_BLOCK_INLINE
        &&& file.off == file.pos
        &&& file.pos <= lfs.inline_max
    }
}

/// A file that is ready to be written, inline or kept in a skip-list.
pub open spec fn write_ready<S: Storage>(lfs: Lfs<S>, file: &LfsFile, in_use: Seq<u32>) -> bool {
    if is_inline(file) {
        inline_write_ready(lfs, file, in_use)
    } else {
        ctz_write_ready(lfs, file, in_use)
    }
}

/// Byte `p` of a file being written: an inline file's cache holds its
/// whole data, any other file's bytes lie in the chain it writes into.
pub open spec fn wr_file_byte<S: Storage>(lfs: Lfs<S>, file: &LfsFile, p: int) -> u8 {
    if is_inline(file) {
        file.cache.buffer@[p]
    } else {
        wr_byte(lfs, file, p)
    }
}

/// Byte `p` of a file before a write at its position: an inline file's
/// from its cache; what has been written while it is being written, else
/// the stored file's.
pub open spec fn wr_before_byte<S: Storage>(lfs: Lfs<S>, file: &LfsFile, p: int) -> u8 {
    if is_inline(file) {
        file.cache.buffer@[p]
    } else if is_writing(file) {
        wr_byte(lfs, file, p)
    } else {
        ctz_file_byte(lfs.cfg.disk(), lfs.cfg.block_size, file.ctz.head, file.ctz.size, p)
    }
}

/// The data of block `i` starts at least `i` times 120 bytes in.
proof fn lemma_pos_lower(bs: u32, i: nat)
    requires
        bs >= 128,
    ensures
        ctz_pos(bs, i) >= (bs - 8) * i >= 0,
{
    assert(ctz_pos(bs, i) >= (bs - 8) * i >= 0) by (nonlinear_arith)
        requires ctz_pos(bs, i) == bs * i - 4 * (2 * i - popc_nat(i)), popc_nat(i) >= 0, bs >= 128;
}

/// A block index whose data starts at a 32-bit position is below 2^26.
pub proof fn lemma_index_small(bs: u32, i: nat)
    requires
        bs >= 128,
        ctz_pos(bs, i) <= u32::MAX,
    ensures
        i < 0x0400_0000,
{
    lemma_pos_lower(bs, i);
    assert(i < 0x0400_0000) by (nonlinear_arith)
        requires (bs - 8) * i <= u32::MAX, bs >= 128;
}

/// A stored file whose blocks the device keeps stays stored, with the
/// same bytes.
pub proof fn lemma_stored_kept(
    d0: Seq<Seq<u8>>,
    d1: Seq<Seq<u8>>,
    bs: u32,
    bc: u32,
    head: u32,
    size: u32,
    in_use: Seq<u32>,
    avoid: u32,
    u2: Seq<u32>,
    avoid2: u32,
)
    requires
        bs >= 128,
        ctz_stored(d0, bs, bc, head, size, in_use, avoid),
        kept_but(d0, d1, in_use, avoid),
        extends(u2, in_use),
        avoid2 == avoid || !in_use.contains(avoid2),
    ensures
        ctz_stored(d1, bs, bc, head, size, u2, avoid2),
        forall|p: int| 0 <= p < size ==> #[trigger] ctz_file_byte(d1, bs, head, size, p) == ctz_file_byte(d0, bs, head, size, p),
{
    if size > 0 {
        let blocks = choose|blocks: Seq<u32>|
            ctz_stored_as(d0, bs, bc, head, size, blocks) && forall|j: int|
                0 <= j < blocks.len() ==> in_use.contains(#[trigger] blocks[j]) && blocks[j] != avoid;
        lemma_ctz_index_total(bs, (size - 1) as u32);
        assert forall|j: int| 0 <= j < blocks.len() implies #[trigger] views_agree(d0, None, d1, None, blocks[j], bs as int) by {
            assert(in_use.contains(blocks[j]) && blocks[j] != avoid);
            let w = choose|w: int| 0 <= w < in_use.len() && in_use[w] == blocks[j];
            assert(d1[in_use[w] as int] == d0[in_use[w] as int]);
        }
        assert(views_match(d0, None, blocks.last(), d1, None, blocks.last(), bs as int)) by {
            assert(views_agree(d0, None, d1, None, blocks[blocks.len() - 1], bs as int));
        }
        vstd::arithmetic::power2::lemma2_to64();
        lemma_popc_ctz_bound((blocks.len() - 1) as nat, 26);
        lemma_list_transfer(d0, None, blocks, d1, None, blocks, bs, bs as int);
        assert forall|j: int| 0 <= j < blocks.len() implies u2.contains(#[trigger] blocks[j]) && blocks[j] != avoid2 by {
            assert(in_use.contains(blocks[j]));
            let w = choose|w: int| 0 <= w < in_use.len() && in_use[w] == blocks[j];
            assert(u2.subrange(0, in_use.len() as int)[w] == u2[w]);
        }
        assert(ctz_stored_as(d1, bs, bc, head, size, blocks));
        assert forall|p: int| 0 <= p < size implies #[trigger] ctz_file_byte(d1, bs, head, size, p) == ctz_file_byte(
            d0,
            bs,
            head,
            size,
            p,
        ) by {
            lemma_file_byte_list(d0, bs, blocks, size, p);
            lemma_file_byte_list(d1, bs, blocks, size, p);
            crate::ctz_list::lemma_index_le(bs, p, size as int);
        }
    }
}

/// Programs `data` into a file being written, at its offset and through
/// its cache, moving the file to a fresh block whenever its block turns
/// out bad; the chain then holds `data` after what it held.
fn wr_prog<S: Storage>(lfs: &mut Lfs<S>, file: &mut LfsFile, in_use: &mut Vec<u32>, data: &[u8], Ghost(chain): Ghost<
    Seq<u32>,
>) -> (r: Result<Ghost<Seq<u32>>, Error>)
    requires
        wr_env(*old(lfs), old(in_use)@),
        wr_chain(*old(lfs), old(file), chain),
        chain_in(chain, old(in_use)@),
        !is_inline(old(file)),
        old(file).flags & LFS_F_WRITING == LFS_F_WRITING,
        0 < data@.len(),
        old(file).off + data@.len() <= old(lfs).cfg.block_size,
        old(file).pos + data@.len() <= u32::MAX,
    ensures
        same_limits(*final(lfs), *old(lfs)),
        lfs_read_ready(*final(lfs)),
        same_params(final(lfs).cfg, old(lfs).cfg),
        final(lfs).block_count == old(lfs).block_count,
        final(lfs).gdisk == old(lfs).gdisk,
        la_wf(final(lfs).lookahead, final(lfs).block_count),
        la_sound(final(lfs).lookahead, final(lfs).block_count, final(in_use)@),
        blocks_valid(final(in_use)@, final(lfs).block_count),
        extends(final(in_use)@, old(in_use)@),
        kept_but(old(lfs).cfg.disk(), final(lfs).cfg.disk(), old(in_use)@, old(file).block),
        final(lfs).pcache.wf(old(lfs).cfg.cache_size),
        final(lfs).rcache.wf(old(lfs).cfg.cache_size),
        final(file).cache.wf(old(lfs).cfg.cache_size),
        *final(file) == (LfsFile { cache: final(file).cache, block: final(file).block, ..*old(file) }),
        final(file).block == old(file).block || !old(in_use)@.contains(final(file).block),
        r matches Ok(c) ==> {
            let n = data@.len();
            let f2 = LfsFile { pos: (old(file).pos + n) as u32, off: (old(file).off + n) as u32, ..*final(file) };
            &&& wr_env(*final(lfs), final(in_use)@)
            &&& wr_chain(*final(lfs), &f2, c@)
            &&& wr_settled(&f2, c@)
            &&& chain_in(c@, final(in_use)@)
            &&& forall|p: int| 0 <= p < old(file).pos + n ==> #[trigger] list_byte(final(lfs).cfg.disk(), Some(
                final(file).cache), old(lfs).cfg.block_size, c@, p) == if p < old(file).pos {
                list_byte(old(lfs).cfg.disk(), Some(old(file).cache), old(lfs).cfg.block_size, chain, p)
            } else {
                data@[p - old(file).pos]
            }
        },
{
    let ghost l0 = *lfs;
    let ghost f0 = *file;
    let ghost u0 = in_use@;
    let ghost mut cur = chain;
    let ghost bs = l0.cfg.block_size;
    let ghost ci = chain.len() - 1;
    proof {
        crate::bd::lemma_cfg_sizes(lfs.cfg);
        assert(in_use@.subrange(0, u0.len() as int) =~= u0);
    }
    loop
        invariant
            same_limits(*lfs, *old(lfs)),
            wr_env(*lfs, in_use@),
            wr_chain(*lfs, file, cur),
            chain_in(cur, in_use@),
            same_params(lfs.cfg, l0.cfg),
            lfs.block_count == l0.block_count,
            lfs.gdisk == l0.gdisk,
            l0 == *old(lfs),
            f0 == *old(file),
            u0 == old(in_use)@,
            bs == l0.cfg.block_size,
            bs >= 128,
            ci == chain.len() - 1,
            wr_chain(l0, &f0, chain),
            !is_inline(&f0),
            f0.flags & LFS_F_WRITING == LFS_F_WRITING,
            0 < data@.len(),
            f0.off + data@.len() <= bs,
            f0.pos + data@.len() <= u32::MAX,
            extends(in_use@, u0),
            kept_but(l0.cfg.disk(), lfs.cfg.disk(), u0, f0.block),
            *file == (LfsFile { cache: file.cache, block: file.block, ..f0 }),
            file.block == f0.block || !u0.contains(file.block),
            cur.len() == chain.len(),
            forall|j: int| 0 <= j < ci ==> #[trigger] cur[j] == chain[j],
            forall|p: int| 0 <= p < f0.pos ==> #[trigger] list_byte(lfs.cfg.disk(), Some(file.cache), bs, cur, p)
                == list_byte(l0.cfg.disk(), Some(f0.cache), bs, chain, p),
        decreases lfs.lookahead.ckpoint,
    {
        let ghost l1 = *lfs;
        let ghost c1 = file.cache;
        let ghost u1 = in_use@;
        let bc = lfs.block_count;
        proof {
            crate::ctz::lemma_prog_seq_gap_pub(file.cache, file.block, file.off, lfs.cfg.cache_size, lfs.cfg.prog_size);
        }
        let res = lfs_bd_prog(&mut lfs.cfg, bc, &mut file.cache, &mut lfs.rcache, true, file.block, file.off, data);
        proof {
            assert forall|j: int| 0 <= j < u0.len() && u0[j] != f0.block implies #[trigger] lfs.cfg.disk()[u0[j] as int]
                == l0.cfg.disk()[u0[j] as int] by {
                assert(l1.cfg.disk()[u0[j] as int] == l0.cfg.disk()[u0[j] as int]);
                if u0[j] == file.block {
                    assert(u0.contains(file.block));
                }
            }
            assert forall|j: int| 0 <= j < ci implies #[trigger] views_agree(l1.cfg.disk(), Some(c1), lfs.cfg.disk(),
                Some(file.cache), cur[j], bs as int) by {
                assert(cur[j] != file.block);
                assert forall|x: int| 0 <= x < bs implies #[trigger] view_byte(lfs.cfg.disk(), Some(file.cache),
                    cur[j] as int, x) == view_byte(l1.cfg.disk(), Some(c1), cur[j] as int, x) by {}
            }
            assert(views_match(l1.cfg.disk(), Some(c1), cur[ci], lfs.cfg.disk(), Some(file.cache), cur[ci],
                file.off as int));
            lemma_list_transfer(l1.cfg.disk(), Some(c1), cur, lfs.cfg.disk(), Some(file.cache), cur, bs, file.off as int);
            assert forall|p: int| 0 <= p < f0.pos implies #[trigger] list_byte(lfs.cfg.disk(), Some(file.cache), bs, cur, p)
                == list_byte(l0.cfg.disk(), Some(f0.cache), bs, chain, p) by {
                lemma_index_before(bs, ci as nat, file.off as int, p);
                assert(list_byte(l1.cfg.disk(), Some(c1), bs, cur, p) == list_byte(l0.cfg.disk(), Some(f0.cache), bs,
                    chain, p));
            }
        }
        match res {
            Ok(()) => {
                proof {
                    let n = data@.len();
                    assert forall|p: int| 0 <= p < f0.pos + n implies #[trigger] list_byte(lfs.cfg.disk(), Some(
                        file.cache), bs, cur, p) == if p < f0.pos {
                        list_byte(l0.cfg.disk(), Some(f0.cache), bs, chain, p)
                    } else {
                        data@[p - f0.pos]
                    } by {
                        if p >= f0.pos {
                            let x = f0.off + (p - f0.pos);
                            assert(ctz_in_block(bs, p, ci as nat, x));
                            lemma_ctz_index_of(bs, p, ci as nat, x);
                            assert(view_byte(lfs.cfg.disk(), Some(file.cache), file.block as int, f0.off + (p - f0.pos))
                                == data@[p - f0.pos]);
                        }
                    }
                }
                return Ok(Ghost(cur));
            },
            Err(e) => {
                if e != Error::Corrupt {
                    return Err(e);
                }
            },
        }
        // The failed program may have left the read cache holding the bad
        // block.
        lfs_cache_drop(&mut lfs.rcache);
        let ghost l2 = *lfs;
        let ghost cur1 = cur;
        let res = wr_relocate(lfs, file, in_use, Ghost(cur));
        proof {
            assert(in_use@.subrange(0, u0.len() as int) =~= u0) by {
                assert(in_use@.subrange(0, u1.len() as int) == u1);
                assert(u1.subrange(0, u0.len() as int) == u0);
                assert(in_use@.subrange(0, u0.len() as int) =~= u1.subrange(0, u0.len() as int));
            }
            assert forall|j: int| 0 <= j < u0.len() && u0[j] != f0.block implies #[trigger] lfs.cfg.disk()[u0[j] as int]
                == l0.cfg.disk()[u0[j] as int] by {
                assert(u1[j] == u0[j]);
                assert(lfs.cfg.disk()[u1[j] as int] == l2.cfg.disk()[u1[j] as int]);
            }
        }
        match res {
            Err(e) => {
                return Err(e);
            },
            Ok(()) => {},
        }
        proof {
            cur = cur1.update(cur1.len() - 1, file.block);
            if u0.contains(file.block) {
                let w = choose|w: int| 0 <= w < u0.len() && u0[w] == file.block;
                assert(u1[w] == file.block);
            }
        }
    }
}

/// An empty cache that stands in while a cache is lent out.
pub(crate) fn cache_placeholder() -> (c: LfsCache)
    ensures
        c.block == LFS_BLOCK_NULL,
{
    LfsCache { block: LFS_BLOCK_NULL, off: 0, size: 0, buffer: Vec::new() }
}

/// Gives a file a block to write into at its position, as a write starts
/// or runs past the end of a block: the block that holds the byte before
/// the position is copied up to it, or a new block is linked after a full
/// one. The chain then holds what the file held before its position.
#[verifier::spinoff_prover]
#[verifier::rlimit(40)]
fn wr_start_block<S: Storage>(lfs: &mut Lfs<S>, file: &mut LfsFile, in_use: &mut Vec<u32>) -> (r: Result<
    Ghost<Seq<u32>>,
    Error,
>)
    requires
        ctz_write_base(*old(lfs), old(file), old(in_use)@),
        !is_writing(old(file)) ==> file_stored(*old(lfs), old(file), old(in_use)@),
        !is_writing(old(file)) || old(file).off == old(lfs).cfg.block_size,
        old(file).pos < u32::MAX,
    ensures
        same_limits(*final(lfs), *old(lfs)),
        lfs_read_ready(*final(lfs)),
        same_params(final(lfs).cfg, old(lfs).cfg),
        final(lfs).block_count == old(lfs).block_count,
        final(lfs).gdisk == old(lfs).gdisk,
        la_wf(final(lfs).lookahead, final(lfs).block_count),
        la_sound(final(lfs).lookahead, final(lfs).block_count, final(in_use)@),
        blocks_valid(final(in_use)@, final(lfs).block_count),
        extends(final(in_use)@, old(in_use)@),
        kept_but(old(lfs).cfg.disk(), final(lfs).cfg.disk(), old(in_use)@, wr_avoid(old(file))),
        final(lfs).pcache.wf(old(lfs).cfg.cache_size),
        final(lfs).rcache.wf(old(lfs).cfg.cache_size),
        final(file).cache.wf(old(lfs).cfg.cache_size),
        *final(file) == (LfsFile {
            cache: final(file).cache,
            block: final(file).block,
            off: final(file).off,
            flags: final(file).flags,
            ..*old(file)
        }),
        final(file).flags == old(file).flags || final(file).flags == old(file).flags | LFS_F_WRITING,
        r matches Ok(c) ==> {
            &&& wr_env(*final(lfs), final(in_use)@)
            &&& final(file).flags == old(file).flags | LFS_F_WRITING
            &&& wr_chain(*final(lfs), final(file), c@)
            &&& chain_in(c@, final(in_use)@)
            &&& final(file).off < old(lfs).cfg.block_size
            &&& !old(in_use)@.contains(final(file).block)
            &&& forall|p: int| 0 <= p < old(file).pos ==> #[trigger] list_byte(final(lfs).cfg.disk(), Some(
                final(file).cache), old(lfs).cfg.block_size, c@, p) == wr_before_byte(*old(lfs), old(file), p)
        },
{
    let ghost l0 = *lfs;
    let ghost f0 = *file;
    let ghost u0 = in_use@;
    let ghost bs = l0.cfg.block_size;
    let ghost disk0 = l0.cfg.disk();
    let ghost mut base: Seq<u32> = Seq::empty();
    let ghost mut gti: nat = 0;
    let ghost mut gboff: int = 0;
    proof {
        crate::bd::lemma_cfg_sizes(lfs.cfg);
        assert(in_use@.subrange(0, u0.len() as int) =~= u0);
        vstd::arithmetic::power2::lemma2_to64();
        lemma_set_flag(f0.flags, LFS_F_WRITING, LFS_F_INLINE);
    }
    if file.flags & LFS_F_WRITING == 0 {
        if file.pos > 0 {
            let mut rc = cache_placeholder();
            core::mem::swap(&mut rc, &mut lfs.rcache);
            let mut boff: u32 = 0;
            let head = file.ctz.head;
            let size = file.ctz.size;
            let res = lfs_ctz_find(lfs, None, &mut rc, head, size, file.pos - 1, &mut file.block, &mut boff);
            core::mem::swap(&mut rc, &mut lfs.rcache);
            match res {
                Err(e) => {
                    return Err(e);
                },
                Ok(()) => {},
            }
            lfs_cache_zero(&mut file.cache);
            proof {
                let blocks_s = choose|blocks: Seq<u32>|
                    ctz_stored_as(disk0, bs, l0.block_count, head, size, blocks) && forall|j: int|
                        0 <= j < blocks.len() ==> u0.contains(#[trigger] blocks[j]) && blocks[j] != LFS_BLOCK_NULL;
                let (ci, co, ti) = choose|ci: nat, co: int, ti: nat|
                    #![trigger ctz_in_block(bs, size - 1, ci, co), ctz_walk(disk0, None, head, ci, ti)]
                    ci < 0x0400_0000 && ti < 0x0400_0000 && ctz_in_block(bs, size - 1, ci, co) && ctz_in_block(
                        bs,
                        f0.pos - 1,
                        ti,
                        boff as int,
                    ) && file.block == ctz_walk(disk0, None, head, ci, ti);
                lemma_ctz_index_of(bs, size - 1, ci, co);
                lemma_ctz_index_of(bs, f0.pos - 1, ti, boff as int);
                crate::ctz_list::lemma_index_le(bs, f0.pos - 1, size as int);
                lemma_walk_wf(disk0, None, blocks_s, ci, ti);
                assert(u0.contains(blocks_s[ti as int]));
                base = blocks_s;
                gti = ti;
                gboff = boff as int;
            }
        }
    } else {
        let ghost c0 = choose|c: Seq<u32>| wr_chain(l0, &f0, c) && wr_settled(&f0, c) && chain_in(c, u0);
        proof {
            lemma_wr_index(l0, &f0, c0);
        }
        if file.cache.block != LFS_BLOCK_NULL {
            let res = file_flush_cache(lfs, file, in_use, Ghost(c0));
            match res {
                Err(e) => {
                    return Err(e);
                },
                Ok(c) => {
                    proof {
                        base = c@;
                    }
                },
            }
        } else {
            proof {
                base = c0;
                assert forall|j: int| 0 <= j < c0.len() implies #[trigger] c0[j] != file.cache.block by {}
                lemma_list_no_cache(disk0, file.cache, bs, c0);
                vstd::arithmetic::power2::lemma2_to64();
                lemma_popc_ctz_bound((c0.len() - 1) as nat, 26);
                assert(views_match(disk0, Some(file.cache), c0.last(), disk0, None, c0.last(), bs as int)) by {
                    assert(views_agree(disk0, Some(file.cache), disk0, None, c0[c0.len() - 1], bs as int));
                }
                lemma_list_transfer(disk0, Some(file.cache), c0, disk0, None, c0, bs, bs as int);
                assert forall|p: int| 0 <= p < f0.pos implies #[trigger] list_byte(disk0, None, bs, c0, p) == list_byte(
                    disk0,
                    Some(f0.cache),
                    bs,
                    c0,
                    p,
                ) by {
                    lemma_index_before(bs, (c0.len() - 1) as nat, f0.off as int, p);
                }
            }
        }
        proof {
            assert(base.len() == c0.len());
            assert(base.last() == file.block);
            assert(ctz_list_wf(lfs.cfg.disk(), None, base));
            assert(chain_in(base, in_use@));
            assert(forall|j: int| 0 <= j < base.len() ==> #[trigger] base[j] < lfs.block_count);
            assert(forall|p: int| 0 <= p < f0.pos ==> #[trigger] list_byte(lfs.cfg.disk(), None, bs, base, p)
                == list_byte(disk0, Some(f0.cache), bs, c0, p));
            assert(ctz_pos(bs, (base.len() - 1) as nat) + bs == f0.pos);
        }
    }
    let ghost l1 = *lfs;
    let ghost f1 = *file;
    let ghost u1 = in_use@;
    proof {
        lemma_set_flag(f0.flags, LFS_F_WRITING, LFS_F_INLINE);
        if file.pos > 0 {
            if is_writing(&f0) {
                assert(in_use@.contains(base[base.len() - 1]));
            }
            assert(in_use@.contains(file.block));
        }
    }
    lfs_alloc_ckpoint(lfs);
    let mut rc = cache_placeholder();
    core::mem::swap(&mut rc, &mut lfs.rcache);
    let head = file.block;
    let size = file.pos;
    let res = lfs_ctz_extend(lfs, &mut file.cache, &mut rc, in_use.as_slice(), head, size, &mut file.block, &mut file.off);
    core::mem::swap(&mut rc, &mut lfs.rcache);
    match res {
        Err(e) => {
            return Err(e);
        },
        Ok(()) => {},
    }
    let nb = file.block;
    proof {
        lemma_sound_push(lfs.lookahead, lfs.block_count, in_use@, nb);
    }
    in_use.push(nb);
    file.flags = file.flags | LFS_F_WRITING;
    let ghost mut nc: Seq<u32> = Seq::empty();
    proof {
        let d1 = lfs.cfg.disk();
        let pc1 = file.cache;
        assert(in_use@.subrange(0, u0.len() as int) =~= u0) by {
            assert(in_use@.subrange(0, u1.len() as int) =~= u1);
            assert(u1.subrange(0, u0.len() as int) == u0);
            assert(in_use@.subrange(0, u0.len() as int) =~= u1.subrange(0, u0.len() as int));
        }
        assert forall|j: int| 0 <= j < u0.len() && u0[j] != wr_avoid(&f0) implies #[trigger] d1[u0[j] as int]
            == disk0[u0[j] as int] by {
            assert(u1[j] == u0[j]);
            assert(d1[u1[j] as int] == l1.cfg.disk()[u1[j] as int]);
        }
        assert forall|j: int| 0 <= j < in_use@.len() implies #[trigger] in_use@[j] < lfs.block_count by {
            if j < u1.len() {
                assert(in_use@[j] == u1[j]);
            }
        }
        assert(!u0.contains(nb)) by {
            if u0.contains(nb) {
                let w = choose|w: int| 0 <= w < u0.len() && u0[w] == nb;
                assert(u1[w] == nb);
            }
        }
        let d0 = l1.cfg.disk();
        if !is_writing(&f0) && f0.pos == 0 {
            nc = seq![nb];
            assert(ctz_pos(bs, 0) == 0);
        } else if !is_writing(&f0) {
            let ti = gti;
            let boff = gboff;
            lemma_ctz_index_of(bs, f0.pos - 1, ti, boff);
            let (ci2, co2) = choose|ci: nat, co: int|
                #![trigger ctz_in_block(bs, f0.pos - 1, ci, co)]
                ctz_in_block(bs, f0.pos - 1, ci, co) && (co + 1 < bs ==> file.off == co + 1 && ctz_copied(
                    d0, d1, pc1, head, nb, (co + 1) as nat)) && (co + 1 == bs ==> file.off == 4 * ctz_skips(ci + 1)
                    && ctz_linked(d0, d1, pc1, head, nb, u1, ctz_skips(ci + 1)));
            lemma_index_small(bs, ci2);
            lemma_ctz_in_block_unique(bs, f0.pos - 1, ti, boff, ci2, co2);
            assert forall|j: int| 0 <= j < base.len() implies u1.contains(#[trigger] base[j]) && base[j] != LFS_BLOCK_NULL by {
                assert(u0.contains(base[j]));
                let w = choose|w: int| 0 <= w < u0.len() && u0[w] == base[j];
                assert(u1[w] == base[j]);
            }
            if boff + 1 < bs {
                lemma_extend_copy(d0, d1, pc1, bs, base, ti, boff, nb, u1);
                nc = base.subrange(0, ti as int).push(nb);
                assert forall|p: int| 0 <= p < f0.pos implies #[trigger] list_byte(d1, Some(pc1), bs, nc, p)
                    == wr_before_byte(l0, &f0, p) by {
                    lemma_index_before(bs, ti, boff + 1, p);
                    lemma_file_byte_list(d0, bs, base, f0.ctz.size, p);
                }
            } else {
                lemma_ctz_blocks_abut(bs, ti);
                lemma_index_small(bs, ti + 1);
                let prefix = base.subrange(0, ti as int + 1);
                lemma_list_prefix(d0, None, base, ti as int + 1);
                lemma_extend_link(d0, d1, pc1, bs, prefix, nb, u1);
                nc = prefix.push(nb);
                lemma_ctz_blocks_abut(bs, ti);
                assert forall|p: int| 0 <= p < f0.pos implies #[trigger] list_byte(d1, Some(pc1), bs, nc, p)
                    == wr_before_byte(l0, &f0, p) by {
                    lemma_index_before(bs, ti, bs as int, p);
                    lemma_file_byte_list(d0, bs, base, f0.ctz.size, p);
                    assert(list_byte(d0, None, bs, prefix, p) == list_byte(d0, None, bs, base, p));
                }
            }
        } else {
            let ci = (base.len() - 1) as nat;
            let c0 = choose|c: Seq<u32>| wr_chain(l0, &f0, c) && wr_settled(&f0, c) && chain_in(c, u0);
            lemma_popc_ctz_bound(ci, 26);
            lemma_pos_lower(bs, ci);
            lemma_ctz_blocks_abut(bs, ci);
            lemma_index_small(bs, ci + 1);
            lemma_ctz_index_of(bs, f0.pos - 1, ci, bs - 1);
            let (ci2, co2) = choose|ci: nat, co: int|
                #![trigger ctz_in_block(bs, f0.pos - 1, ci, co)]
                ctz_in_block(bs, f0.pos - 1, ci, co) && (co + 1 < bs ==> file.off == co + 1 && ctz_copied(
                    d0, d1, pc1, head, nb, (co + 1) as nat)) && (co + 1 == bs ==> file.off == 4 * ctz_skips(ci + 1)
                    && ctz_linked(d0, d1, pc1, head, nb, u1, ctz_skips(ci + 1)));
            lemma_index_small(bs, ci2);
            lemma_ctz_in_block_unique(bs, f0.pos - 1, ci, bs - 1, ci2, co2);
            assert forall|j: int| 0 <= j < base.len() implies #[trigger] base[j] != LFS_BLOCK_NULL by {}
            lemma_extend_link(d0, d1, pc1, bs, base, nb, u1);
            nc = base.push(nb);
            assert forall|p: int| 0 <= p < f0.pos implies #[trigger] list_byte(d1, Some(pc1), bs, nc, p)
                == wr_before_byte(l0, &f0, p) by {
                lemma_index_before(bs, ci, bs as int, p);
                lemma_wr_byte(l0, &f0, c0, p);
            }
        }
        let ci_new = (nc.len() - 1) as nat;
        lemma_popc_ctz_bound(ci_new, 26);
        assert forall|j: int| 0 <= j < nc.len() implies in_use@.contains(#[trigger] nc[j]) by {
            if j == nc.len() - 1 {
                assert(in_use@[in_use@.len() - 1] == nb);
            } else {
                assert(u1.contains(nc[j]));
                let w = choose|w: int| 0 <= w < u1.len() && u1[w] == nc[j];
                assert(in_use@[w] == nc[j]);
            }
        }
        assert forall|j: int| 0 <= j < ci_new implies #[trigger] nc[j] != file.block by {
            assert(u1.contains(nc[j]));
        }
        assert(wr_chain(*lfs, file, nc));
    }
    Ok(Ghost(nc))
}

/// Byte `p` of a file after `data` was written at position `pos` of it:
/// the bytes of `data` from `pos` on, what it held before `pos`.
pub open spec fn wr_after_byte<S: Storage>(lfs: Lfs<S>, file: &LfsFile, data: Seq<u8>, p: int) -> u8 {
    if p < file.pos {
        wr_before_byte(lfs, file, p)
    } else {
        data[p - file.pos]
    }
}

/// Writes `buffer` at the position of a file kept in a skip-list: into
/// the block it is writing, through its cache, giving it a new block
/// whenever it starts or reaches the end of one, and replacing a block
/// that turns out bad by a copy. `in_use` lists the blocks in use; the
/// blocks that the write takes are added to it. Afterwards the file is
/// being written, its position is past `buffer`, and it holds `buffer`
/// there after what it held before its position.
fn ctz_flushedwrite<S: Storage>(lfs: &mut Lfs<S>, file: &mut LfsFile, in_use: &mut Vec<u32>, buffer: &[u8]) -> (r:
    Result<u32, Error>)
    requires
        ctz_write_base(*old(lfs), old(file), old(in_use)@),
        (!is_writing(old(file)) || old(file).pos + buffer@.len() < old(file).ctz.size) ==> file_stored(*old(lfs), old(file),
            old(in_use)@),
        old(file).pos + buffer@.len() <= u32::MAX,
    ensures
        same_limits(*final(lfs), *old(lfs)),
        lfs_read_ready(*final(lfs)),
        same_params(final(lfs).cfg, old(lfs).cfg),
        final(lfs).block_count == old(lfs).block_count,
        final(lfs).gdisk == old(lfs).gdisk,
        la_wf(final(lfs).lookahead, final(lfs).block_count),
        la_sound(final(lfs).lookahead, final(lfs).block_count, final(in_use)@),
        blocks_valid(final(in_use)@, final(lfs).block_count),
        extends(final(in_use)@, old(in_use)@),
        kept_but(old(lfs).cfg.disk(), final(lfs).cfg.disk(), old(in_use)@, wr_avoid(old(file))),
        final(lfs).pcache.wf(old(lfs).cfg.cache_size),
        final(lfs).rcache.wf(old(lfs).cfg.cache_size),
        final(file).cache.wf(old(lfs).cfg.cache_size),
        *final(file) == (LfsFile {
            cache: final(file).cache,
            block: final(file).block,
            off: final(file).off,
            pos: final(file).pos,
            flags: final(file).flags,
            ..*old(file)
        }),
        !is_inline(final(file)),
        r is Err ==> final(file).flags & LFS_F_ERRED == LFS_F_ERRED,
        r is Ok && is_writing(final(file)) ==> (final(file).block == old(file).block && is_writing(old(file))) || !old(
            in_use,
        )@.contains(final(file).block),
        r is Ok ==> {
            &&& r == Ok::<u32, Error>(buffer@.len() as u32)
            &&& final(file).pos == old(file).pos + buffer@.len()
            &&& ctz_write_ready(*final(lfs), final(file), final(in_use)@)
            &&& file_stored(*old(lfs), old(file), old(in_use)@) ==> file_stored(*final(lfs), final(file), final(in_use)@)
            &&& file_stored(*old(lfs), old(file), old(in_use)@) ==> forall|p: int| 0 <= p < old(file).ctz.size ==> #[trigger] ctz_file_byte(final(lfs).cfg.disk(),
                old(lfs).cfg.block_size, old(file).ctz.head, old(file).ctz.size, p) == ctz_file_byte(
                old(lfs).cfg.disk(), old(lfs).cfg.block_size, old(file).ctz.head, old(file).ctz.size, p)
            &&& buffer@.len() == 0 ==> *final(file) == *old(file) && *final(lfs) == *old(lfs)
            &&& buffer@.len() > 0 ==> final(file).flags == old(file).flags | LFS_F_WRITING
            &&& buffer@.len() > 0 ==> forall|p: int| 0 <= p < final(file).pos ==> #[trigger] wr_byte(*final(lfs),
                final(file), p) == wr_after_byte(*old(lfs), old(file), buffer@, p)
        },
{
    if buffer.len() == 0 {
        proof {
            assert(in_use@.subrange(0, in_use@.len() as int) =~= in_use@);
        }
        return Ok(0);
    }
    let ghost l0 = *lfs;
    let ghost f0 = *file;
    let ghost u0 = in_use@;
    let ghost bs = l0.cfg.block_size;
    let len = buffer.len() as u32;
    let block_size = lfs.cfg.block_size;
    let mut nsize = len;
    let mut done: u32 = 0;
    proof {
        crate::bd::lemma_cfg_sizes(lfs.cfg);
        assert(in_use@.subrange(0, u0.len() as int) =~= u0);
        lemma_set_flag(f0.flags, LFS_F_WRITING, LFS_F_INLINE);
        if file_stored(l0, &f0, u0) {
            lemma_stored_kept(l0.cfg.disk(), l0.cfg.disk(), bs, l0.block_count, f0.ctz.head, f0.ctz.size, u0, wr_avoid(&f0),
                u0, wr_avoid(&f0));
        }
    }
    while nsize > 0
        invariant
            same_limits(*lfs, *old(lfs)),
            l0 == *old(lfs),
            f0 == *old(file),
            u0 == old(in_use)@,
            bs == l0.cfg.block_size,
            bs >= 128,
            block_size == bs,
            ctz_write_base(l0, &f0, u0),
            (!is_writing(&f0) || f0.pos + len < f0.ctz.size) ==> file_stored(l0, &f0, u0),
            len == buffer@.len(),
            len > 0,
            done + nsize == len,
            f0.pos + len <= u32::MAX,
            file.pos == f0.pos + done,
            ctz_write_base(*lfs, file, in_use@),
            file_stored(l0, &f0, u0) ==> file_stored(*lfs, file, in_use@),
            same_params(lfs.cfg, l0.cfg),
            lfs.block_count == l0.block_count,
            lfs.gdisk == l0.gdisk,
            extends(in_use@, u0),
            kept_but(l0.cfg.disk(), lfs.cfg.disk(), u0, wr_avoid(&f0)),
            *file == (LfsFile {
                cache: file.cache,
                block: file.block,
                off: file.off,
                pos: file.pos,
                flags: file.flags,
                ..f0
            }),
            done == 0 ==> *file == f0 && *lfs == l0 && in_use@ == u0,
            done > 0 ==> file.flags == f0.flags | LFS_F_WRITING,
            is_writing(file) ==> (file.block == f0.block && is_writing(&f0)) || !u0.contains(file.block),
            done > 0 ==> forall|p: int| 0 <= p < file.pos ==> #[trigger] wr_byte(*lfs, file, p) == wr_after_byte(l0, &f0,
                buffer@, p),
            file_stored(l0, &f0, u0) ==> forall|p: int| 0 <= p < f0.ctz.size ==> #[trigger] ctz_file_byte(lfs.cfg.disk(), bs, f0.ctz.head, f0.ctz.size, p)
                == ctz_file_byte(l0.cfg.disk(), bs, f0.ctz.head, f0.ctz.size, p),
        decreases nsize,
    {
        let ghost li = *lfs;
        let ghost fi = *file;
        let ghost ui = in_use@;
        let ghost mut c: Seq<u32> = Seq::empty();
        proof {
            lemma_set_flag(f0.flags, LFS_F_WRITING, LFS_F_INLINE);
        }
        if file.flags & LFS_F_WRITING == 0 || file.off == block_size {
            proof {
                lemma_set_flag(file.flags, LFS_F_WRITING, LFS_F_INLINE);
            }
            let res = wr_start_block(lfs, file, in_use);
            match res {
                Err(e) => {
                    proof {
                        lemma_set_flag(file.flags, LFS_F_ERRED, LFS_F_INLINE);
                        lemma_extends_trans(in_use@, ui, u0);
                    }
                    file.flags = file.flags | LFS_F_ERRED;
                    return Err(e);
                },
                Ok(g) => {
                    proof {
                        c = g@;
                    }
                },
            }
        } else {
            proof {
                c = choose|c: Seq<u32>| wr_chain(li, &fi, c) && wr_settled(&fi, c) && chain_in(c, ui);
                assert(in_use@.subrange(0, ui.len() as int) =~= ui);
            }
        }
        proof {
            assert(wr_chain(*lfs, file, c) && chain_in(c, in_use@));
            assert(file.off < bs);
            assert(file.pos == f0.pos + done);
            assert forall|p: int| 0 <= p < file.pos implies #[trigger] list_byte(lfs.cfg.disk(), Some(file.cache), bs, c, p)
                == wr_after_byte(l0, &f0, buffer@, p) by {
                if fi.flags & LFS_F_WRITING != 0 && fi.off != bs {
                    lemma_wr_byte(li, &fi, c, p);
                }
            }
        }
        let diff = lfs_min(nsize, block_size - file.off);
        let chunk = slice_part(buffer, done, diff);
        let ghost lp = *lfs;
        let ghost fp = *file;
        let ghost up = in_use@;
        let res = wr_prog(lfs, file, in_use, chunk.as_slice(), Ghost(c));
        let ghost mut c2: Seq<u32> = Seq::empty();
        match res {
            Err(e) => {
                proof {
                    lemma_set_flag(file.flags, LFS_F_ERRED, LFS_F_INLINE);
                    lemma_extends_trans(in_use@, up, ui);
                    lemma_extends_trans(in_use@, ui, u0);
                    assert forall|j: int| 0 <= j < u0.len() && u0[j] != wr_avoid(&f0) implies #[trigger] lfs.cfg.disk()[u0[j] as int]
                        == l0.cfg.disk()[u0[j] as int] by {
                        assert(in_use@.subrange(0, u0.len() as int)[j] == u0[j]);
                        assert(ui.subrange(0, u0.len() as int)[j] == u0[j]);
                        assert(up.subrange(0, u0.len() as int)[j] == u0[j]);
                        if u0[j] == fp.block {
                            assert(u0.contains(fp.block));
                        }
                        if is_writing(&fi) && u0[j] == fi.block {
                            assert(u0.contains(fi.block));
                        }
                    }
                }
                file.flags = file.flags | LFS_F_ERRED;
                return Err(e);
            },
            Ok(g) => {
                proof {
                    c2 = g@;
                }
            },
        }
        file.pos = file.pos + diff;
        file.off = file.off + diff;
        done = done + diff;
        nsize = nsize - diff;
        lfs_alloc_ckpoint(lfs);
        proof {
            lemma_extends_trans(in_use@, up, ui);
            lemma_extends_trans(in_use@, ui, u0);
            assert forall|j: int| 0 <= j < u0.len() && u0[j] != wr_avoid(&f0) implies #[trigger] lfs.cfg.disk()[u0[j] as int]
                == l0.cfg.disk()[u0[j] as int] by {
                assert(in_use@.subrange(0, u0.len() as int)[j] == u0[j]);
                assert(ui.subrange(0, u0.len() as int)[j] == u0[j]);
                assert(up.subrange(0, u0.len() as int)[j] == u0[j]);
                if u0[j] == fp.block {
                    assert(u0.contains(fp.block));
                }
                if is_writing(&fi) && u0[j] == fi.block {
                    assert(u0.contains(fi.block));
                }
            }
            assert(file.block == f0.block && is_writing(&f0) || !u0.contains(file.block)) by {
                if u0.contains(file.block) {
                    let w = choose|w: int| 0 <= w < u0.len() && u0[w] == file.block;
                    assert(ui.subrange(0, u0.len() as int)[w] == u0[w]);
                    assert(up.subrange(0, u0.len() as int)[w] == u0[w]);
                }
            }
            if file_stored(l0, &f0, u0) {
                lemma_stored_kept(l0.cfg.disk(), lfs.cfg.disk(), bs, l0.block_count, f0.ctz.head, f0.ctz.size, u0,
                    wr_avoid(&f0), in_use@, file.block);
            }
            lemma_set_flag(fi.flags, LFS_F_WRITING, LFS_F_INLINE);
            assert(wr_chain(*lfs, file, c2));
            assert forall|p: int| 0 <= p < file.pos implies #[trigger] wr_byte(*lfs, file, p) == wr_after_byte(l0, &f0,
                buffer@, p) by {
                lemma_wr_byte(*lfs, file, c2, p);
            }
        }
    }
    Ok(len)
}

/// Writes `buffer` into the cache of an inline file at its position, as
/// the program of a block: the cache holds the file's whole data.
fn inline_flushedwrite<S: Storage>(lfs: &mut Lfs<S>, file: &mut LfsFile, buffer: &[u8], Ghost(in_use): Ghost<
    Seq<u32>,
>) -> (r: Result<u32, Error>)
    requires
        inline_write_ready(*old(lfs), old(file), in_use),
        0 < buffer@.len(),
        old(file).pos + buffer@.len() <= old(lfs).inline_max,
    ensures
        r == Ok::<u32, Error>(buffer@.len() as u32),
        inline_write_ready(*final(lfs), final(file), in_use),
        same_params(final(lfs).cfg, old(lfs).cfg),
        final(lfs).cfg.disk() == old(lfs).cfg.disk(),
        final(lfs).block_count == old(lfs).block_count,
        final(lfs).gdisk == old(lfs).gdisk,
        final(lfs).pcache == old(lfs).pcache,
        final(lfs).lookahead.ckpoint == old(lfs).block_count,
        same_limits(*final(lfs), *old(lfs)),
        *final(file) == (LfsFile {
            cache: final(file).cache,
            block: LFS_BLOCK_INLINE,
            off: (old(file).pos + buffer@.len()) as u32,
            pos: (old(file).pos + buffer@.len()) as u32,
            flags: old(file).flags | LFS_F_WRITING,
            ..*old(file)
        }),
        final(file).cache.buffer@.len() == old(file).cache.buffer@.len(),
        forall|i: int|
            0 <= i < final(file).cache.buffer@.len() ==> #[trigger] final(file).cache.buffer@[i] == if old(file).pos <= i
                < old(file).pos + buffer@.len() {
                buffer@[i - old(file).pos]
            } else {
                old(file).cache.buffer@[i]
            },
{
    let ghost l0 = *lfs;
    let ghost f0 = *file;
    let len = buffer.len() as u32;
    proof {
        crate::bd::lemma_cfg_sizes(lfs.cfg);
        lemma_set_flag(f0.flags, LFS_F_WRITING, LFS_F_INLINE);
    }
    if file.flags & LFS_F_WRITING == 0 || file.off == lfs.cfg.block_size {
        file.block = LFS_BLOCK_INLINE;
        file.off = file.pos;
        file.flags = file.flags | LFS_F_WRITING;
    }
    let bc = lfs.block_count;
    let ghost c0 = file.cache;
    let res = lfs_bd_prog(&mut lfs.cfg, bc, &mut file.cache, &mut lfs.rcache, true, file.block, file.off, buffer);
    proof {
        assert(res is Ok);
        assert(lfs.cfg.disk() =~= l0.cfg.disk()) by {
            assert forall|b: int| 0 <= b < l0.cfg.disk().len() implies #[trigger] lfs.cfg.disk()[b] == l0.cfg.disk()[b] by {
                assert(b != LFS_BLOCK_INLINE);
            }
        }
        assert forall|i: int| 0 <= i < file.cache.buffer@.len() implies #[trigger] file.cache.buffer@[i] == if f0.pos
            <= i < f0.pos + buffer@.len() {
            buffer@[i - f0.pos]
        } else {
            f0.cache.buffer@[i]
        } by {
            if f0.pos <= i < f0.pos + buffer@.len() {
                assert(view_byte(lfs.cfg.disk(), Some(file.cache), LFS_BLOCK_INLINE as int, f0.pos + (i - f0.pos))
                    == buffer@[i - f0.pos]);
            }
        }
    }
    file.pos = file.pos + len;
    file.off = file.off + len;
    lfs_alloc_ckpoint(lfs);
    proof {
        lemma_set_flag(f0.flags, LFS_F_WRITING, LFS_F_INLINE);
    }
    Ok(len)
}

/// Writes `buffer` at a file's position. An inline file that the write
/// would take past the inline limit is first moved out into a block of its
/// own; a write that fits stays in the inline file's cache. A file kept
/// in a skip-list is written into the block it is writing, through its
/// cache, giving it a new block whenever it starts or reaches the end of
/// one, and replacing a block that turns out bad by a copy. `in_use`
/// lists the blocks in use; the blocks that the write takes are added to
/// it. Afterwards the file is being written, its position is past
/// `buffer`, and it holds `buffer` there after what it held before its
/// position.
pub fn lfs_file_flushedwrite<S: Storage>(lfs: &mut Lfs<S>, file: &mut LfsFile, in_use: &mut Vec<u32>, buffer: &[u8]) -> (r:
    Result<u32, Error>)
    requires
        is_inline(old(file)) ==> inline_write_ready(*old(lfs), old(file), old(in_use)@),
        !is_inline(old(file)) ==> ctz_write_base(*old(lfs), old(file), old(in_use)@),
        !is_inline(old(file)) && (!is_writing(old(file)) || old(file).pos + buffer@.len() < old(file).ctz.size)
            ==> file_stored(*old(lfs), old(file), old(in_use)@),
        old(file).pos + buffer@.len() <= u32::MAX,
    ensures
        same_limits(*final(lfs), *old(lfs)),
        lfs_read_ready(*final(lfs)),
        same_params(final(lfs).cfg, old(lfs).cfg),
        final(lfs).block_count == old(lfs).block_count,
        final(lfs).gdisk == old(lfs).gdisk,
        la_wf(final(lfs).lookahead, final(lfs).block_count),
        la_sound(final(lfs).lookahead, final(lfs).block_count, final(in_use)@),
        blocks_valid(final(in_use)@, final(lfs).block_count),
        extends(final(in_use)@, old(in_use)@),
        kept_but(old(lfs).cfg.disk(), final(lfs).cfg.disk(), old(in_use)@, wr_avoid(old(file))),
        final(lfs).pcache.wf(old(lfs).cfg.cache_size),
        final(lfs).rcache.wf(old(lfs).cfg.cache_size),
        final(file).cache.wf(old(lfs).cfg.cache_size),
        *final(file) == (LfsFile {
            cache: final(file).cache,
            block: final(file).block,
            off: final(file).off,
            pos: final(file).pos,
            flags: final(file).flags,
            ..*old(file)
        }),
        is_inline(final(file)) ==> is_inline(old(file)),
        r is Ok ==> final(file).flags & LFS_O_WRONLY == old(file).flags & LFS_O_WRONLY,
        r is Err ==> final(file).flags & LFS_F_ERRED == LFS_F_ERRED,
        r is Ok && is_writing(final(file)) ==> (final(file).block == old(file).block && is_writing(old(file))) || !old(
            in_use,
        )@.contains(final(file).block),
        r is Ok ==> {
            &&& r == Ok::<u32, Error>(buffer@.len() as u32)
            &&& final(file).pos == old(file).pos + buffer@.len()
            &&& write_ready(*final(lfs), final(file), final(in_use)@)
            &&& !is_inline(old(file)) && file_stored(*old(lfs), old(file), old(in_use)@) ==> file_stored(*final(lfs),
                final(file), final(in_use)@)
            &&& !is_inline(old(file)) && file_stored(*old(lfs), old(file), old(in_use)@) ==> forall|p: int|
                0 <= p < old(file).ctz.size ==> #[trigger] ctz_file_byte(final(lfs).cfg.disk(), old(lfs).cfg.block_size,
                old(file).ctz.head, old(file).ctz.size, p) == ctz_file_byte(old(lfs).cfg.disk(),
                old(lfs).cfg.block_size, old(file).ctz.head, old(file).ctz.size, p)
            &&& buffer@.len() == 0 ==> *final(file) == *old(file) && *final(lfs) == *old(lfs)
            &&& buffer@.len() > 0 ==> (is_inline(final(file)) <==> is_inline(old(file)) && old(file).pos + buffer@.len()
                <= old(lfs).inline_max)
            &&& buffer@.len() > 0 ==> final(file).flags == if is_inline(final(file)) {
                old(file).flags | LFS_F_WRITING
            } else {
                (old(file).flags | LFS_F_WRITING) & !LFS_F_INLINE
            }
            &&& buffer@.len() > 0 ==> forall|p: int| 0 <= p < final(file).pos ==> #[trigger] wr_file_byte(*final(lfs),
                final(file), p) == wr_after_byte(*old(lfs), old(file), buffer@, p)
            &&& buffer@.len() > 0 && is_inline(final(file)) ==> forall|p: int|
                final(file).pos <= p < final(file).cache.buffer@.len() ==> #[trigger] final(file).cache.buffer@[p]
                    == old(file).cache.buffer@[p]
        },
        is_inline(old(file)) && old(file).pos + buffer@.len() <= old(lfs).inline_max && old(file).ctz.size
            <= old(lfs).inline_max ==> r is Ok,
{
    if buffer.len() == 0 {
        proof {
            assert(in_use@.subrange(0, in_use@.len() as int) =~= in_use@);
        }
        return Ok(0);
    }
    let ghost l0 = *lfs;
    let ghost f0 = *file;
    let ghost u0 = in_use@;
    proof {
        crate::bd::lemma_cfg_sizes(lfs.cfg);
        assert(in_use@.subrange(0, u0.len() as int) =~= u0);
        lemma_set_flag(f0.flags, LFS_F_WRITING, LFS_F_INLINE);
    }
    if file.flags & LFS_F_INLINE != 0 {
        let len = buffer.len() as u32;
        if lfs_max(file.pos + len, file.ctz.size) > lfs.inline_max {
            let res = lfs_file_outline(lfs, file, in_use.as_slice());
            match res {
                Err(e) => {
                    proof {
                        lemma_set_flag(file.flags, LFS_F_ERRED, LFS_F_INLINE);
                    }
                    file.flags = file.flags | LFS_F_ERRED;
                    return Err(e);
                },
                Ok(()) => {},
            }
            let nb = file.block;
            proof {
                lemma_sound_push(lfs.lookahead, lfs.block_count, in_use@, nb);
            }
            in_use.push(nb);
            let ghost lm = *lfs;
            let ghost fm = *file;
            let ghost um = in_use@;
            proof {
                let bs = l0.cfg.block_size;
                assert(um.subrange(0, u0.len() as int) =~= u0);
                lemma_set_flag(f0.flags | LFS_F_WRITING, LFS_F_INLINE, LFS_F_WRITING);
                assert(ctz_pos(bs, 0) == 0);
                assert(ctz_skips(0) == 0);
                let c = seq![nb];
                assert(wr_chain(lm, &fm, c));
                assert(wr_settled(&fm, c));
                assert(chain_in(c, um)) by {
                    assert(um[um.len() - 1] == nb);
                }
                assert forall|j: int| 0 <= j < um.len() implies #[trigger] um[j] < lm.block_count by {
                    if j < u0.len() {
                        assert(um[j] == u0[j]);
                    }
                }
                assert(ctz_write_base(lm, &fm, um));
                assert forall|p: int| 0 <= p < f0.pos implies #[trigger] wr_before_byte(lm, &fm, p) == f0.cache.buffer@[p] by {
                    lemma_wr_byte(lm, &fm, c, p);
                    lemma_index_before(bs, 0, f0.pos as int, p);
                }
            }
            let res = ctz_flushedwrite(lfs, file, in_use, buffer);
            proof {
                lemma_extends_trans(in_use@, um, u0);
                assert forall|j: int| 0 <= j < u0.len() && u0[j] != wr_avoid(&f0) implies #[trigger] lfs.cfg.disk()[u0[j] as int]
                    == l0.cfg.disk()[u0[j] as int] by {
                    assert(um[j] == u0[j]);
                    assert(in_use@.subrange(0, um.len() as int)[j] == um[j]);
                    assert(lm.cfg.disk()[u0[j] as int] == l0.cfg.disk()[u0[j] as int]);
                    if u0[j] == nb {
                        assert(u0.contains(nb));
                    }
                }
                if res is Ok {
                    lemma_set_flag(fm.flags, LFS_F_WRITING, LFS_F_INLINE);
                    lemma_set_flag(fm.flags, LFS_F_WRITING, LFS_O_WRONLY);
                    lemma_set_flag(f0.flags | LFS_F_WRITING, LFS_F_INLINE, LFS_O_WRONLY);
                    lemma_set_flag(f0.flags, LFS_F_WRITING, LFS_O_WRONLY);
                    assert(!u0.contains(file.block)) by {
                        if u0.contains(file.block) {
                            let w = choose|w: int| 0 <= w < u0.len() && u0[w] == file.block;
                            assert(um[w] == file.block);
                            assert(in_use@.subrange(0, um.len() as int)[w] == um[w]);
                            assert(u0.contains(nb));
                        }
                    }
                    assert forall|p: int| 0 <= p < file.pos implies #[trigger] wr_file_byte(*lfs, file, p)
                        == wr_after_byte(l0, &f0, buffer@, p) by {
                        assert(wr_byte(*lfs, file, p) == wr_after_byte(lm, &fm, buffer@, p));
                    }
                }
            }
            return res;
        }
        let res = inline_flushedwrite(lfs, file, buffer, Ghost(in_use@));
        proof {
            lemma_set_flag(f0.flags, LFS_F_WRITING, LFS_O_WRONLY);
            lemma_set_flag(f0.flags, LFS_F_WRITING, LFS_F_INLINE);
            assert(lfs.lookahead.ckpoint == l0.block_count);
            assert(file.flags == f0.flags | LFS_F_WRITING);
            assert((f0.flags | LFS_F_WRITING) & LFS_F_INLINE == f0.flags & LFS_F_INLINE);
            assert(is_inline(file));
        }
        return res;
    }
    let res = ctz_flushedwrite(lfs, file, in_use, buffer);
    proof {
        lemma_set_flag(f0.flags, LFS_F_WRITING, LFS_F_INLINE);
        lemma_set_flag(f0.flags, LFS_F_WRITING, LFS_O_WRONLY);
    }
    res
}

/// A stored file whose blocks the device keeps is found in the same
/// blocks.
pub proof fn lemma_locate_kept(
    d0: Seq<Seq<u8>>,
    d1: Seq<Seq<u8>>,
    bs: u32,
    bc: u32,
    head: u32,
    size: u32,
    in_use: Seq<u32>,
    avoid: u32,
    p: int,
)
    requires
        bs >= 128,
        ctz_stored(d0, bs, bc, head, size, in_use, avoid),
        kept_but(d0, d1, in_use, avoid),
        0 <= p < size,
    ensures
        ctz_locate(d1, bs, head, size, p) == ctz_locate(d0, bs, head, size, p),
{
    let blocks = choose|blocks: Seq<u32>|
        ctz_stored_as(d0, bs, bc, head, size, blocks) && forall|j: int|
            0 <= j < blocks.len() ==> in_use.contains(#[trigger] blocks[j]) && blocks[j] != avoid;
    lemma_ctz_index_total(bs, (size - 1) as u32);
    assert forall|j: int| 0 <= j < blocks.len() implies #[trigger] views_agree(d0, None, d1, None, blocks[j], bs as int) by {
        assert(in_use.contains(blocks[j]) && blocks[j] != avoid);
        let w = choose|w: int| 0 <= w < in_use.len() && in_use[w] == blocks[j];
        assert(d1[in_use[w] as int] == d0[in_use[w] as int]);
    }
    assert(views_match(d0, None, blocks.last(), d1, None, blocks.last(), bs as int)) by {
        assert(views_agree(d0, None, d1, None, blocks[blocks.len() - 1], bs as int));
    }
    vstd::arithmetic::power2::lemma2_to64();
    lemma_popc_ctz_bound((blocks.len() - 1) as nat, 26);
    lemma_list_transfer(d0, None, blocks, d1, None, blocks, bs, bs as int);
    crate::ctz_list::lemma_index_le(bs, p, size as int);
    let (ci, co) = ctz_index_of(bs, size - 1);
    let (ti, to) = ctz_index_of(bs, p);
    lemma_walk_wf(d0, None, blocks, ci, ti);
    lemma_walk_wf(d1, None, blocks, ci, ti);
}

/// Byte `p` of a file once a write of it is flushed: an inline file's
/// from its cache; what was written before its position, then the rest of
/// the stored file.
pub open spec fn flushed_byte<S: Storage>(lfs: Lfs<S>, file: &LfsFile, p: int) -> u8 {
    if is_inline(file) {
        file.cache.buffer@[p]
    } else if p < file.pos {
        wr_byte(lfs, file, p)
    } else {
        ctz_file_byte(lfs.cfg.disk(), lfs.cfg.block_size, file.ctz.head, file.ctz.size, p)
    }
}

/// Ends a read or a write of a file kept in a skip-list. A read drops the
/// file's cache. A write copies the rest of the stored file after the
/// position into the file's chain, writes the cache out, moving to a fresh
/// block if the block turns out bad, and makes the chain the file's
/// stored skip-list: it then holds what was written followed by the rest
/// of the old file, and the file is marked changed and keeps its position.
pub fn lfs_file_flush<S: Storage>(lfs: &mut Lfs<S>, file: &mut LfsFile, in_use: &mut Vec<u32>) -> (r: Result<(), Error>)
    requires
        !(old(file).flags & LFS_F_READING != 0 && is_writing(old(file))),
        is_writing(old(file)) && !is_inline(old(file)) ==> ctz_write_ready(*old(lfs), old(file), old(in_use)@),
    ensures
        same_limits(*final(lfs), *old(lfs)),
        r is Ok ==> final(file).flags & LFS_O_WRONLY == old(file).flags & LFS_O_WRONLY,
        !is_writing(old(file)) || is_inline(old(file)) ==> r is Ok && *final(lfs) == *old(lfs) && final(in_use)@ == old(
            in_use,
        )@,
        !is_writing(old(file)) && is_inline(old(file)) && old(file).flags & LFS_F_READING != 0 ==> *final(file) == (LfsFile {
            flags: old(file).flags & !LFS_F_READING,
            ..*old(file)
        }),
        is_writing(old(file)) && is_inline(old(file)) ==> *final(file) == (LfsFile {
            ctz: LfsCtz {
                head: old(file).block,
                size: if old(file).pos < old(file).ctz.size {
                    old(file).ctz.size
                } else {
                    old(file).pos
                },
            },
            flags: (old(file).flags & !LFS_F_WRITING) | LFS_F_DIRTY,
            ..*old(file)
        }),
        is_writing(old(file)) && r is Ok && (is_inline(old(file)) ==> inline_cache_full(old(file).cache,
            old(lfs).cfg.cache_size)) ==> forall|p: int| 0 <= p < final(file).ctz.size ==> #[trigger] file_byte(
            *final(lfs),
            final(file),
            p,
        ) == flushed_byte(*old(lfs), old(file), p),
        !is_writing(old(file)) && !is_inline(old(file)) && old(file).flags & LFS_F_READING != 0 ==> *final(file) == (LfsFile {
            cache: final(file).cache,
            flags: old(file).flags & !LFS_F_READING,
            ..*old(file)
        }) && final(file).cache.block == LFS_BLOCK_NULL && final(file).cache.off == old(file).cache.off
            && final(file).cache.size == old(file).cache.size && final(file).cache.buffer@ == old(file).cache.buffer@,
        !is_writing(old(file)) && old(file).flags & LFS_F_READING == 0 ==> *final(file) == *old(file),
        is_writing(old(file)) && !is_inline(old(file)) ==> {
            &&& lfs_read_ready(*final(lfs))
            &&& same_params(final(lfs).cfg, old(lfs).cfg)
            &&& final(lfs).block_count == old(lfs).block_count
            &&& final(lfs).gdisk == old(lfs).gdisk
            &&& la_wf(final(lfs).lookahead, final(lfs).block_count)
            &&& la_sound(final(lfs).lookahead, final(lfs).block_count, final(in_use)@)
            &&& blocks_valid(final(in_use)@, final(lfs).block_count)
            &&& extends(final(in_use)@, old(in_use)@)
            &&& kept_but(old(lfs).cfg.disk(), final(lfs).cfg.disk(), old(in_use)@, old(file).block)
            &&& final(lfs).pcache.wf(old(lfs).cfg.cache_size)
            &&& final(lfs).rcache.wf(old(lfs).cfg.cache_size)
            &&& final(file).cache.wf(old(lfs).cfg.cache_size)
            &&& *final(file) == (LfsFile {
                cache: final(file).cache,
                block: final(file).block,
                off: final(file).off,
                pos: final(file).pos,
                ctz: final(file).ctz,
                flags: final(file).flags,
                ..*old(file)
            })
            &&& !is_inline(final(file))
        },
        is_writing(old(file)) && !is_inline(old(file)) && r is Ok ==> {
            &&& final(file).flags == (old(file).flags & !LFS_F_WRITING) | LFS_F_DIRTY
            &&& final(file).pos == old(file).pos
            &&& !is_writing(final(file))
            &&& final(file).ctz.head == final(file).block
            &&& final(file).ctz.size == if old(file).pos < old(file).ctz.size {
                old(file).ctz.size
            } else {
                old(file).pos
            }
            &&& final(file).cache.block == LFS_BLOCK_NULL
            &&& ctz_write_ready(*final(lfs), final(file), final(in_use)@)
            &&& forall|p: int| 0 <= p < final(file).ctz.size ==> #[trigger] ctz_file_byte(final(lfs).cfg.disk(),
                old(lfs).cfg.block_size, final(file).ctz.head, final(file).ctz.size, p) == flushed_byte(*old(lfs),
                old(file), p)
        },
{
    let ghost l0 = *lfs;
    let ghost f0 = *file;
    let ghost u0 = in_use@;
    let ghost bs = l0.cfg.block_size;
    proof {
        lemma_set_flag(f0.flags, LFS_F_READING, LFS_F_WRITING);
        lemma_set_flag(f0.flags, LFS_F_WRITING, LFS_F_INLINE);
    }
    if file.flags & LFS_F_READING != 0 {
        if file.flags & LFS_F_INLINE == 0 {
            lfs_cache_drop(&mut file.cache);
        }
        file.flags = file.flags & !LFS_F_READING;
    }
    if file.flags & LFS_F_WRITING != 0 {
        let pos = file.pos;
        if file.flags & LFS_F_INLINE != 0 {
            file.pos = lfs_max(pos, file.ctz.size);
        } else {
            let cache_size = lfs.cfg.cache_size;
            let mut orig = LfsFile {
                id: file.id,
                type_: file.type_,
                m: LfsMdir { pair: [0, 0], rev: 0, off: 0, etag: 0, count: 0, erased: false, split: false, tail: [0, 0] },
                ctz: LfsCtz { head: file.ctz.head, size: file.ctz.size },
                flags: LFS_O_RDONLY,
                pos: file.pos,
                block: 0,
                off: 0,
                cache: LfsCache { block: LFS_BLOCK_NULL, off: 0, size: 0, buffer: vec![0u8; cache_size as usize] },
                cfg: LfsFileConfig { buffer: Vec::new(), attrs: Vec::new() },
            };
            lfs_cache_drop(&mut lfs.rcache);
            proof {
                crate::bd::lemma_cfg_sizes(lfs.cfg);
                assert(in_use@.subrange(0, u0.len() as int) =~= u0);
                lemma_set_flag(LFS_O_RDONLY, LFS_F_READING, LFS_F_INLINE);
                assert(!is_inline(&orig));
                assert(orig.cache.wf(lfs.cfg.cache_size));
                assert(rcache_agrees(orig.cache, lfs.cfg.disk()));
                assert(rcache_agrees(lfs.rcache, lfs.cfg.disk()));
                assert(file_read_ready(*lfs, &orig));
            }
            while file.pos < file.ctz.size
                invariant
                    same_limits(*lfs, *old(lfs)),
                    l0 == *old(lfs),
                    f0 == *old(file),
                    u0 == old(in_use)@,
                    bs == l0.cfg.block_size,
                    bs >= 128,
                    is_writing(&f0),
                    ctz_write_ready(l0, &f0, u0),
                    pos == f0.pos,
                    ctz_write_ready(*lfs, file, in_use@),
                    is_writing(file),
                    *file == (LfsFile {
                        cache: file.cache,
                        block: file.block,
                        off: file.off,
                        pos: file.pos,
                        flags: file.flags,
                        ..f0
                    }),
                    file.flags & LFS_F_WRITING == LFS_F_WRITING,
                    file.flags == f0.flags,
                    orig.ctz == f0.ctz,
                    orig.pos == file.pos,
                    !is_inline(&orig),
                    file.pos < f0.ctz.size ==> file_read_ready(*lfs, &orig),
                    f0.pos <= file.pos,
                    file.pos <= f0.ctz.size || file.pos == f0.pos,
                    same_params(lfs.cfg, l0.cfg),
                    lfs.block_count == l0.block_count,
                    lfs.gdisk == l0.gdisk,
                    extends(in_use@, u0),
                    kept_but(l0.cfg.disk(), lfs.cfg.disk(), u0, f0.block),
                    file.block == f0.block || !u0.contains(file.block),
                    forall|p: int| 0 <= p < file.pos ==> #[trigger] wr_byte(*lfs, file, p) == flushed_byte(l0, &f0, p),
                    forall|p: int| 0 <= p < f0.ctz.size ==> #[trigger] ctz_file_byte(lfs.cfg.disk(), bs, f0.ctz.head,
                        f0.ctz.size, p) == ctz_file_byte(l0.cfg.disk(), bs, f0.ctz.head, f0.ctz.size, p),
                decreases f0.ctz.size - file.pos,
            {
                let ghost la = *lfs;
                let ghost fa = *file;
                let ghost ua = in_use@;
                let ghost oa = orig;
                let mut data: Vec<u8> = vec![0u8];
                let res = lfs_file_flushedread(lfs, &mut orig, data.as_mut_slice());
                match res {
                    Err(e) => {
                        return Err(e);
                    },
                    Ok(_) => {},
                }
                proof {
                    assert(data@[0] == ctz_file_byte(l0.cfg.disk(), bs, f0.ctz.head, f0.ctz.size, fa.pos as int));
                }
                let ghost lb = *lfs;
                let ghost ob = orig;
                let res = lfs_file_flushedwrite(lfs, file, in_use, data.as_slice());
                match res {
                    Err(e) => {
                        proof {
                            lemma_extends_trans(in_use@, ua, u0);
                            assert forall|j: int| 0 <= j < u0.len() && u0[j] != f0.block implies #[trigger] lfs.cfg.disk()[u0[j] as int]
                                == l0.cfg.disk()[u0[j] as int] by {
                                assert(ua.subrange(0, u0.len() as int)[j] == u0[j]);
                                if u0[j] == fa.block {
                                    assert(u0.contains(fa.block));
                                }
                            }
                        }
                        return Err(e);
                    },
                    Ok(_) => {},
                }
                let ghost lc = *lfs;
                proof {
                    assert(data@.len() == 1);
                    assert forall|p: int| 0 <= p < file.pos implies #[trigger] wr_byte(lc, file, p) == wr_after_byte(lb, &fa,
                        data@, p) by {
                        assert(wr_file_byte(lc, file, p) == wr_after_byte(lb, &fa, data@, p));
                    }
                }
                // The write may have programmed or erased the block that the
                // copy's cache holds.
                lfs_cache_drop(&mut orig.cache);
                if lfs.rcache.block != LFS_BLOCK_NULL {
                    lfs_cache_drop(&mut lfs.rcache);
                }
                proof {
                    lemma_set_flag(fa.flags, LFS_F_WRITING, LFS_F_INLINE);
                    lemma_extends_trans(in_use@, ua, u0);
                    assert forall|j: int| 0 <= j < u0.len() && u0[j] != f0.block implies #[trigger] lfs.cfg.disk()[u0[j] as int]
                        == l0.cfg.disk()[u0[j] as int] by {
                        assert(ua.subrange(0, u0.len() as int)[j] == u0[j]);
                        if u0[j] == fa.block {
                            assert(u0.contains(fa.block));
                        }
                    }
                    assert(file.block == f0.block || !u0.contains(file.block)) by {
                        if u0.contains(file.block) && file.block != f0.block {
                            let w = choose|w: int| 0 <= w < u0.len() && u0[w] == file.block;
                            assert(ua.subrange(0, u0.len() as int)[w] == u0[w]);
                        }
                    }
                    lemma_set_flag(fa.flags, LFS_F_WRITING, LFS_F_INLINE);
                    assert(lfs.cfg == lc.cfg);
                    assert forall|p: int| 0 <= p < file.pos implies #[trigger] wr_byte(*lfs, file, p) == flushed_byte(l0, &f0, p) by {
                        assert(wr_byte(lc, file, p) == wr_after_byte(lb, &fa, data@, p));
                        assert(wr_byte(*lfs, file, p) == wr_byte(lc, file, p));
                        if p < fa.pos {
                            assert(wr_byte(lb, &fa, p) == wr_byte(la, &fa, p));
                        }
                    }
                    if file.pos < f0.ctz.size {
                        lemma_locate_kept(lb.cfg.disk(), lfs.cfg.disk(), bs, lb.block_count, f0.ctz.head, f0.ctz.size, ua,
                            fa.block, file.pos as int);
                    }
                }
            }
            let ghost lf = *lfs;
            let ghost ff = *file;
            let ghost uf = in_use@;
            let ghost ch = choose|c: Seq<u32>| wr_chain(lf, &ff, c) && wr_settled(&ff, c) && chain_in(c, uf);
            proof {
                lemma_set_flag(ff.flags, LFS_F_WRITING, LFS_F_INLINE);
            }
            let res = file_flush_cache(lfs, file, in_use, Ghost(ch));
            match res {
                Err(e) => {
                    proof {
                        lemma_extends_trans(in_use@, uf, u0);
                        assert forall|j: int| 0 <= j < u0.len() && u0[j] != f0.block implies #[trigger] lfs.cfg.disk()[u0[j] as int]
                            == l0.cfg.disk()[u0[j] as int] by {
                            assert(uf.subrange(0, u0.len() as int)[j] == u0[j]);
                            if u0[j] == ff.block {
                                assert(u0.contains(ff.block));
                            }
                        }
                    }
                    return Err(e);
                },
                Ok(g) => {
                    proof {
                        let c2 = g@;
                        let ci = (ch.len() - 1) as nat;
                        let size2 = ff.pos;
                        lemma_extends_trans(in_use@, uf, u0);
                        assert forall|j: int| 0 <= j < u0.len() && u0[j] != f0.block implies #[trigger] lfs.cfg.disk()[u0[j] as int]
                            == l0.cfg.disk()[u0[j] as int] by {
                            assert(uf.subrange(0, u0.len() as int)[j] == u0[j]);
                            if u0[j] == ff.block {
                                assert(u0.contains(ff.block));
                            }
                        }
                        if size2 > 0 {
                            lemma_wr_index(lf, &ff, ch);
                            vstd::arithmetic::power2::lemma2_to64();
                            lemma_popc_ctz_bound(ci, 26);
                            lemma_ctz_index_of(bs, size2 - 1, ci, ff.off - 1);
                            assert forall|j: int| 0 <= j < c2.len() implies #[trigger] c2[j] < lfs.block_count by {
                                if j < c2.len() - 1 {
                                    assert(c2[j] == ch[j]);
                                }
                            }
                            assert(ctz_stored_as(lfs.cfg.disk(), bs, lfs.block_count, file.block, size2, c2));
                            assert forall|j: int| 0 <= j < c2.len() implies in_use@.contains(#[trigger] c2[j]) && c2[j]
                                != LFS_BLOCK_NULL by {}
                            assert forall|p: int| 0 <= p < size2 implies #[trigger] ctz_file_byte(lfs.cfg.disk(), bs,
                                file.block, size2, p) == flushed_byte(l0, &f0, p) by {
                                lemma_file_byte_list(lfs.cfg.disk(), bs, c2, size2, p);
                                lemma_wr_byte(lf, &ff, ch, p);
                            }
                        }
                        lemma_set_flag(ff.flags, LFS_F_WRITING, LFS_F_INLINE);
                        lemma_set_flag(ff.flags & !LFS_F_WRITING, LFS_F_DIRTY, LFS_F_INLINE);
                        lemma_set_flag(ff.flags & !LFS_F_WRITING, LFS_F_DIRTY, LFS_F_WRITING);
                        lemma_set_flag(ff.flags, LFS_F_WRITING, LFS_F_WRITING);
                    }
                },
            }
        }
        file.ctz.head = file.block;
        file.ctz.size = file.pos;
        file.flags = (file.flags & !LFS_F_WRITING) | LFS_F_DIRTY;
        file.pos = pos;
        proof {
            lemma_set_flag(f0.flags & !LFS_F_WRITING, LFS_F_DIRTY, LFS_F_INLINE);
            lemma_set_flag(f0.flags, LFS_F_WRITING, LFS_F_INLINE);
            if is_inline(&f0) && inline_cache_full(f0.cache, l0.cfg.cache_size) {
                assert forall|p: int| 0 <= p < file.ctz.size implies #[trigger] file_byte(*lfs, file, p) == flushed_byte(l0,
                    &f0, p) by {}
            } else if !is_inline(&f0) {
                assert forall|p: int| 0 <= p < file.ctz.size implies #[trigger] file_byte(*lfs, file, p) == flushed_byte(l0,
                    &f0, p) by {
                    assert(ctz_file_byte(lfs.cfg.disk(), bs, file.ctz.head, file.ctz.size, p) == flushed_byte(l0, &f0, p));
                }
            }
        }
    }
    proof {
        lemma_set_flag(f0.flags, LFS_F_READING, LFS_O_WRONLY);
        lemma_set_flag(f0.flags, LFS_F_WRITING, LFS_O_WRONLY);
        lemma_set_flag(f0.flags & !LFS_F_WRITING, LFS_F_DIRTY, LFS_O_WRONLY);
    }
    Ok(())
}

/// The position a write goes to: the end of the file for a file opened
/// to append, else the file's position.
pub open spec fn write_pos(file: &LfsFile) -> u32 {
    if file.flags & LFS_O_APPEND != 0 && file.pos < file.ctz.size {
        file.ctz.size
    } else {
        file.pos
    }
}

/// Byte `q` of a file after a write of `data`: `data` from the write's
/// position on, and before it what the file held, with zeros filling a gap
/// past the end of the stored file.
pub open spec fn written_byte<S: Storage>(lfs: Lfs<S>, file: &LfsFile, data: Seq<u8>, q: int) -> u8 {
    let p = write_pos(file);
    if q >= p {
        data[q - p]
    } else if is_inline(file) {
        if is_writing(file) || q < file.ctz.size {
            file.cache.buffer@[q]
        } else {
            0
        }
    } else if is_writing(file) {
        wr_byte(lfs, file, q)
    } else if q < file.ctz.size {
        ctz_file_byte(lfs.cfg.disk(), lfs.cfg.block_size, file.ctz.head, file.ctz.size, q)
    } else {
        0
    }
}

/// A file that is ready to be written through `lfs_file_write_`: an
/// inline file whose cache holds its data; a file kept in a skip-list
/// being written into a chain, or stored with no pending data in its
/// cache.
pub open spec fn file_write_ready<S: Storage>(lfs: Lfs<S>, file: &LfsFile, in_use: Seq<u32>) -> bool {
    &&& !(file.flags & LFS_F_READING != 0 && is_writing(file))
    &&& if is_inline(file) {
        &&& inline_write_base(lfs, file, in_use)
        &&& (is_writing(file) && file.flags & LFS_O_APPEND != 0 ==> file.pos >= file.ctz.size)
    } else if is_writing(file) {
        &&& ctz_write_ready(lfs, file, in_use)
        &&& (file.flags & LFS_O_APPEND != 0 ==> file.pos >= file.ctz.size)
    } else {
        &&& wr_env(lfs, in_use)
        &&& file.cache.wf(lfs.cfg.cache_size)
        &&& ctz_stored(lfs.cfg.disk(), lfs.cfg.block_size, lfs.block_count, file.ctz.head, file.ctz.size, in_use,
            LFS_BLOCK_NULL)
        &&& file.cache.off % lfs.cfg.prog_size == 0
        &&& (file.flags & LFS_F_READING != 0 || file.cache.block == LFS_BLOCK_NULL)
    }
}

/// Writes `buffer` to a file opened for writing, at its position, or at
/// its end when it was opened to append; a position past the end is
/// reached by writing zeros first. A write that would take the file past
/// `file_max` is refused. `in_use` lists the blocks in use; the blocks the
/// write takes are added to it.
#[verifier::spinoff_prover]
#[verifier::rlimit(60)]
pub fn lfs_file_write_<S: Storage>(lfs: &mut Lfs<S>, file: &mut LfsFile, in_use: &mut Vec<u32>, buffer: &[u8]) -> (r:
    Result<u32, Error>)
    requires
        old(file).flags & LFS_O_WRONLY != 0,
        file_write_ready(*old(lfs), old(file), old(in_use)@),
        buffer@.len() <= u32::MAX,
    ensures
        same_limits(*final(lfs), *old(lfs)),
        r is Ok ==> final(file).flags & LFS_O_WRONLY == old(file).flags & LFS_O_WRONLY,
        lfs_read_ready(*final(lfs)),
        same_params(final(lfs).cfg, old(lfs).cfg),
        final(lfs).block_count == old(lfs).block_count,
        final(lfs).gdisk == old(lfs).gdisk,
        extends(final(in_use)@, old(in_use)@),
        kept_but(old(lfs).cfg.disk(), final(lfs).cfg.disk(), old(in_use)@, wr_avoid(old(file))),
        final(file).ctz == old(file).ctz,
        final(file).m == old(file).m && final(file).id == old(file).id,
        is_inline(final(file)) ==> is_inline(old(file)),
        write_pos(old(file)) + buffer@.len() > old(lfs).file_max ==> r == Err::<u32, Error>(Error::FileTooBig)
            && *final(lfs) == *old(lfs) && final(in_use)@ == old(in_use)@ && *final(file) == (LfsFile {
            pos: write_pos(old(file)),
            flags: final(file).flags,
            cache: final(file).cache,
            ..*old(file)
        }) && (old(file).flags & LFS_F_READING == 0 ==> *final(file) == (LfsFile {
            pos: write_pos(old(file)),
            ..*old(file)
        })),
        is_inline(old(file)) && write_pos(old(file)) + buffer@.len() <= old(lfs).file_max && write_pos(old(file))
            + buffer@.len() <= old(lfs).inline_max && old(file).ctz.size <= old(lfs).inline_max ==> r is Ok,
        r is Ok ==> {
            let p = write_pos(old(file));
            &&& p + buffer@.len() <= old(lfs).file_max
            &&& r == Ok::<u32, Error>(buffer@.len() as u32)
            &&& final(file).pos == p + buffer@.len()
            &&& final(file).flags & LFS_F_ERRED == 0
            &&& file_write_ready(*final(lfs), final(file), final(in_use)@)
            &&& !is_inline(old(file)) && file_stored(*old(lfs), old(file), old(in_use)@) ==> file_stored(*final(lfs),
                final(file), final(in_use)@)
            &&& !is_inline(old(file)) && file_stored(*old(lfs), old(file), old(in_use)@) ==> forall|q: int| 0 <= q < old(file).ctz.size ==> #[trigger] ctz_file_byte(final(lfs).cfg.disk(),
                old(lfs).cfg.block_size, old(file).ctz.head, old(file).ctz.size, q) == ctz_file_byte(
                old(lfs).cfg.disk(), old(lfs).cfg.block_size, old(file).ctz.head, old(file).ctz.size, q)
            &&& (is_writing(final(file)) ==> forall|q: int| 0 <= q < final(file).pos ==> #[trigger] wr_file_byte(
                *final(lfs),
                final(file),
                q,
            ) == written_byte(*old(lfs), old(file), buffer@, q))
            &&& (is_inline(final(file)) ==> forall|q: int|
                final(file).pos <= q < final(file).cache.buffer@.len() ==> #[trigger] final(file).cache.buffer@[q]
                    == old(file).cache.buffer@[q])
            &&& (is_inline(final(file)) <==> is_inline(old(file)) && p + buffer@.len() <= old(lfs).inline_max)
            &&& (buffer@.len() > 0 || p > old(file).ctz.size || is_writing(old(file)) ==> is_writing(final(file)))
        },
{
    let ghost l0 = *lfs;
    let ghost f0 = *file;
    let ghost u0 = in_use@;
    let ghost bs = l0.cfg.block_size;
    proof {
        lemma_set_flag(f0.flags, LFS_F_READING, LFS_F_WRITING);
        lemma_set_flag(f0.flags, LFS_F_READING, LFS_F_INLINE);
        lemma_set_flag(f0.flags, LFS_F_READING, LFS_O_APPEND);
        lemma_set_flag(f0.flags, LFS_F_WRITING, LFS_F_INLINE);
        crate::bd::lemma_cfg_sizes(lfs.cfg);
        assert(in_use@.subrange(0, u0.len() as int) =~= u0);
    }
    if file.flags & LFS_F_READING != 0 {
        let res = lfs_file_flush(lfs, file, in_use);
        match res {
            Err(e) => {
                return Err(e);
            },
            Ok(()) => {},
        }
    }
    if file.flags & LFS_O_APPEND != 0 && file.pos < file.ctz.size {
        file.pos = file.ctz.size;
    }
    if file.pos as u64 + buffer.len() as u64 > lfs.file_max as u64 {
        return Err(Error::FileTooBig);
    }
    let ghost l1 = *lfs;
    let ghost f1 = *file;
    let ghost u1 = in_use@;
    proof {
        assert(f1.pos == write_pos(&f0));
        assert(write_ready(*lfs, file, in_use@) || (!is_writing(file) && file.pos > file.ctz.size));
        assert(is_inline(&f1) == is_inline(&f0));
        assert(is_inline(&f0) ==> f1.cache == f0.cache);
        assert(l1 == l0);
        assert(in_use@.subrange(0, u0.len() as int) =~= u0);
    }
    if file.flags & LFS_F_WRITING == 0 && file.pos > file.ctz.size {
        let pos = file.pos;
        file.pos = file.ctz.size;
        let zero: Vec<u8> = vec![0u8];
        while file.pos < pos
            invariant
                same_limits(*lfs, *old(lfs)),
                l0 == *old(lfs),
                f0 == *old(file),
                u0 == old(in_use)@,
                bs == l0.cfg.block_size,
                bs >= 128,
                l1 == l0,
                u1 == u0,
                !is_writing(&f0),
                f1.pos == write_pos(&f0),
                f1.ctz == f0.ctz,
                f1.flags == f0.flags & !LFS_F_READING || f1.flags == f0.flags,
                !is_writing(&f1),
                pos == f1.pos,
                pos > f0.ctz.size,
                pos + buffer@.len() <= l0.file_max,
                zero@ == seq![0u8],
                write_ready(*lfs, file, in_use@),
                !is_inline(&f0) ==> file_stored(*lfs, file, in_use@),
                is_inline(file) <==> is_inline(&f0) && file.pos <= l0.inline_max,
                is_inline(file) ==> forall|q: int|
                    file.pos <= q < file.cache.buffer@.len() ==> #[trigger] file.cache.buffer@[q] == f0.cache.buffer@[q],
                f0.ctz.size <= file.pos <= pos,
                *file == (LfsFile {
                    cache: file.cache,
                    block: file.block,
                    off: file.off,
                    pos: file.pos,
                    flags: file.flags,
                    ..f1
                }),
                file.pos > f0.ctz.size ==> file.flags == if is_inline(file) {
                    f1.flags | LFS_F_WRITING
                } else {
                    (f1.flags | LFS_F_WRITING) & !LFS_F_INLINE
                },
                file.pos == f0.ctz.size ==> *file == (LfsFile { pos: f0.ctz.size, ..f1 }) && *lfs == l0 && in_use@ == u0,
                is_inline(&f0) ==> f1.cache == f0.cache,
                is_inline(&f1) == is_inline(&f0),
                file.flags & LFS_O_WRONLY == f0.flags & LFS_O_WRONLY,
                f1.m == f0.m && f1.id == f0.id,
                same_params(lfs.cfg, l0.cfg),
                lfs.block_count == l0.block_count,
                lfs.gdisk == l0.gdisk,
                extends(in_use@, u0),
                kept_but(l0.cfg.disk(), lfs.cfg.disk(), u0, LFS_BLOCK_NULL),
                is_writing(file) ==> !u0.contains(file.block),
                file.pos > f0.ctz.size ==> forall|q: int| 0 <= q < file.pos ==> #[trigger] wr_file_byte(*lfs, file, q)
                    == written_byte(l0, &f0, buffer@, q),
                !is_inline(&f0) ==> forall|q: int| 0 <= q < f0.ctz.size ==> #[trigger] ctz_file_byte(lfs.cfg.disk(), bs, f0.ctz.head,
                    f0.ctz.size, q) == ctz_file_byte(l0.cfg.disk(), bs, f0.ctz.head, f0.ctz.size, q),
            decreases pos - file.pos,
        {
            let ghost la = *lfs;
            let ghost fa = *file;
            let ghost ua = in_use@;
            proof {
                lemma_set_flag(f1.flags, LFS_F_WRITING, LFS_F_INLINE);
                lemma_set_flag(f1.flags, LFS_F_WRITING, LFS_O_APPEND);
                lemma_set_flag(f1.flags | LFS_F_WRITING, LFS_F_INLINE, LFS_F_WRITING);
                lemma_set_flag((f1.flags | LFS_F_WRITING) & !LFS_F_INLINE, LFS_F_WRITING, LFS_F_INLINE);
            }
            let res = lfs_file_flushedwrite(lfs, file, in_use, zero.as_slice());
            match res {
                Err(e) => {
                    proof {
                        lemma_extends_trans(in_use@, ua, u0);
                        assert forall|j: int| 0 <= j < u0.len() && u0[j] != LFS_BLOCK_NULL implies #[trigger] lfs.cfg.disk()[u0[j] as int]
                            == l0.cfg.disk()[u0[j] as int] by {
                            assert(ua.subrange(0, u0.len() as int)[j] == u0[j]);
                            if is_writing(&fa) && u0[j] == fa.block {
                                assert(u0.contains(fa.block));
                            }
                        }
                    }
                    return Err(e);
                },
                Ok(_) => {},
            }
            proof {
                lemma_extends_trans(in_use@, ua, u0);
                assert forall|j: int| 0 <= j < u0.len() && u0[j] != LFS_BLOCK_NULL implies #[trigger] lfs.cfg.disk()[u0[j] as int]
                    == l0.cfg.disk()[u0[j] as int] by {
                    assert(ua.subrange(0, u0.len() as int)[j] == u0[j]);
                    if is_writing(&fa) && u0[j] == fa.block {
                        assert(u0.contains(fa.block));
                    }
                }
                assert(!u0.contains(file.block)) by {
                    if u0.contains(file.block) {
                        let w = choose|w: int| 0 <= w < u0.len() && u0[w] == file.block;
                        assert(ua.subrange(0, u0.len() as int)[w] == u0[w]);
                        if is_writing(&fa) {
                            assert(u0.contains(fa.block));
                        }
                    }
                }
                assert forall|q: int| 0 <= q < file.pos implies #[trigger] wr_file_byte(*lfs, file, q) == written_byte(l0, &f0,
                    buffer@, q) by {
                    assert(wr_file_byte(*lfs, file, q) == wr_after_byte(la, &fa, zero@, q));
                    if q < fa.pos {
                        if fa.pos > f0.ctz.size {
                            assert(wr_file_byte(la, &fa, q) == written_byte(l0, &f0, buffer@, q));
                            assert(is_writing(&fa));
                            assert(wr_before_byte(la, &fa, q) == wr_file_byte(la, &fa, q));
                        } else {
                            assert(fa.cache == f1.cache);
                            assert(la == l0);
                            assert(!is_writing(&fa));
                            assert(q < f0.ctz.size);
                            assert(is_inline(&fa) == is_inline(&f0));
                            assert(wr_before_byte(la, &fa, q) == written_byte(l0, &f0, buffer@, q));
                        }
                    } else {
                        assert(q == fa.pos);
                        assert(q < write_pos(&f0));
                        assert(written_byte(l0, &f0, buffer@, q) == 0);
                    }
                }
            }
        }
    }
    let ghost lm = *lfs;
    let ghost fm = *file;
    let ghost um = in_use@;
    proof {
        lemma_set_flag(f1.flags, LFS_F_WRITING, LFS_F_INLINE);
        lemma_set_flag(f1.flags, LFS_F_WRITING, LFS_O_APPEND);
        assert(write_ready(lm, &fm, um));
        assert(fm.pos == write_pos(&f0));
        assert(is_writing(&fm) ==> forall|q: int| 0 <= q < fm.pos ==> #[trigger] wr_file_byte(lm, &fm, q) == written_byte(
            l0,
            &f0,
            buffer@,
            q,
        ));
        assert(!is_writing(&fm) ==> fm.pos <= f0.ctz.size && lm == l0 && !is_writing(&f0));
        assert(!is_writing(&fm) && !is_inline(&fm) ==> fm.cache.block == LFS_BLOCK_NULL);
        lemma_set_flag(f1.flags, LFS_F_WRITING, LFS_F_READING);
        lemma_set_flag(f1.flags | LFS_F_WRITING, LFS_F_INLINE, LFS_F_READING);
        assert(f1.flags & LFS_F_READING == 0);
        assert(fm.flags & LFS_F_READING == 0);
        assert(is_writing(&fm) ==> (fm.block == f0.block && is_writing(&f0)) || !u0.contains(fm.block));
    }
    let res = lfs_file_flushedwrite(lfs, file, in_use, buffer);
    let nsize = match res {
        Err(e) => {
            proof {
                lemma_extends_trans(in_use@, um, u0);
                assert forall|j: int| 0 <= j < u0.len() && u0[j] != wr_avoid(&f0) implies #[trigger] lfs.cfg.disk()[u0[j] as int]
                    == l0.cfg.disk()[u0[j] as int] by {
                    assert(um.subrange(0, u0.len() as int)[j] == u0[j]);
                    if is_writing(&fm) && u0[j] == fm.block {
                        assert(u0.contains(fm.block));
                    }
                }
            }
            return Err(e);
        },
        Ok(n) => n,
    };
    let ghost ff = *file;
    file.flags = file.flags & !LFS_F_ERRED;
    proof {
        lemma_extends_trans(in_use@, um, u0);
        assert forall|j: int| 0 <= j < u0.len() && u0[j] != wr_avoid(&f0) implies #[trigger] lfs.cfg.disk()[u0[j] as int]
            == l0.cfg.disk()[u0[j] as int] by {
            assert(um.subrange(0, u0.len() as int)[j] == u0[j]);
            if is_writing(&fm) && u0[j] == fm.block {
                assert(u0.contains(fm.block));
            }
        }
        lemma_set_flag(ff.flags, LFS_F_ERRED, LFS_F_WRITING);
        lemma_set_flag(ff.flags, LFS_F_ERRED, LFS_F_INLINE);
        lemma_set_flag(ff.flags, LFS_F_ERRED, LFS_O_APPEND);
        lemma_set_flag(fm.flags, LFS_F_WRITING, LFS_F_READING);
        lemma_set_flag(ff.flags, LFS_F_ERRED, LFS_F_READING);
        lemma_set_flag(ff.flags, LFS_F_ERRED, LFS_F_ERRED);
        lemma_set_flag(ff.flags, LFS_F_ERRED, LFS_O_WRONLY);
        if is_writing(file) && !is_inline(file) {
            let c = choose|c: Seq<u32>| wr_chain(*lfs, &ff, c) && wr_settled(&ff, c) && chain_in(c, in_use@);
            assert(wr_chain(*lfs, file, c) && wr_settled(file, c) && chain_in(c, in_use@));
        }
        if is_writing(file) {
            assert forall|q: int| 0 <= q < file.pos implies #[trigger] wr_file_byte(*lfs, file, q) == written_byte(l0, &f0,
                buffer@, q) by {
                assert(wr_file_byte(*lfs, &ff, q) == wr_after_byte(lm, &fm, buffer@, q));
                if q < fm.pos {
                    if is_writing(&fm) {
                        assert(wr_file_byte(lm, &fm, q) == written_byte(l0, &f0, buffer@, q));
                        assert(wr_before_byte(lm, &fm, q) == wr_file_byte(lm, &fm, q));
                    } else if is_inline(&fm) {
                        assert(fm.cache == f0.cache);
                    }
                }
                assert(wr_file_byte(*lfs, file, q) == wr_file_byte(*lfs, &ff, q));
            }
        }
    }
    Ok(nsize)
}

/// The size of a file as its user sees it: while it is being written,
/// the larger of its position and its stored size.
pub open spec fn file_size_now(file: &LfsFile) -> u32 {
    if is_writing(file) && file.pos > file.ctz.size {
        file.pos
    } else {
        file.ctz.size
    }
}

/// Byte `q` of a file as a read sees it: for a file being written, what
/// was written and then the rest of the stored file; else the stored
/// file.
pub open spec fn read_src_byte<S: Storage>(lfs: Lfs<S>, file: &LfsFile, q: int) -> u8 {
    if is_writing(file) {
        flushed_byte(lfs, file, q)
    } else {
        file_byte(lfs, file, q)
    }
}

/// Reads from a file opened for reading into `buffer`, from its position
/// and up to its end; a file being written is flushed first. `in_use`
/// lists the blocks in use, for the flush.
pub fn lfs_file_read_<S: Storage>(lfs: &mut Lfs<S>, file: &mut LfsFile, in_use: &mut Vec<u32>, buffer: &mut [u8]) -> (r:
    Result<u32, Error>)
    requires
        old(file).flags & LFS_O_RDONLY != 0,
        old(buffer)@.len() <= u32::MAX,
        is_writing(old(file)) ==> write_ready(*old(lfs), old(file), old(in_use)@) && old(file).flags & LFS_F_READING == 0,
        !is_writing(old(file)) ==> file_read_ready(*old(lfs), old(file)),
    ensures
        same_limits(*final(lfs), *old(lfs)),
        lfs_read_ready(*final(lfs)),
        same_params(final(lfs).cfg, old(lfs).cfg),
        final(lfs).block_count == old(lfs).block_count,
        final(lfs).gdisk == old(lfs).gdisk,
        final(buffer)@.len() == old(buffer)@.len(),
        extends(final(in_use)@, old(in_use)@),
        !is_writing(old(file)) ==> final(in_use)@ == old(in_use)@ && final(lfs).cfg.disk() == old(lfs).cfg.disk(),
        is_writing(old(file)) ==> kept_but(old(lfs).cfg.disk(), final(lfs).cfg.disk(), old(in_use)@, old(file).block),
        r matches Ok(n) ==> {
            let size = file_size_now(old(file));
            &&& n == (if old(buffer)@.len() == 0 || old(file).pos >= size {
                0
            } else if old(buffer)@.len() < size - old(file).pos {
                old(buffer)@.len()
            } else {
                (size - old(file).pos) as nat
            })
            &&& final(file).pos == old(file).pos + n
            &&& forall|k: int| 0 <= k < n ==> #[trigger] final(buffer)@[k] == read_src_byte(*old(lfs), old(file),
                old(file).pos + k)
            &&& file_read_ready(*final(lfs), final(file))
            &&& !is_writing(final(file))
            &&& final(file).ctz.size == size
        },
        (!is_writing(old(file)) || is_inline(old(file))) && (old(buffer)@.len() == 0 || old(file).pos >= file_size_now(
            old(file))) ==> r == Ok::<u32, Error>(0),
        is_inline(old(file)) && inline_cache_full(old(file).cache, old(lfs).cfg.cache_size) ==> r is Ok,
{
    let ghost l0 = *lfs;
    let ghost f0 = *file;
    let ghost u0 = in_use@;
    proof {
        assert(in_use@.subrange(0, u0.len() as int) =~= u0);
        lemma_set_flag(f0.flags, LFS_F_WRITING, LFS_F_READING);
        lemma_set_flag(f0.flags, LFS_F_WRITING, LFS_F_INLINE);
        lemma_set_flag(f0.flags & !LFS_F_WRITING, LFS_F_DIRTY, LFS_F_READING);
        lemma_set_flag(f0.flags & !LFS_F_WRITING, LFS_F_DIRTY, LFS_F_WRITING);
        lemma_set_flag(f0.flags & !LFS_F_WRITING, LFS_F_DIRTY, LFS_F_INLINE);
    }
    if file.flags & LFS_F_WRITING != 0 {
        let res = lfs_file_flush(lfs, file, in_use);
        match res {
            Err(e) => {
                return Err(e);
            },
            Ok(()) => {},
        }
        proof {
            assert(!is_inline(file) ==> file.cache.block == LFS_BLOCK_NULL);
            crate::bd::lemma_cfg_sizes(lfs.cfg);
            assert(is_inline(file) == is_inline(&f0));
            assert(file.flags & LFS_F_READING == 0);
            assert(file_read_state_ok(*lfs, file));
            assert(file_read_ready(*lfs, file));
        }
    }
    let ghost l1 = *lfs;
    let ghost f1 = *file;
    let res = lfs_file_flushedread(lfs, file, buffer);
    proof {
        lemma_set_flag(f1.flags, LFS_F_READING, LFS_F_WRITING);
        assert(!is_writing(&f1));
        if res is Ok {
            if is_writing(&f0) {
                assert forall|k: int| 0 <= k < res->Ok_0 implies #[trigger] buffer@[k] == read_src_byte(l0, &f0, f0.pos + k) by {
                    assert(buffer@[k] == file_byte(l1, &f1, f1.pos + k));
                }
            }
        }
    }
    res
}

/// The position a seek asks for: `off` from the start, from the current
/// position or from the end of the file, as 32-bit arithmetic gives it.
pub open spec fn seek_npos(file: &LfsFile, off: i32, whence: i32) -> u32 {
    if whence == LFS_SEEK_SET {
        off as u32
    } else if whence == LFS_SEEK_CUR {
        (file.pos + off) as u32
    } else if whence == LFS_SEEK_END {
        (file_size_now(file) as i32 + off) as u32
    } else {
        file.pos
    }
}

/// Moves a file's position: a file being read that stays within the
/// block and cache window it is reading only moves; otherwise the file is
/// flushed first. A position past `file_max` is refused.
pub fn lfs_file_seek_<S: Storage>(lfs: &mut Lfs<S>, file: &mut LfsFile, in_use: &mut Vec<u32>, off: i32, whence: i32) -> (r:
    Result<u32, Error>)
    requires
        is_writing(old(file)) ==> write_ready(*old(lfs), old(file), old(in_use)@) && old(file).flags & LFS_F_READING == 0,
        !is_writing(old(file)) ==> file_read_ready(*old(lfs), old(file)),
    ensures
        same_limits(*final(lfs), *old(lfs)),
        r is Ok ==> final(file).flags & LFS_O_WRONLY == old(file).flags & LFS_O_WRONLY,
        seek_npos(old(file), off, whence) > old(lfs).file_max ==> r == Err::<u32, Error>(Error::Invalid) && *final(file)
            == *old(file) && *final(lfs) == *old(lfs) && final(in_use)@ == old(in_use)@,
        lfs_read_ready(*final(lfs)),
        same_params(final(lfs).cfg, old(lfs).cfg),
        final(lfs).block_count == old(lfs).block_count,
        final(lfs).gdisk == old(lfs).gdisk,
        extends(final(in_use)@, old(in_use)@),
        !is_writing(old(file)) ==> *final(lfs) == *old(lfs) && final(in_use)@ == old(in_use)@,
        is_writing(old(file)) ==> kept_but(old(lfs).cfg.disk(), final(lfs).cfg.disk(), old(in_use)@, old(file).block),
        r matches Ok(n) ==> n == seek_npos(old(file), off, whence) && n <= old(lfs).file_max && final(file).pos == n,
        (!is_writing(old(file)) || is_inline(old(file))) && seek_npos(old(file), off, whence) <= old(lfs).file_max
            ==> r is Ok,
        final(file).m == old(file).m && final(file).id == old(file).id,
        !is_writing(old(file)) ==> final(file).cache.off == old(file).cache.off,
        r is Ok && file_write_ready(*old(lfs), old(file), old(in_use)@) ==> file_write_ready(*final(lfs), final(file),
            final(in_use)@),
        r is Ok && old(file).pos == seek_npos(old(file), off, whence) ==> *final(file) == *old(file) && *final(lfs)
            == *old(lfs) && final(in_use)@ == old(in_use)@,
        r is Ok && old(file).pos != seek_npos(old(file), off, whence) ==> {
            &&& !is_writing(final(file))
            &&& is_inline(final(file)) == is_inline(old(file))
            &&& final(file).ctz.size == file_size_now(old(file))
            &&& file_read_ready(*final(lfs), final(file))
            &&& forall|q: int| 0 <= q < final(file).ctz.size ==> #[trigger] file_byte(*final(lfs), final(file), q)
                == read_src_byte(*old(lfs), old(file), q)
            &&& is_writing(old(file)) ==> file_write_ready(*final(lfs), final(file), final(in_use)@)
        },
{
    let ghost l0 = *lfs;
    let ghost f0 = *file;
    let ghost u0 = in_use@;
    let file_max = lfs.file_max;
    let block_size = lfs.cfg.block_size;
    let mut npos = file.pos;
    if whence == LFS_SEEK_SET {
        npos = off as u32;
    } else if whence == LFS_SEEK_CUR {
        npos = (file.pos as i64 + off as i64) as u32;
    } else if whence == LFS_SEEK_END {
        npos = (lfs_file_size_(lfs, file) as i64 + off as i64) as u32;
    }
    proof {
        assert(in_use@.subrange(0, u0.len() as int) =~= u0);
        crate::bd::lemma_cfg_sizes(lfs.cfg);
        lemma_set_flag(f0.flags, LFS_F_WRITING, LFS_F_READING);
        lemma_set_flag(f0.flags, LFS_F_WRITING, LFS_F_INLINE);
        lemma_set_flag(f0.flags, LFS_F_READING, LFS_F_WRITING);
        lemma_set_flag(f0.flags, LFS_F_READING, LFS_F_INLINE);
        lemma_set_flag(f0.flags & !LFS_F_WRITING, LFS_F_DIRTY, LFS_F_READING);
        lemma_set_flag(f0.flags & !LFS_F_WRITING, LFS_F_DIRTY, LFS_F_WRITING);
        lemma_set_flag(f0.flags & !LFS_F_WRITING, LFS_F_DIRTY, LFS_F_INLINE);
        assert(npos == seek_npos(&f0, off, whence));
    }
    if npos > file_max {
        return Err(Error::Invalid);
    }
    if file.pos == npos {
        return Ok(npos);
    }
    if file.flags & LFS_F_READING != 0 && file.off != block_size {
        let mut opos = file.pos;
        let mut npos_off = npos;
        let oindex = lfs_ctz_index(lfs, &mut opos);
        let nindex = lfs_ctz_index(lfs, &mut npos_off);
        if oindex == nindex && npos_off >= file.cache.off && (npos_off as u64) < file.cache.off as u64
            + file.cache.size as u64 {
            file.pos = npos;
            file.off = npos_off;
            proof {
                let bs = l0.cfg.block_size;
                lemma_ctz_index_of(bs, f0.pos as int, oindex as nat, opos as int);
                lemma_ctz_index_of(bs, npos as int, nindex as nat, npos_off as int);
                if is_inline(&f0) {
                    assert(ctz_pos(bs, 0) == 0);
                    if npos < f0.ctz.size {
                        assert(ctz_in_block(bs, npos as int, 0, npos as int));
                        lemma_ctz_in_block_unique(bs, npos as int, 0, npos as int, nindex as nat, npos_off as int);
                    }
                } else if 0 < f0.ctz.size <= f0.pos && !(f0.off < bs && (f0.block, f0.off as int) == ctz_locate(
                    l0.cfg.disk(),
                    bs,
                    f0.ctz.head,
                    f0.ctz.size,
                    f0.pos as int,
                )) && npos < f0.ctz.size {
                    crate::ctz_list::lemma_index_mono(bs, npos as int, f0.ctz.size - 1);
                    crate::ctz_list::lemma_index_mono(bs, f0.ctz.size - 1, f0.pos as int);
                }
                assert(file_read_state_ok(*lfs, file));
            }
            return Ok(npos);
        }
    }
    let res = lfs_file_flush(lfs, file, in_use);
    match res {
        Err(e) => {
            return Err(e);
        },
        Ok(()) => {},
    }
    file.pos = npos;
    Ok(npos)
}

/// Moves a file's position back to its start, flushing it as a seek
/// does.
pub fn lfs_file_rewind_<S: Storage>(lfs: &mut Lfs<S>, file: &mut LfsFile, in_use: &mut Vec<u32>) -> (r: Result<(), Error>)
    requires
        is_writing(old(file)) ==> write_ready(*old(lfs), old(file), old(in_use)@) && old(file).flags & LFS_F_READING == 0,
        !is_writing(old(file)) ==> file_read_ready(*old(lfs), old(file)),
    ensures
        same_limits(*final(lfs), *old(lfs)),
        lfs_read_ready(*final(lfs)),
        extends(final(in_use)@, old(in_use)@),
        !is_writing(old(file)) ==> *final(lfs) == *old(lfs) && final(in_use)@ == old(in_use)@,
        is_writing(old(file)) ==> kept_but(old(lfs).cfg.disk(), final(lfs).cfg.disk(), old(in_use)@, old(file).block),
        r is Ok ==> final(file).pos == 0,
        !is_writing(old(file)) || is_inline(old(file)) ==> r is Ok,
        r is Ok && old(file).pos == 0 ==> *final(file) == *old(file) && *final(lfs) == *old(lfs),
        r is Ok && old(file).pos != 0 ==> {
            &&& !is_writing(final(file))
            &&& is_inline(final(file)) == is_inline(old(file))
            &&& final(file).ctz.size == file_size_now(old(file))
            &&& file_read_ready(*final(lfs), final(file))
            &&& forall|q: int| 0 <= q < final(file).ctz.size ==> #[trigger] file_byte(*final(lfs), final(file), q)
                == read_src_byte(*old(lfs), old(file), q)
            &&& is_writing(old(file)) ==> file_write_ready(*final(lfs), final(file), final(in_use)@)
        },
{
    let res = lfs_file_seek_(lfs, file, in_use, 0, LFS_SEEK_SET);
    match res {
        Err(e) => Err(e),
        Ok(_) => Ok(()),
    }
}

/// Byte `q` of a file cut or grown to a new size: what the file held,
/// and zeros past its old end.
pub open spec fn truncated_byte<S: Storage>(lfs: Lfs<S>, file: &LfsFile, q: int) -> u8 {
    if q < file_size_now(file) {
        read_src_byte(lfs, file, q)
    } else {
        0
    }
}

/// A file that is ready to be cut or grown: opened for writing, ready to
/// be written, and to be read when it is not being written; a file being
/// written stands past its start, and the metadata pair that holds the
/// file is in use.
pub open spec fn truncate_ready<S: Storage>(lfs: Lfs<S>, file: &LfsFile, in_use: Seq<u32>) -> bool {
    &&& file.flags & LFS_O_WRONLY != 0
    &&& file_write_ready(lfs, file, in_use)
    &&& !is_writing(file) ==> file_read_ready(lfs, file)
    &&& is_writing(file) ==> file.pos > 0
    &&& file.m.off <= lfs.cfg.block_size
    &&& in_use.contains(file.m.pair[0])
}

/// The flags that cutting a file sets, and a size that goes through the
/// signed size of a file and back.
proof fn lemma_truncate_bits(f: u32, x: u32)
    ensures
        (f | 0x010000u32 | 0x040000u32 | 0x100000u32) & 0x020000u32 == f & 0x020000u32,
        (f | 0x010000u32 | 0x040000u32 | 0x100000u32) & 0x040000u32 != 0,
        (f | 0x010000u32 | 0x040000u32 | 0x100000u32) & 0x100000u32 != 0,
        (f | 0x010000u32 | 0x040000u32 | 0x100000u32) & 0x2u32 == f & 0x2u32,
        (f | 0x010000u32 | 0x040000u32) & 0x020000u32 == f & 0x020000u32,
        (f | 0x010000u32 | 0x040000u32) & 0x040000u32 != 0,
        (f | 0x010000u32 | 0x040000u32) & 0x100000u32 == f & 0x100000u32,
        (f | 0x010000u32 | 0x040000u32) & 0x2u32 == f & 0x2u32,
        (x as i32) as u32 == x,
{
    assert((f | 0x010000u32 | 0x040000u32 | 0x100000u32) & 0x020000u32 == f & 0x020000u32 && (f | 0x010000u32
        | 0x040000u32 | 0x100000u32) & 0x040000u32 != 0 && (f | 0x010000u32 | 0x040000u32 | 0x100000u32)
        & 0x100000u32 != 0 && (f | 0x010000u32 | 0x040000u32 | 0x100000u32) & 0x2u32 == f & 0x2u32 && (f
        | 0x010000u32 | 0x040000u32) & 0x020000u32 == f & 0x020000u32 && (f | 0x010000u32 | 0x040000u32)
        & 0x040000u32 != 0 && (f | 0x010000u32 | 0x040000u32) & 0x100000u32 == f & 0x100000u32 && (f | 0x010000u32
        | 0x040000u32) & 0x2u32 == f & 0x2u32 && (x as i32) as u32 == x) by (bit_vector);
}

/// The first `size` bytes of a stored file stand as a stored file of
/// their own, whose last block is the block of byte `size - 1`.
proof fn lemma_stored_prefix(
    d: Seq<Seq<u8>>,
    bs: u32,
    bc: u32,
    head: u32,
    osize: u32,
    in_use: Seq<u32>,
    avoid: u32,
    size: u32,
    nb: u32,
    ci: nat,
    co: int,
    ti: nat,
    to: int,
)
    requires
        bs >= 128,
        ctz_stored(d, bs, bc, head, osize, in_use, avoid),
        0 < size < osize,
        ci < 0x0400_0000,
        ti < 0x0400_0000,
        ctz_in_block(bs, osize - 1, ci, co),
        ctz_in_block(bs, size - 1, ti, to),
        nb == ctz_walk(d, None, head, ci, ti),
    ensures
        ctz_stored(d, bs, bc, nb, size, in_use, avoid),
        nb == ctz_locate(d, bs, nb, size, size - 1).0,
        forall|q: int| 0 <= q < size ==> #[trigger] ctz_file_byte(d, bs, nb, size, q) == ctz_file_byte(d, bs, head, osize,
            q),
{
    let blocks = choose|blocks: Seq<u32>|
        ctz_stored_as(d, bs, bc, head, osize, blocks) && forall|j: int|
            0 <= j < blocks.len() ==> in_use.contains(#[trigger] blocks[j]) && blocks[j] != avoid;
    lemma_ctz_index_of(bs, osize - 1, ci, co);
    lemma_ctz_index_of(bs, size - 1, ti, to);
    crate::ctz_list::lemma_index_le(bs, size - 1, osize as int);
    lemma_walk_wf(d, None, blocks, ci, ti);
    let b2 = blocks.subrange(0, ti as int + 1);
    lemma_list_prefix(d, None, blocks, ti as int + 1);
    assert(ctz_stored_as(d, bs, bc, nb, size, b2));
    assert forall|j: int| 0 <= j < b2.len() implies in_use.contains(#[trigger] b2[j]) && b2[j] != avoid by {
        assert(b2[j] == blocks[j]);
    }
    assert forall|q: int| 0 <= q < size implies #[trigger] ctz_file_byte(d, bs, nb, size, q) == ctz_file_byte(d, bs, head,
        osize, q) by {
        lemma_file_byte_list(d, bs, b2, size, q);
        lemma_file_byte_list(d, bs, blocks, osize, q);
        crate::ctz_list::lemma_index_le(bs, q, size as int);
    }
}

/// The state of a file once it is cut or grown to `size`, before its
/// position is put back: the filesystem keeps its limits and device, and
/// the file holds what `truncated_byte` says, ready to be read, and to be
/// written unless the cut left its cache at an offset that is not aligned
/// to programs.
spec fn truncated_to<S: Storage>(
    l0: Lfs<S>,
    f0: &LfsFile,
    u0: Seq<u32>,
    size: u32,
    l: Lfs<S>,
    f: &LfsFile,
    u: Seq<u32>,
) -> bool {
    &&& same_limits(l, l0)
    &&& lfs_read_ready(l)
    &&& same_params(l.cfg, l0.cfg)
    &&& l.block_count == l0.block_count
    &&& l.gdisk == l0.gdisk
    &&& extends(u, u0)
    &&& f.m == f0.m
    &&& f.id == f0.id
    &&& f.flags & LFS_O_WRONLY == f0.flags & LFS_O_WRONLY
    &&& file_size_now(f) == size
    &&& is_writing(f) ==> f.pos > 0 && write_ready(l, f, u) && f.flags & LFS_F_READING == 0
    &&& !is_writing(f) ==> file_read_ready(l, f)
    &&& size >= file_size_now(f0) || size <= l0.inline_max || f.cache.off % l0.cfg.prog_size == 0 ==> file_write_ready(
        l,
        f,
        u,
    )
    &&& forall|q: int| 0 <= q < size ==> #[trigger] read_src_byte(l, f, q) == truncated_byte(l0, f0, q)
    &&& size < file_size_now(f0) ==> (is_inline(f) <==> size <= l0.inline_max)
    &&& size >= file_size_now(f0) ==> (is_inline(f) <==> is_inline(f0) && size <= l0.inline_max)
}

/// Cuts a file to `size` bytes or grows it with zeros, and leaves its
/// position where it was. A file cut to no more than the inline limit
/// becomes inline, its data read into its cache; a longer file cut short
/// keeps the blocks of its first `size` bytes and is left reading at its
/// new end. A size past `file_max` is refused. `in_use` lists the blocks
/// in use; the blocks that growing the file takes are added to it.
#[verifier::spinoff_prover]
#[verifier::rlimit(80)]
pub fn lfs_file_truncate_<S: Storage>(lfs: &mut Lfs<S>, file: &mut LfsFile, in_use: &mut Vec<u32>, size: u32) -> (r:
    Result<(), Error>)
    requires
        truncate_ready(*old(lfs), old(file), old(in_use)@),
    ensures
        same_limits(*final(lfs), *old(lfs)),
        lfs_read_ready(*final(lfs)),
        same_params(final(lfs).cfg, old(lfs).cfg),
        final(lfs).block_count == old(lfs).block_count,
        final(lfs).gdisk == old(lfs).gdisk,
        extends(final(in_use)@, old(in_use)@),
        final(file).m == old(file).m,
        final(file).id == old(file).id,
        size > old(lfs).file_max ==> r == Err::<(), Error>(Error::Invalid) && *final(file) == *old(file) && *final(lfs)
            == *old(lfs) && final(in_use)@ == old(in_use)@,
        r is Ok ==> {
            &&& size <= old(lfs).file_max
            &&& final(file).pos == old(file).pos
            &&& file_size_now(final(file)) == size
            &&& !is_writing(final(file)) ==> file_read_ready(*final(lfs), final(file))
            &&& size >= file_size_now(old(file)) || size <= old(lfs).inline_max || final(file).cache.off
                % old(lfs).cfg.prog_size == 0 ==> truncate_ready(*final(lfs), final(file), final(in_use)@)
            &&& forall|q: int| 0 <= q < size ==> #[trigger] read_src_byte(*final(lfs), final(file), q) == truncated_byte(
                *old(lfs),
                old(file),
                q,
            )
            &&& size < file_size_now(old(file)) ==> (is_inline(final(file)) <==> size <= old(lfs).inline_max)
            &&& size >= file_size_now(old(file)) ==> (is_inline(final(file)) <==> is_inline(old(file)) && size
                <= old(lfs).inline_max)
        },
        size == file_size_now(old(file)) && size <= old(lfs).file_max && old(file).pos <= old(lfs).file_max && (!is_writing(
            old(file)) || is_inline(old(file))) ==> r is Ok,
{
    let ghost l0 = *lfs;
    let ghost f0 = *file;
    let ghost u0 = in_use@;
    proof {
        assert(in_use@.subrange(0, u0.len() as int) =~= u0);
    }
    if size > lfs.file_max {
        return Err(Error::Invalid);
    }
    let pos = file.pos;
    let oldsize = lfs_file_size_(lfs, file) as u32;
    proof {
        lemma_truncate_bits(f0.flags, file_size_now(&f0));
        lemma_truncate_bits(f0.flags, pos);
        crate::bd::lemma_cfg_sizes(lfs.cfg);
        assert(in_use@.subrange(0, u0.len() as int) =~= u0);
        assert(oldsize == file_size_now(&f0));
        lemma_set_flag(f0.flags, LFS_F_WRITING, LFS_F_INLINE);
        assert(is_inline(&f0) ==> oldsize <= l0.inline_max);
    }
    // The state before the last seek, which puts the position back.
    let ghost mut lb = l0;
    let ghost mut fb = f0;
    let ghost mut ub = u0;
    if size < oldsize {
        if size <= lfs.inline_max {
            let res = lfs_file_seek_(lfs, file, in_use, 0, LFS_SEEK_SET);
            match res {
                Err(e) => {
                    return Err(e);
                },
                Ok(_) => {},
            }
            let ghost l1 = *lfs;
            let ghost f1 = *file;
            proof {
                assert(!is_writing(&f1));
                assert(f1.ctz.size == oldsize);
                assert(file_read_ready(l1, &f1));
                assert(file_write_ready(l1, &f1, in_use@));
                assert forall|q: int| 0 <= q < oldsize implies #[trigger] file_byte(l1, &f1, q) == read_src_byte(l0, &f0,
                    q) by {}
            }
            lfs_cache_drop(&mut lfs.rcache);
            let ghost l1d = *lfs;
            proof {
                crate::file::lemma_same_storage(l1d, l1, &f1);
            }
            let mut data = zero_vec(size);
            let res = lfs_file_flushedread(lfs, file, data.as_mut_slice());
            match res {
                Err(e) => {
                    return Err(e);
                },
                Ok(_) => {},
            }
            let ghost f2 = *file;
            file.ctz.head = LFS_BLOCK_INLINE;
            file.ctz.size = size;
            file.flags = file.flags | LFS_F_DIRTY | LFS_F_READING | LFS_F_INLINE;
            file.cache.block = file.ctz.head;
            file.cache.off = 0;
            file.cache.size = lfs.cfg.cache_size;
            copy_into_vec(&mut file.cache.buffer, 0, data.as_slice(), 0, size as usize);
            proof {
                lemma_truncate_bits(f2.flags, 0);
                lemma_truncate_bits(f1.flags, 0);
                lemma_set_flag(f1.flags, LFS_F_READING, LFS_F_WRITING);
                lemma_set_flag(f1.flags, LFS_F_READING, LFS_F_INLINE);
                assert(is_inline(file));
                assert(!is_writing(file));
                assert(file.pos == size);
                assert(inline_cache_full(file.cache, lfs.cfg.cache_size));
                assert(file_read_ready(*lfs, file));
                assert(inline_write_base(*lfs, file, in_use@));
                assert(file_write_ready(*lfs, file, in_use@));
                assert forall|q: int| 0 <= q < size implies #[trigger] file_byte(*lfs, file, q) == read_src_byte(l0, &f0,
                    q) by {
                    assert(file.cache.buffer@[q] == data@[q]);
                    assert(data@[q] == file_byte(l1d, &f1, q));
                }
                lemma_set_flag(f1.flags, LFS_F_READING, LFS_O_WRONLY);
                assert(truncated_to(l0, &f0, u0, size, *lfs, file, in_use@));
                lb = *lfs;
                fb = *file;
                ub = in_use@;
            }
        } else {
            let res = lfs_file_flush(lfs, file, in_use);
            match res {
                Err(e) => {
                    return Err(e);
                },
                Ok(()) => {},
            }
            let ghost l1 = *lfs;
            let ghost f1 = *file;
            proof {
                lemma_set_flag(f0.flags, LFS_F_READING, LFS_F_INLINE);
                lemma_set_flag(f0.flags, LFS_F_READING, LFS_F_WRITING);
                lemma_set_flag(f0.flags & !LFS_F_WRITING, LFS_F_DIRTY, LFS_F_INLINE);
                lemma_set_flag(f0.flags & !LFS_F_WRITING, LFS_F_DIRTY, LFS_F_WRITING);
                lemma_set_flag(f0.flags, LFS_F_WRITING, LFS_F_WRITING);
                assert(!is_inline(&f0));
                assert(!is_inline(&f1));
                assert(!is_writing(&f1));
                assert(f1.ctz.size == oldsize);
                assert(file_stored(l1, &f1, in_use@));
                assert(f1.cache.block == LFS_BLOCK_NULL);
                assert forall|q: int| 0 <= q < oldsize implies #[trigger] ctz_file_byte(l1.cfg.disk(), l1.cfg.block_size,
                    f1.ctz.head, f1.ctz.size, q) == read_src_byte(l0, &f0, q) by {}
            }
            let mut block_off: u32 = 0;
            let head = file.ctz.head;
            let csize = file.ctz.size;
            let res = lfs_ctz_find(lfs, None, &mut file.cache, head, csize, size - 1, &mut file.block, &mut block_off);
            match res {
                Err(e) => {
                    return Err(e);
                },
                Ok(()) => {},
            }
            let ghost f2 = *file;
            file.pos = size;
            file.ctz.head = file.block;
            file.ctz.size = size;
            file.flags = file.flags | LFS_F_DIRTY | LFS_F_READING;
            proof {
                let bs = l1.cfg.block_size;
                let (ci, co, ti) = choose|ci: nat, co: int, ti: nat|
                    #![trigger ctz_in_block(bs, csize - 1, ci, co), ctz_walk(l1.cfg.disk(), None, head, ci, ti)]
                    ci < 0x0400_0000 && ti < 0x0400_0000 && ctz_in_block(bs, csize - 1, ci, co) && ctz_in_block(
                        bs,
                        size - 1,
                        ti,
                        block_off as int,
                    ) && f2.block == ctz_walk(l1.cfg.disk(), None, head, ci, ti);
                lemma_stored_prefix(l1.cfg.disk(), bs, l1.block_count, head, csize, in_use@, LFS_BLOCK_NULL, size,
                    f2.block, ci, co, ti, block_off as int);
                lemma_truncate_bits(f1.flags, 0);
                assert(!is_inline(file));
                assert(!is_writing(file));
                assert(file_read_state_ok(*lfs, file));
                assert(file_read_ready(*lfs, file));
                assert(file.cache.off % lfs.cfg.prog_size == 0 ==> file_write_ready(*lfs, file, in_use@));
                assert forall|q: int| 0 <= q < size implies #[trigger] file_byte(*lfs, file, q) == read_src_byte(l0, &f0,
                    q) by {
                    assert(ctz_file_byte(l1.cfg.disk(), bs, f1.ctz.head, f1.ctz.size, q) == read_src_byte(l0, &f0, q));
                }
                assert(truncated_to(l0, &f0, u0, size, *lfs, file, in_use@));
                lb = *lfs;
                fb = *file;
                ub = in_use@;
            }
        }
    } else if size > oldsize {
        let res = lfs_file_seek_(lfs, file, in_use, 0, LFS_SEEK_END);
        match res {
            Err(e) => {
                return Err(e);
            },
            Ok(_) => {},
        }
        let zero: Vec<u8> = vec![0u8];
        proof {
            assert(file.pos == oldsize);
            assert(file_write_ready(*lfs, file, in_use@));
            assert(!is_writing(file) ==> file_read_ready(*lfs, file) && file.ctz.size == oldsize);
            assert forall|q: int| 0 <= q < file.pos implies #[trigger] read_src_byte(*lfs, file, q) == truncated_byte(l0,
                &f0, q) by {}
        }
        while file.pos < size
            invariant
                l0 == *old(lfs),
                f0 == *old(file),
                u0 == old(in_use)@,
                same_limits(*lfs, l0),
                lfs_read_ready(*lfs),
                same_params(lfs.cfg, l0.cfg),
                lfs.block_count == l0.block_count,
                lfs.gdisk == l0.gdisk,
                extends(in_use@, u0),
                file.m == f0.m,
                file.id == f0.id,
                file.flags & LFS_O_WRONLY == f0.flags & LFS_O_WRONLY,
                f0.flags & LFS_O_WRONLY != 0,
                oldsize <= file.pos <= size,
                oldsize == file_size_now(&f0),
                size <= l0.file_max,
                zero@ == seq![0u8],
                file_write_ready(*lfs, file, in_use@),
                !is_writing(file) ==> file_read_ready(*lfs, file) && file.ctz.size == file.pos,
                is_writing(file) ==> file.ctz.size <= file.pos,
                is_inline(file) <==> is_inline(&f0) && file.pos <= l0.inline_max,
                forall|q: int| 0 <= q < file.pos ==> #[trigger] read_src_byte(*lfs, file, q) == truncated_byte(l0, &f0, q),
            decreases size - file.pos,
        {
            let ghost la = *lfs;
            let ghost fa = *file;
            let ghost ua = in_use@;
            let res = lfs_file_write_(lfs, file, in_use, zero.as_slice());
            match res {
                Err(e) => {
                    proof {
                        lemma_extends_trans(in_use@, ua, u0);
                    }
                    return Err(e);
                },
                Ok(_) => {},
            }
            proof {
                lemma_extends_trans(in_use@, ua, u0);
                assert forall|q: int| 0 <= q < file.pos implies #[trigger] read_src_byte(*lfs, file, q) == truncated_byte(
                    l0,
                    &f0,
                    q,
                ) by {
                    assert(wr_file_byte(*lfs, file, q) == written_byte(la, &fa, zero@, q));
                    if q < fa.pos {
                        assert(read_src_byte(la, &fa, q) == truncated_byte(l0, &f0, q));
                    }
                }
            }
        }
        proof {
            assert(truncated_to(l0, &f0, u0, size, *lfs, file, in_use@));
            lb = *lfs;
            fb = *file;
            ub = in_use@;
        }
    } else {
        proof {
            assert(truncated_to(l0, &f0, u0, size, *lfs, file, in_use@));
        }
    }
    proof {
        assert(truncated_to(l0, &f0, u0, size, lb, &fb, ub));
        assert(lb == *lfs && fb == *file && ub == in_use@);
    }
    proof {
        if size == oldsize {
            assert(*lfs == l0 && *file == f0);
        }
    }
    let res = lfs_file_seek_(lfs, file, in_use, pos as i32, LFS_SEEK_SET);
    proof {
        lemma_extends_trans(in_use@, ub, u0);
    }
    match res {
        Err(e) => Err(e),
        Ok(_) => Ok(()),
    }
}

/// What a write puts in a file is what a read gives back once the write
/// is flushed: after `lfs_file_write_` writes `data` at its position, a
/// flush stores the file, inline or in a skip-list, so that its bytes
/// from that position on are `data`, which a read from there returns.
pub proof fn lemma_write_flush_read<S: Storage>(
    l1: Lfs<S>,
    f1: LfsFile,
    data: Seq<u8>,
    l2: Lfs<S>,
    f2: LfsFile,
    l3: Lfs<S>,
    f3: LfsFile,
    k: int,
)
    requires
        is_writing(&f2),
        f2.pos == write_pos(&f1) + data.len(),
        forall|q: int| 0 <= q < f2.pos ==> #[trigger] wr_file_byte(l2, &f2, q) == written_byte(l1, &f1, data, q),
        f3.ctz.size == (if f2.pos < f2.ctz.size { f2.ctz.size } else { f2.pos }),
        forall|q: int| 0 <= q < f3.ctz.size ==> #[trigger] file_byte(l3, &f3, q) == flushed_byte(l2, &f2, q),
        0 <= k < data.len(),
    ensures
        file_byte(l3, &f3, write_pos(&f1) + k) == data[k],
{
    let q = write_pos(&f1) + k;
    assert(file_byte(l3, &f3, q) == flushed_byte(l2, &f2, q));
    assert(wr_file_byte(l2, &f2, q) == written_byte(l1, &f1, data, q));
}

} // verus!
