//! CTZ skip-lists: the on-disk form of a file's data. Block `i` of a file
//! (counted from its first block) begins with `ctz(i) + 1` little-endian
//! pointers, pointer `k` naming block `i - 2^k`; block 0 holds none. The
//! rest of each block is file data.

use vstd::prelude::*;
use vstd::arithmetic::div_mod::lemma_fundamental_div_mod_converse;
use vstd::arithmetic::power2::{pow2, lemma2_to64};
use crate::error::Error;
use crate::lfs::Lfs;
use crate::storage::Storage;
use crate::bd::{LfsCache, lfs_bd_read, lfs_bd_prog, lfs_bd_erase, lfs_cache_drop, rcache_serves, view_range, view_byte, opt_cache,
    rcache_agrees, pcache_fits, prog_seq, prog_gap_start, same_params};
use crate::block_alloc::{la_wf, la_sound, la_bit, la_handed_out, blocks_valid, lfs_alloc, lfs_alloc_lookahead};
use crate::util::spec_aligndown;
use crate::endian::{spec_le32, le32_from_bytes, le32_at, le32_to_bytes, lemma_le32_roundtrip};
use crate::types::LFS_BLOCK_NULL;
use crate::util::{lfs_npw2, lfs_ctz, lfs_min, popc_nat, ctz_nat, lfs_popc, lemma_popc_pred, lemma_popc_ctz_bound, lfs_fromle32, lfs_tole32,
    spec_swap32};

verus! {

/// The head block and the size of a file stored as a CTZ skip-list.
#[derive(Clone, Copy, Debug)]
pub struct LfsCtz {
    pub head: u32,
    pub size: u32,
}

/// Converts both words of a CTZ reference from little-endian form.
pub fn lfs_ctz_fromle32(ctz: &mut LfsCtz)
    ensures
        final(ctz).head == old(ctz).head || final(ctz).head == spec_swap32(old(ctz).head),
        final(ctz).size == old(ctz).size || final(ctz).size == spec_swap32(old(ctz).size),
{
    ctz.head = lfs_fromle32(ctz.head);
    ctz.size = lfs_fromle32(ctz.size);
}

/// Converts both words of a CTZ reference to little-endian form.
pub fn lfs_ctz_tole32(ctz: &mut LfsCtz)
    ensures
        final(ctz).head == old(ctz).head || final(ctz).head == spec_swap32(old(ctz).head),
        final(ctz).size == old(ctz).size || final(ctz).size == spec_swap32(old(ctz).size),
{
    ctz.head = lfs_tole32(ctz.head);
    ctz.size = lfs_tole32(ctz.size);
}

/// The number of pointers at the start of block `i`.
pub open spec fn ctz_skips(i: nat) -> nat {
    if i == 0 {
        0
    } else {
        ctz_nat(i) + 1
    }
}

/// The file position that byte 0 of block `i` stands for, were its
/// pointers data: `i` whole blocks less the pointers of the blocks before
/// it, which number `2i - popc(i)` counting its own.
pub open spec fn ctz_pos(block_size: u32, i: nat) -> int {
    block_size * i - 4 * (2 * i - popc_nat(i))
}

/// File position `pos` lies in the data of block `i`, at offset `off`
/// within that block.
pub open spec fn ctz_in_block(block_size: u32, pos: int, i: nat, off: int) -> bool {
    &&& off == pos - ctz_pos(block_size, i)
    &&& 4 * ctz_skips(i) <= off < block_size
}

/// The data of consecutive blocks abuts: block `i + 1`'s data starts
/// where block `i` ends.
pub proof fn lemma_ctz_blocks_abut(block_size: u32, i: nat)
    ensures
        ctz_pos(block_size, i) + block_size == ctz_pos(block_size, i + 1) + 4 * ctz_skips(i + 1),
{
    lemma_popc_pred(i + 1);
    assert(block_size * (i + 1) == block_size * i + block_size) by (nonlinear_arith);
}

/// A file position lies in the data of one block only (among the blocks
/// that a file of at most 4 GiB can have).
pub proof fn lemma_ctz_in_block_unique(block_size: u32, pos: int, i: nat, off: int, j: nat, off2: int)
    requires
        block_size >= 128,
        i < 0x0400_0000,
        j < 0x0400_0000,
        ctz_in_block(block_size, pos, i, off),
        ctz_in_block(block_size, pos, j, off2),
    ensures
        i == j,
        off == off2,
{
    if i < j {
        lemma_ctz_pos_grows(block_size, i, j);
    } else if j < i {
        lemma_ctz_pos_grows(block_size, j, i);
    }
}

/// The data of a later block starts at or after the end of an earlier one.
pub(crate) proof fn lemma_ctz_pos_grows(block_size: u32, i: nat, j: nat)
    requires
        i < j < 0x0400_0000,
        block_size >= 128,
    ensures
        ctz_pos(block_size, i) + block_size <= ctz_pos(block_size, j) + 4 * ctz_skips(j),
    decreases j - i,
{
    lemma_ctz_blocks_abut(block_size, i);
    if i + 1 < j {
        lemma2_to64();
        lemma_popc_ctz_bound(i + 1, 26);
        lemma_ctz_pos_grows(block_size, i + 1, j);
        lemma_ctz_blocks_abut(block_size, i + 1);
    }
}

/// The arithmetic behind the index computation.
proof fn lemma_ctz_index_math(bs: u32, s: u32, q: nat, c: nat, i: nat)
    requires
        bs >= 128,
        q == s as nat / ((bs - 8) as nat),
        q >= 1,
        c == popc_nat((q - 1) as nat),
        i == (s - 4 * (c + 2)) / ((bs - 8) as int),
        s >= 4 * (c + 2),
    ensures
        i * (bs - 8) + 4 * popc_nat(i) <= s,
        ctz_in_block(bs, s as int, i, s - (i * (bs - 8) + 4 * popc_nat(i))),
        i < 0x0400_0000,
{
    let b = (bs - 8) as int;
    let rho = s - q * b;
    vstd::arithmetic::div_mod::lemma_fundamental_div_mod(s as int, b);
    vstd::arithmetic::div_mod::lemma_mod_bound(s as int, b);
    assert(s as int == q * b + rho && 0 <= rho < b) by (nonlinear_arith)
        requires s as int == b * (s as int / b) + (s as int) % b, q == s as int / b, 0 <= (s as int) % b < b, rho == s
            - q * b;
    assert(q < 0x0400_0000) by (nonlinear_arith)
        requires s as int == q * b + rho, 0 <= rho, b >= 120, s <= 0xffff_ffff;
    lemma2_to64();
    lemma_popc_ctz_bound((q - 1) as nat, 26);
    lemma_popc_pred(q);
    assert(ctz_pos(bs, i) == i * b + 4 * popc_nat(i)) by (nonlinear_arith)
        requires b == bs - 8;
    if rho >= 4 * c + 8 {
        lemma_fundamental_div_mod_converse(s - 4 * (c + 2), b, q as int, rho - 4 * c - 8);
        assert(i == q);
        assert(s - (q * b + 4 * popc_nat(q)) == rho - 4 * popc_nat(q));
    } else {
        assert(s - 4 * (c + 2) == (q - 1) * b + (b + rho - 4 * c - 8)) by (nonlinear_arith)
            requires s as int == q * b + rho;
        lemma_fundamental_div_mod_converse(s - 4 * (c + 2), b, q - 1, b + rho - 4 * c - 8);
        assert(i == q - 1);
        assert(s - (i * b + 4 * popc_nat(i)) == b + rho - 4 * c) by (nonlinear_arith)
            requires s as int == q * b + rho, i == q - 1, c == popc_nat(i);
        if i >= 1 {
            lemma_popc_ctz_bound(i, 26);
        }
    }
}

/// The block of a file that holds position `*off`, counted from the
/// file's first block; `*off` becomes the offset within that block.
pub fn lfs_ctz_index<S: Storage>(lfs: &Lfs<S>, off: &mut u32) -> (r: i32)
    requires
        lfs.cfg.block_size >= 128,
    ensures
        0 <= r < 0x0400_0000,
        ctz_in_block(lfs.cfg.block_size, *old(off) as int, r as nat, *final(off) as int),
{
    let size = *off;
    let b = lfs.cfg.block_size - 8;
    let q = size / b;
    if q == 0 {
        proof {
            assert(ctz_pos(lfs.cfg.block_size, 0) == 0) by (nonlinear_arith);
            vstd::arithmetic::div_mod::lemma_fundamental_div_mod(size as int, b as int);
            vstd::arithmetic::div_mod::lemma_mod_bound(size as int, b as int);
        }
        return 0;
    }
    let c = lfs_popc(q - 1);
    proof {
        lemma2_to64();
        vstd::arithmetic::div_mod::lemma_fundamental_div_mod(size as int, b as int);
        assert(q < 0x0400_0000 && size >= b) by (nonlinear_arith)
            requires size as int == b * q + (size as int) % (b as int), 0 <= (size as int) % (b as int), b >= 120,
                q >= 1, size <= 0xffff_ffff;
        lemma_popc_ctz_bound((q - 1) as nat, 26);
    }
    let i = (size - 4 * (c + 2)) / b;
    proof {
        lemma_ctz_index_math(lfs.cfg.block_size, size, q as nat, c as nat, i as nat);
    }
    let p = lfs_popc(i);
    *off = size - b * i - 4 * p;
    i as i32
}

/// The floor of the base-2 logarithm of `d` (0 for 0 and 1).
pub open spec fn log2_floor(d: nat) -> nat
    decreases d,
{
    if d < 2 {
        0
    } else {
        1 + log2_floor(d / 2)
    }
}

proof fn lemma_log2_floor(d: nat, k: nat)
    requires
        pow2(k) <= d < pow2(k + 1),
    ensures
        log2_floor(d) == k,
    decreases k,
{
    vstd::arithmetic::power2::lemma_pow2_unfold(k + 1);
    if k == 0 {
        lemma2_to64();
    } else {
        vstd::arithmetic::power2::lemma_pow2_unfold(k);
        lemma_log2_floor(d / 2, (k - 1) as nat);
    }
}

/// The pointer that a walk from block `current` toward block `target`
/// follows: the longest jump, `2^k` blocks, that does not pass the target
/// and that block `current` holds a pointer for.
pub open spec fn ctz_jump(current: nat, target: nat) -> nat {
    let a = log2_floor((current - target) as nat);
    let b = ctz_nat(current);
    if a < b {
        a
    } else {
        b
    }
}

/// The block reached from `head`, which is block `current` of a file, by
/// following the longest pointers toward block `target`, reading the
/// pointers as `pcache` and the device show them.
pub open spec fn ctz_walk(disk: Seq<Seq<u8>>, pcache: Option<LfsCache>, head: u32, current: nat, target: nat) -> u32
    decreases current,
{
    if current <= target {
        head
    } else {
        let k = ctz_jump(current, target);
        let next = spec_le32(view_range(disk, pcache, head as int, (4 * k) as int, 4)) as u32;
        if pow2(k) == 0 || pow2(k) > current {
            head
        } else {
            ctz_walk(disk, pcache, next, (current - pow2(k)) as nat, target)
        }
    }
}

/// Everything but the configuration (and its device) is unchanged.
pub open spec fn same_but_cfg<S>(a: Lfs<S>, b: Lfs<S>) -> bool {
    &&& a.rcache == b.rcache
    &&& a.pcache == b.pcache
    &&& a.root == b.root
    &&& a.mlist == b.mlist
    &&& a.seed == b.seed
    &&& a.gstate == b.gstate
    &&& a.gdisk == b.gdisk
    &&& a.gdelta == b.gdelta
    &&& a.lookahead == b.lookahead
    &&& a.block_count == b.block_count
    &&& a.name_max == b.name_max
    &&& a.file_max == b.file_max
    &&& a.attr_max == b.attr_max
    &&& a.inline_max == b.inline_max
}

/// Everything but the configuration (and its device) and the read cache
/// is unchanged.
pub open spec fn same_but_cfg_rcache<S>(a: Lfs<S>, b: Lfs<S>) -> bool {
    &&& a.pcache == b.pcache
    &&& a.root == b.root
    &&& a.mlist == b.mlist
    &&& a.seed == b.seed
    &&& a.gstate == b.gstate
    &&& a.gdisk == b.gdisk
    &&& a.gdelta == b.gdelta
    &&& a.lookahead == b.lookahead
    &&& a.block_count == b.block_count
    &&& a.name_max == b.name_max
    &&& a.file_max == b.file_max
    &&& a.attr_max == b.attr_max
    &&& a.inline_max == b.inline_max
}

/// Two states of the filesystem with the same name, file, attribute and
/// inline size limits.
pub open spec fn same_limits<S>(a: Lfs<S>, b: Lfs<S>) -> bool {
    &&& a.name_max == b.name_max
    &&& a.file_max == b.file_max
    &&& a.attr_max == b.attr_max
    &&& a.inline_max == b.inline_max
}

/// The state of the filesystem that reads need: a valid device
/// configuration, a block count within the device, and size limits that
/// the configuration allows.
pub open spec fn lfs_read_ready<S: Storage>(lfs: Lfs<S>) -> bool {
    &&& lfs.cfg.wf()
    &&& 0 < lfs.block_count <= lfs.cfg.block_count
    &&& 128 <= lfs.cfg.block_size <= 0x4000_0000
    &&& lfs.inline_max <= lfs.cfg.cache_size
    &&& lfs.file_max <= 0x7fff_ffff
}

/// Finds the block of a file, and the offset in it, that hold position
/// `pos`: the file's last block is `head` and its size is `size`. The
/// search walks back along the skip-list pointers.
pub fn lfs_ctz_find<S: Storage>(
    lfs: &mut Lfs<S>,
    pcache: Option<&LfsCache>,
    rcache: &mut LfsCache,
    head: u32,
    size: u32,
    pos: u32,
    block: &mut u32,
    off: &mut u32,
) -> (r: Result<(), Error>)
    requires
        lfs_read_ready(*old(lfs)),
        old(rcache).wf(old(lfs).cfg.cache_size),
        rcache_agrees(*old(rcache), old(lfs).cfg.disk()),
        pcache matches Some(p) ==> pcache_fits(*p, old(lfs).cfg.disk()),
    ensures
        lfs_read_ready(*final(lfs)),
        final(lfs).cfg.disk() == old(lfs).cfg.disk(),
        crate::bd::same_params(final(lfs).cfg, old(lfs).cfg),
        same_but_cfg(*final(lfs), *old(lfs)),
        final(rcache).wf(old(lfs).cfg.cache_size),
        rcache_agrees(*final(rcache), old(lfs).cfg.disk()),
        size == 0 ==> r is Ok && *final(block) == LFS_BLOCK_NULL && *final(off) == 0,
        size > 0 && r is Ok ==> exists|ci: nat, co: int, ti: nat|
            #![trigger ctz_in_block(old(lfs).cfg.block_size, size - 1, ci, co), ctz_walk(old(lfs).cfg.disk(), opt_cache(pcache), head, ci, ti)]
            ci < 0x0400_0000 && ti < 0x0400_0000 && ctz_in_block(old(lfs).cfg.block_size, size - 1, ci, co)
                && ctz_in_block(old(lfs).cfg.block_size, pos as int, ti, *final(off) as int) && *final(block) == ctz_walk(
                old(lfs).cfg.disk(),
                opt_cache(pcache),
                head,
                ci,
                ti,
            ),
        size > 0 && (exists|ci: nat, co: int, to: int|
            #![trigger ctz_in_block(old(lfs).cfg.block_size, size - 1, ci, co), ctz_in_block(old(lfs).cfg.block_size, pos as int, ci, to)]
            ci < 0x0400_0000 && ctz_in_block(old(lfs).cfg.block_size, size - 1, ci, co) && ctz_in_block(
                old(lfs).cfg.block_size, pos as int, ci, to)) ==> r is Ok && *final(block) == head,
{
    if size == 0 {
        *block = LFS_BLOCK_NULL;
        *off = 0;
        return Ok(());
    }
    let mut current_off = size - 1;
    let mut target_off = pos;
    let c0 = lfs_ctz_index(lfs, &mut current_off);
    let t0 = lfs_ctz_index(lfs, &mut target_off);
    let mut current = c0 as u32;
    let target = t0 as u32;
    let mut head_val = head;
    let ghost disk = lfs.cfg.disk();
    let ghost pc = opt_cache(pcache);
    let ghost lfs0 = *lfs;
    proof {
        if exists|ci: nat, co: int, to: int|
            #![trigger ctz_in_block(lfs.cfg.block_size, size - 1, ci, co), ctz_in_block(lfs.cfg.block_size, pos as int, ci, to)]
            ci < 0x0400_0000 && ctz_in_block(lfs.cfg.block_size, size - 1, ci, co) && ctz_in_block(lfs.cfg.block_size,
                pos as int, ci, to) {
            let (ci, co, to) = choose|ci: nat, co: int, to: int|
                #![trigger ctz_in_block(lfs.cfg.block_size, size - 1, ci, co), ctz_in_block(lfs.cfg.block_size, pos as int, ci, to)]
                ci < 0x0400_0000 && ctz_in_block(lfs.cfg.block_size, size - 1, ci, co) && ctz_in_block(
                lfs.cfg.block_size, pos as int, ci, to);
            lemma_ctz_in_block_unique(lfs.cfg.block_size, size - 1, ci, co, c0 as nat, current_off as int);
            lemma_ctz_in_block_unique(lfs.cfg.block_size, pos as int, ci, to, t0 as nat, target_off as int);
        }
    }
    while current > target
        invariant
            current <= c0,
            0 <= c0 < 0x0400_0000,
            0 <= t0 < 0x0400_0000,
            target == t0,
            c0 <= t0 ==> head_val == head,
            (exists|ci: nat, co: int, to: int|
                #![trigger ctz_in_block(old(lfs).cfg.block_size, size - 1, ci, co), ctz_in_block(old(lfs).cfg.block_size, pos as int, ci, to)]
                ci < 0x0400_0000 && ctz_in_block(old(lfs).cfg.block_size, size - 1, ci, co) && ctz_in_block(
                old(lfs).cfg.block_size, pos as int, ci, to)) ==> c0 == t0,
            lfs_read_ready(*lfs),
            lfs.cfg.disk() == disk,
            disk == old(lfs).cfg.disk(),
            crate::bd::same_params(lfs.cfg, old(lfs).cfg),
            lfs.block_count == old(lfs).block_count,
            same_but_cfg(*lfs, *old(lfs)),
            lfs0 == *old(lfs),
            pc == opt_cache(pcache),
            pcache matches Some(p) ==> pcache_fits(*p, disk),
            rcache.wf(lfs.cfg.cache_size),
            rcache_agrees(*rcache, disk),
            current < 0x0400_0000,
            size > 0,
            ctz_walk(disk, pc, head_val, current as nat, target as nat) == ctz_walk(disk, pc, head, c0 as nat,
                target as nat),
        decreases current,
    {
        let n = lfs_npw2(current - target + 1);
        let skip = lfs_min(n - 1, lfs_ctz(current));
        proof {
            lemma_log2_floor((current - target) as nat, (n - 1) as nat);
            lemma2_to64();
            lemma_popc_ctz_bound(current as nat, 26);
            vstd::bits::lemma_u32_shl_is_mul(1, skip);
            vstd::arithmetic::power2::lemma_pow2_pos(skip as nat);
            crate::bd::lemma_cfg_sizes(lfs.cfg);
        }
        let mut buf: Vec<u8> = vec![0u8, 0u8, 0u8, 0u8];
        let res = lfs_bd_read(&mut lfs.cfg, lfs.block_count, pcache, rcache, 4, head_val, 4 * skip, buf.as_mut_slice());
        match res {
            Err(e) => {
                return Err(e);
            },
            Ok(()) => {},
        }
        head_val = le32_from_bytes(buf.as_slice());
        current = current - (1u32 << skip);
    }
    *block = head_val;
    *off = target_off;
    Ok(())
}

/// The blocks of a file, in the order a traversal visits them: from
/// `head`, block `index` of the file, back to block 0. An odd block is left
/// by its one pointer; from an even block both the block before it and the
/// one before that are named, and the walk goes on from the second.
pub open spec fn ctz_visits(disk: Seq<Seq<u8>>, pcache: Option<LfsCache>, head: u32, index: nat) -> Seq<u32>
    decreases index,
{
    if index == 0 {
        seq![head]
    } else {
        let h0 = spec_le32(view_range(disk, pcache, head as int, 0, 4)) as u32;
        let h1 = spec_le32(view_range(disk, pcache, head as int, 4, 4)) as u32;
        if index % 2 == 1 {
            seq![head] + ctz_visits(disk, pcache, h0, (index - 1) as nat)
        } else if index >= 2 {
            seq![head, h0] + ctz_visits(disk, pcache, h1, (index - 2) as nat)
        } else {
            seq![head]
        }
    }
}

/// Lists every block of a file, the file's last block being `head` and
/// its size `size`, appending them to `visited` in traversal order.
pub fn lfs_ctz_traverse<S: Storage>(
    lfs: &mut Lfs<S>,
    pcache: Option<&LfsCache>,
    rcache: &mut LfsCache,
    head: u32,
    size: u32,
    visited: &mut Vec<u32>,
) -> (r: Result<(), Error>)
    requires
        lfs_read_ready(*old(lfs)),
        old(rcache).wf(old(lfs).cfg.cache_size),
        rcache_agrees(*old(rcache), old(lfs).cfg.disk()),
        pcache matches Some(p) ==> pcache_fits(*p, old(lfs).cfg.disk()),
    ensures
        lfs_read_ready(*final(lfs)),
        final(lfs).cfg.disk() == old(lfs).cfg.disk(),
        crate::bd::same_params(final(lfs).cfg, old(lfs).cfg),
        same_but_cfg(*final(lfs), *old(lfs)),
        final(rcache).wf(old(lfs).cfg.cache_size),
        rcache_agrees(*final(rcache), old(lfs).cfg.disk()),
        old(visited)@.is_prefix_of(final(visited)@),
        r matches Err(e) ==> crate::storage::device_error(e),
        0 < size <= old(lfs).cfg.block_size ==> r is Ok && final(visited)@ == old(visited)@.push(head) && *final(rcache)
            == *old(rcache) && *final(lfs) == *old(lfs),
        size == 0 ==> r is Ok && final(visited)@ == old(visited)@ && *final(rcache) == *old(rcache) && *final(lfs)
            == *old(lfs),
        size > 0 && r is Ok ==> exists|ci: nat, co: int|
            #![trigger ctz_in_block(old(lfs).cfg.block_size, size - 1, ci, co)]
            ci < 0x0400_0000 && ctz_in_block(old(lfs).cfg.block_size, size - 1, ci, co) && final(visited)@ == old(visited)@ + ctz_visits(
                old(lfs).cfg.disk(),
                opt_cache(pcache),
                head,
                ci,
            ),
{
    if size == 0 {
        return Ok(());
    }
    let mut index_off = size - 1;
    let i0 = lfs_ctz_index(lfs, &mut index_off);
    let mut index = i0 as u32;
    let mut current_head = head;
    let ghost disk = lfs.cfg.disk();
    let ghost pc = opt_cache(pcache);
    let ghost lfs0 = *lfs;
    let ghost v0 = visited@;
    proof {
        if size <= lfs.cfg.block_size {
            let bs = lfs.cfg.block_size;
            assert(ctz_pos(bs, 0) == 0) by (nonlinear_arith);
            assert(ctz_in_block(bs, size - 1, 0, size - 1));
            lemma_ctz_in_block_unique(bs, size - 1, 0, size - 1, i0 as nat, index_off as int);
        }
    }
    loop
        invariant
            0 <= i0 < 0x0400_0000,
            i0 == 0 ==> index == 0 && visited@ == v0 && current_head == head && *rcache == *old(rcache) && *lfs == *old(lfs),
            size <= old(lfs).cfg.block_size ==> i0 == 0,
            lfs_read_ready(*lfs),
            lfs.cfg.disk() == disk,
            disk == old(lfs).cfg.disk(),
            crate::bd::same_params(lfs.cfg, old(lfs).cfg),
            lfs.block_count == old(lfs).block_count,
            same_but_cfg(*lfs, *old(lfs)),
            lfs0 == *old(lfs),
            pc == opt_cache(pcache),
            pcache matches Some(p) ==> pcache_fits(*p, disk),
            rcache.wf(lfs.cfg.cache_size),
            rcache_agrees(*rcache, disk),
            v0 == old(visited)@,
            v0.is_prefix_of(visited@),
            size > 0,
            ctz_in_block(old(lfs).cfg.block_size, size - 1, i0 as nat, index_off as int),
            visited@ + ctz_visits(disk, pc, current_head, index as nat) == v0 + ctz_visits(disk, pc, head, i0 as nat),
        decreases index,
    {
        let ghost vb = visited@;
        visited.push(current_head);
        if index == 0 {
            proof {
                assert(visited@ =~= vb + ctz_visits(disk, pc, current_head, 0));
                assert(v0.is_prefix_of(visited@)) by {
                    assert(visited@.subrange(0, v0.len() as int) =~= vb.subrange(0, v0.len() as int));
                }
            }
            return Ok(());
        }
        let count: u32 = if index % 2 == 1 { 1 } else { 2 };
        let mut buf: Vec<u8> = if count == 1 { vec![0u8, 0u8, 0u8, 0u8] } else { vec![0u8, 0u8, 0u8, 0u8, 0u8, 0u8, 0u8, 0u8] };
        proof {
            crate::bd::lemma_cfg_sizes(lfs.cfg);
        }
        let res = lfs_bd_read(&mut lfs.cfg, lfs.block_count, pcache, rcache, 4 * count, current_head, 0, buf.as_mut_slice());
        match res {
            Err(e) => {
                proof {
                    assert(v0.is_prefix_of(visited@)) by {
                        assert(visited@.subrange(0, v0.len() as int) =~= vb.subrange(0, v0.len() as int));
                    }
                }
                return Err(e);
            },
            Ok(()) => {},
        }
        let h0 = le32_at(buf.as_slice(), 0);
        let ghost vh = current_head;
        if count == 2 {
            let h1 = le32_at(buf.as_slice(), 4);
            visited.push(h0);
            current_head = h1;
            proof {
                assert(buf@.subrange(0, 4) =~= view_range(disk, pc, vh as int, 0, 4));
                assert(buf@.subrange(4, 8) =~= view_range(disk, pc, vh as int, 4, 4));
            }
        } else {
            current_head = h0;
            proof {
                assert(buf@.subrange(0, 4) =~= view_range(disk, pc, vh as int, 0, 4));
            }
        }
        proof {
            let rest = ctz_visits(disk, pc, current_head, (index - count) as nat);
            if count == 2 {
                assert(ctz_visits(disk, pc, vh, index as nat) == seq![vh, h0] + rest);
                assert(visited@ + rest =~= vb + (seq![vh, h0] + rest));
            } else {
                assert(ctz_visits(disk, pc, vh, index as nat) == seq![vh] + rest);
                assert(visited@ + rest =~= vb + (seq![vh] + rest));
            }
            assert(v0.is_prefix_of(visited@)) by {
                assert(visited@.subrange(0, v0.len() as int) =~= vb.subrange(0, v0.len() as int));
            }
        }
        index = index - count;
    }
}

/// Word `k` of block `b`, read little-endian, as `pcache` and the device
/// show it.
pub open spec fn block_word(disk: Seq<Seq<u8>>, pcache: Option<LfsCache>, b: u32, k: nat) -> u32 {
    spec_le32(view_range(disk, pcache, b as int, (4 * k) as int, 4)) as u32
}

/// The pointers that a new block takes over from `head`: pointer 0 is
/// `head` itself, and pointer `k + 1` is pointer `k` of the block that
/// pointer `k` names.
pub open spec fn ctz_chain(disk: Seq<Seq<u8>>, head: u32, k: nat) -> u32
    decreases k,
{
    if k == 0 {
        head
    } else {
        block_word(disk, None, ctz_chain(disk, head, (k - 1) as nat), (k - 1) as nat)
    }
}

/// None of the first `k` pointers of the chain names block `b`.
pub open spec fn ctz_chain_avoids(disk: Seq<Seq<u8>>, head: u32, b: u32, k: nat) -> bool
    decreases k,
{
    k == 0 || (ctz_chain_avoids(disk, head, b, (k - 1) as nat) && ctz_chain(disk, head, (k - 1) as nat) != b)
}

/// A program that continues the cache starts filling exactly at its offset.
proof fn lemma_prog_seq_gap(pc: LfsCache, block: u32, at: u32, cache_size: u32, prog_size: u32)
    requires
        prog_size > 0,
        block != crate::types::LFS_BLOCK_NULL,
        prog_seq(pc, block, at as int, cache_size, prog_size),
    ensures
        prog_gap_start(pc, block, at, cache_size, prog_size) == at,
{
    if pc.block == crate::types::LFS_BLOCK_NULL {
        assert(spec_aligndown(at as int, prog_size as int) == at);
    }
}

/// A program that continues the cache starts filling exactly at its offset.
pub proof fn lemma_prog_seq_gap_pub(pc: LfsCache, block: u32, at: u32, cache_size: u32, prog_size: u32)
    requires
        prog_size > 0,
        block != crate::types::LFS_BLOCK_NULL,
        prog_seq(pc, block, at as int, cache_size, prog_size),
    ensures
        prog_gap_start(pc, block, at, cache_size, prog_size) == at,
{
    lemma_prog_seq_gap(pc, block, at, cache_size, prog_size);
}

/// What an extension needs of the device state and the caches.
pub open spec fn ctz_caches_ready<S: Storage>(lfs: Lfs<S>, pcache: LfsCache, rcache: LfsCache) -> bool {
    &&& lfs_read_ready(lfs)
    &&& pcache.wf(lfs.cfg.cache_size)
    &&& pcache.off % lfs.cfg.prog_size == 0
    &&& pcache_fits(pcache, lfs.cfg.disk())
    &&& rcache.wf(lfs.cfg.cache_size)
    &&& rcache_agrees(rcache, lfs.cfg.disk())
}

/// Copies the first `noff` bytes of `head` into the fresh block `nblock`.
/// `Ok(false)` reports that `nblock` went bad.
fn ctz_copy_data<S: Storage>(
    lfs: &mut Lfs<S>,
    pcache: &mut LfsCache,
    rcache: &mut LfsCache,
    head: u32,
    nblock: u32,
    noff: u32,
) -> (r: Result<bool, Error>)
    requires
        ctz_caches_ready(*old(lfs), *old(pcache), *old(rcache)),
        old(pcache).block == crate::types::LFS_BLOCK_NULL,
        nblock < old(lfs).block_count,
        head != nblock,
        noff <= old(lfs).cfg.block_size,
    ensures
        same_limits(*final(lfs), *old(lfs)),
        r matches Err(e) ==> crate::storage::device_error(e),
        final(lfs).pcache == old(lfs).pcache,
        final(lfs).rcache == old(lfs).rcache,
        final(lfs).gdisk == old(lfs).gdisk,
        lfs_read_ready(*final(lfs)),
        same_params(final(lfs).cfg, old(lfs).cfg),
        final(lfs).block_count == old(lfs).block_count,
        final(lfs).lookahead == old(lfs).lookahead,
        final(pcache).wf(old(lfs).cfg.cache_size),
        final(pcache).off % old(lfs).cfg.prog_size == 0,
        pcache_fits(*final(pcache), final(lfs).cfg.disk()),
        final(rcache).wf(old(lfs).cfg.cache_size),
        forall|b: int| 0 <= b < old(lfs).block_count && b != nblock ==> #[trigger] final(lfs).cfg.disk()[b]
            == old(lfs).cfg.disk()[b],
        r == Ok::<bool, Error>(true) ==> rcache_agrees(*final(rcache), final(lfs).cfg.disk()),
        r == Ok::<bool, Error>(true) ==> forall|k: int| 0 <= k < noff ==> #[trigger] view_byte(final(lfs).cfg.disk(),
            Some(*final(pcache)), nblock as int, k) == old(lfs).cfg.disk()[head as int][k],
        r == Ok::<bool, Error>(true) ==> prog_seq(*final(pcache), nblock, noff as int, old(lfs).cfg.cache_size,
            old(lfs).cfg.prog_size),
        noff < old(lfs).cfg.cache_size && (noff == 0 || ((old(lfs).block_count == 0 || head < old(lfs).block_count)
            && rcache_serves(*old(rcache), head, 0, noff as nat))) ==> r == Ok::<bool, Error>(true) && *final(rcache)
            == *old(rcache),
{
    let ghost disk0 = lfs.cfg.disk();
    let ghost la0 = lfs.lookahead;
    let mut i: u32 = 0;
    proof {
        crate::bd::lemma_cfg_sizes(lfs.cfg);
    }
    while i < noff
        invariant
            same_limits(*lfs, *old(lfs)),
            lfs_read_ready(*lfs),
            same_params(lfs.cfg, old(lfs).cfg),
            lfs.block_count == old(lfs).block_count,
            lfs.lookahead == la0,
            la0 == old(lfs).lookahead,
            lfs.pcache == old(lfs).pcache,
            lfs.rcache == old(lfs).rcache,
            lfs.gdisk == old(lfs).gdisk,
            disk0 == old(lfs).cfg.disk(),
            i <= noff,
            noff <= lfs.cfg.block_size,
            nblock < lfs.block_count,
            head != nblock,
            lfs.cfg.read_size <= lfs.cfg.block_size,
            pcache.wf(lfs.cfg.cache_size),
            pcache.off % lfs.cfg.prog_size == 0,
            pcache_fits(*pcache, lfs.cfg.disk()),
            pcache.block == crate::types::LFS_BLOCK_NULL || pcache.block == nblock,
            prog_seq(*pcache, nblock, i as int, lfs.cfg.cache_size, lfs.cfg.prog_size),
            rcache.wf(lfs.cfg.cache_size),
            rcache_agrees(*rcache, lfs.cfg.disk()),
            forall|b: int| 0 <= b < old(lfs).block_count && b != nblock ==> #[trigger] lfs.cfg.disk()[b] == disk0[b],
            forall|k: int| 0 <= k < i ==> #[trigger] view_byte(lfs.cfg.disk(), Some(*pcache), nblock as int, k)
                == disk0[head as int][k],
            noff < lfs.cfg.cache_size && (noff == 0 || ((lfs.block_count == 0 || head < lfs.block_count)
                && rcache_serves(*old(rcache), head, 0, noff as nat))) ==> *rcache == *old(rcache) && ((i == 0
                && pcache.block == crate::types::LFS_BLOCK_NULL) || (pcache.block == nblock && pcache.off == 0)),
        decreases noff - i,
    {
        let mut data: Vec<u8> = vec![0u8];
        let res = lfs_bd_read(&mut lfs.cfg, lfs.block_count, None, rcache, noff - i, head, i, data.as_mut_slice());
        match res {
            Err(e) => {
                return Err(e);
            },
            Ok(()) => {},
        }
        proof {
            assert(data@[0] == view_byte(lfs.cfg.disk(), None, head as int, i as int));
            assert(lfs.cfg.disk()[head as int] == disk0[head as int]);
            lemma_prog_seq_gap(*pcache, nblock, i, lfs.cfg.cache_size, lfs.cfg.prog_size);
        }
        let ghost d1 = lfs.cfg.disk();
        let ghost p1 = *pcache;
        let res = lfs_bd_prog(&mut lfs.cfg, lfs.block_count, pcache, rcache, true, nblock, i, data.as_slice());
        match res {
            Err(e) => {
                if e == Error::Corrupt {
                    return Ok(false);
                }
                return Err(e);
            },
            Ok(()) => {},
        }
        proof {
            assert forall|k: int| 0 <= k < i + 1 implies #[trigger] view_byte(lfs.cfg.disk(), Some(*pcache), nblock as int, k)
                == disk0[head as int][k] by {
                if k < i {
                    assert(view_byte(lfs.cfg.disk(), Some(*pcache), nblock as int, k) == view_byte(d1, Some(p1), nblock as int, k));
                } else {
                    assert(view_byte(lfs.cfg.disk(), Some(*pcache), nblock as int, i + 0) == data@[0]);
                }
            }
            assert forall|b: int| 0 <= b < old(lfs).block_count && b != nblock implies #[trigger] lfs.cfg.disk()[b] == disk0[b] by {
                assert(d1[b] == disk0[b]);
            }
        }
        i = i + 1;
    }
    Ok(true)
}

/// The read cache holds, for each of the first `n` pointers of the chain
/// from `head`, the word that the next one is read from.
pub open spec fn ctz_chain_cached(disk: Seq<Seq<u8>>, rcache: LfsCache, head: u32, block_count: u32, n: nat) -> bool {
    forall|k: nat| k < n ==> (block_count == 0 || #[trigger] ctz_chain(disk, head, k) < block_count) && rcache_serves(
        rcache, ctz_chain(disk, head, k), (4 * k) as u32, 4)
}

/// Writes the `skips` pointers of a new block `nblock` that follows
/// `head`: pointer 0 is `head`, and each next pointer is read from the
/// block the previous one names. `Ok(false)` reports that `nblock` went
/// bad.
fn ctz_write_skips<S: Storage>(
    lfs: &mut Lfs<S>,
    pcache: &mut LfsCache,
    rcache: &mut LfsCache,
    head: u32,
    nblock: u32,
    skips: u32,
) -> (r: Result<bool, Error>)
    requires
        ctz_caches_ready(*old(lfs), *old(pcache), *old(rcache)),
        old(pcache).block == crate::types::LFS_BLOCK_NULL,
        nblock < old(lfs).block_count,
        1 <= skips <= 28,
    ensures
        same_limits(*final(lfs), *old(lfs)),
        r matches Err(e) ==> crate::storage::device_error(e),
        final(lfs).pcache == old(lfs).pcache,
        final(lfs).rcache == old(lfs).rcache,
        final(lfs).gdisk == old(lfs).gdisk,
        lfs_read_ready(*final(lfs)),
        same_params(final(lfs).cfg, old(lfs).cfg),
        final(lfs).block_count == old(lfs).block_count,
        final(lfs).lookahead == old(lfs).lookahead,
        final(pcache).wf(old(lfs).cfg.cache_size),
        final(pcache).off % old(lfs).cfg.prog_size == 0,
        pcache_fits(*final(pcache), final(lfs).cfg.disk()),
        final(rcache).wf(old(lfs).cfg.cache_size),
        forall|b: int| 0 <= b < old(lfs).block_count && b != nblock ==> #[trigger] final(lfs).cfg.disk()[b]
            == old(lfs).cfg.disk()[b],
        r == Ok::<bool, Error>(true) ==> rcache_agrees(*final(rcache), final(lfs).cfg.disk()),
        r == Ok::<bool, Error>(true) ==> forall|k: nat| k < skips && ctz_chain_avoids(old(lfs).cfg.disk(), head, nblock, k)
            ==> #[trigger] block_word(final(lfs).cfg.disk(), Some(*final(pcache)), nblock, k) == ctz_chain(
            old(lfs).cfg.disk(),
            head,
            k,
        ),
        r == Ok::<bool, Error>(true) ==> prog_seq(*final(pcache), nblock, 4 * skips as int, old(lfs).cfg.cache_size,
            old(lfs).cfg.prog_size),
        4 * skips < old(lfs).cfg.cache_size && ctz_chain_cached(old(lfs).cfg.disk(), *old(rcache), head,
            old(lfs).block_count, (skips - 1) as nat) ==> r == Ok::<bool, Error>(true) && *final(rcache) == *old(rcache),
{
    let ghost disk0 = lfs.cfg.disk();
    let ghost la0 = lfs.lookahead;
    let mut nhead = head;
    let mut i: u32 = 0;
    proof {
        crate::bd::lemma_cfg_sizes(lfs.cfg);
    }
    while i < skips
        invariant
            same_limits(*lfs, *old(lfs)),
            lfs_read_ready(*lfs),
            same_params(lfs.cfg, old(lfs).cfg),
            lfs.block_count == old(lfs).block_count,
            lfs.lookahead == la0,
            la0 == old(lfs).lookahead,
            lfs.pcache == old(lfs).pcache,
            lfs.rcache == old(lfs).rcache,
            lfs.gdisk == old(lfs).gdisk,
            disk0 == old(lfs).cfg.disk(),
            1 <= skips <= 28,
            i <= skips,
            nblock < lfs.block_count,
            lfs.cfg.read_size <= lfs.cfg.block_size,
            pcache.wf(lfs.cfg.cache_size),
            pcache.off % lfs.cfg.prog_size == 0,
            pcache_fits(*pcache, lfs.cfg.disk()),
            pcache.block == crate::types::LFS_BLOCK_NULL || pcache.block == nblock,
            prog_seq(*pcache, nblock, 4 * i as int, lfs.cfg.cache_size, lfs.cfg.prog_size),
            rcache.wf(lfs.cfg.cache_size),
            rcache_agrees(*rcache, lfs.cfg.disk()),
            forall|b: int| 0 <= b < old(lfs).block_count && b != nblock ==> #[trigger] lfs.cfg.disk()[b] == disk0[b],
            i < skips && ctz_chain_avoids(disk0, head, nblock, i as nat) ==> nhead == ctz_chain(disk0, head, i as nat),
            forall|k: nat| k < i && ctz_chain_avoids(disk0, head, nblock, k) ==> #[trigger] block_word(lfs.cfg.disk(),
                Some(*pcache), nblock, k) == ctz_chain(disk0, head, k),
            4 * skips < lfs.cfg.cache_size && ctz_chain_cached(disk0, *old(rcache), head, lfs.block_count, (skips - 1) as nat)
                ==> *rcache == *old(rcache) && lfs.cfg.disk() == disk0 && (i < skips ==> nhead == ctz_chain(disk0, head,
                i as nat)) && ((i == 0 && pcache.block == crate::types::LFS_BLOCK_NULL) || (pcache.block == nblock
                && pcache.off == 0)),
        decreases skips - i,
    {
        let bytes = le32_to_bytes(nhead);
        let data: Vec<u8> = vec![bytes[0], bytes[1], bytes[2], bytes[3]];
        proof {
            lemma_prog_seq_gap(*pcache, nblock, (4 * i) as u32, lfs.cfg.cache_size, lfs.cfg.prog_size);
            assert(data@ =~= bytes@);
        }
        let ghost d1 = lfs.cfg.disk();
        let ghost p1 = *pcache;
        let res = lfs_bd_prog(&mut lfs.cfg, lfs.block_count, pcache, rcache, true, nblock, 4 * i, data.as_slice());
        match res {
            Err(e) => {
                if e == Error::Corrupt {
                    return Ok(false);
                }
                return Err(e);
            },
            Ok(()) => {},
        }
        proof {
            assert forall|b: int| 0 <= b < old(lfs).block_count && b != nblock implies #[trigger] lfs.cfg.disk()[b] == disk0[b] by {
                assert(d1[b] == disk0[b]);
            }
            assert(view_range(lfs.cfg.disk(), Some(*pcache), nblock as int, (4 * i) as int, 4) =~= data@);
            assert forall|k: nat| k < i + 1 && ctz_chain_avoids(disk0, head, nblock, k) implies #[trigger] block_word(
                lfs.cfg.disk(), Some(*pcache), nblock, k) == ctz_chain(disk0, head, k) by {
                if k < i {
                    assert(view_range(lfs.cfg.disk(), Some(*pcache), nblock as int, (4 * k) as int, 4) =~= view_range(
                        d1, Some(p1), nblock as int, (4 * k) as int, 4));
                    assert(block_word(d1, Some(p1), nblock, k) == ctz_chain(disk0, head, k));
                } else {
                    assert(k == i);
                    assert(nhead == ctz_chain(disk0, head, i as nat));
                    assert(view_range(lfs.cfg.disk(), Some(*pcache), nblock as int, (4 * k) as int, 4) == bytes@);
                    assert(spec_le32(bytes@) == nhead);
                }
            }
        }
        if i != skips - 1 {
            let mut buf: Vec<u8> = vec![0u8, 0u8, 0u8, 0u8];
            let ghost oldhead = nhead;
            let res = lfs_bd_read(&mut lfs.cfg, lfs.block_count, None, rcache, 4, nhead, 4 * i, buf.as_mut_slice());
            match res {
                Err(e) => {
                    return Err(e);
                },
                Ok(()) => {},
            }
            nhead = le32_from_bytes(buf.as_slice());
            proof {
                if ctz_chain_avoids(disk0, head, nblock, (i + 1) as nat) {
                    assert(oldhead == ctz_chain(disk0, head, i as nat));
                    assert(lfs.cfg.disk()[oldhead as int] == disk0[oldhead as int]);
                    assert(buf@ =~= view_range(disk0, None, oldhead as int, (4 * i) as int, 4));
                }
            }
        }
        i = i + 1;
    }
    Ok(true)
}

/// Marking more blocks of a window in use keeps it sound.
pub(crate) proof fn lemma_mark_keeps_sound(a: crate::lfs::LfsLookahead, b: crate::lfs::LfsLookahead, bc: u32, in_use: Seq<u32>)
    requires
        la_sound(a, bc, in_use),
        a.start == b.start,
        a.size == b.size,
        a.next == b.next,
        forall|k: int| 0 <= k < a.size ==> la_bit(a.buffer@, k) ==> #[trigger] la_bit(b.buffer@, k),
    ensures
        la_sound(b, bc, in_use),
{
    assert forall|k: int, j: int|
        #![trigger la_bit(b.buffer@, k), in_use[j]]
        b.next <= k < b.size && 0 <= j < in_use.len() && in_use[j] == crate::block_alloc::la_block(b, bc, k) implies la_bit(
            b.buffer@,
            k,
        ) by {
        assert(la_bit(a.buffer@, k));
    }
}

/// The data of a new block copies the first `n` bytes of `head`.
pub open spec fn ctz_copied(disk0: Seq<Seq<u8>>, disk: Seq<Seq<u8>>, pc: LfsCache, head: u32, b: u32, n: nat) -> bool {
    forall|k: int| 0 <= k < n ==> #[trigger] view_byte(disk, Some(pc), b as int, k) == disk0[head as int][k]
}

/// The first `k` pointers of the chain from `head` all name blocks of
/// `in_use`.
pub open spec fn ctz_chain_used(disk: Seq<Seq<u8>>, head: u32, in_use: Seq<u32>, k: nat) -> bool
    decreases k,
{
    k == 0 || (ctz_chain_used(disk, head, in_use, (k - 1) as nat) && in_use.contains(
        ctz_chain(disk, head, (k - 1) as nat),
    ))
}

/// The first `n` pointers of a new block follow the chain from `head`, as
/// far as the chain runs through the blocks of `in_use`.
pub open spec fn ctz_linked(
    disk0: Seq<Seq<u8>>,
    disk: Seq<Seq<u8>>,
    pc: LfsCache,
    head: u32,
    b: u32,
    in_use: Seq<u32>,
    n: nat,
) -> bool {
    forall|k: nat| k < n && ctz_chain_used(disk0, head, in_use, k) ==> #[trigger] block_word(disk, Some(pc), b, k)
        == ctz_chain(disk0, head, k)
}

/// Two devices that agree on the blocks of `in_use` give the same chain
/// while it runs through those blocks, and that chain avoids a block
/// outside them.
proof fn lemma_chain_used(d0: Seq<Seq<u8>>, d1: Seq<Seq<u8>>, head: u32, in_use: Seq<u32>, nb: u32, k: nat)
    requires
        used_blocks_kept(d0, d1, in_use),
        !in_use.contains(nb),
        ctz_chain_used(d0, head, in_use, k),
    ensures
        ctz_chain_avoids(d1, head, nb, k),
        ctz_chain(d1, head, k) == ctz_chain(d0, head, k),
    decreases k,
{
    if k > 0 {
        let k1 = (k - 1) as nat;
        lemma_chain_used(d0, d1, head, in_use, nb, k1);
        let c = ctz_chain(d0, head, k1);
        let j = choose|j: int| 0 <= j < in_use.len() && in_use[j] == c;
        assert(d1[in_use[j] as int] == d0[in_use[j] as int]);
        assert(view_range(d1, None, c as int, (4 * k1) as int, 4) =~= view_range(d0, None, c as int, (4 * k1) as int, 4));
    }
}

/// The blocks of `in_use` hold what they held.
pub open spec fn used_blocks_kept(disk0: Seq<Seq<u8>>, disk: Seq<Seq<u8>>, in_use: Seq<u32>) -> bool {
    forall|j: int| 0 <= j < in_use.len() ==> #[trigger] disk[in_use[j] as int] == disk0[in_use[j] as int]
}

/// Gives a file whose last block is `head` and whose size is `size` a
/// new block to write into, and sets `*block` and `*off` to it and to
/// the offset where writing goes on. A block that is not full is copied
/// into the new block up to `size`; after a full block the new block
/// starts with its skip-list pointers. The new block comes from the
/// allocator, which is refilled from `in_use`, the blocks that the
/// filesystem uses; a block that turns out bad is marked and another
/// one is taken.
pub fn lfs_ctz_extend<S: Storage>(
    lfs: &mut Lfs<S>,
    pcache: &mut LfsCache,
    rcache: &mut LfsCache,
    in_use: &[u32],
    head: u32,
    size: u32,
    block: &mut u32,
    off: &mut u32,
) -> (r: Result<(), Error>)
    requires
        ctz_caches_ready(*old(lfs), *old(pcache), *old(rcache)),
        old(pcache).block == crate::types::LFS_BLOCK_NULL,
        la_wf(old(lfs).lookahead, old(lfs).block_count),
        la_sound(old(lfs).lookahead, old(lfs).block_count, in_use@),
        blocks_valid(in_use@, old(lfs).block_count),
        size > 0 ==> in_use@.contains(head),
    ensures
        same_limits(*final(lfs), *old(lfs)),
        final(lfs).pcache == old(lfs).pcache,
        final(lfs).rcache == old(lfs).rcache,
        final(lfs).gdisk == old(lfs).gdisk,
        lfs_read_ready(*final(lfs)),
        same_params(final(lfs).cfg, old(lfs).cfg),
        final(lfs).block_count == old(lfs).block_count,
        la_wf(final(lfs).lookahead, final(lfs).block_count),
        la_sound(final(lfs).lookahead, final(lfs).block_count, in_use@),
        used_blocks_kept(old(lfs).cfg.disk(), final(lfs).cfg.disk(), in_use@),
        final(pcache).wf(old(lfs).cfg.cache_size),
        final(rcache).wf(old(lfs).cfg.cache_size),
        r is Ok ==> ctz_caches_ready(*final(lfs), *final(pcache), *final(rcache)),
        r is Ok ==> *final(block) < old(lfs).block_count && !in_use@.contains(*final(block)),
        r is Ok ==> la_handed_out(final(lfs).lookahead, final(lfs).block_count, *final(block)),
        r is Ok ==> prog_seq(*final(pcache), *final(block), *final(off) as int, old(lfs).cfg.cache_size,
            old(lfs).cfg.prog_size),
        r is Ok && size == 0 ==> *final(off) == 0,
        r is Ok && size > 0 ==> exists|ci: nat, co: int|
            #![trigger ctz_in_block(old(lfs).cfg.block_size, size - 1, ci, co)]
            ctz_in_block(old(lfs).cfg.block_size, size - 1, ci, co) && (co + 1 < old(lfs).cfg.block_size ==> *final(off)
                == co + 1 && ctz_copied(old(lfs).cfg.disk(), final(lfs).cfg.disk(), *final(pcache), head, *final(block),
                (co + 1) as nat)) && (co + 1 == old(lfs).cfg.block_size ==> *final(off) == 4 * ctz_skips(ci + 1)
                && ctz_linked(old(lfs).cfg.disk(), final(lfs).cfg.disk(), *final(pcache), head, *final(block), in_use@,
                ctz_skips(ci + 1))),
        old(lfs).lookahead.ckpoint == 0 ==> r == Err::<(), Error>(Error::NoSpace),
        r matches Err(e) ==> e == Error::NoSpace || crate::storage::device_error(e),
        r == Err::<(), Error>(Error::NoSpace) ==> final(lfs).lookahead.ckpoint == 0,
{
    let ghost disk0 = lfs.cfg.disk();
    let bc = lfs.block_count;
    loop
        invariant
            same_limits(*lfs, *old(lfs)),
            ctz_caches_ready(*lfs, *pcache, *rcache),
            pcache.block == crate::types::LFS_BLOCK_NULL,
            same_params(lfs.cfg, old(lfs).cfg),
            bc == lfs.block_count,
            bc == old(lfs).block_count,
            lfs.pcache == old(lfs).pcache,
            lfs.rcache == old(lfs).rcache,
            lfs.gdisk == old(lfs).gdisk,
            disk0 == old(lfs).cfg.disk(),
            la_wf(lfs.lookahead, bc),
            la_sound(lfs.lookahead, bc, in_use@),
            blocks_valid(in_use@, bc),
            size > 0 ==> in_use@.contains(head),
            used_blocks_kept(disk0, lfs.cfg.disk(), in_use@),
            lfs.lookahead.ckpoint <= old(lfs).lookahead.ckpoint,
        decreases lfs.lookahead.ckpoint,
    {
        let res = lfs_alloc(lfs, in_use);
        let nblock = match res {
            Err(e) => {
                return Err(e);
            },
            Ok(b) => b,
        };
        let ghost d0 = lfs.cfg.disk();
        let res = lfs_bd_erase(&mut lfs.cfg, bc, nblock);
        proof {
            assert forall|j: int| 0 <= j < in_use@.len() implies #[trigger] lfs.cfg.disk()[in_use@[j] as int]
                == disk0[in_use@[j] as int] by {
                assert(d0[in_use@[j] as int] == disk0[in_use@[j] as int]);
            }
            assert forall|b: int| 0 <= b < lfs.cfg.block_count && b != nblock implies #[trigger] lfs.cfg.disk()[b]
                == d0[b] by {
            }
        }
        let mut relocate = false;
        match res {
            Err(e) => {
                if e == Error::Corrupt {
                    relocate = true;
                } else {
                    return Err(e);
                }
            },
            Ok(()) => {},
        }
        if !relocate {
            if rcache.block == nblock {
                // The read cache may still hold what the block held before
                // it was erased.
                lfs_cache_drop(rcache);
            }
            if size == 0 {
                *block = nblock;
                *off = 0;
                return Ok(());
            }
            let mut noff = size - 1;
            let index = lfs_ctz_index(lfs, &mut noff);
            noff = noff + 1;
            let ghost d1 = lfs.cfg.disk();
            proof {
                if !in_use@.contains(head) {
                    assert(false);
                }
            }
            if noff != lfs.cfg.block_size {
                let res = ctz_copy_data(lfs, pcache, rcache, head, nblock, noff);
                proof {
                    assert forall|j: int| 0 <= j < in_use@.len() implies #[trigger] lfs.cfg.disk()[in_use@[j] as int]
                        == disk0[in_use@[j] as int] by {
                        assert(d1[in_use@[j] as int] == disk0[in_use@[j] as int]);
                    }
                }
                match res {
                    Err(e) => {
                        return Err(e);
                    },
                    Ok(done) => {
                        if done {
                            *block = nblock;
                            *off = noff;
                            return Ok(());
                        }
                    },
                }
            } else {
                let skips = lfs_ctz((index + 1) as u32) + 1;
                proof {
                    vstd::arithmetic::power2::lemma2_to64();
                    lemma_popc_ctz_bound((index + 1) as nat, 27);
                    assert(skips == ctz_skips((index + 1) as nat));
                }
                let res = ctz_write_skips(lfs, pcache, rcache, head, nblock, skips);
                proof {
                    assert forall|j: int| 0 <= j < in_use@.len() implies #[trigger] lfs.cfg.disk()[in_use@[j] as int]
                        == disk0[in_use@[j] as int] by {
                        assert(d1[in_use@[j] as int] == disk0[in_use@[j] as int]);
                    }
                }
                match res {
                    Err(e) => {
                        return Err(e);
                    },
                    Ok(done) => {
                        if done {
                            *block = nblock;
                            *off = 4 * skips;
                            proof {
                                assert(ctz_in_block(old(lfs).cfg.block_size, size - 1, index as nat, (noff - 1) as int));
                                assert forall|k: nat| k < skips && ctz_chain_used(disk0, head, in_use@, k) implies #[trigger] block_word(
                                    lfs.cfg.disk(), Some(*pcache), nblock, k) == ctz_chain(disk0, head, k) by {
                                    lemma_chain_used(disk0, d1, head, in_use@, nblock, k);
                                }
                            }
                            return Ok(());
                        }
                    },
                }
            }
        }
        let ghost la1 = lfs.lookahead;
        let _ = lfs_alloc_lookahead(lfs, nblock);
        proof {
            lemma_mark_keeps_sound(la1, lfs.lookahead, bc, in_use@);
        }
        lfs_cache_drop(pcache);
        // A program that failed may have left the read cache holding the
        // bad block.
        lfs_cache_drop(rcache);
    }
}

/// The block of a file that holds position `p`, counted from its first
/// block, and the offset in it.
pub open spec fn ctz_index_of(block_size: u32, p: int) -> (nat, int) {
    let i = choose|i: nat| #[trigger] ctz_holds(block_size, p, i);
    (i, p - ctz_pos(block_size, i))
}

/// Block `i` of a file holds position `p`.
pub open spec fn ctz_holds(block_size: u32, p: int, i: nat) -> bool {
    i < 0x0400_0000 && 4 * ctz_skips(i) <= p - ctz_pos(block_size, i) < block_size
}

/// The block and offset that hold position `p` of a file whose last
/// block is `head` and whose size is `size`, found by walking the
/// skip-list on the device.
pub open spec fn ctz_locate(disk: Seq<Seq<u8>>, block_size: u32, head: u32, size: u32, p: int) -> (u32, int) {
    let (ci, _co) = ctz_index_of(block_size, size - 1);
    let (ti, to) = ctz_index_of(block_size, p);
    (ctz_walk(disk, None, head, ci, ti), to)
}

/// Byte `p` of a file stored as a CTZ skip-list.
pub open spec fn ctz_file_byte(disk: Seq<Seq<u8>>, block_size: u32, head: u32, size: u32, p: int) -> u8 {
    let (b, o) = ctz_locate(disk, block_size, head, size, p);
    disk[b as int][o]
}

/// The index that holds a position is the one the search names.
pub proof fn lemma_ctz_index_of(block_size: u32, p: int, i: nat, o: int)
    requires
        block_size >= 128,
        i < 0x0400_0000,
        ctz_in_block(block_size, p, i, o),
    ensures
        ctz_index_of(block_size, p) == (i, o),
{
    assert(ctz_holds(block_size, p, i));
    let j = choose|j: nat| #[trigger] ctz_holds(block_size, p, j);
    lemma_ctz_in_block_unique(block_size, p, i, o, j, p - ctz_pos(block_size, j));
}

/// Every position a file can have lies in the data of some block.
pub proof fn lemma_ctz_index_total(block_size: u32, p: u32)
    requires
        block_size >= 128,
    ensures
        ctz_index_of(block_size, p as int).0 < 0x0400_0000,
        ctz_in_block(block_size, p as int, ctz_index_of(block_size, p as int).0, ctz_index_of(block_size, p as int).1),
{
    let b = (block_size - 8) as int;
    let q = (p as int / b) as nat;
    vstd::arithmetic::div_mod::lemma_fundamental_div_mod(p as int, b);
    vstd::arithmetic::div_mod::lemma_mod_bound(p as int, b);
    if q == 0 {
        assert(ctz_pos(block_size, 0) == 0) by (nonlinear_arith);
        assert(p < b) by (nonlinear_arith)
            requires p as int == b * (p as int / b) + (p as int) % b, p as int / b == 0, (p as int) % b < b;
        lemma_ctz_index_of(block_size, p as int, 0, p as int);
    } else {
        lemma2_to64();
        assert(q < 0x0400_0000 && p >= b) by (nonlinear_arith)
            requires p as int == b * q + (p as int) % b, 0 <= (p as int) % b, b >= 120, q >= 1, p <= 0xffff_ffff;
        lemma_popc_ctz_bound((q - 1) as nat, 26);
        let c = popc_nat((q - 1) as nat);
        let i = ((p - 4 * (c + 2)) / b) as nat;
        lemma_ctz_index_math(block_size, p, q, c, i);
        lemma_ctz_index_of(block_size, p as int, i, p - (i * (block_size - 8) + 4 * popc_nat(i)));
    }
}

/// Moving forward within a block keeps to that block.
pub proof fn lemma_ctz_in_block_shift(block_size: u32, p: int, i: nat, o: int, d: int)
    requires
        ctz_in_block(block_size, p, i, o),
        0 <= d,
        o + d < block_size,
    ensures
        ctz_in_block(block_size, p + d, i, o + d),
{
}

} // verus!
