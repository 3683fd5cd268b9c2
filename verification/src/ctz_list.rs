//! Well-formed skip-lists: a file's blocks as a sequence, with the
//! pointers of each block naming the blocks they should. Walks over such a
//! list reach the block they aim for, which ties a file's bytes to the
//! sequence of its blocks.

use vstd::prelude::*;
use vstd::arithmetic::power2::{pow2, lemma_pow2_unfold, lemma_pow2_pos, lemma_pow2_strictly_increases};
use crate::bd::{LfsCache, view_byte, view_range};
use crate::ctz::{ctz_skips, ctz_pos, ctz_in_block, ctz_jump, ctz_walk, ctz_chain, block_word, ctz_index_of,
    ctz_file_byte, ctz_locate, log2_floor, lemma_ctz_index_of, lemma_ctz_pos_grows};
use crate::util::ctz_nat;

verus! {

/// Pointer `k` of block `j` names block `j - 2^k`, for every block of the
/// list after the first and every pointer it holds.
pub open spec fn ctz_list_wf(disk: Seq<Seq<u8>>, pc: Option<LfsCache>, blocks: Seq<u32>) -> bool {
    forall|j: int, k: nat|
        0 < j < blocks.len() && k < ctz_skips(j as nat) ==> #[trigger] block_word(disk, pc, blocks[j], k)
            == blocks[j - pow2(k)]
}

/// Byte `p` of the file whose blocks are `blocks`, read as `pc` and the
/// device show it.
pub open spec fn list_byte(disk: Seq<Seq<u8>>, pc: Option<LfsCache>, block_size: u32, blocks: Seq<u32>, p: int) -> u8 {
    let (ti, to) = ctz_index_of(block_size, p);
    view_byte(disk, pc, blocks[ti as int] as int, to)
}

proof fn lemma_pow2_log2(d: nat)
    requires
        d >= 1,
    ensures
        pow2(log2_floor(d)) <= d,
    decreases d,
{
    if d < 2 {
        vstd::arithmetic::power2::lemma2_to64();
    } else {
        lemma_pow2_log2(d / 2);
        lemma_pow2_unfold(log2_floor(d));
    }
}

pub(crate) proof fn lemma_pow2_ctz(m: nat)
    requires
        m >= 1,
    ensures
        pow2(ctz_nat(m)) <= m,
    decreases m,
{
    if m % 2 == 1 {
        vstd::arithmetic::power2::lemma2_to64();
    } else {
        lemma_pow2_ctz(m / 2);
        lemma_pow2_unfold(ctz_nat(m));
    }
}

/// Taking `2^j` off a number with more than `j` trailing zero bits leaves
/// exactly `j` of them.
proof fn lemma_ctz_sub_pow2(m: nat, j: nat)
    requires
        m >= 1,
        j < ctz_nat(m),
    ensures
        m > pow2(j),
        ctz_nat((m - pow2(j)) as nat) == j,
    decreases j,
{
    lemma_pow2_ctz(m);
    lemma_pow2_strictly_increases(j, ctz_nat(m));
    if j == 0 {
        vstd::arithmetic::power2::lemma2_to64();
    } else {
        let q = m / 2;
        lemma_ctz_sub_pow2(q, (j - 1) as nat);
        lemma_pow2_unfold(j);
        let r = (q - pow2((j - 1) as nat)) as nat;
        assert(m - pow2(j) == 2 * r);
        assert((2 * r) / 2 == r && (2 * r) % 2 == 0);
    }
}

/// A walk over a well-formed list from block `cur` toward block `t`
/// arrives at block `t`.
pub proof fn lemma_walk_wf(disk: Seq<Seq<u8>>, pc: Option<LfsCache>, blocks: Seq<u32>, cur: nat, t: nat)
    requires
        ctz_list_wf(disk, pc, blocks),
        t <= cur < blocks.len(),
    ensures
        ctz_walk(disk, pc, blocks[cur as int], cur, t) == blocks[t as int],
    decreases cur,
{
    if cur > t {
        let k = ctz_jump(cur, t);
        lemma_pow2_log2((cur - t) as nat);
        if k < log2_floor((cur - t) as nat) {
            lemma_pow2_strictly_increases(k, log2_floor((cur - t) as nat));
        }
        lemma_pow2_pos(k);
        assert(block_word(disk, pc, blocks[cur as int], k) == blocks[cur - pow2(k)]);
        lemma_walk_wf(disk, pc, blocks, (cur - pow2(k)) as nat, t);
    }
}

/// In a well-formed list, the chain of pointers from block `i` names the
/// blocks that the pointers of a block `i + 1` must name.
pub proof fn lemma_chain_wf(disk: Seq<Seq<u8>>, blocks: Seq<u32>, i: nat, k: nat)
    requires
        ctz_list_wf(disk, None, blocks),
        i < blocks.len(),
        k < ctz_skips(i + 1),
    ensures
        i + 1 >= pow2(k),
        ctz_chain(disk, blocks[i as int], k) == blocks[i + 1 - pow2(k)],
    decreases k,
{
    lemma_pow2_ctz(i + 1);
    if k < ctz_nat(i + 1) {
        lemma_pow2_strictly_increases(k, ctz_nat(i + 1));
    }
    if k == 0 {
        vstd::arithmetic::power2::lemma2_to64();
    } else {
        let k1 = (k - 1) as nat;
        lemma_chain_wf(disk, blocks, i, k1);
        lemma_ctz_sub_pow2(i + 1, k1);
        lemma_pow2_unfold(k);
        let j = (i + 1 - pow2(k1)) as int;
        assert(0 < j < blocks.len());
        assert(k1 < ctz_skips(j as nat));
        assert(block_word(disk, None, blocks[j], k1) == blocks[j - pow2(k1)]);
    }
}

/// A file position before the last one of a file lies in a block no later
/// than the last position's.
pub proof fn lemma_index_le(block_size: u32, p: int, size: int)
    requires
        block_size >= 128,
        0 <= p < size <= 0xffff_ffff,
    ensures
        ctz_index_of(block_size, p).0 <= ctz_index_of(block_size, size - 1).0,
{
    crate::ctz::lemma_ctz_index_total(block_size, p as u32);
    crate::ctz::lemma_ctz_index_total(block_size, (size - 1) as u32);
    let (ti, to) = ctz_index_of(block_size, p);
    let (ci, co) = ctz_index_of(block_size, size - 1);
    if ti > ci {
        lemma_ctz_pos_grows(block_size, ci, ti);
    }
}

/// A later file position lies in the same block as an earlier one or in
/// a later block.
pub proof fn lemma_index_mono(block_size: u32, p: int, q: int)
    requires
        block_size >= 128,
        0 <= p <= q <= 0xffff_ffff,
    ensures
        ctz_index_of(block_size, p).0 <= ctz_index_of(block_size, q).0,
{
    crate::ctz::lemma_ctz_index_total(block_size, p as u32);
    crate::ctz::lemma_ctz_index_total(block_size, q as u32);
    let (ti, to) = ctz_index_of(block_size, p);
    let (ci, co) = ctz_index_of(block_size, q);
    if ti > ci {
        lemma_ctz_pos_grows(block_size, ci, ti);
    }
}

/// A file stored as a well-formed list on the device holds, at each
/// position, the byte that the list holds there.
pub proof fn lemma_file_byte_list(disk: Seq<Seq<u8>>, block_size: u32, blocks: Seq<u32>, size: u32, p: int)
    requires
        block_size >= 128,
        ctz_list_wf(disk, None, blocks),
        0 <= p < size,
        blocks.len() == ctz_index_of(block_size, size - 1).0 + 1,
    ensures
        ctz_file_byte(disk, block_size, blocks.last(), size, p) == list_byte(disk, None, block_size, blocks, p),
{
    lemma_index_le(block_size, p, size as int);
    let (ci, co) = ctz_index_of(block_size, size - 1);
    let (ti, to) = ctz_index_of(block_size, p);
    lemma_walk_wf(disk, None, blocks, ci, ti);
}

} // verus!
