//! The block allocator: a lookahead bitmap over a window of blocks,
//! refilled from the set of blocks in use, with a checkpoint that bounds how
//! many blocks may be looked at before the device counts as full.

use vstd::prelude::*;
use crate::error::Error;
use crate::lfs::{Lfs, LfsLookahead};
use crate::storage::Storage;
use crate::util::lfs_min;

verus! {

/// Whether bit `k` of the bitmap is set.
pub open spec fn la_bit(buf: Seq<u8>, k: int) -> bool {
    (buf[k / 8] >> ((k % 8) as u8)) & 1u8 == 1u8
}

/// The block that window position `k` stands for.
pub open spec fn la_block(la: LfsLookahead, block_count: u32, k: int) -> int {
    (la.start + k) % (block_count as int)
}

/// The window is consistent: positions, counters and buffer fit together.
pub open spec fn la_wf(la: LfsLookahead, block_count: u32) -> bool {
    &&& la.buffer@.len() > 0
    &&& la.buffer@.len() * 8 <= u32::MAX
    &&& 0 < block_count <= 0x8000_0000
    &&& la.start < block_count
    &&& la.next <= la.size
    &&& la.size <= la.buffer@.len() * 8
    &&& la.size <= block_count
    &&& la.size - la.next <= la.ckpoint
    &&& la.ckpoint <= block_count
}

/// Every block in use that falls in the part of the window not yet handed
/// out is marked.
pub open spec fn la_sound(la: LfsLookahead, block_count: u32, in_use: Seq<u32>) -> bool {
    forall|k: int, j: int|
        #![trigger la_bit(la.buffer@, k), in_use[j]]
        la.next <= k < la.size && 0 <= j < in_use.len() && in_use[j] == la_block(la, block_count, k) ==> la_bit(la.buffer@, k)
}

/// A window position stands for its block modulo the device size: two
/// positions of one window stand for different blocks.
proof fn lemma_la_block_distinct(la: LfsLookahead, bc: u32, k: int, k2: int)
    requires
        la_wf(la, bc),
        0 <= k < k2 < la.size,
    ensures
        la_block(la, bc, k) != la_block(la, bc, k2),
{
    let m = bc as int;
    let x = la.start + k;
    let y = la.start + k2;
    if x < m {
        vstd::arithmetic::div_mod::lemma_small_mod(x as nat, m as nat);
    } else {
        vstd::arithmetic::div_mod::lemma_fundamental_div_mod_converse(x, m, 1, x - m);
    }
    if y < m {
        vstd::arithmetic::div_mod::lemma_small_mod(y as nat, m as nat);
    } else {
        vstd::arithmetic::div_mod::lemma_fundamental_div_mod_converse(y, m, 1, y - m);
    }
}

/// Block `b` stands for a position of the window that the allocator has
/// already passed.
pub open spec fn la_handed_out(la: LfsLookahead, bc: u32, b: u32) -> bool {
    exists|k: int| 0 <= k < la.next && la_block(la, bc, k) == b
}

/// A block that the allocator has handed out stands behind `next` in the
/// window, so counting it in use keeps the window sound.
pub proof fn lemma_sound_push(la: LfsLookahead, bc: u32, in_use: Seq<u32>, b: u32)
    requires
        la_wf(la, bc),
        la_sound(la, bc, in_use),
        la_handed_out(la, bc, b),
    ensures
        la_sound(la, bc, in_use.push(b)),
{
    let k = choose|k: int| 0 <= k < la.next && la_block(la, bc, k) == b;
    let s = in_use.push(b);
    assert forall|k2: int, j: int|
        #![trigger la_bit(la.buffer@, k2), s[j]]
        la.next <= k2 < la.size && 0 <= j < s.len() && s[j] == la_block(la, bc, k2) implies la_bit(la.buffer@, k2) by {
        if j == in_use.len() {
            lemma_la_block_distinct(la, bc, k, k2);
        } else {
            assert(in_use[j] == s[j]);
        }
    }
}

/// Every block of `in_use` lies on the device.
pub open spec fn blocks_valid(in_use: Seq<u32>, block_count: u32) -> bool {
    forall|j: int| 0 <= j < in_use.len() ==> #[trigger] in_use[j] < block_count
}

/// The parts of the filesystem that the allocator leaves alone.
pub open spec fn same_but_lookahead<S>(a: Lfs<S>, b: Lfs<S>) -> bool {
    &&& a.cfg == b.cfg
    &&& a.rcache == b.rcache
    &&& a.pcache == b.pcache
    &&& a.root == b.root
    &&& a.mlist == b.mlist
    &&& a.seed == b.seed
    &&& a.gstate == b.gstate
    &&& a.gdisk == b.gdisk
    &&& a.gdelta == b.gdelta
    &&& a.block_count == b.block_count
    &&& a.name_max == b.name_max
    &&& a.file_max == b.file_max
    &&& a.attr_max == b.attr_max
    &&& a.inline_max == b.inline_max
}

/// Whether a clear bit lies at or after position `from` in the window.
pub open spec fn la_has_free(la: LfsLookahead, from: int) -> bool {
    exists|k: int| from <= k < la.size && !la_bit(la.buffer@, k)
}

proof fn lemma_bit_set(x: u8, s: u8, t: u8)
    requires
        s < 8,
        t < 8,
    ensures
        ((x | (1u8 << s)) >> t) & 1u8 == (if t == s { 1u8 } else { (x >> t) & 1u8 }),
{
    assert(((x | (1u8 << s)) >> t) & 1u8 == (if t == s { 1u8 } else { (x >> t) & 1u8 })) by (bit_vector)
        requires s < 8u8, t < 8u8;
}

proof fn lemma_bit_test(x: u8, s: u8)
    requires
        s < 8,
    ensures
        (x & (1u8 << s) == 0u8) <==> ((x >> s) & 1u8 != 1u8),
{
    assert((x & (1u8 << s) == 0u8) <==> ((x >> s) & 1u8 != 1u8)) by (bit_vector)
        requires s < 8u8;
}

proof fn lemma_zero_bits(k: int)
    requires
        0 <= k,
    ensures
        (0u8 >> ((k % 8) as u8)) & 1u8 != 1u8,
{
    let s = (k % 8) as u8;
    assert((0u8 >> s) & 1u8 != 1u8) by (bit_vector);
}

/// Whether bit `k` of the bitmap is clear.
fn la_bit_clear(buf: &Vec<u8>, k: u32) -> (r: bool)
    requires
        k / 8 < buf@.len(),
    ensures
        r <==> !la_bit(buf@, k as int),
{
    let byte = buf[(k / 8) as usize];
    let s = (k % 8) as u8;
    proof {
        lemma_bit_test(byte, s);
    }
    byte & (1u8 << s) == 0
}

/// Marks the blocks that a checkpoint makes available: all of them.
pub fn lfs_alloc_ckpoint<S: Storage>(lfs: &mut Lfs<S>)
    ensures
        final(lfs).lookahead.ckpoint == old(lfs).block_count,
        final(lfs).lookahead.start == old(lfs).lookahead.start,
        final(lfs).lookahead.size == old(lfs).lookahead.size,
        final(lfs).lookahead.next == old(lfs).lookahead.next,
        final(lfs).lookahead.buffer@ == old(lfs).lookahead.buffer@,
        final(lfs).block_count == old(lfs).block_count,
        same_but_lookahead(*final(lfs), *old(lfs)),
{
    lfs.lookahead.ckpoint = lfs.block_count;
}

/// Empties the lookahead window and takes a checkpoint.
pub fn lfs_alloc_drop<S: Storage>(lfs: &mut Lfs<S>)
    ensures
        final(lfs).lookahead.size == 0,
        final(lfs).lookahead.next == 0,
        final(lfs).lookahead.ckpoint == old(lfs).block_count,
        final(lfs).lookahead.start == old(lfs).lookahead.start,
        final(lfs).lookahead.buffer@ == old(lfs).lookahead.buffer@,
        final(lfs).block_count == old(lfs).block_count,
        same_but_lookahead(*final(lfs), *old(lfs)),
{
    lfs.lookahead.size = 0;
    lfs.lookahead.next = 0;
    lfs_alloc_ckpoint(lfs);
}

/// Marks `block` as in use when it falls inside the lookahead window.
pub fn lfs_alloc_lookahead<S: Storage>(lfs: &mut Lfs<S>, block: u32) -> (r: Result<(), Error>)
    requires
        0 < old(lfs).block_count <= 0x8000_0000,
        old(lfs).lookahead.start < old(lfs).block_count,
        block < old(lfs).block_count,
        old(lfs).lookahead.size <= old(lfs).lookahead.buffer@.len() * 8,
        old(lfs).lookahead.size <= old(lfs).block_count,
    ensures
        r is Ok,
        same_but_lookahead(*final(lfs), *old(lfs)),
        final(lfs).lookahead.start == old(lfs).lookahead.start,
        final(lfs).lookahead.size == old(lfs).lookahead.size,
        final(lfs).lookahead.next == old(lfs).lookahead.next,
        final(lfs).lookahead.ckpoint == old(lfs).lookahead.ckpoint,
        final(lfs).lookahead.buffer@.len() == old(lfs).lookahead.buffer@.len(),
        forall|k: int|
            0 <= k < old(lfs).lookahead.size ==> (#[trigger] la_bit(final(lfs).lookahead.buffer@, k) <==> (la_bit(
                old(lfs).lookahead.buffer@,
                k,
            ) || la_block(old(lfs).lookahead, old(lfs).block_count, k) == block)),
{
    let block_count = lfs.block_count;
    let la = &mut lfs.lookahead;
    let off = (block.wrapping_sub(la.start)).wrapping_add(block_count) % block_count;
    proof {
        lemma_window_offset(la.start, block, block_count, off);
    }
    if off < la.size {
        let idx = (off / 8) as usize;
        let s = (off % 8) as u8;
        let byte = la.buffer[idx];
        la.buffer.set(idx, byte | (1u8 << s));
        proof {
            assert forall|k: int| 0 <= k < old(lfs).lookahead.size implies (#[trigger] la_bit(la.buffer@, k) <==> (la_bit(old(lfs).lookahead.buffer@, k)
                || la_block(old(lfs).lookahead, block_count, k) == block)) by {
                lemma_window_block_unique(la.start, block_count, k, off as int, block);
                if k / 8 == off / 8 {
                    lemma_bit_set(byte, s, (k % 8) as u8);
                }
            }
        }
    } else {
        proof {
            assert forall|k: int| 0 <= k < old(lfs).lookahead.size implies (#[trigger] la_bit(la.buffer@, k) <==> (la_bit(old(lfs).lookahead.buffer@, k)
                || la_block(old(lfs).lookahead, block_count, k) == block)) by {
                lemma_window_block_unique(la.start, block_count, k, off as int, block);
            }
        }
    }
    Ok(())
}

/// A number below twice `m`, taken modulo `m`.
proof fn lemma_mod_below_twice(x: int, m: int)
    requires
        0 < m,
        0 <= x < 2 * m,
    ensures
        x % m == (if x < m { x } else { x - m }),
{
    if x < m {
        vstd::arithmetic::div_mod::lemma_small_mod(x as nat, m as nat);
    } else {
        vstd::arithmetic::div_mod::lemma_mod_sub_multiples_vanish(x, m);
        vstd::arithmetic::div_mod::lemma_small_mod((x - m) as nat, m as nat);
    }
}

/// The window offset of a block, computed with wrapping arithmetic, is
/// its distance from the window start modulo the block count.
proof fn lemma_window_offset(start: u32, block: u32, bc: u32, off: u32)
    requires
        0 < bc <= 0x8000_0000,
        start < bc,
        block < bc,
        off == (block.wrapping_sub(start)).wrapping_add(bc) % bc,
    ensures
        off == (block - start + bc) % (bc as int),
        off < bc,
        (start + off) % (bc as int) == block,
{
    let w = block.wrapping_sub(start);
    if block >= start {
        assert(w == block - start);
        assert(w.wrapping_add(bc) == block - start + bc);
    } else {
        assert(w == block - start + 0x1_0000_0000);
        assert(w.wrapping_add(bc) == block - start + bc);
    }
    let d = block - start + bc;
    lemma_mod_below_twice(d, bc as int);
    let o = d % (bc as int);
    lemma_mod_below_twice(start + o, bc as int);
}

/// Within a window no longer than the device, positions stand for
/// distinct blocks: the block `block`, at offset `off` from the start,
/// sits at no other position.
proof fn lemma_window_block_unique(start: u32, bc: u32, k: int, off: int, block: u32)
    requires
        0 < bc,
        start < bc,
        block < bc,
        0 <= off < bc,
        (start + off) % (bc as int) == block,
        0 <= k,
    ensures
        k < bc ==> ((start + k) % (bc as int) == block <==> k == off),
{
    if k < bc {
        lemma_mod_below_twice(start + k, bc as int);
        lemma_mod_below_twice(start + off, bc as int);
    }
}


/// Moves the lookahead window to the first position not yet looked at,
/// sizes it by the buffer and the checkpoint, and marks in it every block
/// of `in_use` (the blocks that a traversal of the filesystem finds).
pub fn lfs_alloc_scan<S: Storage>(lfs: &mut Lfs<S>, in_use: &[u32]) -> (r: Result<(), Error>)
    requires
        la_wf(old(lfs).lookahead, old(lfs).block_count),
        blocks_valid(in_use@, old(lfs).block_count),
    ensures
        r is Ok,
        same_but_lookahead(*final(lfs), *old(lfs)),
        la_wf(final(lfs).lookahead, final(lfs).block_count),
        final(lfs).lookahead.start == (old(lfs).lookahead.start + old(lfs).lookahead.next) % (old(lfs).block_count as int),
        final(lfs).lookahead.next == 0,
        final(lfs).lookahead.size == (if 8 * old(lfs).lookahead.buffer@.len() < old(lfs).lookahead.ckpoint {
            (8 * old(lfs).lookahead.buffer@.len()) as int
        } else {
            old(lfs).lookahead.ckpoint as int
        }),
        final(lfs).lookahead.ckpoint == old(lfs).lookahead.ckpoint,
        final(lfs).lookahead.buffer@.len() == old(lfs).lookahead.buffer@.len(),
        la_sound(final(lfs).lookahead, final(lfs).block_count, in_use@),
        forall|k: int| 0 <= k < final(lfs).lookahead.size ==> (#[trigger] la_bit(final(lfs).lookahead.buffer@, k) <==> exists|j: int|
            0 <= j < in_use@.len() && in_use@[j] == la_block(final(lfs).lookahead, final(lfs).block_count, k)),
{
    let bc = lfs.block_count;
    let ghost la_len = lfs.lookahead.buffer@.len();
    lfs.lookahead.start = (lfs.lookahead.start + lfs.lookahead.next) % bc;
    lfs.lookahead.next = 0;
    let cap = buffer_bits(&lfs.lookahead.buffer);
    lfs.lookahead.size = lfs_min(cap, lfs.lookahead.ckpoint);
    let n = lfs.lookahead.buffer.len();
    let mut i: usize = 0;
    while i < n
        invariant
            i <= n,
            n == la_len,
            lfs.lookahead.buffer@.len() == n,
            forall|k: int| 0 <= k < i ==> #[trigger] lfs.lookahead.buffer@[k] == 0u8,
            same_but_lookahead(*lfs, *old(lfs)),
            lfs.lookahead.start == (old(lfs).lookahead.start + old(lfs).lookahead.next) % (bc as int),
            lfs.lookahead.next == 0,
            lfs.lookahead.size == lfs_min_spec(cap, old(lfs).lookahead.ckpoint),
            cap == 8 * la_len,
            lfs.lookahead.ckpoint == old(lfs).lookahead.ckpoint,
            bc == lfs.block_count,
        decreases n - i,
    {
        lfs.lookahead.buffer.set(i, 0);
        i = i + 1;
    }
    let ghost zero_buf = lfs.lookahead.buffer@;
    proof {
        assert forall|k: int| 0 <= k < lfs.lookahead.size implies !#[trigger] la_bit(lfs.lookahead.buffer@, k) by {
            assert(lfs.lookahead.buffer@[k / 8] == 0u8);
            lemma_zero_bits(k);
        }
        vstd::arithmetic::div_mod::lemma_mod_bound(old(lfs).lookahead.start + old(lfs).lookahead.next, bc as int);
    }
    let m = in_use.len();
    let mut j: usize = 0;
    while j < m
        invariant
            j <= m,
            m == in_use@.len(),
            blocks_valid(in_use@, bc),
            lfs.lookahead.buffer@.len() == la_len,
            same_but_lookahead(*lfs, *old(lfs)),
            lfs.lookahead.start == (old(lfs).lookahead.start + old(lfs).lookahead.next) % (bc as int),
            lfs.lookahead.start < bc,
            0 < bc <= 0x8000_0000,
            lfs.lookahead.next == 0,
            lfs.lookahead.size == lfs_min_spec(cap, old(lfs).lookahead.ckpoint),
            lfs.lookahead.size <= la_len * 8,
            lfs.lookahead.size <= bc,
            lfs.lookahead.ckpoint == old(lfs).lookahead.ckpoint,
            bc == lfs.block_count,
            forall|k: int| 0 <= k < lfs.lookahead.size ==> (#[trigger] la_bit(lfs.lookahead.buffer@, k) <==> exists|jj: int|
                0 <= jj < j && in_use@[jj] == la_block(lfs.lookahead, bc, k)),
        decreases m - j,
    {
        let ghost before = lfs.lookahead;
        let res = lfs_alloc_lookahead(lfs, in_use[j]);
        proof {
            assert forall|k: int| 0 <= k < lfs.lookahead.size implies (#[trigger] la_bit(lfs.lookahead.buffer@, k) <==> exists|jj: int|
                0 <= jj < j + 1 && in_use@[jj] == la_block(lfs.lookahead, bc, k)) by {
                if la_bit(lfs.lookahead.buffer@, k) {
                    if la_bit(before.buffer@, k) {
                        let w = choose|jj: int| 0 <= jj < j && in_use@[jj] == la_block(before, bc, k);
                        assert(0 <= w < j + 1 && in_use@[w] == la_block(lfs.lookahead, bc, k));
                    } else {
                        assert(in_use@[j as int] == la_block(lfs.lookahead, bc, k));
                    }
                }
            }
        }
        j = j + 1;
    }
    proof {
        assert forall|k: int, jj: int|
            #![trigger la_bit(lfs.lookahead.buffer@, k), in_use@[jj]]
            0 <= k < lfs.lookahead.size && 0 <= jj < in_use@.len() && in_use@[jj] == la_block(lfs.lookahead, bc, k)
            implies la_bit(lfs.lookahead.buffer@, k) by {
        }
    }
    Ok(())
}

/// The smaller of two words.
pub open spec fn lfs_min_spec(a: u32, b: u32) -> u32 {
    if a < b { a } else { b }
}

/// The number of bits of the lookahead buffer.
fn buffer_bits(buf: &Vec<u8>) -> (n: u32)
    requires
        buf@.len() * 8 <= u32::MAX,
    ensures
        n == buf@.len() * 8,
{
    (buf.len() as u32) * 8
}

/// A position whose bit is clear in a sound window stands for a block
/// that is not in use.
proof fn lemma_clear_bit_free(la: LfsLookahead, bc: u32, in_use: Seq<u32>, k: int)
    requires
        la_sound(la, bc, in_use),
        la.next <= k < la.size,
        !la_bit(la.buffer@, k),
    ensures
        forall|j: int| 0 <= j < in_use.len() ==> in_use[j] != la_block(la, bc, k),
{
    assert forall|j: int| 0 <= j < in_use.len() implies in_use[j] != la_block(la, bc, k) by {
        if in_use[j] == la_block(la, bc, k) {
            assert(la_bit(la.buffer@, k));
        }
    }
}

/// Moves `next` on past the block just found and past the positions in use
/// after it, so that a checkpoint taken now makes as many blocks available
/// for scanning as it can.
fn lfs_alloc_skip_used<S: Storage>(lfs: &mut Lfs<S>, Ghost(la_len): Ghost<nat>)
    requires
        la_wf(old(lfs).lookahead, old(lfs).block_count),
        la_len == old(lfs).lookahead.buffer@.len(),
        old(lfs).lookahead.next < old(lfs).lookahead.size,
    ensures
        same_but_lookahead(*final(lfs), *old(lfs)),
        la_wf(final(lfs).lookahead, final(lfs).block_count),
        final(lfs).lookahead.start == old(lfs).lookahead.start,
        final(lfs).lookahead.size == old(lfs).lookahead.size,
        final(lfs).lookahead.buffer@ == old(lfs).lookahead.buffer@,
        old(lfs).lookahead.next < final(lfs).lookahead.next,
        final(lfs).lookahead.ckpoint == old(lfs).lookahead.ckpoint - (final(lfs).lookahead.next - old(lfs).lookahead.next),
        forall|k: int| old(lfs).lookahead.next < k < final(lfs).lookahead.next ==> #[trigger] la_bit(
            final(lfs).lookahead.buffer@, k),
        final(lfs).lookahead.next < final(lfs).lookahead.size ==> !la_bit(final(lfs).lookahead.buffer@,
            final(lfs).lookahead.next as int),
{
    let bc = lfs.block_count;
    loop
        invariant_except_break
            la_wf(lfs.lookahead, bc),
            la_len == lfs.lookahead.buffer@.len(),
            bc == lfs.block_count,
            same_but_lookahead(*lfs, *old(lfs)),
            lfs.lookahead.start == old(lfs).lookahead.start,
            lfs.lookahead.size == old(lfs).lookahead.size,
            lfs.lookahead.buffer@ == old(lfs).lookahead.buffer@,
            old(lfs).lookahead.next <= lfs.lookahead.next < lfs.lookahead.size,
            lfs.lookahead.ckpoint == old(lfs).lookahead.ckpoint - (lfs.lookahead.next - old(lfs).lookahead.next),
            forall|k: int| old(lfs).lookahead.next < k <= lfs.lookahead.next ==> #[trigger] la_bit(
                lfs.lookahead.buffer@, k),
        ensures
            la_wf(lfs.lookahead, bc),
            bc == lfs.block_count,
            same_but_lookahead(*lfs, *old(lfs)),
            lfs.lookahead.start == old(lfs).lookahead.start,
            lfs.lookahead.size == old(lfs).lookahead.size,
            lfs.lookahead.buffer@ == old(lfs).lookahead.buffer@,
            old(lfs).lookahead.next < lfs.lookahead.next,
            lfs.lookahead.ckpoint == old(lfs).lookahead.ckpoint - (lfs.lookahead.next - old(lfs).lookahead.next),
            forall|k: int| old(lfs).lookahead.next < k < lfs.lookahead.next ==> #[trigger] la_bit(
                lfs.lookahead.buffer@, k),
            lfs.lookahead.next < lfs.lookahead.size ==> !la_bit(lfs.lookahead.buffer@, lfs.lookahead.next as int),
        decreases lfs.lookahead.size - lfs.lookahead.next,
    {
        lfs.lookahead.next = lfs.lookahead.next + 1;
        lfs.lookahead.ckpoint = lfs.lookahead.ckpoint - 1;
        if lfs.lookahead.next >= lfs.lookahead.size {
            break;
        }
        if la_bit_clear(&lfs.lookahead.buffer, lfs.lookahead.next) {
            break;
        }
    }
}

/// Finds a free block: the next position of the window whose bit is
/// clear. The search then moves on past the block and the positions in use
/// after it. When the window is used up and the checkpoint allows, the
/// window moves on and is refilled from `in_use`, the blocks that a
/// traversal of the filesystem finds; when the checkpoint is spent, the
/// device is full.
pub fn lfs_alloc<S: Storage>(lfs: &mut Lfs<S>, in_use: &[u32]) -> (r: Result<u32, Error>)
    requires
        la_wf(old(lfs).lookahead, old(lfs).block_count),
        blocks_valid(in_use@, old(lfs).block_count),
    ensures
        same_but_lookahead(*final(lfs), *old(lfs)),
        la_wf(final(lfs).lookahead, final(lfs).block_count),
        final(lfs).lookahead.buffer@.len() == old(lfs).lookahead.buffer@.len(),
        r is Ok ==> final(lfs).lookahead.ckpoint < old(lfs).lookahead.ckpoint,
        r is Err ==> r == Err::<u32, Error>(Error::NoSpace) && final(lfs).lookahead.ckpoint == 0,
        la_has_free(old(lfs).lookahead, old(lfs).lookahead.next as int) ==> r is Ok,
        r matches Ok(b) ==> la_handed_out(final(lfs).lookahead, final(lfs).block_count, b),
        r matches Ok(b) ==> b < old(lfs).block_count && exists|k: int|
            0 <= k < final(lfs).lookahead.next && la_block(final(lfs).lookahead, final(lfs).block_count, k) == b
                && !la_bit(final(lfs).lookahead.buffer@, k),
        la_sound(old(lfs).lookahead, old(lfs).block_count, in_use@) ==> la_sound(
            final(lfs).lookahead,
            final(lfs).block_count,
            in_use@,
        ),
        r is Ok && !la_has_free(old(lfs).lookahead, old(lfs).lookahead.next as int) ==> la_sound(
            final(lfs).lookahead,
            final(lfs).block_count,
            in_use@,
        ),
        r matches Ok(b) ==> (la_sound(old(lfs).lookahead, old(lfs).block_count, in_use@) || !la_has_free(
            old(lfs).lookahead,
            old(lfs).lookahead.next as int,
        )) ==> !in_use@.contains(b),
{
    let bc = lfs.block_count;
    let ghost la_len = lfs.lookahead.buffer@.len();
    let ghost mut scanned = false;
    loop
        invariant
            la_wf(lfs.lookahead, bc),
            la_len == old(lfs).lookahead.buffer@.len(),
            la_len == lfs.lookahead.buffer@.len(),
            bc == lfs.block_count,
            same_but_lookahead(*lfs, *old(lfs)),
            blocks_valid(in_use@, bc),
            lfs.lookahead.ckpoint <= old(lfs).lookahead.ckpoint,
            !scanned ==> lfs.lookahead.start == old(lfs).lookahead.start && lfs.lookahead.buffer@ == old(
                lfs,
            ).lookahead.buffer@ && lfs.lookahead.size == old(lfs).lookahead.size && lfs.lookahead.next >= old(
                lfs,
            ).lookahead.next,
            !scanned ==> forall|k: int|
                old(lfs).lookahead.next <= k < lfs.lookahead.next ==> #[trigger] la_bit(lfs.lookahead.buffer@, k),
            scanned ==> la_sound(lfs.lookahead, bc, in_use@),
            la_sound(old(lfs).lookahead, bc, in_use@) ==> la_sound(lfs.lookahead, bc, in_use@),
            scanned ==> !la_has_free(old(lfs).lookahead, old(lfs).lookahead.next as int),
        decreases lfs.lookahead.ckpoint * 2 + (if lfs.lookahead.next >= lfs.lookahead.size { 1int } else { 0int }),
    {
        let ghost ck0 = lfs.lookahead.ckpoint;
        let ghost n0 = lfs.lookahead.next;
        let ghost sz0 = lfs.lookahead.size;
        while lfs.lookahead.next < lfs.lookahead.size
            invariant
                lfs.lookahead.size == sz0,
                lfs.lookahead.next >= n0,
                lfs.lookahead.ckpoint + lfs.lookahead.next == ck0 + n0,
                n0 >= sz0 ==> lfs.lookahead.next == n0,
                ck0 <= old(lfs).lookahead.ckpoint,
                la_wf(lfs.lookahead, bc),
                la_len == old(lfs).lookahead.buffer@.len(),
                la_len == lfs.lookahead.buffer@.len(),
                bc == lfs.block_count,
                same_but_lookahead(*lfs, *old(lfs)),
                !scanned ==> lfs.lookahead.start == old(lfs).lookahead.start && lfs.lookahead.buffer@ == old(
                    lfs,
                ).lookahead.buffer@ && lfs.lookahead.size == old(lfs).lookahead.size && lfs.lookahead.next >= old(
                    lfs,
                ).lookahead.next,
                !scanned ==> forall|k: int|
                    old(lfs).lookahead.next <= k < lfs.lookahead.next ==> #[trigger] la_bit(lfs.lookahead.buffer@, k),
                scanned ==> la_sound(lfs.lookahead, bc, in_use@),
                la_sound(old(lfs).lookahead, bc, in_use@) ==> la_sound(lfs.lookahead, bc, in_use@),
                scanned ==> !la_has_free(old(lfs).lookahead, old(lfs).lookahead.next as int),
            decreases lfs.lookahead.size - lfs.lookahead.next,
        {
            if la_bit_clear(&lfs.lookahead.buffer, lfs.lookahead.next) {
                let found = lfs.lookahead.next;
                let block = (lfs.lookahead.start + found) % bc;
                proof {
                    vstd::arithmetic::div_mod::lemma_mod_bound(lfs.lookahead.start + found, bc as int);
                }
                proof {
                    if la_sound(old(lfs).lookahead, bc, in_use@) || !la_has_free(
                        old(lfs).lookahead,
                        old(lfs).lookahead.next as int,
                    ) {
                        if !scanned && !la_sound(old(lfs).lookahead, bc, in_use@) {
                            assert(la_has_free(old(lfs).lookahead, old(lfs).lookahead.next as int));
                        }
                        lemma_clear_bit_free(lfs.lookahead, bc, in_use@, found as int);
                    }
                }
                lfs_alloc_skip_used(lfs, Ghost(la_len));
                assert(la_block(lfs.lookahead, bc, found as int) == block);
                return Ok(block);
            }
            lfs.lookahead.next = lfs.lookahead.next + 1;
            lfs.lookahead.ckpoint = lfs.lookahead.ckpoint - 1;
        }
        if lfs.lookahead.ckpoint == 0 {
            return Err(Error::NoSpace);
        }
        proof {
            if !scanned {
                assert(!la_has_free(old(lfs).lookahead, old(lfs).lookahead.next as int));
            }
        }
        let _ = lfs_alloc_scan(lfs, in_use);
        proof {
            scanned = true;
        }
    }
}

} // verus!
