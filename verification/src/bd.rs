//! The block-device layer: reads through a read cache and a program
//! cache, programs through the program cache, and erases.

use vstd::prelude::*;
use vstd::arithmetic::div_mod::{lemma_fundamental_div_mod, lemma_mod_multiples_basic, lemma_mod_bound};
use vstd::arithmetic::mul::lemma_mul_is_commutative;
use crate::error::Error;
use crate::storage::Storage;
use crate::types::{LFS_BLOCK_NULL, LFS_BLOCK_INLINE};
use crate::util::{lfs_aligndown, lfs_alignup, lfs_min, lfs_max, spec_aligndown, lemma_aligndown};
use crate::crc::{lfs_crc, spec_crc, lemma_crc_concat};
use core::cmp::Ordering;

verus! {

/// Configuration of a filesystem: the device and its geometry.
pub struct LfsConfig<S> {
    /// The device.
    pub context: S,
    /// Minimum size of a read, in bytes.
    pub read_size: u32,
    /// Minimum size of a program, in bytes.
    pub prog_size: u32,
    /// Size of an erasable block, in bytes.
    pub block_size: u32,
    /// Number of erasable blocks.
    pub block_count: u32,
    /// Erase cycles before a metadata block is moved (-1: never).
    pub block_cycles: i32,
    /// Size of the block caches, in bytes.
    pub cache_size: u32,
    /// Size of the lookahead buffer, in bytes.
    pub lookahead_size: u32,
    /// Threshold for metadata compaction.
    pub compact_thresh: u32,
    /// Limits on names, files and attributes (0: default).
    pub name_max: u32,
    pub file_max: u32,
    pub attr_max: u32,
    pub metadata_max: u32,
    pub inline_max: u32,
}

impl<S: Storage> LfsConfig<S> {
    /// The device's contents.
    pub open spec fn disk(&self) -> Seq<Seq<u8>> {
        self.context.blocks()
    }

    /// The geometry is sound and the device matches it.
    pub open spec fn wf(&self) -> bool {
        &&& self.read_size > 0
        &&& self.prog_size > 0
        &&& self.cache_size > 0
        &&& self.block_size > 0
        &&& self.cache_size % self.read_size == 0
        &&& self.cache_size % self.prog_size == 0
        &&& self.block_size % self.cache_size == 0
        &&& self.block_size * 3 <= u32::MAX
        &&& self.block_count < LFS_BLOCK_INLINE
        &&& self.disk().len() == self.block_count
        &&& forall|b: int| 0 <= b < self.block_count ==> #[trigger] self.disk()[b].len() == self.block_size
    }
}

/// The same geometry and limits.
pub open spec fn same_params<S>(a: LfsConfig<S>, b: LfsConfig<S>) -> bool {
    &&& a.read_size == b.read_size
    &&& a.prog_size == b.prog_size
    &&& a.block_size == b.block_size
    &&& a.block_count == b.block_count
    &&& a.block_cycles == b.block_cycles
    &&& a.cache_size == b.cache_size
    &&& a.lookahead_size == b.lookahead_size
    &&& a.compact_thresh == b.compact_thresh
    &&& a.name_max == b.name_max
    &&& a.file_max == b.file_max
    &&& a.attr_max == b.attr_max
    &&& a.metadata_max == b.metadata_max
    &&& a.inline_max == b.inline_max
}

/// A block cache: `size` bytes of `block` from offset `off`, held at the
/// start of `buffer`.
pub struct LfsCache {
    pub block: u32,
    pub off: u32,
    pub size: u32,
    pub buffer: Vec<u8>,
}

impl LfsCache {
    /// The buffer has the configured size and holds the cached bytes.
    pub open spec fn wf(&self, cache_size: u32) -> bool {
        self.buffer@.len() == cache_size && self.size <= cache_size
    }
}

/// A read cache agrees with the device: when it names a block of the
/// device, its bytes are that block's.
pub open spec fn rcache_agrees(c: LfsCache, disk: Seq<Seq<u8>>) -> bool {
    c.block < disk.len() ==> {
        &&& c.off + c.size <= disk[c.block as int].len()
        &&& c.size <= c.buffer@.len()
        &&& forall|i: int| 0 <= i < c.size ==> #[trigger] c.buffer@[i] == disk[c.block as int][c.off + i]
    }
}

/// A program cache fits its block: when it names a block of the device,
/// its bytes lie inside that block.
pub open spec fn pcache_fits(c: LfsCache, disk: Seq<Seq<u8>>) -> bool {
    c.block < disk.len() ==> c.off + c.size <= disk[c.block as int].len() && c.size <= c.buffer@.len()
}

/// Byte `i` of block `b` as the filesystem sees it: from the program cache
/// when the cache holds it, else from the device.
pub open spec fn view_byte(disk: Seq<Seq<u8>>, pcache: Option<LfsCache>, b: int, i: int) -> u8 {
    match pcache {
        Some(p) => if p.block == b && p.off <= i < p.off + p.size {
            p.buffer@[i - p.off]
        } else {
            disk[b][i]
        },
        None => disk[b][i],
    }
}

/// The bytes `off .. off + n` of block `b` as the filesystem sees them.
pub open spec fn view_range(disk: Seq<Seq<u8>>, pcache: Option<LfsCache>, b: int, off: int, n: int) -> Seq<u8> {
    Seq::new(n as nat, |k: int| view_byte(disk, pcache, b, off + k))
}

/// An optional reference to a cache, as the cache itself.
pub open spec fn opt_cache(c: Option<&LfsCache>) -> Option<LfsCache> {
    match c {
        Some(p) => Some(*p),
        None => None,
    }
}

/// Divisibility is transitive, and a positive multiple is at least its
/// divisor.
/// The sizes of a sound geometry are ordered: read and program sizes at
/// most the cache size, which is at most the block size.
pub proof fn lemma_cfg_sizes<S: Storage>(cfg: LfsConfig<S>)
    requires
        cfg.wf(),
    ensures
        cfg.read_size <= cfg.cache_size <= cfg.block_size,
        cfg.prog_size <= cfg.cache_size,
        cfg.block_size % cfg.read_size == 0,
        cfg.block_size % cfg.prog_size == 0,
{
    lemma_divides(cfg.block_size as int, cfg.cache_size as int, cfg.read_size as int);
    lemma_divides(cfg.block_size as int, cfg.cache_size as int, cfg.prog_size as int);
}

proof fn lemma_divides(a: int, b: int, c: int)
    requires
        a > 0,
        b > 0,
        c > 0,
        a % b == 0,
        b % c == 0,
    ensures
        a % c == 0,
        b <= a,
        c <= b,
{
    lemma_fundamental_div_mod(a, b);
    lemma_fundamental_div_mod(b, c);
    let k = a / b;
    let j = b / c;
    assert(a == b * k);
    assert(b == c * j);
    assert(k >= 1) by (nonlinear_arith)
        requires a == b * k, a > 0, b > 0;
    assert(j >= 1) by (nonlinear_arith)
        requires b == c * j, b > 0, c > 0;
    assert(a == (j * k) * c) by (nonlinear_arith)
        requires a == b * k, b == c * j;
    lemma_mod_multiples_basic(j * k, c);
    assert(b <= a) by (nonlinear_arith)
        requires a == b * k, k >= 1, b > 0;
    assert(c <= b) by (nonlinear_arith)
        requires b == c * j, j >= 1, c > 0;
}

/// Copies `n` bytes of `src` from `src_pos` into `dst` at `dst_pos`.
pub(crate) fn copy_bytes(dst: &mut [u8], dst_pos: usize, src: &[u8], src_pos: usize, n: usize)
    requires
        dst_pos + n <= old(dst)@.len(),
        src_pos + n <= src@.len(),
    ensures
        final(dst)@.len() == old(dst)@.len(),
        forall|k: int| 0 <= k < old(dst)@.len() ==> #[trigger] final(dst)@[k] == (if dst_pos <= k < dst_pos + n {
            src@[src_pos + k - dst_pos]
        } else {
            old(dst)@[k]
        }),
{
    let dn = dst.len();
    let sn = src.len();
    let mut i: usize = 0;
    while i < n
        invariant
            i <= n,
            dn == dst@.len(),
            sn == src@.len(),
            dst_pos + n <= dst@.len(),
            src_pos + n <= src@.len(),
            dst@.len() == old(dst)@.len(),
            forall|k: int| 0 <= k < old(dst)@.len() ==> #[trigger] dst@[k] == (if dst_pos <= k < dst_pos + i {
                src@[src_pos + k - dst_pos]
            } else {
                old(dst)@[k]
            }),
        decreases n - i,
    {
        dst[dst_pos + i] = src[src_pos + i];
        i = i + 1;
    }
}

/// Copies `n` bytes of `src` from `src_pos` into the vector `dst` at
/// `dst_pos`.
pub(crate) fn copy_into_vec(dst: &mut Vec<u8>, dst_pos: usize, src: &[u8], src_pos: usize, n: usize)
    requires
        dst_pos + n <= old(dst)@.len(),
        src_pos + n <= src@.len(),
    ensures
        final(dst)@.len() == old(dst)@.len(),
        forall|k: int| 0 <= k < old(dst)@.len() ==> #[trigger] final(dst)@[k] == (if dst_pos <= k < dst_pos + n {
            src@[src_pos + k - dst_pos]
        } else {
            old(dst)@[k]
        }),
{
    let dn = dst.len();
    let sn = src.len();
    let mut i: usize = 0;
    while i < n
        invariant
            i <= n,
            dn == dst@.len(),
            sn == src@.len(),
            dst_pos + n <= dst@.len(),
            src_pos + n <= src@.len(),
            dst@.len() == old(dst)@.len(),
            forall|k: int| 0 <= k < old(dst)@.len() ==> #[trigger] dst@[k] == (if dst_pos <= k < dst_pos + i {
                src@[src_pos + k - dst_pos]
            } else {
                old(dst)@[k]
            }),
        decreases n - i,
    {
        dst.set(dst_pos + i, src[src_pos + i]);
        i = i + 1;
    }
}

/// A zeroed vector of `n` bytes.
pub(crate) fn zero_vec(n: u32) -> (v: Vec<u8>)
    ensures
        v@.len() == n,
{
    let mut v: Vec<u8> = Vec::new();
    let mut i: u32 = 0;
    while i < n
        invariant
            i <= n,
            v@.len() == i,
        decreases n - i,
    {
        v.push(0);
        i = i + 1;
    }
    v
}

/// The length of a byte slice as a size.
fn len_u32(b: &[u8]) -> (n: u32)
    requires
        b@.len() <= u32::MAX,
    ensures
        n == b@.len(),
{
    b.len() as u32
}

/// A size as a buffer index.
fn to_usize(x: u32) -> (n: usize)
    ensures
        n == x,
{
    x as usize
}

/// `x` rounded down to a multiple of `m`.
fn aligndown32(x: u32, m: u32) -> (r: u32)
    requires
        m > 0,
    ensures
        r == spec_aligndown(x as int, m as int),
        r % m == 0,
        r <= x,
        x - r < m,
{
    lfs_aligndown(x as usize, m as usize) as u32
}

/// `x` rounded up to a multiple of `m`.
pub(crate) fn alignup32(x: u32, m: u32) -> (r: u32)
    requires
        m > 0,
        x + m - 1 <= u32::MAX,
    ensures
        r == spec_alignup(x as int, m as int),
        r % m == 0,
        x <= r,
        r < x + m,
{
    lfs_alignup(x as usize, m as usize) as u32
}

/// Forgets what a read cache holds (its bytes are kept).
pub fn lfs_cache_drop(rcache: &mut LfsCache)
    ensures
        final(rcache).block == LFS_BLOCK_NULL,
        final(rcache).off == old(rcache).off,
        final(rcache).size == old(rcache).size,
        final(rcache).buffer@ == old(rcache).buffer@,
{
    rcache.block = LFS_BLOCK_NULL;
}

/// Empties a program cache: its buffer is filled with `0xff` and it
/// names no block.
pub fn lfs_cache_zero(pcache: &mut LfsCache)
    ensures
        final(pcache).block == LFS_BLOCK_NULL,
        final(pcache).off == old(pcache).off,
        final(pcache).size == old(pcache).size,
        final(pcache).buffer@ == Seq::new(old(pcache).buffer@.len(), |_i: int| 0xffu8),
{
    let n = pcache.buffer.len();
    let mut i: usize = 0;
    while i < n
        invariant
            i <= n,
            n == old(pcache).buffer@.len(),
            pcache.buffer@.len() == n,
            pcache.block == old(pcache).block,
            pcache.off == old(pcache).off,
            pcache.size == old(pcache).size,
            forall|k: int| 0 <= k < i ==> #[trigger] pcache.buffer@[k] == 0xffu8,
        decreases n - i,
    {
        pcache.buffer.set(i, 0xff);
        i = i + 1;
    }
    pcache.block = LFS_BLOCK_NULL;
    proof {
        assert(pcache.buffer@ =~= Seq::new(old(pcache).buffer@.len(), |_i: int| 0xffu8));
    }
}

/// The read cache holds the `n` bytes of `block` from `off`.
pub open spec fn rcache_serves(rcache: LfsCache, block: u32, off: u32, n: nat) -> bool {
    rcache.block == block && rcache.off <= off && off + n <= rcache.off + rcache.size
}

/// Reads `buffer.len()` bytes of `block` from offset `off` as the
/// filesystem sees them: bytes waiting in the program cache `pcache` come
/// from it, the rest from the read cache or the device. Reads of at least
/// `hint` bytes at a read-aligned offset bypass the read cache; otherwise
/// the read cache is loaded with up to `hint` bytes from `off`. A read that
/// the read cache holds whole needs no device and succeeds.
pub fn lfs_bd_read<S: Storage>(
    cfg: &mut LfsConfig<S>,
    block_count: u32,
    pcache: Option<&LfsCache>,
    rcache: &mut LfsCache,
    hint: u32,
    block: u32,
    off: u32,
    buffer: &mut [u8],
) -> (r: Result<(), Error>)
    requires
        old(cfg).wf(),
        block_count <= old(cfg).block_count,
        block_count == 0 ==> block < old(cfg).block_count,
        off + old(buffer)@.len() + hint + old(cfg).read_size <= u32::MAX,
        old(buffer)@.len() > 0 ==> hint > 0,
        old(rcache).wf(old(cfg).cache_size),
        rcache_agrees(*old(rcache), old(cfg).disk()),
        pcache matches Some(p) ==> pcache_fits(*p, old(cfg).disk()),
    ensures
        final(cfg).wf(),
        same_params(*final(cfg), *old(cfg)),
        final(cfg).disk() == old(cfg).disk(),
        final(rcache).wf(old(cfg).cache_size),
        rcache_agrees(*final(rcache), old(cfg).disk()),
        final(buffer)@.len() == old(buffer)@.len(),
        r matches Err(e) ==> crate::storage::device_error(e),
        (off + old(buffer)@.len() > old(cfg).block_size || (block_count != 0 && block >= block_count))
            ==> r == Err::<(), Error>(Error::Corrupt) && *final(rcache) == *old(rcache) && final(buffer)@ == old(buffer)@
            && *final(cfg) == *old(cfg),
        *final(rcache) == *old(rcache) || final(rcache).block == block || final(rcache).block == LFS_BLOCK_NULL,
        off + old(buffer)@.len() <= old(cfg).block_size && (block_count == 0 || block < block_count) && (old(buffer)@.len()
            == 0 || rcache_serves(*old(rcache), block, off, old(buffer)@.len())) ==> r is Ok && *final(rcache) == *old(
            rcache),
        r is Ok ==> off + old(buffer)@.len() <= old(cfg).block_size && (block_count == 0 || block < block_count)
            && final(buffer)@ == view_range(old(cfg).disk(), opt_cache(pcache), block as int, off as int,
            old(buffer)@.len() as int),
{
    let len = len_u32(buffer);
    if off + len > cfg.block_size || (block_count != 0 && block >= block_count) {
        return Err(Error::Corrupt);
    }
    let ghost disk = cfg.disk();
    let ghost pc = opt_cache(pcache);
    let read_size = cfg.read_size;
    let cache_size = cfg.cache_size;
    let block_size = cfg.block_size;
    proof {
        lemma_divides(block_size as int, cache_size as int, read_size as int);
        assert(disk[block as int].len() == block_size);
    }
    let mut pos: u32 = 0;
    while pos < len
        invariant
            cfg.wf(),
            same_params(*cfg, *old(cfg)),
            cfg.disk() == disk,
            disk == old(cfg).disk(),
            read_size == cfg.read_size,
            cache_size == cfg.cache_size,
            block_size == cfg.block_size,
            0 < read_size <= cache_size,
            rcache.wf(cache_size),
            rcache_agrees(*rcache, disk),
            len == buffer@.len(),
            len == old(buffer)@.len(),
            pos <= len,
            off + len <= block_size,
            off + len + hint + read_size <= u32::MAX,
            len > 0 ==> hint > 0,
            block < disk.len(),
            block_count == 0 || block < block_count,
            disk[block as int].len() == block_size,
            pc == opt_cache(pcache),
            pcache matches Some(p) ==> pcache_fits(*p, disk),
            *rcache == *old(rcache) || rcache.block == block || rcache.block == LFS_BLOCK_NULL,
            forall|k: int| 0 <= k < pos ==> #[trigger] buffer@[k] == view_byte(disk, pc, block as int, off + k),
            (len == 0 || rcache_serves(*old(rcache), block, off, len as nat)) ==> *rcache == *old(rcache),
        decreases (len - pos) * 2 + (if rcache.block == block && rcache.off <= off + pos && off + pos
            < rcache.off + rcache.size { 0int } else { 1int }),
    {
        let cur = off + pos;
        let size = len - pos;
        let mut diff = size;
        match pcache {
            Some(p) => {
                if block == p.block && cur < p.off + p.size {
                    if cur >= p.off {
                        diff = lfs_min(diff, p.size - (cur - p.off));
                        let ghost before = buffer@;
                        copy_bytes(buffer, to_usize(pos), p.buffer.as_slice(), to_usize(cur - p.off), to_usize(diff));
                        proof {
                            assert forall|k: int| 0 <= k < pos + diff implies #[trigger] buffer@[k]
                                == view_byte(disk, pc, block as int, off + k) by {
                                if k >= pos {
                                    assert(buffer@[k] == p.buffer@[(cur - p.off) + k - pos]);
                                } else {
                                    assert(buffer@[k] == before[k]);
                                }
                            }
                        }
                        pos = pos + diff;
                        continue;
                    }
                    diff = lfs_min(diff, p.off - cur);
                }
            },
            None => {},
        }
        if block == rcache.block && cur < rcache.off + rcache.size {
            if cur >= rcache.off {
                diff = lfs_min(diff, rcache.size - (cur - rcache.off));
                let ghost before = buffer@;
                copy_bytes(buffer, to_usize(pos), rcache.buffer.as_slice(), to_usize(cur - rcache.off), to_usize(diff));
                proof {
                    assert forall|k: int| 0 <= k < pos + diff implies #[trigger] buffer@[k]
                        == view_byte(disk, pc, block as int, off + k) by {
                        if k >= pos {
                            assert(buffer@[k] == rcache.buffer@[(cur - rcache.off) + k - pos]);
                            assert(rcache.buffer@[(cur - rcache.off) + k - pos] == disk[block as int][rcache.off + ((cur - rcache.off) + k - pos)]);
                        } else {
                            assert(buffer@[k] == before[k]);
                        }
                    }
                }
                pos = pos + diff;
                continue;
            }
            diff = lfs_min(diff, rcache.off - cur);
        }
        proof {
            assert(!rcache_serves(*old(rcache), block, off, len as nat));
        }
        let aligned = aligndown32(diff, read_size);
        if size >= hint && cur % read_size == 0 && size >= read_size && aligned > 0 {
            let mut tmp = zero_vec(aligned);
            let res = cfg.context.read(block, cur, tmp.as_mut_slice());
            match res {
                Err(e) => {
                    return Err(e);
                },
                Ok(()) => {},
            }
            let ghost before = buffer@;
            copy_bytes(buffer, to_usize(pos), tmp.as_slice(), 0, to_usize(aligned));
            proof {
                assert forall|k: int| 0 <= k < pos + aligned implies #[trigger] buffer@[k]
                    == view_byte(disk, pc, block as int, off + k) by {
                    if k >= pos {
                        assert(buffer@[k] == tmp@[k - pos]);
                    } else {
                        assert(buffer@[k] == before[k]);
                    }
                }
            }
            pos = pos + aligned;
            continue;
        }
        let roff = aligndown32(cur, read_size);
        let up = alignup32(cur + hint, read_size);
        let rsize = lfs_min(lfs_min(up, block_size) - roff, cache_size);
        let mut tmp = zero_vec(rsize);
        rcache.block = LFS_BLOCK_NULL;
        let res = cfg.context.read(block, roff, tmp.as_mut_slice());
        match res {
            Err(e) => {
                return Err(e);
            },
            Ok(()) => {},
        }
        copy_into_vec(&mut rcache.buffer, 0, tmp.as_slice(), 0, to_usize(rsize));
        rcache.off = roff;
        rcache.size = rsize;
        rcache.block = block;
        proof {
            assert forall|i: int| 0 <= i < rcache.size implies #[trigger] rcache.buffer@[i]
                == disk[rcache.block as int][rcache.off + i] by {
                assert(rcache.buffer@[i] == tmp@[i]);
            }
        }
    }
    Ok(())
}


/// The bytes `off .. off + n` of block `b` as the filesystem sees them,
/// for sizes given as words.
pub open spec fn view_range32(disk: Seq<Seq<u8>>, pcache: Option<LfsCache>, b: u32, off: u32, n: nat) -> Seq<u8> {
    view_range(disk, pcache, b as int, off as int, n as int)
}

/// `k` is the first position where two sequences differ.
pub open spec fn first_diff(a: Seq<u8>, b: Seq<u8>, k: int) -> bool {
    &&& 0 <= k < a.len()
    &&& k < b.len()
    &&& a[k] != b[k]
    &&& forall|j: int| 0 <= j < k ==> a[j] == b[j]
}

/// `o` is the lexicographic order of two sequences of the same length.
pub open spec fn bytes_order(a: Seq<u8>, b: Seq<u8>, o: Ordering) -> bool {
    &&& (o == Ordering::Equal) <==> a == b
    &&& (o == Ordering::Less) <==> (exists|k: int| first_diff(a, b, k) && a[k] < b[k])
    &&& (o == Ordering::Greater) <==> (exists|k: int| first_diff(a, b, k) && a[k] > b[k])
}

/// The first `n` bytes of two chunks, compared: the position of the first
/// difference, or `n`.
fn chunk_first_diff(a: &[u8], b: &[u8], n: usize) -> (k: usize)
    requires
        n <= a@.len(),
        n <= b@.len(),
    ensures
        k <= n,
        forall|j: int| 0 <= j < k ==> a@[j] == b@[j],
        k < n ==> a@[k as int] != b@[k as int],
{
    let mut k: usize = 0;
    while k < n
        invariant
            k <= n,
            n <= a@.len(),
            n <= b@.len(),
            forall|j: int| 0 <= j < k ==> a@[j] == b@[j],
        decreases n - k,
    {
        if a[k] != b[k] {
            return k;
        }
        k = k + 1;
    }
    k
}

proof fn lemma_order_at(d: Seq<u8>, e: Seq<u8>, k: int)
    requires
        d.len() == e.len(),
        first_diff(d, e, k),
    ensures
        d[k] < e[k] ==> bytes_order(d, e, Ordering::Less),
        d[k] > e[k] ==> bytes_order(d, e, Ordering::Greater),
{
    assert(d != e) by {
        assert(d[k] != e[k]);
    }
    assert forall|k2: int| first_diff(d, e, k2) implies k2 == k by {
        if k2 < k {
            assert(d[k2] == e[k2]);
        } else if k2 > k {
            assert(d[k] == e[k]);
        }
    }
}

/// Compares `buffer.len()` bytes of `block` from offset `off`, as the
/// filesystem sees them, with `buffer`, in chunks of eight bytes.
pub fn lfs_bd_cmp<S: Storage>(
    cfg: &mut LfsConfig<S>,
    block_count: u32,
    pcache: Option<&LfsCache>,
    rcache: &mut LfsCache,
    hint: u32,
    block: u32,
    off: u32,
    buffer: &[u8],
) -> (r: Result<Ordering, Error>)
    requires
        old(cfg).wf(),
        block_count <= old(cfg).block_count,
        block_count == 0 ==> block < old(cfg).block_count,
        off + buffer@.len() + hint + old(cfg).read_size <= u32::MAX,
        hint >= buffer@.len(),
        old(rcache).wf(old(cfg).cache_size),
        rcache_agrees(*old(rcache), old(cfg).disk()),
        pcache matches Some(p) ==> pcache_fits(*p, old(cfg).disk()),
    ensures
        final(cfg).wf(),
        same_params(*final(cfg), *old(cfg)),
        final(cfg).disk() == old(cfg).disk(),
        final(rcache).wf(old(cfg).cache_size),
        rcache_agrees(*final(rcache), old(cfg).disk()),
        r == Ok::<Ordering, Error>(Ordering::Equal) && buffer@.len() > 0 ==> off + buffer@.len() <= old(cfg).block_size,
        buffer@.len() == 0 ==> r == Ok::<Ordering, Error>(Ordering::Equal) && *final(cfg) == *old(cfg) && *final(rcache)
            == *old(rcache),
        off + buffer@.len() <= old(cfg).block_size && (block_count == 0 || block < block_count) && rcache_serves(
            *old(rcache), block, off, buffer@.len()) ==> r is Ok && *final(rcache) == *old(rcache),
        r matches Err(e) ==> crate::storage::device_error(e),
        r matches Ok(o) ==> bytes_order(view_range32(old(cfg).disk(), opt_cache(pcache), block, off, buffer@.len()),
            buffer@, o),
{
    let ghost disk = cfg.disk();
    let ghost pc = opt_cache(pcache);
    let ghost whole = view_range32(disk, pc, block, off, buffer@.len());
    let size = len_u32(buffer);
    let mut i: u32 = 0;
    while i < size
        invariant
            cfg.wf(),
            same_params(*cfg, *old(cfg)),
            cfg.disk() == disk,
            disk == old(cfg).disk(),
            rcache.wf(old(cfg).cache_size),
            rcache_agrees(*rcache, disk),
            size == buffer@.len(),
            i <= size,
            block_count <= cfg.block_count,
            block_count == 0 ==> block < cfg.block_count,
            off + size + hint + cfg.read_size <= u32::MAX,
            hint >= size,
            pc == opt_cache(pcache),
            whole == view_range32(disk, pc, block, off, buffer@.len()),
            pcache matches Some(p) ==> pcache_fits(*p, disk),
            i > 0 ==> off + i <= cfg.block_size,
            forall|j: int| 0 <= j < i ==> #[trigger] whole[j] == buffer@[j],
            i == 0 ==> *cfg == *old(cfg) && *rcache == *old(rcache),
            off + size <= cfg.block_size && (block_count == 0 || block < block_count) && rcache_serves(*old(rcache),
                block, off, buffer@.len()) ==> *rcache == *old(rcache),
        decreases size - i,
    {
        let mut dat: [u8; 8] = [0u8; 8];
        let diff = lfs_min(size - i, 8);
        let mut chunk = zero_vec(diff);
        let res = lfs_bd_read(cfg, block_count, pcache, rcache, hint - i, block, off + i, chunk.as_mut_slice());
        match res {
            Err(e) => {
                return Err(e);
            },
            Ok(()) => {},
        }
        let expected = slice_part(buffer, i, diff);
        let k = chunk_first_diff(chunk.as_slice(), expected.as_slice(), to_usize(diff));
        proof {
            lemma_view_range_shift(disk, pc, block, off, i, diff, buffer@.len());
        }
        if k < to_usize(diff) {
            proof {
                lemma_chunk_mismatch(whole, buffer@, chunk@, expected@, i, diff, k);
                lemma_order_at(whole, buffer@, i + k);
            }
            if chunk[k] < expected[k] {
                return Ok(Ordering::Less);
            } else {
                return Ok(Ordering::Greater);
            }
        }
        proof {
            lemma_chunk_match(whole, buffer@, chunk@, expected@, i, diff);
        }
        i = i + diff;
    }
    proof {
        assert(whole =~= buffer@);
    }
    Ok(Ordering::Equal)
}

/// The `n` bytes of `b` from `start`.
pub(crate) fn slice_part(b: &[u8], start: u32, n: u32) -> (v: Vec<u8>)
    requires
        start + n <= b@.len(),
        b@.len() <= u32::MAX,
    ensures
        v@ == b@.subrange(start as int, start + n),
{
    let mut v: Vec<u8> = Vec::new();
    let mut k: u32 = 0;
    while k < n
        invariant
            k <= n,
            start + n <= b@.len(),
            b@.len() <= u32::MAX,
            v@ == b@.subrange(start as int, start + k),
        decreases n - k,
    {
        v.push(b[to_usize(start) + to_usize(k)]);
        k = k + 1;
        proof {
            assert(v@ =~= b@.subrange(start as int, start + k));
        }
    }
    v
}

proof fn lemma_view_range_shift(disk: Seq<Seq<u8>>, pc: Option<LfsCache>, block: u32, off: u32, i: u32, d: u32, n: nat)
    requires
        i + d <= n,
        off + i <= u32::MAX,
    ensures
        view_range32(disk, pc, block, (off + i) as u32, d as nat) == view_range32(disk, pc, block, off, n).subrange(
            i as int,
            i + d,
        ),
{
    let a = view_range32(disk, pc, block, (off + i) as u32, d as nat);
    let b = view_range32(disk, pc, block, off, n).subrange(i as int, i + d);
    assert forall|k: int| 0 <= k < d implies a[k] == b[k] by {
        assert(a[k] == view_byte(disk, pc, block as int, (off + i) + k));
        assert(b[k] == view_byte(disk, pc, block as int, off + (i + k)));
    }
    assert(a =~= b);
}

proof fn lemma_chunk_mismatch(whole: Seq<u8>, buf: Seq<u8>, chunk: Seq<u8>, exp: Seq<u8>, i: u32, d: u32, k: usize)
    requires
        whole.len() == buf.len(),
        i + d <= buf.len(),
        k < d,
        chunk == whole.subrange(i as int, i + d),
        exp == buf.subrange(i as int, i + d),
        forall|j: int| 0 <= j < i ==> #[trigger] whole[j] == buf[j],
        forall|j: int| 0 <= j < k ==> chunk[j] == exp[j],
        chunk[k as int] != exp[k as int],
    ensures
        first_diff(whole, buf, i + k),
        chunk[k as int] == whole[i + k],
        exp[k as int] == buf[i + k],
{
    lemma_extend_equal(whole, buf, chunk, exp, i, d, k as int);
    assert(chunk[k as int] == whole[i + k]);
    assert(exp[k as int] == buf[i + k]);
}

proof fn lemma_chunk_match(whole: Seq<u8>, buf: Seq<u8>, chunk: Seq<u8>, exp: Seq<u8>, i: u32, d: u32)
    requires
        whole.len() == buf.len(),
        i + d <= buf.len(),
        chunk == whole.subrange(i as int, i + d),
        exp == buf.subrange(i as int, i + d),
        forall|j: int| 0 <= j < d ==> chunk[j] == exp[j],
    ensures
        forall|j: int| i <= j < i + d ==> #[trigger] whole[j] == buf[j],
{
    lemma_extend_equal(whole, buf, chunk, exp, i, d, d as int);
}

proof fn lemma_extend_equal(whole: Seq<u8>, buf: Seq<u8>, chunk: Seq<u8>, exp: Seq<u8>, i: u32, d: u32, c: int)
    requires
        whole.len() == buf.len(),
        i + d <= buf.len(),
        0 <= c <= d,
        chunk == whole.subrange(i as int, i + d),
        exp == buf.subrange(i as int, i + d),
        forall|j: int| 0 <= j < c ==> chunk[j] == exp[j],
    ensures
        forall|j: int| i <= j < i + c ==> #[trigger] whole[j] == buf[j],
{
    assert forall|j: int| i <= j < i + c implies #[trigger] whole[j] == buf[j] by {
        assert(chunk[j - i] == whole[j]);
        assert(exp[j - i] == buf[j]);
    }
}


/// Extends the CRC `crc` over `size` bytes of `block` from offset `off`,
/// as the filesystem sees them, reading eight bytes at a time.
pub fn lfs_bd_crc<S: Storage>(
    cfg: &mut LfsConfig<S>,
    block_count: u32,
    pcache: Option<&LfsCache>,
    rcache: &mut LfsCache,
    hint: u32,
    block: u32,
    off: u32,
    size: u32,
    crc: &mut u32,
) -> (r: Result<(), Error>)
    requires
        old(cfg).wf(),
        block_count <= old(cfg).block_count,
        block_count == 0 ==> block < old(cfg).block_count,
        off + size + hint + old(cfg).read_size <= u32::MAX,
        hint >= size,
        old(rcache).wf(old(cfg).cache_size),
        rcache_agrees(*old(rcache), old(cfg).disk()),
        pcache matches Some(p) ==> pcache_fits(*p, old(cfg).disk()),
    ensures
        final(cfg).wf(),
        same_params(*final(cfg), *old(cfg)),
        final(cfg).disk() == old(cfg).disk(),
        final(rcache).wf(old(cfg).cache_size),
        rcache_agrees(*final(rcache), old(cfg).disk()),
        size > 0 && (off + size > old(cfg).block_size || (block_count != 0 && block >= block_count))
            ==> r is Err,
        size == 0 ==> r is Ok && *final(crc) == *old(crc) && *final(cfg) == *old(cfg) && *final(rcache) == *old(rcache),
        off + size <= old(cfg).block_size && (block_count == 0 || block < block_count) && rcache_serves(*old(rcache),
            block, off, size as nat) ==> r is Ok && *final(rcache) == *old(rcache),
        r matches Err(e) ==> crate::storage::device_error(e),
        r is Ok ==> *final(crc) == spec_crc(*old(crc), view_range32(old(cfg).disk(), opt_cache(pcache), block, off, size as nat)),
{
    let ghost disk = cfg.disk();
    let ghost pc = opt_cache(pcache);
    let ghost whole = view_range32(disk, pc, block, off, size as nat);
    let ghost c0 = *crc;
    let mut i: u32 = 0;
    while i < size
        invariant
            cfg.wf(),
            same_params(*cfg, *old(cfg)),
            cfg.disk() == disk,
            disk == old(cfg).disk(),
            rcache.wf(old(cfg).cache_size),
            rcache_agrees(*rcache, disk),
            i <= size,
            block_count <= cfg.block_count,
            block_count == 0 ==> block < cfg.block_count,
            off + size + hint + cfg.read_size <= u32::MAX,
            hint >= size,
            pc == opt_cache(pcache),
            whole == view_range32(disk, pc, block, off, size as nat),
            pcache matches Some(p) ==> pcache_fits(*p, disk),
            i > 0 ==> off + size <= cfg.block_size || off + i <= cfg.block_size,
            i > 0 ==> block_count == 0 || block < block_count,
            *crc == spec_crc(c0, whole.subrange(0, i as int)),
            c0 == *old(crc),
            i == 0 ==> *cfg == *old(cfg) && *rcache == *old(rcache),
            off + size <= cfg.block_size && (block_count == 0 || block < block_count) && rcache_serves(*old(rcache),
                block, off, size as nat) ==> *rcache == *old(rcache),
        decreases size - i,
    {
        let diff = lfs_min(size - i, 8);
        let mut chunk = zero_vec(diff);
        let res = lfs_bd_read(cfg, block_count, pcache, rcache, hint.saturating_sub(i), block, off + i, chunk.as_mut_slice());
        match res {
            Err(e) => {
                return Err(e);
            },
            Ok(()) => {},
        }
        proof {
            lemma_view_range_shift(disk, pc, block, off, i, diff, size as nat);
            lemma_crc_concat(c0, whole.subrange(0, i as int), whole.subrange(i as int, i + diff));
            assert(whole.subrange(0, i as int) + whole.subrange(i as int, i + diff) =~= whole.subrange(0, i + diff));
        }
        *crc = lfs_crc(*crc, chunk.as_slice());
        i = i + diff;
    }
    proof {
        assert(whole.subrange(0, size as int) =~= whole);
    }
    Ok(())
}

/// Erases `block` of the device.
pub fn lfs_bd_erase<S: Storage>(cfg: &mut LfsConfig<S>, block_count: u32, block: u32) -> (r: Result<(), Error>)
    requires
        old(cfg).wf(),
        block_count <= old(cfg).block_count,
        block < block_count,
    ensures
        final(cfg).wf(),
        same_params(*final(cfg), *old(cfg)),
        forall|b: int| 0 <= b < old(cfg).block_count && b != block ==> #[trigger] final(cfg).disk()[b]
            == old(cfg).disk()[b],
        final(cfg).disk()[block as int].len() == old(cfg).block_size,
        r matches Err(e) ==> crate::storage::device_error(e),
{
    let r = cfg.context.erase(block);
    proof {
        assert forall|b: int| 0 <= b < cfg.block_count implies #[trigger] cfg.disk()[b].len() == cfg.block_size by {
            assert(old(cfg).disk()[b].len() == cfg.block_size);
        }
    }
    r
}

/// `a` rounded up to a multiple of `m`.
pub open spec fn spec_alignup(a: int, m: int) -> int {
    spec_aligndown(a + m - 1, m)
}

/// The device after the program cache is written out: the first
/// `alignup(size, prog_size)` bytes of its buffer land at its block and
/// offset.
pub open spec fn flushed_disk(disk: Seq<Seq<u8>>, pc: LfsCache, prog_size: u32) -> Seq<Seq<u8>> {
    if pc.block < disk.len() {
        let n = spec_alignup(pc.size as int, prog_size as int);
        let old_b = disk[pc.block as int];
        disk.update(pc.block as int, old_b.subrange(0, pc.off as int) + pc.buffer@.subrange(0, n)
            + old_b.subrange(pc.off + n, old_b.len() as int))
    } else {
        disk
    }
}

/// A size rounded up to a multiple of `m` stays within a bound that is a
/// multiple of `m`.
pub(crate) proof fn lemma_alignup_within(x: int, bound: int, m: int)
    requires
        0 <= x <= bound,
        m > 0,
        bound % m == 0,
    ensures
        x <= spec_alignup(x, m) <= bound,
        spec_alignup(x, m) % m == 0,
        spec_alignup(x, m) < x + m,
{
    let y = x + m - 1;
    lemma_fundamental_div_mod(y, m);
    lemma_fundamental_div_mod(bound, m);
    lemma_mod_bound(y, m);
    lemma_mul_is_commutative(m, y / m);
    lemma_mod_multiples_basic(y / m, m);
    let q = y / m;
    let qb = bound / m;
    assert(spec_alignup(x, m) == m * q);
    assert(bound == m * qb);
    if q > qb {
        assert(m * q >= m * qb + m) by (nonlinear_arith)
            requires q > qb, m > 0;
    }
    assert(m * q <= bound) by (nonlinear_arith)
        requires q <= qb || false, m > 0, bound == m * qb
    {
        if q > qb {
        }
    }
}


/// Every block of a sound device has the block size.
proof fn lemma_block_len(disk: Seq<Seq<u8>>, block_count: u32, block_size: u32, b: u32)
    requires
        b < block_count,
        forall|k: int| 0 <= k < block_count ==> #[trigger] disk[k].len() == block_size,
    ensures
        disk[b as int].len() == block_size,
{
}

/// The bounds that a flush of the program cache relies on.
pub(crate) proof fn lemma_flush_bounds(block_size: u32, cache_size: u32, prog_size: u32, read_size: u32, off: u32, size: u32)
    requires
        block_size > 0,
        cache_size > 0,
        prog_size > 0,
        read_size > 0,
        block_size % cache_size == 0,
        cache_size % prog_size == 0,
        cache_size % read_size == 0,
        block_size * 3 <= u32::MAX,
        off % prog_size == 0,
        off + size <= block_size,
        size <= cache_size,
    ensures
        off + spec_alignup(size as int, prog_size as int) <= block_size,
        spec_alignup(size as int, prog_size as int) <= cache_size,
        size <= spec_alignup(size as int, prog_size as int),
        off + spec_alignup(size as int, prog_size as int) + spec_alignup(size as int, prog_size as int)
            + read_size <= u32::MAX,
        size + prog_size - 1 <= u32::MAX,
{
    lemma_divides(block_size as int, cache_size as int, prog_size as int);
    lemma_divides(block_size as int, cache_size as int, read_size as int);
    lemma_sub_multiple(block_size as int, off as int, prog_size as int);
    lemma_alignup_within(size as int, (block_size - off) as int, prog_size as int);
    lemma_alignup_within(size as int, cache_size as int, prog_size as int);
}

/// The difference of two multiples of `m` is a multiple of `m`.
proof fn lemma_sub_multiple(a: int, b: int, m: int)
    requires
        m > 0,
        a % m == 0,
        b % m == 0,
    ensures
        (a - b) % m == 0,
{
    lemma_fundamental_div_mod(a, m);
    lemma_fundamental_div_mod(b, m);
    assert(a - b == (a / m - b / m) * m) by (nonlinear_arith)
        requires a == m * (a / m), b == m * (b / m);
    lemma_mod_multiples_basic(a / m - b / m, m);
}

/// The first `n` bytes that a flush programs are the ones the view shows.
proof fn lemma_flushed_view(disk: Seq<Seq<u8>>, pc: LfsCache, prog_size: u32, data: Seq<u8>, n: u32)
    requires
        pc.block < disk.len(),
        n as int == spec_alignup(pc.size as int, prog_size as int),
        pc.off + n <= disk[pc.block as int].len(),
        n <= pc.buffer@.len(),
        data == pc.buffer@.subrange(0, n as int),
    ensures
        view_range32(flushed_disk(disk, pc, prog_size), None, pc.block, pc.off, n as nat) == data,
{
    let d2 = flushed_disk(disk, pc, prog_size);
    let v = view_range32(d2, None, pc.block, pc.off, n as nat);
    assert forall|k: int| 0 <= k < n implies v[k] == data[k] by {
        assert(v[k] == d2[pc.block as int][pc.off + k]);
    }
    assert(v =~= data);
}

/// Writes the program cache out to the device, when it holds a block of
/// the device, rounding its size up to the program size. With `validate`
/// the written bytes are read back and compared. The cache is then
/// emptied.
pub fn lfs_bd_flush<S: Storage>(
    cfg: &mut LfsConfig<S>,
    block_count: u32,
    pcache: &mut LfsCache,
    rcache: &mut LfsCache,
    validate: bool,
) -> (r: Result<(), Error>)
    requires
        old(cfg).wf(),
        block_count <= old(cfg).block_count,
        old(pcache).wf(old(cfg).cache_size),
        pcache_fits(*old(pcache), old(cfg).disk()),
        old(pcache).off % old(cfg).prog_size == 0,
        old(pcache).block != LFS_BLOCK_NULL && old(pcache).block != LFS_BLOCK_INLINE ==> old(pcache).block < block_count,
        old(rcache).wf(old(cfg).cache_size),
    ensures
        r matches Err(e) ==> crate::storage::device_error(e),
        final(cfg).wf(),
        same_params(*final(cfg), *old(cfg)),
        final(pcache).wf(old(cfg).cache_size),
        final(pcache).off == old(pcache).off,
        final(pcache).size == old(pcache).size,
        final(pcache).block == old(pcache).block || final(pcache).block == LFS_BLOCK_NULL,
        final(rcache).wf(old(cfg).cache_size),
        old(pcache).block == LFS_BLOCK_NULL || old(pcache).block == LFS_BLOCK_INLINE ==> r is Ok
            && final(cfg).disk() == old(cfg).disk() && *final(pcache) == *old(pcache) && *final(rcache) == *old(rcache),
        r is Ok ==> final(cfg).disk() == flushed_disk(old(cfg).disk(), *old(pcache), old(cfg).prog_size),
        r is Ok && old(pcache).block != LFS_BLOCK_NULL && old(pcache).block != LFS_BLOCK_INLINE ==> final(pcache).block
            == LFS_BLOCK_NULL && final(pcache).off == old(pcache).off && final(pcache).size == old(pcache).size
            && final(pcache).buffer@ == Seq::new(old(pcache).buffer@.len(), |_i: int| 0xffu8),
        validate && r is Ok && old(pcache).block != LFS_BLOCK_NULL && old(pcache).block != LFS_BLOCK_INLINE
            ==> rcache_agrees(*final(rcache), final(cfg).disk()),
        !validate ==> *final(rcache) == *old(rcache),
        forall|b: int| 0 <= b < old(cfg).block_count && b != old(pcache).block ==> #[trigger] final(cfg).disk()[b]
            == old(cfg).disk()[b],
        r is Err ==> *final(pcache) == *old(pcache),
        forall|b: int, i: int|
            0 <= b < old(cfg).block_count && 0 <= i < old(cfg).block_size && !(b == old(pcache).block && i >= old(
                pcache,
            ).off + old(pcache).size) ==> #[trigger] view_byte(final(cfg).disk(), Some(*final(pcache)), b, i)
                == view_byte(old(cfg).disk(), Some(*old(pcache)), b, i),
{
    if pcache.block != LFS_BLOCK_NULL && pcache.block != LFS_BLOCK_INLINE {
        let ghost disk = cfg.disk();
        let ghost pc = *pcache;
        proof {
            lemma_flush_bounds(cfg.block_size, cfg.cache_size, cfg.prog_size, cfg.read_size, pcache.off, pcache.size);
            lemma_block_len(disk, cfg.block_count, cfg.block_size, pcache.block);
        }
        let diff = alignup32(pcache.size, cfg.prog_size);
        let data = slice_part(pcache.buffer.as_slice(), 0, diff);
        let res = cfg.context.write(pcache.block, pcache.off, data.as_slice());
        proof {
            assert forall|b: int| 0 <= b < cfg.block_count implies #[trigger] cfg.disk()[b].len() == cfg.block_size by {
                assert(disk[b].len() == cfg.block_size);
            }
        }
        match res {
            Err(e) => {
                proof {
                    assert forall|b: int, i: int|
                        0 <= b < cfg.block_count && 0 <= i < cfg.block_size && !(b == pc.block && i >= pc.off + pc.size)
                            implies #[trigger] view_byte(cfg.disk(), Some(*pcache), b, i) == view_byte(disk, Some(pc), b, i) by {
                        if b == pc.block && !(pc.off <= i < pc.off + pc.size) {
                            assert(cfg.disk()[b][i] == disk[b][i]);
                        }
                    }
                }
                return Err(e);
            },
            Ok(()) => {},
        }
        proof {
            lemma_flushed_disk_is(disk, pc, cfg.prog_size, data@, cfg.disk());
            assert forall|b: int, i: int|
                0 <= b < cfg.block_count && 0 <= i < cfg.block_size && !(b == pc.block && i >= pc.off + pc.size)
                    implies #[trigger] view_byte(cfg.disk(), Some(pc), b, i) == view_byte(disk, Some(pc), b, i) by {
                if b == pc.block && !(pc.off <= i < pc.off + pc.size) {
                    assert(cfg.disk()[b][i] == disk[b][i]);
                }
            }
        }
        if validate {
            lfs_cache_drop(rcache);
            proof {
                lemma_flushed_view(disk, pc, cfg.prog_size, data@, diff);
            }
            let res = lfs_bd_cmp(cfg, block_count, None, rcache, diff, pcache.block, pcache.off, data.as_slice());
            match res {
                Err(e) => {
                    return Err(e);
                },
                Ok(o) => {
                    match o {
                        Ordering::Equal => {},
                        _ => {
                            return Err(Error::Corrupt);
                        },
                    }
                },
            }
        }
        lfs_cache_zero(pcache);
    }
    Ok(())
}

proof fn lemma_flushed_disk_is(disk: Seq<Seq<u8>>, pc: LfsCache, prog_size: u32, data: Seq<u8>, d2: Seq<Seq<u8>>)
    requires
        pc.block < disk.len(),
        0 <= spec_alignup(pc.size as int, prog_size as int) <= pc.buffer@.len(),
        data == pc.buffer@.subrange(0, spec_alignup(pc.size as int, prog_size as int)),
        pc.off + data.len() <= disk[pc.block as int].len(),
        d2.len() == disk.len(),
        forall|b: int| 0 <= b < disk.len() && b != pc.block ==> #[trigger] d2[b] == disk[b],
        d2[pc.block as int] == disk[pc.block as int].subrange(0, pc.off as int) + data + disk[pc.block as int].subrange(
            pc.off + data.len(),
            disk[pc.block as int].len() as int,
        ),
    ensures
        d2 == flushed_disk(disk, pc, prog_size),
{
    assert(d2 =~= flushed_disk(disk, pc, prog_size));
}


/// Drops the read cache, writes the program cache out and asks the
/// device to flush its own buffers.
pub fn lfs_bd_sync<S: Storage>(
    cfg: &mut LfsConfig<S>,
    block_count: u32,
    pcache: &mut LfsCache,
    rcache: &mut LfsCache,
    validate: bool,
) -> (r: Result<(), Error>)
    requires
        old(cfg).wf(),
        block_count <= old(cfg).block_count,
        old(pcache).wf(old(cfg).cache_size),
        pcache_fits(*old(pcache), old(cfg).disk()),
        old(pcache).off % old(cfg).prog_size == 0,
        old(pcache).block != LFS_BLOCK_NULL && old(pcache).block != LFS_BLOCK_INLINE ==> old(pcache).block < block_count,
        old(rcache).wf(old(cfg).cache_size),
    ensures
        r matches Err(e) ==> crate::storage::device_error(e),
        final(cfg).wf(),
        same_params(*final(cfg), *old(cfg)),
        final(pcache).wf(old(cfg).cache_size),
        final(rcache).wf(old(cfg).cache_size),
        r is Ok ==> final(cfg).disk() == flushed_disk(old(cfg).disk(), *old(pcache), old(cfg).prog_size),
        r is Ok && old(pcache).block != LFS_BLOCK_NULL && old(pcache).block != LFS_BLOCK_INLINE ==> final(pcache).block
            == LFS_BLOCK_NULL,
        r is Ok ==> rcache_agrees(*final(rcache), final(cfg).disk()),
        final(pcache).off == old(pcache).off,
        final(pcache).block == old(pcache).block || final(pcache).block == LFS_BLOCK_NULL,
        !validate ==> final(rcache).block == LFS_BLOCK_NULL,
        forall|b: int| 0 <= b < old(cfg).block_count && b != old(pcache).block ==> #[trigger] final(cfg).disk()[b]
            == old(cfg).disk()[b],
{
    lfs_cache_drop(rcache);
    let res = lfs_bd_flush(cfg, block_count, pcache, rcache, validate);
    match res {
        Err(e) => {
            return Err(e);
        },
        Ok(()) => {},
    }
    let ghost d = cfg.disk();
    let r = cfg.context.sync();
    proof {
        assert forall|b: int| 0 <= b < cfg.block_count implies #[trigger] cfg.disk()[b].len() == cfg.block_size by {
            assert(d[b].len() == cfg.block_size);
        }
    }
    r
}

/// The start of the bytes that a program may fill from the cache buffer
/// ahead of `off`: the end of what the cache already holds, or the
/// program-aligned start of a fresh cache window.
pub open spec fn prog_gap_start(pc: LfsCache, block: u32, off: u32, cache_size: u32, prog_size: u32) -> int {
    if pc.block == block && pc.off <= off && off < pc.off + cache_size {
        if off <= pc.off + pc.size { off as int } else { pc.off + pc.size }
    } else {
        spec_aligndown(off as int, prog_size as int)
    }
}

/// Writing out a full program cache leaves every byte of the view as it
/// was.
proof fn lemma_full_flush_keeps_view(disk: Seq<Seq<u8>>, pc: LfsCache, pc2: LfsCache, prog_size: u32, b: int, i: int)
    requires
        pc.block < disk.len(),
        prog_size > 0,
        pc.size == pc.buffer@.len(),
        pc.size % prog_size == 0,
        pc.off + pc.size <= disk[pc.block as int].len(),
        pc2.block == LFS_BLOCK_NULL,
        disk.len() < LFS_BLOCK_NULL,
        0 <= b < disk.len(),
        0 <= i < disk[b].len(),
    ensures
        view_byte(flushed_disk(disk, pc, prog_size), Some(pc2), b, i) == view_byte(disk, Some(pc), b, i),
{
    lemma_alignup_within(pc.size as int, pc.size as int, prog_size as int);
    let n = spec_alignup(pc.size as int, prog_size as int);
    assert(n == pc.size);
}

/// Writing out the program cache changes no byte of the view but the
/// padding that rounds the written bytes up to the program size.
pub proof fn lemma_flush_keeps_view(disk: Seq<Seq<u8>>, pc: LfsCache, pc2: LfsCache, prog_size: u32, b: int, i: int)
    requires
        pc.block < disk.len(),
        prog_size > 0,
        pc.size <= pc.buffer@.len(),
        spec_alignup(pc.size as int, prog_size as int) <= pc.buffer@.len(),
        pc.off + spec_alignup(pc.size as int, prog_size as int) <= disk[pc.block as int].len(),
        pc2.block == LFS_BLOCK_NULL,
        disk.len() < LFS_BLOCK_NULL,
        0 <= b < disk.len(),
        0 <= i < disk[b].len(),
        !(b == pc.block && pc.off + pc.size <= i < pc.off + spec_alignup(pc.size as int, prog_size as int)),
    ensures
        view_byte(flushed_disk(disk, pc, prog_size), Some(pc2), b, i) == view_byte(disk, Some(pc), b, i),
{
}

/// The program cache is ready for a program of `block` at `at` that
/// continues what it holds: it holds `block` up to `at`, with room left,
/// or it is empty and `at` is program-aligned.
pub open spec fn prog_seq(pc: LfsCache, block: u32, at: int, cache_size: u32, prog_size: u32) -> bool {
    ||| pc.block == LFS_BLOCK_NULL && at % (prog_size as int) == 0
    ||| pc.block == block && pc.off <= at < pc.off + cache_size && pc.off + pc.size == at
}

/// A program of `n` bytes at `off` of `block` that lands in the program
/// cache without filling it: nothing reaches the device.
pub open spec fn prog_stays_cached(pc: LfsCache, block: u32, off: u32, n: nat, cache_size: u32, prog_size: u32) -> bool {
    n == 0 || if pc.block == block {
        pc.off <= off && pc.size < cache_size && off + n < pc.off + cache_size
    } else {
        pc.block == LFS_BLOCK_NULL && off + n < spec_aligndown(off as int, prog_size as int) + cache_size
    }
}

/// Programs `buffer` into `block` at offset `off` through the program
/// cache `pcache`, which is written out whenever it fills. Afterwards the
/// view shows the new bytes at `off`; bytes between the start of a fresh
/// cache window (or the end of what the cache held) and `off` take what
/// the cache buffer holds; everything else is unchanged.
#[verifier::rlimit(40)]
pub fn lfs_bd_prog<S: Storage>(
    cfg: &mut LfsConfig<S>,
    block_count: u32,
    pcache: &mut LfsCache,
    rcache: &mut LfsCache,
    validate: bool,
    block: u32,
    off: u32,
    buffer: &[u8],
) -> (r: Result<(), Error>)
    requires
        old(cfg).wf(),
        block_count <= old(cfg).block_count,
        block < block_count || block == LFS_BLOCK_INLINE,
        off + buffer@.len() <= old(cfg).block_size,
        old(pcache).wf(old(cfg).cache_size),
        pcache_fits(*old(pcache), old(cfg).disk()),
        old(pcache).off % old(cfg).prog_size == 0,
        old(pcache).block != LFS_BLOCK_NULL && old(pcache).block != LFS_BLOCK_INLINE ==> old(pcache).block < block_count,
        buffer@.len() > 0 ==> (old(pcache).block == block && old(pcache).off <= off && off < old(pcache).off
            + old(cfg).cache_size) || old(pcache).block == LFS_BLOCK_NULL,
        block == LFS_BLOCK_INLINE ==> (if old(pcache).block == block { old(pcache).off as int } else {
            spec_aligndown(off as int, old(cfg).prog_size as int) }) + old(cfg).cache_size >= off + buffer@.len(),
        old(rcache).wf(old(cfg).cache_size),
        rcache_agrees(*old(rcache), old(cfg).disk()),
    ensures
        r matches Err(e) ==> crate::storage::device_error(e),
        final(cfg).wf(),
        same_params(*final(cfg), *old(cfg)),
        final(pcache).wf(old(cfg).cache_size),
        final(pcache).off % old(cfg).prog_size == 0,
        pcache_fits(*final(pcache), final(cfg).disk()),
        final(pcache).block != LFS_BLOCK_NULL && final(pcache).block != LFS_BLOCK_INLINE ==> final(pcache).block < block_count,
        final(rcache).wf(old(cfg).cache_size),
        !validate ==> *final(rcache) == *old(rcache),
        validate && r is Ok ==> rcache_agrees(*final(rcache), final(cfg).disk()),
        r is Ok ==> forall|i: int| 0 <= i < buffer@.len() ==> #[trigger] view_byte(final(cfg).disk(), Some(*final(pcache)),
            block as int, off + i) == buffer@[i],
        forall|b: int| 0 <= b < old(cfg).block_count && b != block ==> #[trigger] final(cfg).disk()[b]
            == old(cfg).disk()[b],
        r is Ok && block != LFS_BLOCK_INLINE && prog_seq(*old(pcache), block, off as int, old(cfg).cache_size,
            old(cfg).prog_size) ==> prog_seq(*final(pcache), block, off + buffer@.len(), old(cfg).cache_size,
            old(cfg).prog_size),
        r is Ok ==> forall|b: int, i: int|
            0 <= b < old(cfg).block_count && 0 <= i < old(cfg).block_size && !(b == block && prog_gap_start(*old(pcache),
                block, off, old(cfg).cache_size, old(cfg).prog_size) <= i < off + buffer@.len())
                ==> #[trigger] view_byte(final(cfg).disk(), Some(*final(pcache)), b, i) == view_byte(old(cfg).disk(),
                Some(*old(pcache)), b, i),
        old(pcache).block == LFS_BLOCK_NULL || old(pcache).block == block ==> final(pcache).block == LFS_BLOCK_NULL
            || final(pcache).block == block,
        r is Ok && buffer@.len() > 0 && block != LFS_BLOCK_INLINE && final(pcache).block == block ==> final(pcache).off
            <= off + buffer@.len() < final(pcache).off + old(cfg).cache_size,
        r is Ok && buffer@.len() > 0 && final(pcache).block == block ==> final(pcache).off + final(pcache).size >= off
            + buffer@.len(),
        r is Ok && buffer@.len() > 0 && block != LFS_BLOCK_INLINE && (old(pcache).block == block ==> old(pcache).size
            < old(cfg).cache_size) && final(pcache).block == LFS_BLOCK_NULL ==> (off + buffer@.len()) % (old(
            cfg).prog_size as int) == 0,
        r is Ok && block != LFS_BLOCK_INLINE && (old(pcache).block == block ==> old(pcache).size < old(cfg).cache_size)
            && final(pcache).block == block ==> final(pcache).size < old(cfg).cache_size,
        block == LFS_BLOCK_INLINE && old(pcache).block == LFS_BLOCK_INLINE ==> r is Ok,
        block != LFS_BLOCK_INLINE && prog_stays_cached(*old(pcache), block, off, buffer@.len(), old(cfg).cache_size,
            old(cfg).prog_size) ==> r is Ok && *final(rcache) == *old(rcache) && final(cfg).disk() == old(cfg).disk() && (
            buffer@.len() > 0 ==> final(pcache).block == block && final(pcache).off == (if old(pcache).block == block {
            old(pcache).off as int
        } else {
            spec_aligndown(off as int, old(cfg).prog_size as int)
        })),
        block == LFS_BLOCK_INLINE && old(pcache).block == LFS_BLOCK_INLINE && r is Ok ==> {
            &&& final(pcache).block == LFS_BLOCK_INLINE
            &&& final(pcache).off == old(pcache).off
            &&& final(pcache).size >= old(pcache).size
            &&& forall|i: int|
                0 <= i < old(pcache).buffer@.len() && !(off - old(pcache).off <= i < off + buffer@.len() - old(
                    pcache,
                ).off) ==> #[trigger] final(pcache).buffer@[i] == old(pcache).buffer@[i]
        },
        forall|b: int, i: int|
            0 <= b < old(cfg).block_count && 0 <= i < old(cfg).block_size && !(b == block && prog_gap_start(*old(pcache),
                block, off, old(cfg).cache_size, old(cfg).prog_size) <= i) ==> #[trigger] view_byte(
                final(cfg).disk(),
                Some(*final(pcache)),
                b,
                i,
            ) == view_byte(old(cfg).disk(), Some(*old(pcache)), b, i),
{
    let len = len_u32(buffer);
    let ghost disk0 = cfg.disk();
    let ghost pc0 = *pcache;
    let ghost g = prog_gap_start(*pcache, block, off, cfg.cache_size, cfg.prog_size);
    let cache_size = cfg.cache_size;
    let prog_size = cfg.prog_size;
    proof {
        lemma_divides(cfg.block_size as int, cache_size as int, prog_size as int);
        lemma_aligndown_mod(off, prog_size);
        lemma_gap_start_le(pc0, block, off, cache_size, prog_size);
    }
    let mut pos: u32 = 0;
    while pos < len
        invariant
            cfg.wf(),
            same_params(*cfg, *old(cfg)),
            pc0 == *old(pcache),
            pc0.block == LFS_BLOCK_NULL || pc0.block == block ==> pcache.block == LFS_BLOCK_NULL || pcache.block == block,
            block == LFS_BLOCK_INLINE && pc0.block == LFS_BLOCK_INLINE ==> {
                &&& pcache.block == LFS_BLOCK_INLINE
                &&& pcache.off == pc0.off
                &&& pcache.size >= pc0.size
                &&& forall|i: int|
                    0 <= i < pc0.buffer@.len() && !(off - pc0.off <= i < off + pos - pc0.off) ==> #[trigger] pcache.buffer@[i]
                        == pc0.buffer@[i]
            },
            cache_size == cfg.cache_size,
            prog_size == cfg.prog_size,
            cache_size % prog_size == 0,
            0 < prog_size <= cache_size,
            cache_size <= cfg.block_size,
            cfg.block_size % prog_size == 0,
            block_count <= cfg.block_count,
            block < block_count || block == LFS_BLOCK_INLINE,
            len == buffer@.len(),
            pos <= len,
            off + len <= cfg.block_size,
            pcache.wf(cache_size),
            pcache_fits(*pcache, cfg.disk()),
            pcache.off % prog_size == 0,
            pcache.block != LFS_BLOCK_NULL && pcache.block != LFS_BLOCK_INLINE ==> pcache.block < block_count,
            g == prog_gap_start(pc0, block, off, cache_size, prog_size),
            g <= off,
            pos == 0 ==> cfg.disk() == disk0 && (*pcache == pc0 || (pc0.block == LFS_BLOCK_NULL && pcache.block
                == block && pcache.off == spec_aligndown(off as int, prog_size as int) && pcache.size == 0)),
            pos == 0 && len > 0 && *pcache == pc0 ==> (pc0.block == block && pc0.off <= off && off
                < pc0.off + cache_size || pc0.block == LFS_BLOCK_NULL),
            pos < len && pcache.block == block ==> pcache.off <= cfg.block_size,
            block != LFS_BLOCK_INLINE && pos > 0 && pcache.block == block ==> pcache.off <= off + pos < pcache.off
                + cache_size,
            pos > 0 && pcache.block == block ==> pcache.off + pcache.size >= off + pos,
            block != LFS_BLOCK_INLINE && (pc0.block == block ==> pc0.size < cache_size) && pcache.block == block
                ==> pcache.size < cache_size,
            block != LFS_BLOCK_INLINE && (pc0.block == block ==> pc0.size < cache_size) && pos > 0 && pcache.block
                == LFS_BLOCK_NULL ==> (off + pos) % (prog_size as int) == 0,
            0 < pos < len ==> (off + pos) % (prog_size as int) == 0 && (pcache.block == LFS_BLOCK_NULL || (pcache.block
                == block && pcache.off == off + pos && pcache.size == 0)),
            block == LFS_BLOCK_INLINE ==> (if pc0.block == block { pc0.off as int } else {
                spec_aligndown(off as int, prog_size as int) }) + cache_size >= off + len,
            block == LFS_BLOCK_INLINE ==> pos == 0 || pos == len,
            block == LFS_BLOCK_INLINE && pos == 0 ==> pcache.block == block ==> pcache.off == (if pc0.block == block { pc0.off as int } else {
                spec_aligndown(off as int, prog_size as int) }),
            rcache.wf(cache_size),
            !validate ==> *rcache == *old(rcache),
            block != LFS_BLOCK_INLINE && prog_stays_cached(pc0, block, off, len as nat, cache_size, prog_size) ==> (pos
                == 0 || pos == len) && *rcache == *old(rcache) && cfg.disk() == disk0 && (pos > 0 ==> pcache.block == block
                && pcache.off == (if pc0.block == block { pc0.off as int } else { spec_aligndown(off as int, prog_size as int) })),
            validate ==> rcache_agrees(*rcache, cfg.disk()),
            disk0 == old(cfg).disk(),
            forall|b: int| 0 <= b < old(cfg).block_count && b != block ==> #[trigger] cfg.disk()[b] == disk0[b],
            block != LFS_BLOCK_INLINE && prog_seq(pc0, block, off as int, cache_size, prog_size) ==> prog_seq(*pcache, block,
                off + pos, cache_size, prog_size),
            forall|i: int| 0 <= i < pos ==> #[trigger] view_byte(cfg.disk(), Some(*pcache), block as int, off + i) == buffer@[i],
            forall|b: int, i: int|
                0 <= b < cfg.block_count && 0 <= i < cfg.block_size && !(b == block && g <= i < off + pos)
                    ==> #[trigger] view_byte(cfg.disk(), Some(*pcache), b, i) == view_byte(disk0, Some(pc0), b, i),
        decreases (len - pos) * 2 + (if pcache.block == block { 0int } else { 1int }),
    {
        let cur = off + pos;
        if block == pcache.block && cur >= pcache.off && cur < pcache.off + cache_size {
            let ghost pcb = *pcache;
            let ghost db = cfg.disk();
            let ghost pos0 = pos;
            let diff = lfs_min(len - pos, cache_size - (cur - pcache.off));
            copy_into_vec(&mut pcache.buffer, to_usize(cur - pcache.off), buffer, to_usize(pos), to_usize(diff));
            pos = pos + diff;
            pcache.size = lfs_max(pcache.size, off + pos - pcache.off);
            assert(pos < len ==> off + pos == pcb.off + cache_size && pcache.size == cache_size);
            proof {
                lemma_prog_copy_view(db, pcb, *pcache, block, off, cur, diff, pos, g, buffer@, cfg.block_size, cfg.block_count);
                assert forall|i: int| 0 <= i < pos implies #[trigger] view_byte(cfg.disk(), Some(*pcache), block as int, off + i)
                    == buffer@[i] by {
                    if i < pos0 {
                        assert(view_byte(db, Some(pcb), block as int, off + i) == buffer@[i]);
                    }
                }
            }
            if pcache.size == cache_size {
                let ghost pcf = *pcache;
                let ghost df = cfg.disk();
                let res = lfs_bd_flush(cfg, block_count, pcache, rcache, validate);
                proof {
                    assert forall|b: int| 0 <= b < old(cfg).block_count && b != block implies #[trigger] cfg.disk()[b]
                        == disk0[b] by {
                        assert(df[b] == disk0[b]);
                    }
                }
                match res {
                    Err(e) => {
                        proof {
                            assert forall|b: int, i: int|
                                0 <= b < old(cfg).block_count && 0 <= i < old(cfg).block_size && !(b == block && g <= i)
                                    implies #[trigger] view_byte(cfg.disk(), Some(*pcache), b, i) == view_byte(disk0,
                                Some(pc0), b, i) by {
                                assert(view_byte(cfg.disk(), Some(*pcache), b, i) == view_byte(df, Some(pcf), b, i));
                            }
                        }
                        return Err(e);
                    },
                    Ok(()) => {},
                }
                proof {
                    if block != LFS_BLOCK_INLINE {
                        assert forall|b: int, i: int| 0 <= b < cfg.block_count && 0 <= i < cfg.block_size
                            implies #[trigger] view_byte(cfg.disk(), Some(*pcache), b, i) == view_byte(df, Some(pcf), b, i) by {
                            lemma_full_flush_keeps_view(df, pcf, *pcache, prog_size, b, i);
                        }
                        assert forall|i: int| 0 <= i < pos implies #[trigger] view_byte(cfg.disk(), Some(*pcache), block as int, off + i)
                            == buffer@[i] by {
                            lemma_full_flush_keeps_view(df, pcf, *pcache, prog_size, block as int, off + i);
                        }
                        lemma_next_window_aligned(pcf.off, cache_size, prog_size);
                        if pos < len || (pc0.block == block ==> pc0.size < cache_size) {
                            assert(off + pos == pcf.off + cache_size);
                        }
                    }
                }
            }
            continue;
        }
        let ghost pcr = *pcache;
        assert(pos > 0 ==> pcr.block == LFS_BLOCK_NULL);
        pcache.block = block;
        pcache.off = aligndown32(cur, prog_size);
        pcache.size = 0;
        proof {
            lemma_aligndown_mod(cur, prog_size);
            assert forall|b: int, i: int| 0 <= b < cfg.block_count && 0 <= i < cfg.block_size
                implies #[trigger] view_byte(cfg.disk(), Some(*pcache), b, i) == view_byte(cfg.disk(), Some(pcr), b, i) by {
            }
            assert forall|i: int| 0 <= i < pos implies #[trigger] view_byte(cfg.disk(), Some(*pcache), block as int, off + i)
                == buffer@[i] by {
                assert(view_byte(cfg.disk(), Some(pcr), block as int, off + i) == buffer@[i]);
            }
        }
    }
    Ok(())
}

proof fn lemma_gap_start_le(pc: LfsCache, block: u32, off: u32, cache_size: u32, prog_size: u32)
    requires
        prog_size > 0,
    ensures
        prog_gap_start(pc, block, off, cache_size, prog_size) <= off,
{
    lemma_aligndown_mod(off, prog_size);
    lemma_mod_bound(off as int, prog_size as int);
}

proof fn lemma_aligndown_mod(x: u32, m: u32)
    requires
        m > 0,
    ensures
        spec_aligndown(x as int, m as int) % (m as int) == 0,
        0 <= spec_aligndown(x as int, m as int) <= x,
        x - spec_aligndown(x as int, m as int) < m,
        x % m == 0 ==> spec_aligndown(x as int, m as int) == x,
{
    lemma_aligndown(x as int, m as int);
}

proof fn lemma_next_window_aligned(o: u32, cache_size: u32, prog_size: u32)
    requires
        prog_size > 0,
        o % prog_size == 0,
        cache_size % prog_size == 0,
    ensures
        (o + cache_size) % (prog_size as int) == 0,
{
    lemma_fundamental_div_mod(o as int, prog_size as int);
    lemma_fundamental_div_mod(cache_size as int, prog_size as int);
    assert(o + cache_size == (o as int / prog_size as int + cache_size as int / prog_size as int) * prog_size)
        by (nonlinear_arith)
        requires o == prog_size * (o as int / prog_size as int), cache_size == prog_size * (cache_size as int / prog_size as int);
    lemma_mod_multiples_basic(o as int / prog_size as int + cache_size as int / prog_size as int, prog_size as int);
}

/// The view after one copy into the program cache.
proof fn lemma_prog_copy_view(
    disk: Seq<Seq<u8>>,
    pcb: LfsCache,
    pca: LfsCache,
    block: u32,
    off: u32,
    cur: u32,
    diff: u32,
    pos: u32,
    g: int,
    data: Seq<u8>,
    block_size: u32,
    block_count: u32,
)
    requires
        pcb.block == block,
        pca.block == block,
        pca.off == pcb.off,
        pcb.off <= cur,
        diff > 0,
        diff <= pos,
        cur == off + (pos - diff),
        pos <= data.len(),
        pcb.size <= pcb.buffer@.len(),
        pcb.buffer@.len() == pca.buffer@.len(),
        cur - pcb.off + diff <= pcb.buffer@.len(),
        forall|k: int| 0 <= k < pca.buffer@.len() ==> #[trigger] pca.buffer@[k] == (if cur - pcb.off <= k < cur - pcb.off + diff {
            data[(pos - diff) + k - (cur - pcb.off)]
        } else {
            pcb.buffer@[k]
        }),
        pca.size == (if pcb.size > off + pos - pcb.off { pcb.size as int } else { off + pos - pcb.off }),
        g <= off,
        pos - diff > 0 ==> pcb.off == cur && pcb.size == 0,
        pos - diff == 0 ==> (pcb.off + pcb.size < cur ==> g <= pcb.off + pcb.size) && g <= pcb.off + pcb.size + 1 + cur,
        pos - diff == 0 && cur <= pcb.off + pcb.size ==> true,
    ensures
        forall|i: int| 0 <= i < pos - diff ==> #[trigger] view_byte(disk, Some(pca), block as int, off + i) == view_byte(disk, Some(pcb), block as int, off + i),
        forall|i: int| pos - diff <= i < pos ==> #[trigger] view_byte(disk, Some(pca), block as int, off + i) == data[i],
        forall|b: int, i: int| !(b == block && g <= i < off + pos)
                ==> #[trigger] view_byte(disk, Some(pca), b, i) == view_byte(disk, Some(pcb), b, i),
{
    assert forall|i: int| pos - diff <= i < pos implies #[trigger] view_byte(disk, Some(pca), block as int, off + i) == data[i] by {
        assert(pca.buffer@[off + i - pca.off] == data[i]);
    }
}

} // verus!
