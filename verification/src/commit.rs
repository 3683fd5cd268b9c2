//! Appending to a metadata pair's log: tags and their data, each tag
//! stored XORed with the one before it, and the CRC tags that close a
//! commit.

use vstd::prelude::*;
use crate::bd::{lfs_bd_prog, rcache_agrees, pcache_fits, prog_seq, prog_stays_cached, view_byte, view_range,
    same_params};
use crate::crc::{spec_crc, lfs_crc, lemma_crc_concat};
use crate::ctz::{lfs_read_ready, lemma_prog_seq_gap_pub};
use crate::error::Error;
use crate::lfs::Lfs;
use crate::storage::Storage;
use crate::types::LFS_BLOCK_NULL;
use crate::bd::{lfs_bd_read, lfs_bd_sync, lfs_bd_crc, view_range32, spec_alignup, alignup32, lemma_alignup_within,
    lemma_cfg_sizes};
use crate::endian::le32_to_bytes;
use crate::lfs_type::LFS_TYPE_CCRC;
use crate::tag::lfs_mktag;
use crate::util::{lfs_min, spec_aligndown, lemma_aligndown};
use crate::block_alloc::{la_wf, la_sound, blocks_valid, lfs_alloc};
use crate::dir::LfsMdir;
use crate::endian::{spec_le32, le32_from_bytes};
use crate::bd::rcache_serves;
use crate::bd::{prog_gap_start, lemma_flush_keeps_view, lemma_flush_bounds};
use vstd::arithmetic::div_mod::{lemma_fundamental_div_mod, lemma_mod_multiples_basic};
use crate::dir_get::spec_tag_dsize;
use crate::endian::{spec_be32_bytes, be32_to_bytes};
use crate::tag::{lfs_diskoff, lfs_tag_dsize, lfs_tag_isvalid};

verus! {

/// A commit in progress: the block written, the offset reached, the last
/// tag written, the running CRC, and the range the commit may fill.
pub struct LfsCommit {
    pub block: u32,
    pub off: u32,
    pub ptag: u32,
    pub crc: u32,
    pub begin: u32,
    pub end: u32,
}

/// The filesystem can go on with the commit: the program cache is empty
/// or holds the commit's block up to its offset, and the read cache holds
/// another block, as the device has it.
pub open spec fn commit_ready<S: Storage>(lfs: Lfs<S>, commit: LfsCommit) -> bool {
    &&& lfs_read_ready(lfs)
    &&& commit.block < lfs.block_count
    &&& commit.begin <= commit.off <= lfs.cfg.block_size
    &&& commit.end <= lfs.cfg.block_size
    &&& lfs.pcache.wf(lfs.cfg.cache_size)
    &&& lfs.pcache.off % lfs.cfg.prog_size == 0
    &&& pcache_fits(lfs.pcache, lfs.cfg.disk())
    &&& (lfs.pcache.block == LFS_BLOCK_NULL || lfs.pcache.block == commit.block)
    &&& prog_seq(lfs.pcache, commit.block, commit.off as int, lfs.cfg.cache_size, lfs.cfg.prog_size)
    &&& lfs.rcache.wf(lfs.cfg.cache_size)
    &&& rcache_agrees(lfs.rcache, lfs.cfg.disk())
    &&& lfs.rcache.block != commit.block
}

/// The bytes the commit has written so far, as the filesystem sees them.
pub open spec fn commit_bytes<S: Storage>(lfs: Lfs<S>, commit: LfsCommit) -> Seq<u8> {
    view_range(lfs.cfg.disk(), Some(lfs.pcache), commit.block as int, commit.begin as int, commit.off - commit.begin)
}

/// Two states differ at most in the device and the program cache.
pub open spec fn same_but_prog<S>(a: Lfs<S>, b: Lfs<S>) -> bool {
    &&& same_params(a.cfg, b.cfg)
    &&& a == (Lfs { cfg: a.cfg, pcache: a.pcache, ..b })
}

/// Programs `buffer` at the commit's offset and folds it into the
/// commit's CRC.
pub fn lfs_dir_commitprog<S: Storage>(lfs: &mut Lfs<S>, commit: &mut LfsCommit, buffer: &[u8]) -> (r: Result<(), Error>)
    requires
        commit_ready(*old(lfs), *old(commit)),
        old(commit).off + buffer@.len() <= old(lfs).cfg.block_size,
    ensures
        same_but_prog(*final(lfs), *old(lfs)),
        lfs_read_ready(*final(lfs)),
        final(lfs).pcache.wf(old(lfs).cfg.cache_size),
        forall|b: int| 0 <= b < old(lfs).cfg.block_count && b != old(commit).block ==> #[trigger] final(lfs).cfg.disk()[b]
            == old(lfs).cfg.disk()[b],
        r matches Err(e) ==> crate::storage::device_error(e) && *final(commit) == *old(commit),
        r is Ok ==> commit_ready(*final(lfs), *final(commit)) && *final(commit) == (LfsCommit {
            off: (old(commit).off + buffer@.len()) as u32,
            crc: spec_crc(old(commit).crc, buffer@),
            ..*old(commit)
        }) && commit_bytes(*final(lfs), *final(commit)) == commit_bytes(*old(lfs), *old(commit)) + buffer@,
        prog_stays_cached(old(lfs).pcache, old(commit).block, old(commit).off, buffer@.len(), old(lfs).cfg.cache_size,
            old(lfs).cfg.prog_size) ==> r is Ok,
{
    let ghost l0 = *lfs;
    let bc = lfs.block_count;
    proof {
        lemma_prog_seq_gap_pub(lfs.pcache, commit.block, commit.off, lfs.cfg.cache_size, lfs.cfg.prog_size);
    }
    let res = lfs_bd_prog(&mut lfs.cfg, bc, &mut lfs.pcache, &mut lfs.rcache, false, commit.block, commit.off, buffer);
    match res {
        Err(e) => {
            return Err(e);
        },
        Ok(()) => {},
    }
    proof {
        let rb = lfs.rcache.block;
        if rb < lfs.cfg.disk().len() {
            assert(lfs.cfg.disk()[rb as int] == l0.cfg.disk()[rb as int]);
        }
    }
    let ghost c0 = *commit;
    commit.crc = lfs_crc(commit.crc, buffer);
    commit.off = commit.off + buffer.len() as u32;
    proof {
        let a = commit_bytes(l0, c0);
        let b = commit_bytes(*lfs, *commit);
        assert forall|k: int| 0 <= k < b.len() implies b[k] == (a + buffer@)[k] by {
            if k < a.len() {
                assert(view_byte(lfs.cfg.disk(), Some(lfs.pcache), c0.block as int, c0.begin + k) == view_byte(
                    l0.cfg.disk(), Some(l0.pcache), c0.block as int, c0.begin + k));
            } else {
                assert(view_byte(lfs.cfg.disk(), Some(lfs.pcache), c0.block as int, c0.off + (k - a.len())) == buffer@[k
                    - a.len()]);
            }
        }
        assert(b =~= a + buffer@);
    }
    Ok(())
}

/// Two states differ at most in the device and the caches.
pub open spec fn same_but_caches<S>(a: Lfs<S>, b: Lfs<S>) -> bool {
    &&& same_params(a.cfg, b.cfg)
    &&& a == (Lfs { cfg: a.cfg, pcache: a.pcache, rcache: a.rcache, ..b })
}

/// The data of an attribute: the first bytes of `buffer` for a valid tag,
/// else as many bytes of the device from `at`.
pub open spec fn attr_data(disk: Seq<Seq<u8>>, tag: u32, buffer: Seq<u8>, at: lfs_diskoff) -> Seq<u8> {
    let n = spec_tag_dsize(tag) - 4;
    if tag & 0x8000_0000u32 == 0 {
        buffer.subrange(0, n)
    } else {
        view_range(disk, None, at.block as int, at.off as int, n)
    }
}

/// The bytes an attribute adds to a commit: its tag XORed with the tag
/// before it, big-endian, then its data.
pub open spec fn attr_bytes(disk: Seq<Seq<u8>>, ptag: u32, tag: u32, buffer: Seq<u8>, at: lfs_diskoff) -> Seq<u8> {
    spec_be32_bytes((tag & 0x7fff_ffffu32) ^ ptag) + attr_data(disk, tag, buffer, at)
}

/// Appends an attribute to the commit: its tag, stored XORed with the
/// previous one, and its data, taken from `buffer` when the tag is valid
/// and copied from the device at `disk` when it is not. An attribute that
/// does not fit before the commit's end is refused.
pub fn lfs_dir_commitattr<S: Storage>(
    lfs: &mut Lfs<S>,
    commit: &mut LfsCommit,
    tag: u32,
    buffer: &[u8],
    disk: &lfs_diskoff,
) -> (r: Result<(), Error>)
    requires
        commit_ready(*old(lfs), *old(commit)),
        tag & 0x8000_0000u32 == 0 ==> buffer@.len() >= spec_tag_dsize(tag) - 4,
        tag & 0x8000_0000u32 != 0 ==> disk.block != old(commit).block && disk.off + spec_tag_dsize(tag) + old(
            lfs,
        ).cfg.read_size <= u32::MAX,
    ensures
        same_but_caches(*final(lfs), *old(lfs)),
        lfs_read_ready(*final(lfs)),
        final(lfs).pcache.wf(old(lfs).cfg.cache_size),
        final(lfs).rcache.wf(old(lfs).cfg.cache_size),
        forall|b: int| 0 <= b < old(lfs).cfg.block_count && b != old(commit).block ==> #[trigger] final(lfs).cfg.disk()[b]
            == old(lfs).cfg.disk()[b],
        old(commit).off + spec_tag_dsize(tag) > old(commit).end ==> r == Err::<(), Error>(Error::NoSpace) && *final(lfs)
            == *old(lfs) && *final(commit) == *old(commit),
        r matches Err(e) ==> e == Error::NoSpace || crate::storage::device_error(e),
        r == Err::<(), Error>(Error::NoSpace) ==> old(commit).off + spec_tag_dsize(tag) > old(commit).end,
        r is Ok ==> {
            let bytes = attr_bytes(old(lfs).cfg.disk(), old(commit).ptag, tag, buffer@, *disk);
            &&& commit_ready(*final(lfs), *final(commit))
            &&& *final(commit) == (LfsCommit {
                off: (old(commit).off + spec_tag_dsize(tag)) as u32,
                ptag: tag & 0x7fff_ffffu32,
                crc: spec_crc(old(commit).crc, bytes),
                ..*old(commit)
            })
            &&& commit_bytes(*final(lfs), *final(commit)) == commit_bytes(*old(lfs), *old(commit)) + bytes
        },
{
    let dsize = lfs_tag_dsize(tag);
    if commit.off + dsize > commit.end {
        return Err(Error::NoSpace);
    }
    let ghost l0 = *lfs;
    let ghost c0 = *commit;
    let tb = be32_to_bytes((tag & 0x7fff_ffff) ^ commit.ptag);
    let tv: Vec<u8> = vec![tb[0], tb[1], tb[2], tb[3]];
    proof {
        assert(tv@ =~= tb@);
    }
    let res = lfs_dir_commitprog(lfs, commit, tv.as_slice());
    match res {
        Err(e) => {
            return Err(e);
        },
        Ok(()) => {},
    }
    let ghost l1 = *lfs;
    let ghost c1 = *commit;
    let n = dsize - 4;
    let ghost data = attr_data(l0.cfg.disk(), tag, buffer@, *disk);
    if lfs_tag_isvalid(tag) {
        let mut dv: Vec<u8> = Vec::new();
        let mut k: u32 = 0;
        while k < n
            invariant
                k <= n,
                n <= buffer@.len(),
                dv@ == buffer@.subrange(0, k as int),
            decreases n - k,
        {
            dv.push(buffer[k as usize]);
            k = k + 1;
            proof {
                assert(dv@ =~= buffer@.subrange(0, k as int));
            }
        }
        let res = lfs_dir_commitprog(lfs, commit, dv.as_slice());
        match res {
            Err(e) => {
                return Err(e);
            },
            Ok(()) => {},
        }
        proof {
            assert(dv@ == data);
        }
    } else {
        let bc = lfs.block_count;
        let mut i: u32 = 0;
        while i < n
            invariant
                i <= n,
                n == spec_tag_dsize(tag) - 4,
                tag & 0x8000_0000u32 != 0,
                data == view_range(l0.cfg.disk(), None, disk.block as int, disk.off as int, n as int),
                disk.block != c0.block,
                disk.off + n + 4 + lfs.cfg.read_size <= u32::MAX,
                bc == lfs.block_count,
                l0 == *old(lfs),
                c0 == *old(commit),
                c1.off == c0.off + 4,
                c1.end == c0.end,
                c1.block == c0.block,
                commit_ready(*lfs, *commit),
                same_but_caches(*lfs, l0),
                c1.off + n <= c1.end,
                c1.end <= lfs.cfg.block_size,
                *commit == (LfsCommit { off: (c1.off + i) as u32, crc: spec_crc(c1.crc, data.subrange(0, i as int)), ..c1 }),
                commit_bytes(*lfs, *commit) == commit_bytes(l1, c1) + data.subrange(0, i as int),
                forall|b: int| 0 <= b < l0.cfg.block_count && b != c0.block ==> #[trigger] lfs.cfg.disk()[b]
                    == l0.cfg.disk()[b],
            decreases n - i,
        {
            let mut dat: Vec<u8> = vec![0u8];
            let ghost lb = *lfs;
            let res = lfs_bd_read(&mut lfs.cfg, bc, None, &mut lfs.rcache, n - i, disk.block, disk.off + i,
                dat.as_mut_slice());
            match res {
                Err(e) => {
                    return Err(e);
                },
                Ok(()) => {},
            }
            proof {
                assert(lb.cfg.disk()[disk.block as int] == l0.cfg.disk()[disk.block as int]);
                assert(dat@[0] == data[i as int]);
            }
            let ghost cb = *commit;
            let ghost lr = *lfs;
            let res = lfs_dir_commitprog(lfs, commit, dat.as_slice());
            match res {
                Err(e) => {
                    return Err(e);
                },
                Ok(()) => {},
            }
            proof {
                assert(dat@ =~= data.subrange(i as int, i + 1));
                lemma_crc_concat(c1.crc, data.subrange(0, i as int), dat@);
                assert(data.subrange(0, i as int) + dat@ =~= data.subrange(0, i + 1));
                assert forall|b: int| 0 <= b < l0.cfg.block_count && b != c0.block implies #[trigger] lfs.cfg.disk()[b]
                    == l0.cfg.disk()[b] by {
                    assert(lr.cfg.disk()[b] == lb.cfg.disk()[b]);
                }
                assert(commit_bytes(l1, c1) + data.subrange(0, i as int) + dat@ =~= commit_bytes(l1, c1)
                    + data.subrange(0, i + 1));
            }
            i = i + 1;
        }
        proof {
            assert(data.subrange(0, n as int) =~= data);
        }
    }
    commit.ptag = tag & 0x7fff_ffff;
    proof {
        lemma_crc_concat(c0.crc, tb@, data);
        assert(commit_bytes(l0, c0) + tb@ + data =~= commit_bytes(l0, c0) + (tb@ + data));
    }
    Ok(())
}

/// A multiple of `m` at most `y` is at most `y` rounded down to a
/// multiple of `m`.
proof fn lemma_aligned_le_aligndown(x: int, y: int, m: int)
    requires
        0 <= x <= y,
        0 < m,
        x % m == 0,
    ensures
        x <= spec_aligndown(y, m),
{
    lemma_aligndown(y, m);
    let d = spec_aligndown(y, m);
    lemma_fundamental_div_mod(x, m);
    lemma_fundamental_div_mod(d, m);
    let qx = x / m;
    let qd = d / m;
    if d < x {
        assert(qd < qx) by (nonlinear_arith)
            requires
                d == m * qd,
                x == m * qx,
                d < x,
                m > 0,
        ;
        assert(x >= d + m) by (nonlinear_arith)
            requires
                d == m * qd,
                x == m * qx,
                qd < qx,
                m > 0,
        ;
    }
}

/// The sum of two multiples of `m` is one.
proof fn lemma_add_aligned(a: int, b: int, m: int)
    requires
        0 <= a,
        0 <= b,
        0 < m,
        a % m == 0,
        b % m == 0,
    ensures
        (a + b) % m == 0,
{
    lemma_fundamental_div_mod(a, m);
    lemma_fundamental_div_mod(b, m);
    assert(a + b == m * (a / m + b / m)) by (nonlinear_arith)
        requires
            a == m * (a / m),
            b == m * (b / m),
    ;
    lemma_mod_multiples_basic(a / m + b / m, m);
    assert(m * (a / m + b / m) == (a / m + b / m) * m) by (nonlinear_arith);
}

/// Where the CRC tags that close a commit at `off` end: 20 bytes on, or
/// the end of the block, rounded up to a whole program unit.
pub open spec fn crc_end(off: u32, block_size: u32, prog_size: u32) -> int {
    spec_alignup(if off + 20 < block_size { off + 20 } else { block_size as int }, prog_size as int)
}

/// Closes the commit: CRC tags, each holding the CRC of what came before
/// it, pad the commit to the end of a program unit; a tag whose padding
/// spans more than its size field allows is followed by another. The
/// block is then written out and the first CRC is checked against what
/// the device holds, a mismatch being reported as `Corrupt`.
pub fn lfs_dir_commitcrc<S: Storage>(lfs: &mut Lfs<S>, commit: &mut LfsCommit) -> (r: Result<(), Error>)
    requires
        commit_ready(*old(lfs), *old(commit)),
        old(commit).off + 8 <= old(lfs).cfg.block_size,
    ensures
        same_but_caches(*final(lfs), *old(lfs)),
        lfs_read_ready(*final(lfs)),
        final(lfs).pcache.wf(old(lfs).cfg.cache_size),
        final(lfs).rcache.wf(old(lfs).cfg.cache_size),
        forall|b: int| 0 <= b < old(lfs).cfg.block_count && b != old(commit).block ==> #[trigger] final(lfs).cfg.disk()[b]
            == old(lfs).cfg.disk()[b],
        r matches Err(e) ==> crate::storage::device_error(e),
        r is Ok ==> {
            &&& final(lfs).pcache.block == LFS_BLOCK_NULL
            &&& rcache_agrees(final(lfs).rcache, final(lfs).cfg.disk())
            &&& *final(commit) == (LfsCommit {
                off: crc_end(old(commit).off, old(lfs).cfg.block_size, old(lfs).cfg.prog_size) as u32,
                ptag: final(commit).ptag,
                crc: 0xffff_ffffu32,
                ..*old(commit)
            })
            &&& final(commit).off % old(lfs).cfg.prog_size == 0
            &&& view_range(final(lfs).cfg.disk(), None, old(commit).block as int, old(commit).begin as int, old(
                commit).off - old(commit).begin) == commit_bytes(*old(lfs), *old(commit))
            &&& spec_crc(0xffff_ffffu32, view_range(final(lfs).cfg.disk(), None, old(commit).block as int,
                old(commit).begin as int, old(commit).off + 8 - old(commit).begin)) == 0
        },
{
    let ghost l0 = *lfs;
    let ghost c0 = *commit;
    proof {
        lemma_cfg_sizes(lfs.cfg);
    }
    let block_size = lfs.cfg.block_size;
    let prog_size = lfs.cfg.prog_size;
    let cache_size = lfs.cfg.cache_size;
    let bc = lfs.block_count;
    let lim = lfs_min(commit.off + 20, block_size);
    proof {
        lemma_alignup_within(lim as int, block_size as int, prog_size as int);
    }
    let end = alignup32(lim, prog_size);
    let mut off1: u32 = 0;
    let mut crc1: u32 = 0;
    while commit.off < end
        invariant
            l0 == *old(lfs),
            c0 == *old(commit),
            block_size == lfs.cfg.block_size,
            prog_size == lfs.cfg.prog_size,
            cache_size == lfs.cfg.cache_size,
            bc == lfs.block_count,
            prog_size <= cache_size <= block_size,
            block_size % prog_size == 0,
            end == crc_end(c0.off, block_size, prog_size),
            end % prog_size == 0,
            20 <= end <= block_size,
            c0.off + 8 <= end,
            same_but_caches(*lfs, l0),
            lfs_read_ready(*lfs),
            c0.block < bc,
            *commit == (LfsCommit { off: commit.off, ptag: commit.ptag, crc: commit.crc, ..c0 }),
            c0.off <= commit.off <= end,
            commit.off < end ==> commit.off + 8 <= end,
            commit.off == c0.off ==> off1 == 0,
            commit.off > c0.off ==> off1 == c0.off + 4 && commit.crc == 0xffff_ffffu32,
            lfs.pcache.wf(cache_size),
            lfs.pcache.off % prog_size == 0,
            pcache_fits(lfs.pcache, lfs.cfg.disk()),
            lfs.pcache.block == LFS_BLOCK_NULL || (lfs.pcache.block == c0.block && (commit.off < end ==> lfs.pcache.off
                <= commit.off < lfs.pcache.off + cache_size)),
            commit.off >= end ==> lfs.pcache.block == LFS_BLOCK_NULL,
            lfs.rcache.wf(cache_size),
            rcache_agrees(lfs.rcache, lfs.cfg.disk()),
            commit.off < end ==> lfs.rcache.block != c0.block,
            forall|b: int| 0 <= b < l0.cfg.block_count && b != c0.block ==> #[trigger] lfs.cfg.disk()[b]
                == l0.cfg.disk()[b],
            commit_ready(l0, c0),
            forall|i: int| c0.begin <= i < c0.off ==> #[trigger] view_byte(lfs.cfg.disk(), Some(lfs.pcache), c0.block as int, i)
                == view_byte(l0.cfg.disk(), Some(l0.pcache), c0.block as int, i),
            commit.off == c0.off ==> lfs.pcache == l0.pcache,
            commit.off > c0.off && lfs.pcache.block == c0.block ==> lfs.pcache.off + lfs.pcache.size >= c0.off
                && lfs.pcache.size < cache_size,
            commit.off > c0.off && commit.off < end && lfs.pcache.block == LFS_BLOCK_NULL ==> spec_aligndown(
                commit.off as int, prog_size as int) >= c0.off,
        decreases end - commit.off,
    {
        let noff0 = lfs_min(end - (commit.off + 4), 0x3fe) + (commit.off + 4);
        let noff = if noff0 < end { lfs_min(noff0, end - 20) } else { noff0 };
        let mut eperturb: Vec<u8> = vec![0xffu8];
        proof {
            lemma_cfg_sizes(lfs.cfg);
            assert(eperturb@.len() == 1);
        }
        if noff >= end && noff <= block_size - prog_size {
            let ret = lfs_bd_read(&mut lfs.cfg, bc, None, &mut lfs.rcache, prog_size, commit.block, noff,
                eperturb.as_mut_slice());
            match ret {
                Err(e) => {
                    if e != Error::Corrupt {
                        return Err(e);
                    }
                },
                Ok(()) => {},
            }
        }
        let ep = eperturb[0];
        let valid_bit: u32 = if ep & 0x80 == 0 { 1 } else { 0 };
        let ntag = lfs_mktag(LFS_TYPE_CCRC + valid_bit, 0x3ff, noff - (commit.off + 4));
        let tb = be32_to_bytes(ntag ^ commit.ptag);
        let tv: Vec<u8> = vec![tb[0], tb[1], tb[2], tb[3]];
        commit.crc = lfs_crc(commit.crc, tv.as_slice());
        let cb = le32_to_bytes(commit.crc);
        let ccrc: Vec<u8> = vec![tb[0], tb[1], tb[2], tb[3], cb[0], cb[1], cb[2], cb[3]];
        let ghost lb = *lfs;
        let res = lfs_bd_prog(&mut lfs.cfg, bc, &mut lfs.pcache, &mut lfs.rcache, false, commit.block, commit.off,
            ccrc.as_slice());
        match res {
            Err(e) => {
                return Err(e);
            },
            Ok(()) => {},
        }
        proof {
            let rb = lfs.rcache.block;
            if rb < lfs.cfg.disk().len() && rb != c0.block {
                assert(lfs.cfg.disk()[rb as int] == lb.cfg.disk()[rb as int]);
            }
            assert forall|b: int| 0 <= b < l0.cfg.block_count && b != c0.block implies #[trigger] lfs.cfg.disk()[b]
                == l0.cfg.disk()[b] by {
                assert(lfs.cfg.disk()[b] == lb.cfg.disk()[b]);
            }
            let g = prog_gap_start(lb.pcache, c0.block, commit.off, cache_size, prog_size);
            if commit.off == c0.off {
                lemma_prog_seq_gap_pub(lb.pcache, c0.block, commit.off, cache_size, prog_size);
            }
            assert(g >= c0.off);
            assert forall|i: int| c0.begin <= i < c0.off implies #[trigger] view_byte(lfs.cfg.disk(), Some(lfs.pcache),
                c0.block as int, i) == view_byte(l0.cfg.disk(), Some(l0.pcache), c0.block as int, i) by {
                assert(view_byte(lfs.cfg.disk(), Some(lfs.pcache), c0.block as int, i) == view_byte(lb.cfg.disk(), Some(
                    lb.pcache), c0.block as int, i));
            }
        }
        let ghost lp = *lfs;
        let ghost poff = commit.off;
        if off1 == 0 {
            off1 = commit.off + 4;
            crc1 = commit.crc;
        }
        commit.off = noff;
        commit.ptag = ntag ^ (if ep & 0x80 == 0 { 0x8000_0000u32 } else { 0u32 });
        commit.crc = 0xffff_ffff;
        if noff >= end || noff as u64 >= lfs.pcache.off as u64 + cache_size as u64 {
            let ghost ls = *lfs;
            let res = lfs_bd_sync(&mut lfs.cfg, bc, &mut lfs.pcache, &mut lfs.rcache, false);
            match res {
                Err(e) => {
                    return Err(e);
                },
                Ok(()) => {},
            }
            proof {
                assert forall|b: int| 0 <= b < l0.cfg.block_count && b != c0.block implies #[trigger] lfs.cfg.disk()[b]
                    == l0.cfg.disk()[b] by {
                    assert(lfs.cfg.disk()[b] == ls.cfg.disk()[b]);
                }
                let pc = ls.pcache;
                if pc.block == c0.block {
                    lemma_flush_bounds(block_size, cache_size, prog_size, lfs.cfg.read_size, pc.off, pc.size);
                    assert(ls.cfg.disk()[c0.block as int].len() == block_size);
                    assert forall|i: int| c0.begin <= i < c0.off implies #[trigger] view_byte(lfs.cfg.disk(), Some(
                        lfs.pcache), c0.block as int, i) == view_byte(l0.cfg.disk(), Some(l0.pcache), c0.block as int, i) by {
                        lemma_flush_keeps_view(ls.cfg.disk(), pc, lfs.pcache, prog_size, c0.block as int, i);
                    }
                    if noff < end {
                        lemma_add_aligned(pc.off as int, cache_size as int, prog_size as int);
                        lemma_aligned_le_aligndown(pc.off + cache_size, noff as int, prog_size as int);
                    }
                } else {
                    assert(lfs.cfg.disk() == ls.cfg.disk());
                    assert forall|i: int| c0.begin <= i < c0.off implies #[trigger] view_byte(lfs.cfg.disk(), Some(
                        lfs.pcache), c0.block as int, i) == view_byte(l0.cfg.disk(), Some(l0.pcache), c0.block as int, i) by {
                        assert(view_byte(ls.cfg.disk(), Some(ls.pcache), c0.block as int, i) == view_byte(l0.cfg.disk(), Some(
                            l0.pcache), c0.block as int, i));
                    }
                }
            }
        }
        proof {
            if noff < end && lfs.pcache.block == LFS_BLOCK_NULL && lp.pcache.block == LFS_BLOCK_NULL {
                lemma_aligned_le_aligndown(poff + 8, noff as int, prog_size as int);
            }
        }
    }
    let mut crc: u32 = 0xffff_ffff;
    let res = lfs_bd_crc(&mut lfs.cfg, bc, None, &mut lfs.rcache, off1 + 4, commit.block, commit.begin, off1
        - commit.begin, &mut crc);
    match res {
        Err(e) => {
            return Err(e);
        },
        Ok(()) => {},
    }
    if crc != crc1 {
        return Err(Error::Corrupt);
    }
    let ghost crc_a = crc;
    let res = lfs_bd_crc(&mut lfs.cfg, bc, None, &mut lfs.rcache, 4, commit.block, off1, 4, &mut crc);
    match res {
        Err(e) => {
            return Err(e);
        },
        Ok(()) => {},
    }
    if crc != 0 {
        return Err(Error::Corrupt);
    }
    proof {
        let d = lfs.cfg.disk();
        assert(view_range(d, None, c0.block as int, c0.begin as int, c0.off - c0.begin) =~= commit_bytes(l0, c0)) by {
            assert forall|k: int| 0 <= k < c0.off - c0.begin implies #[trigger] view_range(d, None, c0.block as int,
                c0.begin as int, c0.off - c0.begin)[k] == commit_bytes(l0, c0)[k] by {
                assert(view_byte(d, Some(lfs.pcache), c0.block as int, c0.begin + k) == view_byte(l0.cfg.disk(), Some(
                    l0.pcache), c0.block as int, c0.begin + k));
            }
        }
        let va = view_range32(d, None, c0.block, c0.begin, (off1 - c0.begin) as nat);
        let vb = view_range32(d, None, c0.block, off1, 4);
        lemma_crc_concat(0xffff_ffffu32, va, vb);
        assert(va + vb =~= view_range(d, None, c0.block as int, c0.begin as int, c0.off + 8 - c0.begin));
    }
    Ok(())
}

/// The revision a new metadata pair starts from, given the word `w` that
/// its block held: with wear leveling on, `w` rounded up to a multiple of
/// the odd number `block_cycles + 1` or `block_cycles + 2`, so that the
/// pair is not moved at once.
pub open spec fn alloc_rev(block_cycles: i32, w: u32) -> u32 {
    if block_cycles > 0 {
        let t = block_cycles + 1;
        let m = if t % 2 == 1 { t } else { t + 1 };
        (((w + m - 1) - (w + m - 1) % m) as u64) as u32
    } else {
        w
    }
}

/// Allocates a new metadata pair: two blocks from the allocator, which
/// is refilled from `in_use`, the blocks the filesystem uses. Its
/// revision continues from the word that its first block holds, and it
/// starts empty: no entries, no tail, nothing written after the
/// revision.
pub fn lfs_dir_alloc<S: Storage>(lfs: &mut Lfs<S>, dir: &mut LfsMdir, in_use: &[u32]) -> (r: Result<(), Error>)
    requires
        lfs_read_ready(*old(lfs)),
        old(lfs).rcache.wf(old(lfs).cfg.cache_size),
        rcache_agrees(old(lfs).rcache, old(lfs).cfg.disk()),
        la_wf(old(lfs).lookahead, old(lfs).block_count),
        la_sound(old(lfs).lookahead, old(lfs).block_count, in_use@),
        blocks_valid(in_use@, old(lfs).block_count),
    ensures
        lfs_read_ready(*final(lfs)),
        same_params(final(lfs).cfg, old(lfs).cfg),
        final(lfs).cfg.disk() == old(lfs).cfg.disk(),
        *final(lfs) == (Lfs { cfg: final(lfs).cfg, rcache: final(lfs).rcache, lookahead: final(lfs).lookahead, ..*old(lfs) }),
        final(lfs).rcache.wf(old(lfs).cfg.cache_size),
        rcache_agrees(final(lfs).rcache, old(lfs).cfg.disk()),
        la_wf(final(lfs).lookahead, final(lfs).block_count),
        la_sound(final(lfs).lookahead, final(lfs).block_count, in_use@),
        old(lfs).lookahead.ckpoint == 0 ==> r == Err::<(), Error>(Error::NoSpace) && *final(dir) == *old(dir),
        r matches Err(e) ==> e == Error::NoSpace || crate::storage::device_error(e),
        r == Err::<(), Error>(Error::NoSpace) ==> final(lfs).lookahead.ckpoint == 0,
        r is Ok ==> {
            &&& final(dir).pair[0] < old(lfs).block_count && !in_use@.contains(final(dir).pair[0])
            &&& final(dir).pair[1] < old(lfs).block_count && !in_use@.contains(final(dir).pair[1])
            &&& *final(dir) == (LfsMdir {
                pair: final(dir).pair,
                rev: final(dir).rev,
                off: 4,
                etag: 0xffff_ffff,
                count: 0,
                erased: false,
                split: false,
                tail: [LFS_BLOCK_NULL, LFS_BLOCK_NULL],
            })
            &&& exists|w: u32| final(dir).rev == alloc_rev(old(lfs).cfg.block_cycles, w)
            &&& rcache_serves(old(lfs).rcache, final(dir).pair[0], 0, 4) ==> final(dir).rev == alloc_rev(
                old(lfs).cfg.block_cycles,
                spec_le32(old(lfs).cfg.disk()[final(dir).pair[0] as int].subrange(0, 4)) as u32,
            )
        },
{
    let b1 = match lfs_alloc(lfs, in_use) {
        Err(e) => {
            return Err(e);
        },
        Ok(b) => b,
    };
    dir.pair[1] = b1;
    let b0 = match lfs_alloc(lfs, in_use) {
        Err(e) => {
            return Err(e);
        },
        Ok(b) => b,
    };
    dir.pair[0] = b0;
    dir.rev = 0;
    let mut rv: Vec<u8> = vec![0u8, 0u8, 0u8, 0u8];
    let bc = lfs.block_count;
    proof {
        lemma_cfg_sizes(lfs.cfg);
    }
    let res = lfs_bd_read(&mut lfs.cfg, bc, None, &mut lfs.rcache, 4, b0, 0, rv.as_mut_slice());
    let w = le32_from_bytes(rv.as_slice());
    match res {
        Err(e) => {
            if e != Error::Corrupt {
                return Err(e);
            }
        },
        Ok(()) => {},
    }
    let mut rev = w;
    if lfs.cfg.block_cycles > 0 {
        let t: u32 = (lfs.cfg.block_cycles as u32) + 1;
        let m: u32 = if t % 2 == 1 { t } else { t + 1 };
        let a: u64 = w as u64 + m as u64 - 1;
        let up: u64 = a - a % (m as u64);
        rev = up as u32;
    }
    dir.rev = rev;
    dir.off = 4;
    dir.etag = 0xffff_ffff;
    dir.count = 0;
    dir.tail = [LFS_BLOCK_NULL, LFS_BLOCK_NULL];
    dir.erased = false;
    dir.split = false;
    proof {
        assert(dir.rev == alloc_rev(old(lfs).cfg.block_cycles, w));
        if rcache_serves(old(lfs).rcache, b0, 0, 4) {
            assert(rv@ =~= old(lfs).cfg.disk()[b0 as int].subrange(0, 4));
        }
    }
    Ok(())
}

} // verus!
