//! Loading a metadata pair: the block with the newer revision is scanned
//! commit by commit, each commit checked against its CRC, and the state
//! that the last valid commit leaves is what the pair holds.

use vstd::prelude::*;
use crate::bd::{lfs_bd_read, lfs_bd_crc, rcache_agrees, view_range32, lemma_cfg_sizes};
use crate::crc::{spec_crc, lfs_crc};
use crate::ctz::lfs_read_ready;
use crate::dir::LfsMdir;
use crate::dir_get::spec_tag_dsize;
use crate::endian::{spec_le32, spec_be32, spec_le32_bytes, le32_at, le32_to_bytes, be32_from_bytes};
use crate::error::Error;
use crate::lfs::Lfs;
use crate::lfs_type::{LFS_TYPE_CCRC, LFS_TYPE_FCRC, LFS_TYPE_NAME, LFS_TYPE_SPLICE, LFS_TYPE_TAIL};
use crate::storage::Storage;
use crate::tag::{spec_tag_id, spec_tag_splice, spec_tag_type3, lfs_tag_chunk, lfs_tag_dsize, lfs_tag_id, lfs_tag_isvalid,
    lfs_tag_splice, lfs_tag_type1, lfs_tag_type2, lfs_tag_type3};
use crate::types::LFS_BLOCK_NULL;
use crate::util::lfs_scmp;

verus! {

/// Where a scan of a pair's log stands: the offset of the last tag read,
/// that tag, the CRC since the last commit, what the entries since then
/// give (entry count, tail, split), and what the last valid commit left.
pub struct FetchScan {
    pub off: u32,
    pub ptag: u32,
    pub crc: u32,
    pub count: u16,
    pub tail: [u32; 2],
    pub split: bool,
    pub c_off: u32,
    pub c_etag: u32,
    pub c_count: u16,
    pub c_tail: [u32; 2],
    pub c_split: bool,
}

/// A scan of a block whose revision is `rev`, before its first tag; the
/// committed fields stand for nothing yet.
pub open spec fn scan_start(rev: u32, c: LfsMdir) -> FetchScan {
    FetchScan {
        off: 0,
        ptag: 0xffff_ffff,
        crc: spec_crc(0xffff_ffff, spec_le32_bytes(rev)),
        count: 0,
        tail: [LFS_BLOCK_NULL, LFS_BLOCK_NULL],
        split: false,
        c_off: 0,
        c_etag: c.etag,
        c_count: c.count,
        c_tail: c.tail,
        c_split: c.split,
    }
}

/// What an entry tag at `off` does to the entry count, tail and split: a
/// name may raise the count, a splice moves it, a tail sets the tail and
/// split from its data. `None` when data that must be read lies past the
/// block.
pub open spec fn scan_entry(blk: Seq<u8>, bs: u32, off: int, tag: u32, count: u16, tail: [u32; 2], split: bool) -> Option<
    (u16, [u32; 2], bool),
> {
    if (tag >> 20u32) & 0x700u32 == LFS_TYPE_NAME {
        if spec_tag_id(tag) >= count {
            Some(((spec_tag_id(tag) + 1) as u16, tail, split))
        } else {
            Some((count, tail, split))
        }
    } else if (tag >> 20u32) & 0x700u32 == LFS_TYPE_SPLICE {
        Some(((count as int + spec_tag_splice(tag) as int) as u16, tail, split))
    } else if (tag >> 20u32) & 0x700u32 == LFS_TYPE_TAIL {
        if off + 12 > bs {
            None
        } else {
            Some((
                count,
                [spec_le32(blk.subrange(off + 4, off + 8)) as u32, spec_le32(blk.subrange(off + 8, off + 12)) as u32],
                ((tag >> 20u32) & 0xffu32) & 1u32 == 1u32,
            ))
        }
    } else if spec_tag_type3(tag) == LFS_TYPE_FCRC {
        if off + 12 > bs {
            None
        } else {
            Some((count, tail, split))
        }
    } else {
        Some((count, tail, split))
    }
}

/// One step of the scan: the next tag, read XORed with the one before.
/// A CRC tag whose CRC matches commits what came before it; any other
/// tag is folded into the CRC and into the entry state. `None` where the
/// scan stops: the next tag is not valid, runs past the block, or a CRC
/// does not match.
pub open spec fn scan_step(blk: Seq<u8>, bs: u32, s: FetchScan) -> Option<FetchScan> {
    let off = s.off + spec_tag_dsize(s.ptag);
    if off + 4 > bs {
        None
    } else {
        let raw = blk.subrange(off, off + 4);
        let crc1 = spec_crc(s.crc, raw);
        let tag = (spec_be32(raw) as u32) ^ s.ptag;
        if tag & 0x8000_0000u32 != 0 {
            None
        } else if off + spec_tag_dsize(tag) > bs {
            None
        } else if (tag >> 20u32) & 0x780u32 == LFS_TYPE_CCRC {
            if off + 8 > bs {
                None
            } else if crc1 != spec_le32(blk.subrange(off + 4, off + 8)) as u32 {
                None
            } else {
                let ptag = tag ^ ((((tag >> 20u32) & 0xffu32) & 1u32) << 31u32);
                Some(
                    FetchScan {
                        off: off as u32,
                        ptag,
                        crc: 0xffff_ffff,
                        c_off: (off + spec_tag_dsize(tag)) as u32,
                        c_etag: ptag,
                        c_count: s.count,
                        c_tail: s.tail,
                        c_split: s.split,
                        ..s
                    },
                )
            }
        } else {
            let crc2 = spec_crc(crc1, blk.subrange(off + 4, off + spec_tag_dsize(tag)));
            match scan_entry(blk, bs, off, tag, s.count, s.tail, s.split) {
                None => None,
                Some((count, tail, split)) => Some(
                    FetchScan { off: off as u32, ptag: tag, crc: crc2, count, tail, split, ..s },
                ),
            }
        }
    }
}

/// The scan of `blk` after `k` steps, or `None` when it stopped before.
pub open spec fn scan_to(blk: Seq<u8>, bs: u32, rev: u32, c: LfsMdir, k: nat) -> Option<FetchScan>
    decreases k,
{
    if k == 0 {
        Some(scan_start(rev, c))
    } else {
        match scan_to(blk, bs, rev, c, (k - 1) as nat) {
            None => None,
            Some(s) => scan_step(blk, bs, s),
        }
    }
}

/// The pair state `dir` is what a scan of `blk` leaves after some number
/// of steps, with at least one valid commit.
pub open spec fn fetched(blk: Seq<u8>, bs: u32, dir: LfsMdir) -> bool {
    &&& dir.off > 0
    &&& exists|k: nat, c: LfsMdir|
        #[trigger] scan_to(blk, bs, dir.rev, c, k) matches Some(s) && s.c_off == dir.off && s.c_etag == dir.etag
            && s.c_count == dir.count && s.c_tail == dir.tail && s.c_split == dir.split
}

/// Flipping the top bit of a tag leaves its size field, so its size on
/// disk, as it was.
proof fn lemma_dsize_flip(tag: u32, x: u32)
    ensures
        spec_tag_dsize(tag ^ ((x & 1u32) << 31u32)) == spec_tag_dsize(tag),
{
    assert((tag ^ ((x & 1u32) << 31u32)) & 0x3ffu32 == tag & 0x3ffu32) by (bit_vector);
}

/// The filesystem differs at most in its configuration, read cache and
/// seed.
pub open spec fn fetch_frame<S: Storage>(a: Lfs<S>, b: Lfs<S>) -> bool {
    &&& crate::bd::same_params(a.cfg, b.cfg)
    &&& a.cfg.disk() == b.cfg.disk()
    &&& a == (Lfs { cfg: a.cfg, rcache: a.rcache, seed: a.seed, ..b })
}

/// Scans the log of `dir.pair[0]`, whose revision is `dir.rev`: each
/// commit whose CRC matches sets the pair's offset, end tag, entry count,
/// tail and split. When a commit was found, `erased` records whether the
/// space after it is known to be erased, as its forward CRC shows.
#[verifier::rlimit(60)]
fn fetch_scan<S: Storage>(lfs: &mut Lfs<S>, dir: &mut LfsMdir) -> (r: Result<(), Error>)
    requires
        lfs_read_ready(*old(lfs)),
        old(lfs).rcache.wf(old(lfs).cfg.cache_size),
        rcache_agrees(old(lfs).rcache, old(lfs).cfg.disk()),
        old(dir).pair[0] < old(lfs).block_count,
        old(dir).off == 0,
    ensures
        lfs_read_ready(*final(lfs)),
        fetch_frame(*final(lfs), *old(lfs)),
        final(lfs).rcache.wf(old(lfs).cfg.cache_size),
        rcache_agrees(final(lfs).rcache, old(lfs).cfg.disk()),
        final(dir).pair == old(dir).pair,
        final(dir).rev == old(dir).rev,
        r matches Err(e) ==> crate::storage::device_error(e),
        r is Ok && final(dir).off == 0 ==> *final(dir) == *old(dir),
        r is Ok && final(dir).off > 0 ==> fetched(old(lfs).cfg.disk()[old(dir).pair[0] as int], old(lfs).cfg.block_size,
            *final(dir)),
        r is Ok && final(dir).erased && final(dir).off > 0 ==> final(dir).off % old(lfs).cfg.prog_size == 0,
        r is Ok ==> final(dir).off <= old(lfs).cfg.block_size,
{
    let ghost l0 = *lfs;
    let ghost d0 = *dir;
    let ghost blk = l0.cfg.disk()[d0.pair[0] as int];
    let bs = lfs.cfg.block_size;
    let bc = lfs.block_count;
    let block = dir.pair[0];
    proof {
        lemma_cfg_sizes(lfs.cfg);
        assert(blk.len() == bs);
    }
    let mut off: u32 = 0;
    let mut ptag: u32 = 0xffff_ffff;
    let rb = le32_to_bytes(dir.rev);
    let rv: Vec<u8> = vec![rb[0], rb[1], rb[2], rb[3]];
    proof {
        assert(rv@ =~= spec_le32_bytes(dir.rev));
    }
    let mut crc = lfs_crc(0xffff_ffff, rv.as_slice());
    let mut count: u16 = 0;
    let mut tail: [u32; 2] = [LFS_BLOCK_NULL, LFS_BLOCK_NULL];
    let mut split = false;
    let mut maybeerased = false;
    let mut hasfcrc = false;
    let mut fsize: u32 = 0;
    let mut fcrc: u32 = 0;
    let ghost mut k: nat = 0;
    let ghost mut sk: FetchScan = scan_start(d0.rev, d0);
    loop
        invariant_except_break
            off == sk.off,
            ptag == sk.ptag,
            crc == sk.crc,
            count == sk.count,
            tail == sk.tail,
            split == sk.split,
            off <= bs,
        invariant
            l0 == *old(lfs),
            d0 == *old(dir),
            blk == l0.cfg.disk()[d0.pair[0] as int],
            blk.len() == bs,
            bs == l0.cfg.block_size,
            bc == l0.block_count,
            block == d0.pair[0],
            block < bc,
            l0.cfg.read_size <= bs,
            lfs_read_ready(*lfs),
            fetch_frame(*lfs, l0),
            lfs.rcache.wf(l0.cfg.cache_size),
            rcache_agrees(lfs.rcache, l0.cfg.disk()),
            scan_to(blk, bs, d0.rev, d0, k) == Some(sk),
            *dir == (LfsMdir {
                off: sk.c_off,
                etag: sk.c_etag,
                count: sk.c_count,
                tail: sk.c_tail,
                split: sk.c_split,
                ..d0
            }),
            dir.off <= bs,
            sk.c_off == 0 ==> sk.c_etag == d0.etag && sk.c_count == d0.count && sk.c_tail == d0.tail && sk.c_split
                == d0.split,
        ensures
            l0 == *old(lfs),
            d0 == *old(dir),
            lfs_read_ready(*lfs),
            fetch_frame(*lfs, l0),
            lfs.rcache.wf(l0.cfg.cache_size),
            rcache_agrees(lfs.rcache, l0.cfg.disk()),
            scan_to(blk, bs, d0.rev, d0, k) == Some(sk),
            *dir == (LfsMdir {
                off: sk.c_off,
                etag: sk.c_etag,
                count: sk.c_count,
                tail: sk.c_tail,
                split: sk.c_split,
                ..d0
            }),
            dir.off <= bs,
            sk.c_off == 0 ==> sk.c_etag == d0.etag && sk.c_count == d0.count && sk.c_tail == d0.tail && sk.c_split
                == d0.split,
        decreases bs - off,
    {
        let noff = off + lfs_tag_dsize(ptag);
        let mut tb: Vec<u8> = vec![0u8, 0u8, 0u8, 0u8];
        let res = lfs_bd_read(&mut lfs.cfg, bc, None, &mut lfs.rcache, bs, block, noff, tb.as_mut_slice());
        match res {
            Err(e) => {
                if e == Error::Corrupt {
                    break;
                }
                return Err(e);
            },
            Ok(()) => {},
        }
        proof {
            assert(tb@ =~= blk.subrange(noff as int, noff + 4));
        }
        let ghost s0 = sk;
        off = noff;
        crc = lfs_crc(crc, tb.as_slice());
        let tag = be32_from_bytes(tb.as_slice()) ^ ptag;
        if !lfs_tag_isvalid(tag) {
            maybeerased = lfs_tag_type2(ptag) as u32 == LFS_TYPE_CCRC;
            break;
        }
        let ds = lfs_tag_dsize(tag);
        if off + ds > bs {
            break;
        }
        ptag = tag;
        if lfs_tag_type2(tag) as u32 == LFS_TYPE_CCRC {
            let mut cb: Vec<u8> = vec![0u8, 0u8, 0u8, 0u8];
            let res = lfs_bd_read(&mut lfs.cfg, bc, None, &mut lfs.rcache, bs, block, off + 4, cb.as_mut_slice());
            match res {
                Err(e) => {
                    if e == Error::Corrupt {
                        break;
                    }
                    return Err(e);
                },
                Ok(()) => {},
            }
            let dcrc = le32_at(cb.as_slice(), 0);
            proof {
                assert(cb@.subrange(0, 4) =~= blk.subrange(off + 4, off + 8));
            }
            if crc != dcrc {
                break;
            }
            let ch: u32 = (tag >> 20) & 0xff;
            ptag = ptag ^ ((ch & 1) << 31);
            let sb = le32_to_bytes(crc);
            let sv: Vec<u8> = vec![sb[0], sb[1], sb[2], sb[3]];
            lfs.seed = lfs_crc(lfs.seed, sv.as_slice());
            dir.off = off + ds;
            dir.etag = ptag;
            dir.count = count;
            dir.tail = tail;
            dir.split = split;
            crc = 0xffff_ffff;
            proof {
                lemma_dsize_flip(tag, ch);
                sk = scan_step(blk, bs, s0)->Some_0;
                k = k + 1;
            }
            continue;
        }
        hasfcrc = false;
        let res = lfs_bd_crc(&mut lfs.cfg, bc, None, &mut lfs.rcache, bs, block, off + 4, ds - 4, &mut crc);
        match res {
            Err(e) => {
                if e == Error::Corrupt {
                    break;
                }
                return Err(e);
            },
            Ok(()) => {},
        }
        proof {
            assert(view_range32(l0.cfg.disk(), None, block, (off + 4) as u32, (ds - 4) as nat) =~= blk.subrange(
                off + 4,
                off + spec_tag_dsize(tag),
            ));
        }
        let t1 = lfs_tag_type1(tag) as u32;
        if t1 == LFS_TYPE_NAME {
            let id = lfs_tag_id(tag);
            if id >= count {
                count = id + 1;
            }
        } else if t1 == LFS_TYPE_SPLICE {
            count = (count as i32 + lfs_tag_splice(tag) as i32) as u16;
        } else if t1 == LFS_TYPE_TAIL {
            split = ((tag >> 20) & 0xff) & 1 == 1;
            let mut tv: Vec<u8> = vec![0u8, 0u8, 0u8, 0u8, 0u8, 0u8, 0u8, 0u8];
            let res = lfs_bd_read(&mut lfs.cfg, bc, None, &mut lfs.rcache, bs, block, off + 4, tv.as_mut_slice());
            match res {
                Err(e) => {
                    if e == Error::Corrupt {
                        break;
                    }
                    return Err(e);
                },
                Ok(()) => {},
            }
            proof {
                assert(tv@.subrange(0, 4) =~= blk.subrange(off + 4, off + 8));
                assert(tv@.subrange(4, 8) =~= blk.subrange(off + 8, off + 12));
            }
            tail = [le32_at(tv.as_slice(), 0), le32_at(tv.as_slice(), 4)];
        } else if lfs_tag_type3(tag) as u32 == LFS_TYPE_FCRC {
            let mut fv: Vec<u8> = vec![0u8, 0u8, 0u8, 0u8, 0u8, 0u8, 0u8, 0u8];
            let res = lfs_bd_read(&mut lfs.cfg, bc, None, &mut lfs.rcache, bs, block, off + 4, fv.as_mut_slice());
            match res {
                Err(e) => {
                    if e == Error::Corrupt {
                        break;
                    }
                    return Err(e);
                },
                Ok(()) => {},
            }
            fsize = le32_at(fv.as_slice(), 0);
            fcrc = le32_at(fv.as_slice(), 4);
            hasfcrc = true;
        }
        proof {
            sk = scan_step(blk, bs, s0)->Some_0;
            k = k + 1;
        }
    }
    if dir.off > 0 {
        dir.erased = false;
        if maybeerased && dir.off % lfs.cfg.prog_size == 0 && hasfcrc && fsize <= bs - dir.off {
            let mut fc: u32 = 0xffff_ffff;
            let res = lfs_bd_crc(&mut lfs.cfg, bc, None, &mut lfs.rcache, bs, block, dir.off, fsize, &mut fc);
            match res {
                Err(e) => {
                    if e != Error::Corrupt {
                        return Err(e);
                    }
                },
                Ok(()) => {},
            }
            dir.erased = fc == fcrc;
        }
        proof {
            assert(scan_to(blk, bs, dir.rev, d0, k) matches Some(s) && s.c_off == dir.off && s.c_etag == dir.etag
                && s.c_count == dir.count && s.c_tail == dir.tail && s.c_split == dir.split);
        }
    }
    Ok(())
}

/// Whether revision `a` is newer than `b`, their difference read as a
/// signed number.
fn rev_newer(a: u32, b: u32) -> bool {
    lfs_scmp(a, b) > 0
}

/// Loads the metadata pair `pair` into `dir`. The block with the newer
/// revision is scanned first; when it holds no valid commit the other
/// block is scanned. `dir.pair[0]` is then the block whose log was
/// loaded, and `dir` holds the state its last valid commit left. A pair
/// outside the device, or one with no valid commit in either block, is
/// `Corrupt`.
pub fn lfs_dir_fetch<S: Storage>(lfs: &mut Lfs<S>, dir: &mut LfsMdir, pair: [u32; 2]) -> (r: Result<(), Error>)
    requires
        lfs_read_ready(*old(lfs)),
        old(lfs).rcache.wf(old(lfs).cfg.cache_size),
        rcache_agrees(old(lfs).rcache, old(lfs).cfg.disk()),
    ensures
        lfs_read_ready(*final(lfs)),
        fetch_frame(*final(lfs), *old(lfs)),
        final(lfs).rcache.wf(old(lfs).cfg.cache_size),
        rcache_agrees(final(lfs).rcache, old(lfs).cfg.disk()),
        pair[0] >= old(lfs).block_count || pair[1] >= old(lfs).block_count ==> r == Err::<(), Error>(Error::Corrupt)
            && *final(dir) == *old(dir) && *final(lfs) == *old(lfs),
        r matches Err(e) ==> crate::storage::device_error(e),
        r is Ok ==> {
            &&& final(dir).pair == pair || final(dir).pair == [pair[1], pair[0]]
            &&& fetched(old(lfs).cfg.disk()[final(dir).pair[0] as int], old(lfs).cfg.block_size, *final(dir))
            &&& final(dir).erased ==> final(dir).off % old(lfs).cfg.prog_size == 0
            &&& final(dir).off <= old(lfs).cfg.block_size
        },
{
    let bc = lfs.block_count;
    if pair[0] >= bc || pair[1] >= bc {
        return Err(Error::Corrupt);
    }
    let ghost l0 = *lfs;
    let bs = lfs.cfg.block_size;
    proof {
        lemma_cfg_sizes(lfs.cfg);
    }
    let mut revs: [u32; 2] = [0, 0];
    let mut r: usize = 0;
    let mut rb: Vec<u8> = vec![0u8, 0u8, 0u8, 0u8];
    let res = lfs_bd_read(&mut lfs.cfg, bc, None, &mut lfs.rcache, 4, pair[0], 0, rb.as_mut_slice());
    revs[0] = le32_at(rb.as_slice(), 0);
    match res {
        Err(e) => {
            if e != Error::Corrupt {
                return Err(e);
            }
        },
        Ok(()) => {
            if rev_newer(revs[0], revs[1]) {
                r = 0;
            }
        },
    }
    let mut rb1: Vec<u8> = vec![0u8, 0u8, 0u8, 0u8];
    let res = lfs_bd_read(&mut lfs.cfg, bc, None, &mut lfs.rcache, 4, pair[1], 0, rb1.as_mut_slice());
    revs[1] = le32_at(rb1.as_slice(), 0);
    match res {
        Err(e) => {
            if e != Error::Corrupt {
                return Err(e);
            }
        },
        Ok(()) => {
            if rev_newer(revs[1], revs[0]) {
                r = 1;
            }
        },
    }
    let o = 1 - r;
    dir.pair = [pair[r], pair[o]];
    dir.rev = revs[r];
    dir.off = 0;
    fetch_scan(lfs, dir)?;
    if dir.off == 0 {
        dir.pair = [dir.pair[1], dir.pair[0]];
        dir.rev = revs[o];
        fetch_scan(lfs, dir)?;
        if dir.off == 0 {
            return Err(Error::Corrupt);
        }
    }
    Ok(())
}

} // verus!
