use littlefs_rust_core::bd::{lfs_bd_erase, LfsConfig};
use littlefs_rust_core::commit::{lfs_dir_alloc, lfs_dir_commitattr, lfs_dir_commitcrc, lfs_dir_commitprog, LfsCommit};
use littlefs_rust_core::block_alloc::lfs_alloc_ckpoint;
use littlefs_rust_core::crc::lfs_crc;
use littlefs_rust_core::dir::LfsMdir;
use littlefs_rust_core::dir_get::lfs_dir_get;
use littlefs_rust_core::error::Error;
use littlefs_rust_core::fs::lfs_init;
use littlefs_rust_core::lfs::Lfs;
use littlefs_rust_core::lfs_type::{LFS_TYPE_INLINESTRUCT, LFS_TYPE_NAME};
use littlefs_rust_core::storage::{SharedStorage, Storage, TestGeometry};
use littlefs_rust_core::tag::{lfs_diskoff, lfs_mktag};
use littlefs_rust_core::types::LFS_BLOCK_NULL;

fn new_fs() -> Lfs<SharedStorage> {
    let cfg: LfsConfig<SharedStorage> = SharedStorage::new(TestGeometry::default_geometry()).build_rust_env().config;
    lfs_init(cfg).unwrap()
}

fn fresh_commit(block: u32, end: u32) -> LfsCommit {
    LfsCommit { block, off: 0, ptag: 0xffff_ffff, crc: 0xffff_ffff, begin: 0, end }
}

const NOWHERE: lfs_diskoff = lfs_diskoff { block: 0, off: 0 };

fn raw(lfs: &mut Lfs<SharedStorage>, block: u32, off: u32, n: usize) -> Vec<u8> {
    let mut buf = vec![0u8; n];
    assert_eq!(lfs.cfg.context.read(block, off, &mut buf), Ok(()));
    buf
}

#[test]
fn a_commit_is_closed_by_a_crc_that_covers_it() {
    let mut lfs = new_fs();
    let bc = lfs.block_count;
    assert_eq!(lfs_bd_erase(&mut lfs.cfg, bc, 2), Ok(()));
    let mut commit = fresh_commit(2, 512 - 8);
    assert_eq!(lfs_dir_commitprog(&mut lfs, &mut commit, &[1, 0, 0, 0]), Ok(()));
    assert_eq!(commit.off, 4);
    assert_eq!(commit.crc, lfs_crc(0xffff_ffff, &[1, 0, 0, 0]));
    let name = lfs_mktag(LFS_TYPE_NAME | 1, 0, 3);
    let data = lfs_mktag(LFS_TYPE_INLINESTRUCT, 0, 5);
    assert_eq!(lfs_dir_commitattr(&mut lfs, &mut commit, name, b"abc", &NOWHERE), Ok(()));
    assert_eq!(commit.off, 4 + 4 + 3);
    assert_eq!(commit.ptag, name);
    assert_eq!(lfs_dir_commitattr(&mut lfs, &mut commit, data, b"hello", &NOWHERE), Ok(()));
    assert_eq!(commit.off, 11 + 4 + 5);
    let (off, etag) = (commit.off, commit.ptag);
    assert_eq!(lfs_dir_commitcrc(&mut lfs, &mut commit), Ok(()));
    assert_eq!(lfs.pcache.block, LFS_BLOCK_NULL);
    assert_eq!(commit.off % 16, 0);
    assert_eq!(commit.crc, 0xffff_ffff);
    // the bytes on the device up to and including the stored CRC check out
    let bytes = raw(&mut lfs, 2, 0, off as usize + 8);
    assert_eq!(lfs_crc(0xffff_ffff, &bytes), 0);
    // the first tag is stored big-endian, xored with the starting tag
    assert_eq!(bytes[4..8].to_vec(), (name ^ 0xffff_ffff).to_be_bytes().to_vec());
    // and a search of the log finds what was committed
    let dir = LfsMdir { pair: [2, 3], rev: 1, off, etag, count: 1, erased: false, split: false, tail: [LFS_BLOCK_NULL; 2] };
    let mut buf = [0u8; 5];
    let r = lfs_dir_get(&mut lfs, &dir, lfs_mktag(0x7ff, 0x3ff, 0), lfs_mktag(LFS_TYPE_INLINESTRUCT, 0, 5), &mut buf);
    assert_eq!(r, Ok(data));
    assert_eq!(&buf, b"hello");
}

#[test]
fn an_attribute_past_the_commit_end_is_refused() {
    let mut lfs = new_fs();
    let mut commit = fresh_commit(2, 10);
    commit.off = 4;
    let name = lfs_mktag(LFS_TYPE_NAME | 1, 0, 3);
    assert_eq!(lfs_dir_commitattr(&mut lfs, &mut commit, name, b"abc", &NOWHERE), Err(Error::NoSpace));
    assert_eq!(commit.off, 4);
    assert_eq!(commit.ptag, 0xffff_ffff);
}

#[test]
fn an_invalid_tag_copies_its_data_from_the_device() {
    let mut lfs = new_fs();
    let bc = lfs.block_count;
    assert_eq!(lfs.cfg.context.write(7, 40, b"moved"), Ok(()));
    assert_eq!(lfs_bd_erase(&mut lfs.cfg, bc, 2), Ok(()));
    let mut commit = fresh_commit(2, 512 - 8);
    let tag = lfs_mktag(LFS_TYPE_INLINESTRUCT, 0, 5) | 0x8000_0000;
    let from = lfs_diskoff { block: 7, off: 40 };
    assert_eq!(lfs_dir_commitattr(&mut lfs, &mut commit, tag, &[], &from), Ok(()));
    assert_eq!(commit.off, 9);
    assert_eq!(commit.ptag, tag & 0x7fff_ffff);
    assert_eq!(lfs_dir_commitcrc(&mut lfs, &mut commit), Ok(()));
    let bytes = raw(&mut lfs, 2, 0, 9);
    assert_eq!(bytes[4..9].to_vec(), b"moved".to_vec());
    assert_eq!(bytes[0..4].to_vec(), ((tag & 0x7fff_ffff) ^ 0xffff_ffff).to_be_bytes().to_vec());
}

fn blank_dir() -> LfsMdir {
    LfsMdir { pair: [0, 0], rev: 0, off: 0, etag: 0, count: 9, erased: true, split: true, tail: [0, 1] }
}

#[test]
fn a_new_pair_starts_empty_and_continues_the_revision() {
    let mut lfs = new_fs();
    for b in 0..128u32 {
        assert_eq!(lfs.cfg.context.write(b, 0, &41u32.to_le_bytes()), Ok(()));
    }
    let in_use = [0u32, 1];
    lfs_alloc_ckpoint(&mut lfs);
    let mut dir = blank_dir();
    assert_eq!(lfs_dir_alloc(&mut lfs, &mut dir, &in_use), Ok(()));
    assert!(!in_use.contains(&dir.pair[0]) && !in_use.contains(&dir.pair[1]));
    assert!(dir.pair[0] < 128 && dir.pair[1] < 128);
    assert_eq!(dir.rev, 41);
    assert_eq!((dir.off, dir.etag, dir.count), (4, 0xffff_ffff, 0));
    assert_eq!(dir.tail, [LFS_BLOCK_NULL, LFS_BLOCK_NULL]);
    assert!(!dir.erased && !dir.split);
    // with wear leveling, the revision is rounded up to an odd modulus
    lfs.cfg.block_cycles = 4;
    lfs_alloc_ckpoint(&mut lfs);
    let mut dir = blank_dir();
    assert_eq!(lfs_dir_alloc(&mut lfs, &mut dir, &in_use), Ok(()));
    assert_eq!(dir.rev, 45);
}

#[test]
fn a_pair_cannot_be_had_from_an_exhausted_allocator() {
    let mut lfs = new_fs();
    lfs.lookahead.ckpoint = 0;
    let mut dir = blank_dir();
    assert_eq!(lfs_dir_alloc(&mut lfs, &mut dir, &[]), Err(Error::NoSpace));
    assert_eq!(dir.pair, [0, 0]);
}
