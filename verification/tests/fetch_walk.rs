use littlefs_rust_core::bd::{lfs_bd_erase, LfsConfig};
use littlefs_rust_core::commit::{lfs_dir_commitattr, lfs_dir_commitcrc, lfs_dir_commitprog, LfsCommit};
use littlefs_rust_core::dir::LfsMdir;
use littlefs_rust_core::error::Error;
use littlefs_rust_core::fetch::lfs_dir_fetch;
use littlefs_rust_core::fs::lfs_init;
use littlefs_rust_core::lfs::Lfs;
use littlefs_rust_core::lfs_type::{
    LFS_TYPE_CTZSTRUCT, LFS_TYPE_INLINESTRUCT, LFS_TYPE_MOVESTATE, LFS_TYPE_NAME, LFS_TYPE_SUPERBLOCK, LFS_TYPE_TAIL,
};
use littlefs_rust_core::mount::lfs_mount_;
use littlefs_rust_core::storage::{SharedStorage, Storage, TestGeometry};
use littlefs_rust_core::tag::{lfs_diskoff, lfs_mktag};
use littlefs_rust_core::traverse::{lfs_fs_pred, lfs_fs_size_, lfs_fs_traverse_};
use littlefs_rust_core::types::LFS_BLOCK_NULL;

fn new_fs() -> Lfs<SharedStorage> {
    let cfg: LfsConfig<SharedStorage> = SharedStorage::new(TestGeometry::default_geometry()).build_rust_env().config;
    lfs_init(cfg).unwrap()
}

const NOWHERE: lfs_diskoff = lfs_diskoff { block: 0, off: 0 };

fn words(a: u32, b: u32) -> Vec<u8> {
    let mut v = a.to_le_bytes().to_vec();
    v.extend_from_slice(&b.to_le_bytes());
    v
}

/// Writes one commit of `entries` to an erased `block` after revision
/// `rev`, and gives the commit's end and its last tag.
fn write_pair(lfs: &mut Lfs<SharedStorage>, block: u32, rev: u32, entries: &[(u32, Vec<u8>)]) -> LfsCommit {
    let bc = lfs.block_count;
    assert_eq!(lfs_bd_erase(&mut lfs.cfg, bc, block), Ok(()));
    let mut commit = LfsCommit { block, off: 0, ptag: 0xffff_ffff, crc: 0xffff_ffff, begin: 0, end: 512 - 8 };
    assert_eq!(lfs_dir_commitprog(lfs, &mut commit, &rev.to_le_bytes()), Ok(()));
    for (tag, data) in entries {
        assert_eq!(lfs_dir_commitattr(lfs, &mut commit, *tag, data, &NOWHERE), Ok(()));
    }
    assert_eq!(lfs_dir_commitcrc(lfs, &mut commit), Ok(()));
    commit
}

fn blank() -> LfsMdir {
    LfsMdir { pair: [0, 0], rev: 0, off: 0, etag: 0, count: 0, erased: false, split: false, tail: [0, 0] }
}

#[test]
fn fetch_loads_the_last_valid_commit() {
    let mut lfs = new_fs();
    let entries = vec![
        (lfs_mktag(LFS_TYPE_NAME | 1, 0, 1), b"a".to_vec()),
        (lfs_mktag(LFS_TYPE_CTZSTRUCT, 0, 8), words(9, 100)),
        (lfs_mktag(LFS_TYPE_NAME | 1, 1, 1), b"b".to_vec()),
    ];
    let commit = write_pair(&mut lfs, 2, 7, &entries);
    let mut dir = blank();
    assert_eq!(lfs_dir_fetch(&mut lfs, &mut dir, [3, 2]), Ok(()));
    assert_eq!(dir.pair, [2, 3]);
    assert_eq!(dir.rev, 7);
    assert_eq!(dir.off, commit.off);
    assert_eq!(dir.etag, commit.ptag);
    assert_eq!(dir.count, 2);
    assert_eq!(dir.tail, [LFS_BLOCK_NULL, LFS_BLOCK_NULL]);
    assert!(!dir.split);
}

#[test]
fn fetch_takes_the_newer_block_and_reports_a_pair_without_commits() {
    let mut lfs = new_fs();
    write_pair(&mut lfs, 2, 7, &[(lfs_mktag(LFS_TYPE_NAME | 1, 0, 1), b"a".to_vec())]);
    write_pair(&mut lfs, 3, 8, &[
        (lfs_mktag(LFS_TYPE_NAME | 1, 0, 1), b"a".to_vec()),
        (lfs_mktag(LFS_TYPE_NAME | 1, 1, 1), b"b".to_vec()),
        (lfs_mktag(LFS_TYPE_NAME | 1, 2, 1), b"c".to_vec()),
    ]);
    let mut dir = blank();
    assert_eq!(lfs_dir_fetch(&mut lfs, &mut dir, [2, 3]), Ok(()));
    assert_eq!(dir.pair, [3, 2]);
    assert_eq!((dir.rev, dir.count), (8, 3));
    // a zeroed pair holds no valid commit
    let mut dir = blank();
    assert_eq!(lfs_dir_fetch(&mut lfs, &mut dir, [10, 11]), Err(Error::Corrupt));
    assert_eq!(lfs_dir_fetch(&mut lfs, &mut dir, [10, 500]), Err(Error::Corrupt));
    // a broken CRC in the newer block falls back to the older one
    let mut b = [0u8; 1];
    assert_eq!(lfs.cfg.context.read(3, 9, &mut b), Ok(()));
    assert_eq!(lfs.cfg.context.write(3, 9, &[b[0] ^ 0x55]), Ok(()));
    let mut dir = blank();
    assert_eq!(lfs_dir_fetch(&mut lfs, &mut dir, [2, 3]), Ok(()));
    assert_eq!(dir.pair, [2, 3]);
    assert_eq!((dir.rev, dir.count), (7, 1));
}

#[test]
fn traversal_walks_the_pairs_from_the_root_along_their_tails() {
    let mut lfs = new_fs();
    write_pair(&mut lfs, 0, 1, &[
        (lfs_mktag(LFS_TYPE_NAME | 1, 0, 1), b"a".to_vec()),
        (lfs_mktag(LFS_TYPE_CTZSTRUCT, 0, 8), words(9, 100)),
        (lfs_mktag(LFS_TYPE_TAIL, 0x3ff, 8), words(4, 5)),
    ]);
    write_pair(&mut lfs, 5, 1, &[
        (lfs_mktag(LFS_TYPE_NAME | 1, 0, 1), b"b".to_vec()),
        (lfs_mktag(LFS_TYPE_CTZSTRUCT, 0, 8), words(12, 0)),
        (lfs_mktag(LFS_TYPE_NAME | 1, 1, 1), b"c".to_vec()),
        (lfs_mktag(LFS_TYPE_CTZSTRUCT, 1, 8), words(13, 40)),
    ]);
    let mut visited = Vec::new();
    assert_eq!(lfs_fs_traverse_(&mut lfs, &[], false, &mut visited), Ok(()));
    assert_eq!(visited, vec![0, 1, 9, 4, 5, 13]);
}

#[test]
fn traversal_reports_a_tail_list_that_loops() {
    let mut lfs = new_fs();
    write_pair(&mut lfs, 0, 1, &[(lfs_mktag(LFS_TYPE_TAIL, 0x3ff, 8), words(4, 5))]);
    write_pair(&mut lfs, 4, 1, &[(lfs_mktag(LFS_TYPE_TAIL, 0x3ff, 8), words(0, 1))]);
    let mut visited = Vec::new();
    assert_eq!(lfs_fs_traverse_(&mut lfs, &[], false, &mut visited), Err(Error::Corrupt));
}

fn superblock_bytes(version: u32, block_size: u32, block_count: u32, name_max: u32) -> Vec<u8> {
    let mut v = Vec::new();
    for w in [version, block_size, block_count, name_max, 0x7fff_ffff, 1022] {
        v.extend_from_slice(&w.to_le_bytes());
    }
    v
}

fn superblock_entries(sb: Vec<u8>) -> Vec<(u32, Vec<u8>)> {
    vec![
        (lfs_mktag(LFS_TYPE_SUPERBLOCK, 0, 8), b"littlefs".to_vec()),
        (lfs_mktag(LFS_TYPE_INLINESTRUCT, 0, 24), sb),
    ]
}

#[test]
fn mount_finds_the_superblock_and_adds_up_the_global_state() {
    let mut lfs = new_fs();
    let mut entries = superblock_entries(superblock_bytes(0x0002_0001, 512, 128, 100));
    entries.push((lfs_mktag(LFS_TYPE_TAIL, 0x3ff, 8), words(4, 5)));
    entries.push((lfs_mktag(LFS_TYPE_MOVESTATE, 0x3ff, 12), {
        let mut v = words(0x0000_0003, 0);
        v.extend_from_slice(&0u32.to_le_bytes());
        v
    }));
    write_pair(&mut lfs, 0, 1, &entries);
    write_pair(&mut lfs, 4, 1, &[(lfs_mktag(LFS_TYPE_MOVESTATE, 0x3ff, 12), {
        let mut v = words(0x0000_0001, 0);
        v.extend_from_slice(&0u32.to_le_bytes());
        v
    })]);
    let mounted = lfs_mount_(lfs.cfg).unwrap();
    assert_eq!(mounted.root, [0, 1]);
    assert_eq!(mounted.block_count, 128);
    assert_eq!(mounted.name_max, 100);
    assert_eq!(mounted.gstate.tag, 0x0000_0002);
    assert_eq!(mounted.gstate.pair, [0, 0]);
    assert_eq!(mounted.gdisk.tag, mounted.gstate.tag);
}

#[test]
fn mount_refuses_another_geometry_and_a_blank_device() {
    let mut lfs = new_fs();
    write_pair(&mut lfs, 0, 1, &superblock_entries(superblock_bytes(0x0002_0001, 1024, 128, 0)));
    assert!(matches!(lfs_mount_(lfs.cfg), Err(Error::Invalid)));
    let mut lfs = new_fs();
    write_pair(&mut lfs, 0, 1, &superblock_entries(superblock_bytes(0x0003_0000, 512, 128, 0)));
    assert!(matches!(lfs_mount_(lfs.cfg), Err(Error::Invalid)));
    let lfs = new_fs();
    assert!(matches!(lfs_mount_(lfs.cfg), Err(Error::Corrupt)));
    // a superblock name without its struct
    let mut lfs = new_fs();
    write_pair(&mut lfs, 0, 1, &[(lfs_mktag(LFS_TYPE_SUPERBLOCK, 0, 8), b"littlefs".to_vec())]);
    assert!(matches!(lfs_mount_(lfs.cfg), Err(Error::NoEntry)));
}

#[test]
fn pred_finds_the_pair_whose_tail_is_asked_for_and_size_counts_blocks() {
    let mut lfs = new_fs();
    write_pair(&mut lfs, 0, 1, &[
        (lfs_mktag(LFS_TYPE_NAME | 1, 0, 1), b"a".to_vec()),
        (lfs_mktag(LFS_TYPE_CTZSTRUCT, 0, 8), words(9, 100)),
        (lfs_mktag(LFS_TYPE_TAIL, 0x3ff, 8), words(4, 5)),
    ]);
    write_pair(&mut lfs, 4, 1, &[(lfs_mktag(LFS_TYPE_NAME | 1, 0, 1), b"b".to_vec())]);
    let mut pdir = blank();
    assert_eq!(lfs_fs_pred(&mut lfs, &[5, 4], &mut pdir), Ok(()));
    assert_eq!(pdir.pair, [0, 1]);
    assert_eq!(pdir.tail, [4, 5]);
    let mut pdir = blank();
    assert_eq!(lfs_fs_pred(&mut lfs, &[7, 8], &mut pdir), Err(Error::NoEntry));
    // the root itself: loaded, and found since it has a tail
    let mut pdir = blank();
    assert_eq!(lfs_fs_pred(&mut lfs, &[0, 1], &mut pdir), Ok(()));
    assert_eq!(pdir.pair, [0, 1]);
    assert_eq!(lfs_fs_size_(&mut lfs, &[]), Ok(5));
}
