use littlefs_rust_core::bd::{lfs_bd_prog, lfs_bd_read, lfs_bd_sync, LfsCache};
use littlefs_rust_core::block_alloc::{lfs_alloc, lfs_alloc_ckpoint, lfs_alloc_drop, lfs_alloc_lookahead, lfs_alloc_scan};
use littlefs_rust_core::ctz::{
    lfs_ctz_extend, lfs_ctz_find, lfs_ctz_fromle32, lfs_ctz_index, lfs_ctz_tole32, lfs_ctz_traverse, LfsCtz,
};
use littlefs_rust_core::dir::LfsMdir;
use littlefs_rust_core::error::Error;
use littlefs_rust_core::file::{lfs_file_flushedread, LfsFile, LfsFileConfig};
use littlefs_rust_core::lfs_type::{LsfType, LFS_F_READING, LFS_O_RDONLY};
use littlefs_rust_core::fs::lfs_init;
use littlefs_rust_core::lfs::Lfs;
use littlefs_rust_core::storage::{SharedStorage, TestGeometry};
use littlefs_rust_core::types::LFS_BLOCK_NULL;

fn new_fs() -> Lfs<SharedStorage> {
    let cfg = SharedStorage::new(TestGeometry::default_geometry()).build_rust_env().config;
    let mut lfs = lfs_init(cfg).unwrap();
    lfs_alloc_drop(&mut lfs);
    lfs
}

fn empty_cache() -> LfsCache {
    LfsCache { block: LFS_BLOCK_NULL, off: 0, size: 0, buffer: vec![0xff; 512] }
}

#[test]
fn allocator_skips_blocks_in_use() {
    let mut lfs = new_fs();
    let in_use = [0u32, 1, 2, 5];
    assert_eq!(lfs_alloc(&mut lfs, &in_use), Ok(3));
    assert_eq!(lfs_alloc(&mut lfs, &in_use), Ok(4));
    assert_eq!(lfs_alloc(&mut lfs, &in_use), Ok(6));
    // the checkpoint counts what has been looked at
    assert!(lfs.lookahead.ckpoint < 128);
    lfs_alloc_ckpoint(&mut lfs);
    assert_eq!(lfs.lookahead.ckpoint, 128);
}

#[test]
fn allocator_reports_a_full_device() {
    let mut lfs = new_fs();
    let in_use: Vec<u32> = (0..128).collect();
    assert_eq!(lfs_alloc(&mut lfs, &in_use), Err(Error::NoSpace));
    assert_eq!(lfs.lookahead.ckpoint, 0);
}

#[test]
fn allocator_hands_out_each_free_block_once_per_checkpoint() {
    let mut lfs = new_fs();
    let in_use: Vec<u32> = (0..120).collect();
    let mut got = Vec::new();
    for _ in 0..8 {
        got.push(lfs_alloc(&mut lfs, &in_use).unwrap());
    }
    assert_eq!(got, (120..128).collect::<Vec<u32>>());
    assert_eq!(lfs_alloc(&mut lfs, &in_use), Err(Error::NoSpace));
}

#[test]
fn scan_marks_the_window_and_lookahead_marks_one_block() {
    let mut lfs = new_fs();
    lfs.lookahead.ckpoint = 128;
    assert_eq!(lfs_alloc_scan(&mut lfs, &[0, 9, 127]), Ok(()));
    assert_eq!(lfs.lookahead.start, 0);
    assert_eq!(lfs.lookahead.next, 0);
    assert_eq!(lfs.lookahead.size, 128);
    assert_eq!(lfs.lookahead.buffer[0], 0x01);
    assert_eq!(lfs.lookahead.buffer[1], 0x02);
    assert_eq!(lfs.lookahead.buffer[15], 0x80);
    assert_eq!(lfs_alloc_lookahead(&mut lfs, 10), Ok(()));
    assert_eq!(lfs.lookahead.buffer[1], 0x06);
}

#[test]
fn ctz_index_finds_the_block_of_a_position() {
    let lfs = new_fs();
    let cases = [
        (0u32, 0i32, 0u32),
        (511, 0, 511),
        (512, 1, 4),
        (1019, 1, 511),
        (1020, 2, 8),
        (2000, 3, 480),
        (100000, 198, 192),
    ];
    for (pos, block, off) in cases {
        let mut o = pos;
        assert_eq!(lfs_ctz_index(&lfs, &mut o), block);
        assert_eq!(o, off);
    }
}

#[test]
fn ctz_reference_byte_order_round_trip() {
    let mut c = LfsCtz { head: 0x0102_0304, size: 77 };
    lfs_ctz_tole32(&mut c);
    lfs_ctz_fromle32(&mut c);
    assert_eq!(c.head, 0x0102_0304);
    assert_eq!(c.size, 77);
}

fn open_ctz_file(head: u32, size: u32) -> LfsFile {
    LfsFile {
        id: 1,
        type_: LsfType::REG,
        m: LfsMdir { pair: [0, 1], rev: 0, off: 0, etag: 0, count: 0, erased: false, split: false, tail: [0, 0] },
        ctz: LfsCtz { head, size },
        flags: LFS_O_RDONLY,
        pos: 0,
        block: 0,
        off: 0,
        cache: empty_cache(),
        cfg: LfsFileConfig { buffer: Vec::new(), attrs: Vec::new() },
    }
}

fn write_block(lfs: &mut Lfs<SharedStorage>, cache: &mut LfsCache, rcache: &mut LfsCache, block: u32, off: u32, data: &[u8]) {
    let bc = lfs.block_count;
    assert_eq!(lfs_bd_prog(&mut lfs.cfg, bc, cache, rcache, true, block, off, data), Ok(()));
}

fn read_bytes(lfs: &mut Lfs<SharedStorage>, rcache: &mut LfsCache, block: u32, off: u32, n: usize) -> Vec<u8> {
    let mut buf = vec![0u8; n];
    let bc = lfs.block_count;
    assert_eq!(lfs_bd_read(&mut lfs.cfg, bc, None, rcache, n as u32, block, off, &mut buf), Ok(()));
    buf
}

#[test]
fn a_file_of_three_blocks_is_linked_found_and_traversed() {
    let mut lfs = new_fs();
    let mut fcache = empty_cache();
    let mut rcache = empty_cache();
    let mut in_use: Vec<u32> = Vec::new();

    // first block
    let (mut b0, mut off) = (0u32, 0u32);
    assert_eq!(lfs_ctz_extend(&mut lfs, &mut fcache, &mut rcache, &in_use, 0, 0, &mut b0, &mut off), Ok(()));
    assert_eq!(off, 0);
    let d0: Vec<u8> = (0..512).map(|i| (i % 251) as u8).collect();
    write_block(&mut lfs, &mut fcache, &mut rcache, b0, 0, &d0);
    in_use.push(b0);

    // second block: one pointer, back to the first
    lfs_alloc_drop(&mut lfs);
    let mut b1 = 0u32;
    assert_eq!(lfs_ctz_extend(&mut lfs, &mut fcache, &mut rcache, &in_use, b0, 512, &mut b1, &mut off), Ok(()));
    assert_ne!(b1, b0);
    assert_eq!(off, 4);
    let d1: Vec<u8> = (0..508).map(|i| (i % 13) as u8).collect();
    write_block(&mut lfs, &mut fcache, &mut rcache, b1, 4, &d1);
    in_use.push(b1);

    // third block: two pointers, to the second and the first
    lfs_alloc_drop(&mut lfs);
    let mut b2 = 0u32;
    assert_eq!(lfs_ctz_extend(&mut lfs, &mut fcache, &mut rcache, &in_use, b1, 1020, &mut b2, &mut off), Ok(()));
    assert!(b2 != b0 && b2 != b1);
    assert_eq!(off, 8);
    let d2: Vec<u8> = (0..504).map(|i| (i % 7) as u8).collect();
    write_block(&mut lfs, &mut fcache, &mut rcache, b2, 8, &d2);
    in_use.push(b2);
    let bc = lfs.block_count;
    assert_eq!(lfs_bd_sync(&mut lfs.cfg, bc, &mut fcache, &mut rcache, true), Ok(()));

    let p1 = read_bytes(&mut lfs, &mut rcache, b1, 0, 4);
    assert_eq!(u32::from_le_bytes([p1[0], p1[1], p1[2], p1[3]]), b0);
    let p2 = read_bytes(&mut lfs, &mut rcache, b2, 0, 8);
    assert_eq!(u32::from_le_bytes([p2[0], p2[1], p2[2], p2[3]]), b1);
    assert_eq!(u32::from_le_bytes([p2[4], p2[5], p2[6], p2[7]]), b0);

    let size = 512 + 508 + 504;
    for (pos, want_block, want_off) in [(100u32, b0, 100u32), (600, b1, 92), (1300, b2, 288), (1523, b2, 511)] {
        let (mut blk, mut o) = (0u32, 0u32);
        assert_eq!(lfs_ctz_find(&mut lfs, None, &mut rcache, b2, size, pos, &mut blk, &mut o), Ok(()));
        assert_eq!((blk, o), (want_block, want_off));
    }
    let got = read_bytes(&mut lfs, &mut rcache, b1, 92, 1);
    assert_eq!(got[0], d1[(600 - 512) as usize]);

    // reading the file gives back what was written, in one go or in pieces
    let whole: Vec<u8> = d0.iter().chain(d1.iter()).chain(d2.iter()).copied().collect();
    let mut file = open_ctz_file(b2, size);
    let mut buf = vec![0u8; 2000];
    assert_eq!(lfs_file_flushedread(&mut lfs, &mut file, &mut buf), Ok(size));
    assert_eq!(&buf[..size as usize], &whole[..]);
    assert_eq!(file.pos, size);
    assert_eq!(lfs_file_flushedread(&mut lfs, &mut file, &mut buf), Ok(0));
    let mut file = open_ctz_file(b2, size);
    let mut pieces = Vec::new();
    loop {
        let mut chunk = [0u8; 100];
        let n = lfs_file_flushedread(&mut lfs, &mut file, &mut chunk).unwrap();
        if n == 0 {
            break;
        }
        assert!(file.flags & LFS_F_READING != 0);
        pieces.extend_from_slice(&chunk[..n as usize]);
    }
    assert_eq!(pieces, whole);

    let mut visited = Vec::new();
    assert_eq!(lfs_ctz_traverse(&mut lfs, None, &mut rcache, b2, size, &mut visited), Ok(()));
    assert_eq!(visited, vec![b2, b1, b0]);

    // an empty file has no blocks
    let (mut blk, mut o) = (1u32, 1u32);
    assert_eq!(lfs_ctz_find(&mut lfs, None, &mut rcache, b2, 0, 0, &mut blk, &mut o), Ok(()));
    assert_eq!((blk, o), (LFS_BLOCK_NULL, 0));
    let mut none = Vec::new();
    assert_eq!(lfs_ctz_traverse(&mut lfs, None, &mut rcache, b2, 0, &mut none), Ok(()));
    assert!(none.is_empty());

    // extending inside a block copies what is there into the new block
    lfs_alloc_drop(&mut lfs);
    let mut b3 = 0u32;
    assert_eq!(lfs_ctz_extend(&mut lfs, &mut fcache, &mut rcache, &in_use, b2, 1300, &mut b3, &mut off), Ok(()));
    assert!(!in_use.contains(&b3));
    assert_eq!(off, 288);
    assert_eq!(lfs_bd_sync(&mut lfs.cfg, bc, &mut fcache, &mut rcache, true), Ok(()));
    let copied = read_bytes(&mut lfs, &mut rcache, b3, 0, 288);
    let original = read_bytes(&mut lfs, &mut rcache, b2, 0, 288);
    assert_eq!(copied, original);
}

#[test]
fn extending_with_an_exhausted_allocator_is_out_of_space() {
    let mut lfs = new_fs();
    let mut fcache = empty_cache();
    let mut rcache = empty_cache();
    let in_use: Vec<u32> = Vec::new();
    lfs.lookahead.ckpoint = 0;
    let (mut b0, mut off) = (0u32, 0u32);
    assert_eq!(
        lfs_ctz_extend(&mut lfs, &mut fcache, &mut rcache, &in_use, 0, 0, &mut b0, &mut off),
        Err(Error::NoSpace)
    );
}
