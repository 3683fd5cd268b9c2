use littlefs_rust_core::bd::LfsCache;
use littlefs_rust_core::block_alloc::lfs_alloc_drop;
use littlefs_rust_core::ctz::LfsCtz;
use littlefs_rust_core::dir::LfsMdir;
use littlefs_rust_core::error::Error;
use littlefs_rust_core::file::{lfs_file_size_, LfsFile, LfsFileConfig};
use littlefs_rust_core::file_write::{
    lfs_file_flush, lfs_file_flushedwrite, lfs_file_read_, lfs_file_rewind_, lfs_file_seek_, lfs_file_truncate_,
    lfs_file_write_,
};
use littlefs_rust_core::fs::lfs_init;
use littlefs_rust_core::lfs::Lfs;
use littlefs_rust_core::lfs_type::{
    LsfType, LFS_F_DIRTY, LFS_F_INLINE, LFS_F_WRITING, LFS_O_APPEND, LFS_O_RDWR, LFS_SEEK_CUR, LFS_SEEK_END,
    LFS_SEEK_SET,
};
use littlefs_rust_core::storage::{SharedStorage, TestGeometry};
use littlefs_rust_core::types::{LFS_BLOCK_INLINE, LFS_BLOCK_NULL};

fn new_fs() -> Lfs<SharedStorage> {
    let cfg = SharedStorage::new(TestGeometry::default_geometry()).build_rust_env().config;
    let mut lfs = lfs_init(cfg).unwrap();
    lfs_alloc_drop(&mut lfs);
    lfs
}

fn new_file(flags: u32) -> LfsFile {
    LfsFile {
        id: 1,
        type_: LsfType::REG,
        m: LfsMdir { pair: [0, 1], rev: 0, off: 0, etag: 0, count: 0, erased: false, split: false, tail: [0, 0] },
        ctz: LfsCtz { head: LFS_BLOCK_NULL, size: 0 },
        flags,
        pos: 0,
        block: 0,
        off: 0,
        cache: LfsCache { block: LFS_BLOCK_NULL, off: 0, size: 0, buffer: vec![0; 512] },
        cfg: LfsFileConfig { buffer: Vec::new(), attrs: Vec::new() },
    }
}

fn new_inline_file(flags: u32) -> LfsFile {
    let mut file = new_file(flags | LFS_F_INLINE);
    file.ctz = LfsCtz { head: LFS_BLOCK_INLINE, size: 0 };
    file.cache = LfsCache { block: LFS_BLOCK_INLINE, off: 0, size: 512, buffer: vec![0; 512] };
    file
}

fn pattern(n: usize, seed: u32) -> Vec<u8> {
    (0..n).map(|i| ((i as u32).wrapping_mul(31).wrapping_add(seed) % 251) as u8).collect()
}

fn read_all(lfs: &mut Lfs<SharedStorage>, file: &mut LfsFile, in_use: &mut Vec<u32>) -> Vec<u8> {
    assert_eq!(lfs_file_rewind_(lfs, file, in_use), Ok(()));
    let mut out = Vec::new();
    loop {
        let mut chunk = [0u8; 97];
        let n = lfs_file_read_(lfs, file, in_use, &mut chunk).unwrap();
        if n == 0 {
            break;
        }
        out.extend_from_slice(&chunk[..n as usize]);
    }
    out
}

#[test]
fn what_is_written_is_read_back() {
    let mut lfs = new_fs();
    let mut in_use: Vec<u32> = Vec::new();
    let mut file = new_file(LFS_O_RDWR);
    let data = pattern(1300, 7);
    assert_eq!(lfs_file_write_(&mut lfs, &mut file, &mut in_use, &data), Ok(1300));
    assert_eq!(file.pos, 1300);
    assert!(file.flags & LFS_F_WRITING != 0);
    assert_eq!(lfs_file_size_(&lfs, &file), 1300);
    // three blocks of 512 bytes hold 1300 bytes with their pointers
    assert_eq!(in_use.len(), 3);
    assert_eq!(lfs_file_rewind_(&mut lfs, &mut file, &mut in_use), Ok(()));
    assert_eq!(file.pos, 0);
    assert_eq!(file.ctz.size, 1300);
    assert!(file.flags & LFS_F_DIRTY != 0);
    assert!(file.flags & LFS_F_WRITING == 0);
    let mut buf = vec![0u8; 2000];
    assert_eq!(lfs_file_read_(&mut lfs, &mut file, &mut in_use, &mut buf), Ok(1300));
    assert_eq!(&buf[..1300], &data[..]);
    assert_eq!(lfs_file_read_(&mut lfs, &mut file, &mut in_use, &mut buf), Ok(0));
    assert_eq!(read_all(&mut lfs, &mut file, &mut in_use), data);
}

#[test]
fn a_write_in_the_middle_keeps_the_rest_of_the_file() {
    let mut lfs = new_fs();
    let mut in_use: Vec<u32> = Vec::new();
    let mut file = new_file(LFS_O_RDWR);
    let data = pattern(1000, 3);
    assert_eq!(lfs_file_write_(&mut lfs, &mut file, &mut in_use, &data), Ok(1000));
    assert_eq!(lfs_file_seek_(&mut lfs, &mut file, &mut in_use, 500, LFS_SEEK_SET), Ok(500));
    assert_eq!(file.ctz.size, 1000);
    let patch = vec![0xabu8; 100];
    assert_eq!(lfs_file_write_(&mut lfs, &mut file, &mut in_use, &patch), Ok(100));
    assert_eq!(file.pos, 600);
    let mut want = data.clone();
    want[500..600].copy_from_slice(&patch);
    assert_eq!(read_all(&mut lfs, &mut file, &mut in_use), want);
    assert_eq!(file.ctz.size, 1000);
}

#[test]
fn a_file_opened_to_append_writes_at_its_end() {
    let mut lfs = new_fs();
    let mut in_use: Vec<u32> = Vec::new();
    let mut file = new_file(LFS_O_RDWR | LFS_O_APPEND);
    let a = pattern(300, 1);
    let b = pattern(200, 2);
    assert_eq!(lfs_file_write_(&mut lfs, &mut file, &mut in_use, &a), Ok(300));
    assert_eq!(lfs_file_flush(&mut lfs, &mut file, &mut in_use), Ok(()));
    assert_eq!(file.pos, 300);
    assert_eq!(lfs_file_seek_(&mut lfs, &mut file, &mut in_use, 0, LFS_SEEK_SET), Ok(0));
    assert_eq!(lfs_file_write_(&mut lfs, &mut file, &mut in_use, &b), Ok(200));
    assert_eq!(file.pos, 500);
    let mut want = a.clone();
    want.extend_from_slice(&b);
    assert_eq!(read_all(&mut lfs, &mut file, &mut in_use), want);
}

#[test]
fn writing_past_the_end_fills_the_gap_with_zeros() {
    let mut lfs = new_fs();
    let mut in_use: Vec<u32> = Vec::new();
    let mut file = new_file(LFS_O_RDWR);
    let a = pattern(100, 9);
    assert_eq!(lfs_file_write_(&mut lfs, &mut file, &mut in_use, &a), Ok(100));
    assert_eq!(lfs_file_seek_(&mut lfs, &mut file, &mut in_use, 600, LFS_SEEK_SET), Ok(600));
    assert_eq!(lfs_file_write_(&mut lfs, &mut file, &mut in_use, b"tail"), Ok(4));
    let got = read_all(&mut lfs, &mut file, &mut in_use);
    assert_eq!(got.len(), 604);
    assert_eq!(&got[..100], &a[..]);
    assert!(got[100..600].iter().all(|&x| x == 0));
    assert_eq!(&got[600..], b"tail");
}

#[test]
fn writes_past_file_max_are_refused() {
    let mut lfs = new_fs();
    lfs.file_max = 100;
    let mut in_use: Vec<u32> = Vec::new();
    let mut file = new_file(LFS_O_RDWR);
    assert_eq!(lfs_file_write_(&mut lfs, &mut file, &mut in_use, &[1u8; 101]), Err(Error::FileTooBig));
    assert_eq!(file.pos, 0);
    assert!(in_use.is_empty());
    assert_eq!(lfs_file_write_(&mut lfs, &mut file, &mut in_use, &[1u8; 100]), Ok(100));
    assert_eq!(lfs_file_write_(&mut lfs, &mut file, &mut in_use, &[1u8; 1]), Err(Error::FileTooBig));
}

#[test]
fn seeks_are_relative_to_start_position_or_end() {
    let mut lfs = new_fs();
    let mut in_use: Vec<u32> = Vec::new();
    let mut file = new_file(LFS_O_RDWR);
    assert_eq!(lfs_file_write_(&mut lfs, &mut file, &mut in_use, &pattern(50, 4)), Ok(50));
    // the end of a file being written is its position
    assert_eq!(lfs_file_seek_(&mut lfs, &mut file, &mut in_use, -10, LFS_SEEK_END), Ok(40));
    assert_eq!(lfs_file_seek_(&mut lfs, &mut file, &mut in_use, 5, LFS_SEEK_CUR), Ok(45));
    assert_eq!(lfs_file_seek_(&mut lfs, &mut file, &mut in_use, -46, LFS_SEEK_CUR), Err(Error::Invalid));
    assert_eq!(file.pos, 45);
    let mut one = [0u8; 1];
    assert_eq!(lfs_file_read_(&mut lfs, &mut file, &mut in_use, &mut one), Ok(1));
    assert_eq!(one[0], pattern(50, 4)[45]);
    // within the block being read, a seek only moves the position
    assert_eq!(lfs_file_seek_(&mut lfs, &mut file, &mut in_use, 2, LFS_SEEK_SET), Ok(2));
    assert_eq!(lfs_file_read_(&mut lfs, &mut file, &mut in_use, &mut one), Ok(1));
    assert_eq!(one[0], pattern(50, 4)[2]);
}

#[test]
fn flushed_write_of_nothing_changes_nothing() {
    let mut lfs = new_fs();
    let mut in_use: Vec<u32> = Vec::new();
    let mut file = new_file(LFS_O_RDWR);
    assert_eq!(lfs_file_flushedwrite(&mut lfs, &mut file, &mut in_use, &[]), Ok(0));
    assert_eq!(file.flags, LFS_O_RDWR);
    assert!(in_use.is_empty());
}

#[test]
fn an_inline_write_within_the_limit_stays_in_the_cache() {
    let mut lfs = new_fs();
    assert_eq!(lfs.inline_max, 64);
    let mut in_use: Vec<u32> = vec![0, 1];
    let mut file = new_inline_file(LFS_O_RDWR);
    let data = pattern(40, 5);
    assert_eq!(lfs_file_write_(&mut lfs, &mut file, &mut in_use, &data), Ok(40));
    assert!(file.flags & LFS_F_INLINE != 0);
    assert!(file.flags & LFS_F_WRITING != 0);
    assert_eq!(file.block, LFS_BLOCK_INLINE);
    assert_eq!(file.off, 40);
    assert_eq!(&file.cache.buffer[..40], &data[..]);
    assert_eq!(in_use, vec![0, 1]);
    assert_eq!(lfs_file_size_(&lfs, &file), 40);
    assert_eq!(lfs_file_flush(&mut lfs, &mut file, &mut in_use), Ok(()));
    assert_eq!(file.ctz.head, LFS_BLOCK_INLINE);
    assert_eq!(file.ctz.size, 40);
    assert!(file.flags & LFS_F_DIRTY != 0);
    assert_eq!(read_all(&mut lfs, &mut file, &mut in_use), data);
    assert!(file.flags & LFS_F_INLINE != 0);
}

#[test]
fn an_inline_write_past_the_limit_moves_the_file_out() {
    let mut lfs = new_fs();
    let mut in_use: Vec<u32> = vec![0, 1];
    let mut file = new_inline_file(LFS_O_RDWR);
    let a = pattern(40, 11);
    let b = pattern(40, 12);
    assert_eq!(lfs_file_write_(&mut lfs, &mut file, &mut in_use, &a), Ok(40));
    assert!(file.flags & LFS_F_INLINE != 0);
    assert_eq!(lfs_file_write_(&mut lfs, &mut file, &mut in_use, &b), Ok(40));
    assert!(file.flags & LFS_F_INLINE == 0);
    assert_eq!(in_use.len(), 3);
    assert_eq!(file.block, in_use[2]);
    assert_eq!(file.pos, 80);
    let mut want = a.clone();
    want.extend_from_slice(&b);
    assert_eq!(read_all(&mut lfs, &mut file, &mut in_use), want);
    assert_eq!(file.ctz.head, in_use[2]);
    assert_eq!(file.ctz.size, 80);
}

#[test]
fn an_inline_write_past_the_end_fills_the_gap_with_zeros() {
    let mut lfs = new_fs();
    let mut in_use: Vec<u32> = vec![0, 1];
    let mut file = new_inline_file(LFS_O_RDWR);
    file.cache.buffer[3] = 0x55;
    assert_eq!(lfs_file_seek_(&mut lfs, &mut file, &mut in_use, 10, LFS_SEEK_SET), Ok(10));
    assert_eq!(lfs_file_write_(&mut lfs, &mut file, &mut in_use, b"abc"), Ok(3));
    assert!(file.flags & LFS_F_INLINE != 0);
    let got = read_all(&mut lfs, &mut file, &mut in_use);
    assert_eq!(got.len(), 13);
    assert!(got[..10].iter().all(|&x| x == 0));
    assert_eq!(&got[10..], b"abc");
}

#[test]
fn a_seek_within_an_inline_file_being_read_only_moves() {
    let mut lfs = new_fs();
    let mut in_use: Vec<u32> = vec![0, 1];
    let mut file = new_inline_file(LFS_O_RDWR);
    let data = pattern(30, 2);
    assert_eq!(lfs_file_write_(&mut lfs, &mut file, &mut in_use, &data), Ok(30));
    assert_eq!(lfs_file_rewind_(&mut lfs, &mut file, &mut in_use), Ok(()));
    let mut two = [0u8; 2];
    assert_eq!(lfs_file_read_(&mut lfs, &mut file, &mut in_use, &mut two), Ok(2));
    assert_eq!(lfs_file_seek_(&mut lfs, &mut file, &mut in_use, 20, LFS_SEEK_SET), Ok(20));
    assert_eq!(file.off, 20);
    assert_eq!(lfs_file_read_(&mut lfs, &mut file, &mut in_use, &mut two), Ok(2));
    assert_eq!(&two, &data[20..22]);
}

#[test]
fn truncating_to_a_larger_size_adds_zeros() {
    let mut lfs = new_fs();
    let mut in_use: Vec<u32> = vec![0, 1];
    let mut file = new_file(LFS_O_RDWR);
    let data = pattern(100, 21);
    assert_eq!(lfs_file_write_(&mut lfs, &mut file, &mut in_use, &data), Ok(100));
    assert_eq!(lfs_file_truncate_(&mut lfs, &mut file, &mut in_use, 700), Ok(()));
    assert_eq!(file.pos, 100);
    assert_eq!(lfs_file_size_(&lfs, &file), 700);
    let got = read_all(&mut lfs, &mut file, &mut in_use);
    assert_eq!(got.len(), 700);
    assert_eq!(&got[..100], &data[..]);
    assert!(got[100..].iter().all(|&x| x == 0));
}

#[test]
fn truncating_a_long_file_keeps_its_first_bytes() {
    let mut lfs = new_fs();
    let mut in_use: Vec<u32> = vec![0, 1];
    let mut file = new_file(LFS_O_RDWR);
    let data = pattern(1300, 22);
    assert_eq!(lfs_file_write_(&mut lfs, &mut file, &mut in_use, &data), Ok(1300));
    assert_eq!(lfs_file_truncate_(&mut lfs, &mut file, &mut in_use, 600), Ok(()));
    assert_eq!(file.pos, 1300);
    assert_eq!(file.ctz.size, 600);
    assert!(file.flags & LFS_F_INLINE == 0);
    assert!(file.flags & LFS_F_DIRTY != 0);
    let mut one = [0u8; 1];
    assert_eq!(lfs_file_read_(&mut lfs, &mut file, &mut in_use, &mut one), Ok(0));
    assert_eq!(read_all(&mut lfs, &mut file, &mut in_use), data[..600].to_vec());
}

#[test]
fn truncating_below_the_inline_limit_makes_the_file_inline() {
    let mut lfs = new_fs();
    let mut in_use: Vec<u32> = vec![0, 1];
    let mut file = new_file(LFS_O_RDWR);
    let data = pattern(1300, 23);
    assert_eq!(lfs_file_write_(&mut lfs, &mut file, &mut in_use, &data), Ok(1300));
    assert_eq!(lfs_file_truncate_(&mut lfs, &mut file, &mut in_use, 40), Ok(()));
    assert!(file.flags & LFS_F_INLINE != 0);
    assert_eq!(file.ctz.head, LFS_BLOCK_INLINE);
    assert_eq!(file.ctz.size, 40);
    assert_eq!(&file.cache.buffer[..40], &data[..40]);
    assert_eq!(read_all(&mut lfs, &mut file, &mut in_use), data[..40].to_vec());
}

#[test]
fn truncating_past_file_max_is_refused() {
    let mut lfs = new_fs();
    lfs.file_max = 1000;
    let mut in_use: Vec<u32> = vec![0, 1];
    let mut file = new_file(LFS_O_RDWR);
    assert_eq!(lfs_file_truncate_(&mut lfs, &mut file, &mut in_use, 1001), Err(Error::Invalid));
    assert_eq!(file.ctz.size, 0);
    assert_eq!(lfs_file_truncate_(&mut lfs, &mut file, &mut in_use, 1000), Ok(()));
    assert_eq!(lfs_file_size_(&lfs, &file), 1000);
}

#[test]
fn an_inline_file_grown_past_the_limit_moves_out() {
    let mut lfs = new_fs();
    let mut in_use: Vec<u32> = vec![0, 1];
    let mut file = new_inline_file(LFS_O_RDWR);
    assert_eq!(lfs_file_write_(&mut lfs, &mut file, &mut in_use, b"0123456789"), Ok(10));
    assert_eq!(lfs_file_truncate_(&mut lfs, &mut file, &mut in_use, 30), Ok(()));
    assert!(file.flags & LFS_F_INLINE != 0);
    assert_eq!(lfs_file_size_(&lfs, &file), 30);
    assert_eq!(lfs_file_truncate_(&mut lfs, &mut file, &mut in_use, 100), Ok(()));
    assert!(file.flags & LFS_F_INLINE == 0);
    assert_eq!(file.pos, 10);
    let got = read_all(&mut lfs, &mut file, &mut in_use);
    assert_eq!(got.len(), 100);
    assert_eq!(&got[..10], b"0123456789");
    assert!(got[10..].iter().all(|&x| x == 0));
}
