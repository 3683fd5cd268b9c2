use littlefs_rust_core::bd::{LfsCache, LfsConfig};
use littlefs_rust_core::ctz::LfsCtz;
use littlefs_rust_core::dir::LfsMdir;
use littlefs_rust_core::file::{LfsFile, LfsFileConfig};
use littlefs_rust_core::fs::lfs_init;
use littlefs_rust_core::lfs::Lfs;
use littlefs_rust_core::lfs_type::{
    LsfType, LFS_F_DIRTY, LFS_F_INLINE, LFS_F_WRITING, LFS_O_RDWR, LFS_TYPE_CTZSTRUCT, LFS_TYPE_DIRSTRUCT, LFS_TYPE_NAME,
};
use littlefs_rust_core::storage::{SharedStorage, Storage, TestGeometry};
use littlefs_rust_core::tag::lfs_mktag;
use littlefs_rust_core::traverse::{lfs_fs_traverse_dir, lfs_fs_traverse_files};
use littlefs_rust_core::types::LFS_BLOCK_NULL;

fn new_fs() -> Lfs<SharedStorage> {
    let cfg: LfsConfig<SharedStorage> = SharedStorage::new(TestGeometry::default_geometry()).build_rust_env().config;
    lfs_init(cfg).unwrap()
}

fn empty_cache() -> LfsCache {
    LfsCache { block: LFS_BLOCK_NULL, off: 0, size: 0, buffer: vec![0xff; 512] }
}

fn write_log(lfs: &mut Lfs<SharedStorage>, block: u32, entries: &[(u32, Vec<u8>)]) -> (u32, u32) {
    let mut bytes = vec![1u8, 0, 0, 0];
    let mut ptag = 0xffff_ffffu32;
    for (tag, data) in entries {
        bytes.extend_from_slice(&(tag ^ ptag).to_be_bytes());
        bytes.extend_from_slice(data);
        ptag = *tag;
    }
    assert_eq!(lfs.cfg.context.write(block, 0, &bytes), Ok(()));
    (bytes.len() as u32, ptag)
}

fn words(a: u32, b: u32) -> Vec<u8> {
    let mut v = a.to_le_bytes().to_vec();
    v.extend_from_slice(&b.to_le_bytes());
    v
}

#[test]
fn a_pair_lists_the_blocks_of_its_files_and_directories() {
    let mut lfs = new_fs();
    let entries = vec![
        (lfs_mktag(LFS_TYPE_NAME | 1, 0, 1), b"a".to_vec()),
        (lfs_mktag(LFS_TYPE_CTZSTRUCT, 0, 8), words(9, 300)),
        (lfs_mktag(LFS_TYPE_NAME | 2, 1, 1), b"d".to_vec()),
        (lfs_mktag(LFS_TYPE_DIRSTRUCT, 1, 8), words(20, 21)),
        (lfs_mktag(LFS_TYPE_NAME | 1, 2, 1), b"e".to_vec()),
        (lfs_mktag(LFS_TYPE_CTZSTRUCT, 2, 8), words(0, 0)),
    ];
    let (off, etag) = write_log(&mut lfs, 2, &entries);
    let dir = LfsMdir { pair: [2, 3], rev: 1, off, etag, count: 4, erased: false, split: false, tail: [LFS_BLOCK_NULL; 2] };
    let mut visited = vec![100u32];
    assert_eq!(lfs_fs_traverse_dir(&mut lfs, &dir, true, &mut visited), Ok(()));
    assert_eq!(visited, vec![100, 9, 20, 21]);
    let mut visited = Vec::new();
    assert_eq!(lfs_fs_traverse_dir(&mut lfs, &dir, false, &mut visited), Ok(()));
    assert_eq!(visited, vec![9]);
}

#[test]
fn a_file_of_two_blocks_is_listed_from_its_last_block() {
    let mut lfs = new_fs();
    // block 11 follows block 10: its first word points back to it
    assert_eq!(lfs.cfg.context.write(11, 0, &10u32.to_le_bytes()), Ok(()));
    let entries = vec![(lfs_mktag(LFS_TYPE_CTZSTRUCT, 0, 8), words(11, 600))];
    let (off, etag) = write_log(&mut lfs, 2, &entries);
    let dir = LfsMdir { pair: [2, 3], rev: 1, off, etag, count: 1, erased: false, split: false, tail: [LFS_BLOCK_NULL; 2] };
    let mut visited = Vec::new();
    assert_eq!(lfs_fs_traverse_dir(&mut lfs, &dir, false, &mut visited), Ok(()));
    assert_eq!(visited, vec![11, 10]);
}

fn file(flags: u32, ctz: LfsCtz, block: u32, pos: u32) -> LfsFile {
    let m = LfsMdir { pair: [0, 1], rev: 0, off: 0, etag: 0, count: 0, erased: false, split: false, tail: [0, 0] };
    LfsFile {
        id: 0,
        type_: LsfType::REG,
        m,
        ctz,
        flags,
        pos,
        block,
        off: pos,
        cache: empty_cache(),
        cfg: LfsFileConfig { buffer: Vec::new(), attrs: Vec::new() },
    }
}

#[test]
fn open_files_list_their_stored_and_written_blocks() {
    let mut lfs = new_fs();
    let files = vec![
        file(LFS_O_RDWR | LFS_F_DIRTY, LfsCtz { head: 30, size: 10 }, 0, 0),
        file(LFS_O_RDWR | LFS_F_WRITING, LfsCtz { head: 31, size: 10 }, 32, 5),
        file(LFS_O_RDWR | LFS_F_DIRTY | LFS_F_INLINE, LfsCtz { head: 33, size: 10 }, 0, 0),
        file(LFS_O_RDWR, LfsCtz { head: 34, size: 10 }, 0, 0),
    ];
    let mut visited = Vec::new();
    assert_eq!(lfs_fs_traverse_files(&mut lfs, &files, &mut visited), Ok(()));
    assert_eq!(visited, vec![30, 32]);
}
