use littlefs_rust_core::bd::{lfs_bd_prog, lfs_bd_read, lfs_bd_sync, LfsCache};
use littlefs_rust_core::block_alloc::lfs_alloc_drop;
use littlefs_rust_core::ctz::LfsCtz;
use littlefs_rust_core::dir::LfsMdir;
use littlefs_rust_core::file::{lfs_file_outline, lfs_file_relocate, LfsFile, LfsFileConfig};
use littlefs_rust_core::error::Error;
use littlefs_rust_core::fs::lfs_init;
use littlefs_rust_core::lfs::Lfs;
use littlefs_rust_core::lfs_type::{LsfType, LFS_F_INLINE, LFS_F_WRITING, LFS_O_RDWR, LFS_TYPE_INLINESTRUCT, LFS_TYPE_NAME};
use littlefs_rust_core::storage::{SharedStorage, Storage, TestGeometry};
use littlefs_rust_core::tag::lfs_mktag;
use littlefs_rust_core::types::{LFS_BLOCK_INLINE, LFS_BLOCK_NULL};

fn new_fs() -> Lfs<SharedStorage> {
    let cfg = SharedStorage::new(TestGeometry::default_geometry()).build_rust_env().config;
    let mut lfs = lfs_init(cfg).unwrap();
    lfs_alloc_drop(&mut lfs);
    lfs
}

fn empty_cache() -> LfsCache {
    LfsCache { block: LFS_BLOCK_NULL, off: 0, size: 0, buffer: vec![0xff; 512] }
}

fn file_at(m: LfsMdir, id: u16, flags: u32, block: u32, pos: u32, off: u32, ctz: LfsCtz) -> LfsFile {
    LfsFile {
        id,
        type_: LsfType::REG,
        m,
        ctz,
        flags,
        pos,
        block,
        off,
        cache: empty_cache(),
        cfg: LfsFileConfig { buffer: Vec::new(), attrs: Vec::new() },
    }
}

fn read_bytes(lfs: &mut Lfs<SharedStorage>, block: u32, off: u32, n: usize) -> Vec<u8> {
    let mut buf = vec![0u8; n];
    let bc = lfs.block_count;
    let mut rcache = empty_cache();
    assert_eq!(lfs_bd_read(&mut lfs.cfg, bc, None, &mut rcache, n as u32, block, off, &mut buf), Ok(()));
    buf
}

#[test]
fn relocating_a_block_copies_what_was_written_so_far() {
    let mut lfs = new_fs();
    let bc = lfs.block_count;
    let data: Vec<u8> = (0..300).map(|i| (i * 7 % 256) as u8).collect();
    let mut pcache = empty_cache();
    let mut rcache = empty_cache();
    assert_eq!(lfs_bd_prog(&mut lfs.cfg, bc, &mut pcache, &mut rcache, true, 5, 0, &data), Ok(()));
    assert_eq!(lfs_bd_sync(&mut lfs.cfg, bc, &mut pcache, &mut rcache, true), Ok(()));

    let m = LfsMdir { pair: [0, 1], rev: 0, off: 0, etag: 0, count: 0, erased: false, split: false, tail: [0, 0] };
    let mut file = file_at(m, 1, LFS_O_RDWR, 5, 200, 200, LfsCtz { head: 5, size: 0 });
    let in_use = [0u32, 1, 5];
    assert_eq!(lfs_file_relocate(&mut lfs, &mut file, &in_use), Ok(()));
    assert!(!in_use.contains(&file.block));
    assert!(file.block < bc);
    assert_eq!(file.flags, LFS_O_RDWR | LFS_F_WRITING);
    assert_eq!(file.off, 200);
    assert_eq!(file.pos, 200);
    assert_eq!(lfs.pcache.block, LFS_BLOCK_NULL);
    // the copy still sits in the file's cache until it is written out
    let nblock = file.block;
    assert_eq!(file.cache.block, nblock);
    assert_eq!(lfs_bd_sync(&mut lfs.cfg, bc, &mut file.cache, &mut rcache, true), Ok(()));
    assert_eq!(read_bytes(&mut lfs, nblock, 0, 200), data[..200].to_vec());
    // the old block is left as it was
    assert_eq!(read_bytes(&mut lfs, 5, 0, 300), data);
}

#[test]
fn relocating_at_offset_zero_takes_a_fresh_block_and_copies_nothing() {
    let mut lfs = new_fs();
    let bc = lfs.block_count;
    let m = LfsMdir { pair: [0, 1], rev: 0, off: 0, etag: 0, count: 0, erased: false, split: false, tail: [0, 0] };
    let mut file = file_at(m, 1, LFS_O_RDWR, 2, 0, 0, LfsCtz { head: 2, size: 0 });
    let in_use = [0u32, 1, 2, 3];
    assert_eq!(lfs_file_relocate(&mut lfs, &mut file, &in_use), Ok(()));
    assert_eq!(file.block, 4);
    assert!(file.block < bc);
    assert_eq!(file.cache.block, LFS_BLOCK_NULL);
    assert_eq!(file.flags & LFS_F_WRITING, LFS_F_WRITING);
}

#[test]
fn outlining_moves_inline_data_into_a_block_of_its_own() {
    let mut lfs = new_fs();
    let bc = lfs.block_count;
    let text = b"inline contents that move out";
    let name = lfs_mktag(LFS_TYPE_NAME | 1, 2, 4);
    let tag = lfs_mktag(LFS_TYPE_INLINESTRUCT, 2, text.len() as u32);
    let mut bytes = vec![1u8, 0, 0, 0];
    let mut ptag = 0xffff_ffffu32;
    for (t, d) in [(name, &b"file"[..]), (tag, &text[..])] {
        bytes.extend_from_slice(&(t ^ ptag).to_be_bytes());
        bytes.extend_from_slice(d);
        ptag = t;
    }
    assert_eq!(lfs.cfg.context.write(10, 0, &bytes), Ok(()));
    let m = LfsMdir {
        pair: [10, 11],
        rev: 1,
        off: bytes.len() as u32,
        etag: ptag,
        count: 3,
        erased: false,
        split: false,
        tail: [LFS_BLOCK_NULL, LFS_BLOCK_NULL],
    };
    let pos = text.len() as u32;
    let mut file = file_at(m, 2, LFS_O_RDWR | LFS_F_INLINE, 0, pos, 0, LfsCtz { head: LFS_BLOCK_INLINE, size: pos });
    let in_use = [0u32, 1, 10, 11];
    assert_eq!(lfs_file_outline(&mut lfs, &mut file, &in_use), Ok(()));
    assert_eq!(file.flags & LFS_F_INLINE, 0);
    assert_eq!(file.flags, LFS_O_RDWR | LFS_F_WRITING);
    assert_eq!(file.off, pos);
    assert!(!in_use.contains(&file.block));
    let nblock = file.block;
    let mut rcache = empty_cache();
    assert_eq!(lfs_bd_sync(&mut lfs.cfg, bc, &mut file.cache, &mut rcache, true), Ok(()));
    assert_eq!(read_bytes(&mut lfs, nblock, 0, text.len()), text.to_vec());
}

#[test]
fn relocating_with_an_exhausted_allocator_is_out_of_space() {
    let mut lfs = new_fs();
    let m = LfsMdir { pair: [0, 1], rev: 0, off: 0, etag: 0, count: 0, erased: false, split: false, tail: [0, 0] };
    let mut file = file_at(m, 1, LFS_O_RDWR, 2, 0, 0, LfsCtz { head: 2, size: 0 });
    let in_use = [0u32, 1, 2];
    lfs.lookahead.ckpoint = 0;
    assert_eq!(lfs_file_relocate(&mut lfs, &mut file, &in_use), Err(Error::NoSpace));
    assert_eq!(file.block, 2);
}
