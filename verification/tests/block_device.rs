use core::cmp::Ordering;
use littlefs_rust_core::bd::{
    lfs_bd_cmp, lfs_bd_crc, lfs_bd_erase, lfs_bd_flush, lfs_bd_prog, lfs_bd_read, lfs_bd_sync, lfs_cache_drop,
    lfs_cache_zero, LfsConfig,
};
use littlefs_rust_core::crc::lfs_crc;
use littlefs_rust_core::error::Error;
use littlefs_rust_core::fs::lfs_init;
use littlefs_rust_core::lfs::Lfs;
use littlefs_rust_core::storage::{SharedStorage, Storage, TestGeometry};
use littlefs_rust_core::types::LFS_BLOCK_NULL;

fn new_fs() -> Lfs<SharedStorage> {
    let cfg: LfsConfig<SharedStorage> =
        SharedStorage::new(TestGeometry::default_geometry()).build_rust_env().config;
    lfs_init(cfg).unwrap()
}

fn read(lfs: &mut Lfs<SharedStorage>, block: u32, off: u32, n: usize) -> Result<Vec<u8>, Error> {
    let mut buf = vec![0u8; n];
    let bc = lfs.block_count;
    lfs_bd_read(&mut lfs.cfg, bc, Some(&lfs.pcache), &mut lfs.rcache, n as u32, block, off, &mut buf)?;
    Ok(buf)
}

#[test]
fn read_after_prog_sees_the_data_before_and_after_sync() {
    let mut lfs = new_fs();
    let bc = lfs.block_count;
    assert_eq!(lfs_bd_erase(&mut lfs.cfg, bc, 5), Ok(()));
    let data = b"hello, block device";
    assert_eq!(
        lfs_bd_prog(&mut lfs.cfg, bc, &mut lfs.pcache, &mut lfs.rcache, true, 5, 0, data),
        Ok(())
    );
    // still in the program cache
    assert_eq!(read(&mut lfs, 5, 0, data.len()).unwrap(), data.to_vec());
    let mut raw = vec![0u8; data.len()];
    assert_eq!(lfs.cfg.context.read(5, 0, &mut raw), Ok(()));
    assert_eq!(raw, vec![0xffu8; data.len()]);
    // written out
    assert_eq!(lfs_bd_sync(&mut lfs.cfg, bc, &mut lfs.pcache, &mut lfs.rcache, true), Ok(()));
    assert_eq!(lfs.pcache.block, LFS_BLOCK_NULL);
    assert_eq!(lfs.cfg.context.read(5, 0, &mut raw), Ok(()));
    assert_eq!(raw, data.to_vec());
    assert_eq!(read(&mut lfs, 5, 0, data.len()).unwrap(), data.to_vec());
    // the rest of the program unit is padding from the cache buffer
    let mut pad = vec![0u8; 13];
    assert_eq!(lfs.cfg.context.read(5, 19, &mut pad), Ok(()));
    assert_eq!(pad, vec![0xffu8; 13]);
}

#[test]
fn flush_writes_the_cache_out() {
    let mut lfs = new_fs();
    let bc = lfs.block_count;
    assert_eq!(lfs_bd_prog(&mut lfs.cfg, bc, &mut lfs.pcache, &mut lfs.rcache, false, 9, 32, &[7u8; 16]), Ok(()));
    assert_eq!(lfs.pcache.block, 9);
    assert_eq!(lfs_bd_flush(&mut lfs.cfg, bc, &mut lfs.pcache, &mut lfs.rcache, false), Ok(()));
    assert_eq!(lfs.pcache.block, LFS_BLOCK_NULL);
    let mut raw = [0u8; 16];
    assert_eq!(lfs.cfg.context.read(9, 32, &mut raw), Ok(()));
    assert_eq!(raw, [7u8; 16]);
}

#[test]
fn reads_out_of_range_are_corrupt() {
    let mut lfs = new_fs();
    assert_eq!(read(&mut lfs, 128, 0, 4), Err(Error::Corrupt));
    assert_eq!(read(&mut lfs, 0, 510, 4), Err(Error::Corrupt));
    assert_eq!(read(&mut lfs, 0, 508, 4).unwrap(), vec![0u8; 4]);
}

#[test]
fn cmp_orders_device_bytes_against_a_buffer() {
    let mut lfs = new_fs();
    let bc = lfs.block_count;
    assert_eq!(lfs_bd_prog(&mut lfs.cfg, bc, &mut lfs.pcache, &mut lfs.rcache, false, 2, 0, b"abcdef"), Ok(()));
    assert_eq!(lfs_bd_sync(&mut lfs.cfg, bc, &mut lfs.pcache, &mut lfs.rcache, false), Ok(()));
    let r = lfs_bd_cmp(&mut lfs.cfg, bc, None, &mut lfs.rcache, 6, 2, 0, b"abcdef");
    assert_eq!(r, Ok(Ordering::Equal));
    let r = lfs_bd_cmp(&mut lfs.cfg, bc, None, &mut lfs.rcache, 6, 2, 0, b"abcdez");
    assert_eq!(r, Ok(Ordering::Less));
    let r = lfs_bd_cmp(&mut lfs.cfg, bc, None, &mut lfs.rcache, 6, 2, 0, b"abcdea");
    assert_eq!(r, Ok(Ordering::Greater));
}

#[test]
fn crc_of_device_bytes_matches_crc_of_the_bytes() {
    let mut lfs = new_fs();
    let bc = lfs.block_count;
    let data: Vec<u8> = (0..100u8).collect();
    assert_eq!(lfs_bd_prog(&mut lfs.cfg, bc, &mut lfs.pcache, &mut lfs.rcache, false, 1, 16, &data), Ok(()));
    assert_eq!(lfs_bd_sync(&mut lfs.cfg, bc, &mut lfs.pcache, &mut lfs.rcache, false), Ok(()));
    let mut crc = 0xffff_ffffu32;
    assert_eq!(lfs_bd_crc(&mut lfs.cfg, bc, None, &mut lfs.rcache, 100, 1, 16, 100, &mut crc), Ok(()));
    assert_eq!(crc, lfs_crc(0xffff_ffff, &data));
}

#[test]
fn erase_fills_with_ones() {
    let mut lfs = new_fs();
    let bc = lfs.block_count;
    assert_eq!(lfs_bd_erase(&mut lfs.cfg, bc, 7), Ok(()));
    lfs_cache_drop(&mut lfs.rcache);
    assert_eq!(read(&mut lfs, 7, 0, 8).unwrap(), vec![0xffu8; 8]);
}

#[test]
fn cache_drop_and_zero() {
    let mut lfs = new_fs();
    lfs.rcache.block = 3;
    lfs_cache_drop(&mut lfs.rcache);
    assert_eq!(lfs.rcache.block, LFS_BLOCK_NULL);
    lfs.pcache.buffer[0] = 0;
    lfs.pcache.block = 4;
    lfs_cache_zero(&mut lfs.pcache);
    assert_eq!(lfs.pcache.block, LFS_BLOCK_NULL);
    assert!(lfs.pcache.buffer.iter().all(|&b| b == 0xff));
}

#[test]
fn a_read_the_read_cache_holds_does_not_reach_the_device() {
    let mut lfs = new_fs();
    let bc = lfs.block_count;
    assert_eq!(lfs_bd_prog(&mut lfs.cfg, bc, &mut lfs.pcache, &mut lfs.rcache, false, 4, 0, b"cached!!"), Ok(()));
    assert_eq!(lfs_bd_sync(&mut lfs.cfg, bc, &mut lfs.pcache, &mut lfs.rcache, false), Ok(()));
    let mut buf = [0u8; 8];
    assert_eq!(lfs_bd_read(&mut lfs.cfg, bc, None, &mut lfs.rcache, 8, 4, 0, &mut buf), Ok(()));
    assert_eq!(&buf, b"cached!!");
    // the device changes behind the cache's back
    assert_eq!(lfs.cfg.context.write(4, 0, b"changed!"), Ok(()));
    let before = (lfs.rcache.block, lfs.rcache.off, lfs.rcache.size, lfs.rcache.buffer.clone());
    let mut again = [0u8; 4];
    assert_eq!(lfs_bd_read(&mut lfs.cfg, bc, None, &mut lfs.rcache, 4, 4, 2, &mut again), Ok(()));
    assert_eq!(&again, b"ched");
    assert_eq!((lfs.rcache.block, lfs.rcache.off, lfs.rcache.size, lfs.rcache.buffer.clone()), before);
}

#[test]
fn empty_compare_and_crc_leave_everything_alone() {
    let mut lfs = new_fs();
    let bc = lfs.block_count;
    let r = lfs_bd_cmp(&mut lfs.cfg, bc, None, &mut lfs.rcache, 0, 3, 0, b"");
    assert_eq!(r, Ok(Ordering::Equal));
    let mut crc = 0x1234_5678u32;
    assert_eq!(lfs_bd_crc(&mut lfs.cfg, bc, None, &mut lfs.rcache, 0, 3, 0, 0, &mut crc), Ok(()));
    assert_eq!(crc, 0x1234_5678);
}

#[test]
fn error_names_follow_the_variants() {
    assert_eq!(Error::Io.name(), "Io");
    assert_eq!(Error::NoSpace.name(), "NoSpace");
    assert_eq!(Error::FileTooBig.name(), "FileTooBig");
}
