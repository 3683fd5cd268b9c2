use littlefs_rust_core::bd::LfsConfig;
use littlefs_rust_core::block_alloc::lfs_alloc_ckpoint;
use littlefs_rust_core::dir::LfsMdir;
use littlefs_rust_core::fs::lfs_init;
use littlefs_rust_core::storage::{SharedStorage, Storage, TestGeometry};
use littlefs_rust_core::util::lfs_min;

/// The configuration the unit tests run on: 128 blocks of 512 bytes.
fn default_config() -> LfsConfig<SharedStorage> {
    SharedStorage::new(TestGeometry::default_geometry()).build_rust_env().config
}

/// Minimal: construct the configuration and verify the device. No lfs calls.
#[test]
fn test_context_smoke() {
    let mut cfg = default_config();
    assert_eq!(cfg.context.block_count() * cfg.block_size as usize, 512 * 128);
    // Direct read through the device
    let mut buf = [0u8; 8];
    let err = cfg.context.read(0, 0, &mut buf);
    assert_eq!(err, Ok(()));
    assert_eq!(buf, [0u8; 8]);
}

/// Call lfs_init only. Isolates init from full format.
#[test]
fn test_context_lfs_init() {
    let cfg = default_config();
    let lfs = lfs_init(cfg);
    assert!(lfs.is_ok());
}

/// Init + lookahead setup. Stops before the metadata allocation.
#[test]
fn test_context_format_to_alloc() {
    let cfg = default_config();
    let lfs = lfs_init(cfg);
    assert!(lfs.is_ok());
    let mut lfs = lfs.unwrap();

    lfs.lookahead.buffer.fill(0);
    lfs.lookahead.start = 0;
    lfs.lookahead.size = lfs_min(8 * lfs.lookahead.buffer.len() as u32, lfs.block_count);
    lfs.lookahead.next = 0;
    lfs_alloc_ckpoint(&mut lfs);

    #[allow(unused)]
    let root = LfsMdir {
        pair: [0, 0],
        rev: 0,
        off: 0,
        etag: 0,
        count: 0,
        erased: false,
        split: false,
        tail: [0, 0],
    };
}

/// Verify the buffers are writable (lfs_init writes to them).
#[test]
fn test_context_buffers_writable() {
    let cfg = default_config();
    let mut lfs = lfs_init(cfg).unwrap();
    // Manually write to each buffer - simulate what lfs_cache_zero and format do
    lfs.rcache.buffer.fill(0xff);
    lfs.pcache.buffer.fill(0xff);
    lfs.lookahead.buffer.fill(0);
}
