use littlefs_rust_core::lfs_gstate::{
    lfs_gstate_fromle32, lfs_gstate_getorphans, lfs_gstate_hasmove, lfs_gstate_hasmovehere, lfs_gstate_hasorphans,
    lfs_gstate_iszero, lfs_gstate_needssuperblock, lfs_gstate_tole32, lfs_gstate_xor, LfsGstateT,
};
use littlefs_rust_core::storage::{check, prng_matches, prng_verify, test_prng, SharedStorage, Storage, TestGeometry};

#[test]
fn gstate_xor_cancels() {
    let a = LfsGstateT { tag: 0x1234_5678, pair: [3, 4] };
    let b = LfsGstateT { tag: 0x0f0f_0f0f, pair: [7, 9] };
    let mut x = a;
    lfs_gstate_xor(&mut x, &b);
    assert_eq!(x.tag, 0x1234_5678 ^ 0x0f0f_0f0f);
    assert_eq!(x.pair, [3 ^ 7, 4 ^ 9]);
    lfs_gstate_xor(&mut x, &b);
    assert_eq!(x.tag, a.tag);
    assert_eq!(x.pair, a.pair);
    let mut y = a;
    lfs_gstate_xor(&mut y, &a);
    assert!(lfs_gstate_iszero(&y));
}

#[test]
fn gstate_queries() {
    let zero = LfsGstateT { tag: 0, pair: [0, 0] };
    assert!(lfs_gstate_iszero(&zero));
    assert!(!lfs_gstate_hasorphans(&zero));
    assert!(!lfs_gstate_hasmove(&zero));
    assert!(!lfs_gstate_needssuperblock(&zero));
    let orphans = LfsGstateT { tag: 0x8000_0003, pair: [0, 0] };
    assert!(lfs_gstate_hasorphans(&orphans));
    assert_eq!(lfs_gstate_getorphans(&orphans), 3);
    let sb = LfsGstateT { tag: 0x200, pair: [0, 0] };
    assert!(lfs_gstate_needssuperblock(&sb));
    let mv = LfsGstateT { tag: (0x4ff << 20) | (2 << 10), pair: [10, 11] };
    assert!(lfs_gstate_hasmove(&mv));
    assert!(lfs_gstate_hasmovehere(&mv, &[11, 10]));
    assert!(lfs_gstate_hasmovehere(&mv, &[10, 20]));
    assert!(!lfs_gstate_hasmovehere(&mv, &[1, 2]));
}

#[test]
fn gstate_byte_order_round_trip() {
    let a = LfsGstateT { tag: 0x0102_0304, pair: [5, 0x0607_0809] };
    let b = lfs_gstate_fromle32(&lfs_gstate_tole32(&a));
    assert_eq!(b.tag, a.tag);
    assert_eq!(b.pair, a.pair);
}

#[test]
fn prng_is_xorshift32() {
    let mut s = 1u32;
    assert_eq!(test_prng(&mut s), 270369);
    assert_eq!(s, 270369);
    assert_eq!(test_prng(&mut s), 67634689);
    assert_eq!(test_prng(&mut s), 2647435461);
}

#[test]
fn prng_verify_accepts_its_own_stream() {
    let mut s = 42u32;
    let buf: Vec<u8> = (0..64).map(|_| (test_prng(&mut s) & 0xff) as u8).collect();
    assert!(prng_matches(&buf, 42));
    prng_verify(&buf, 42);
    let mut bad = buf.clone();
    bad[10] ^= 1;
    assert!(!prng_matches(&bad, 42));
    assert!(prng_matches(&[], 7));
    prng_verify(&[], 7);
}

#[test]
fn check_maps_codes() {
    assert_eq!(check(0), Ok(()));
    assert_eq!(check(-5), Err(-5));
}

#[test]
fn shared_storage_reads_writes_and_erases() {
    let mut s = SharedStorage::new(TestGeometry::default_geometry());
    assert_eq!(s.block_count(), 128);
    let mut buf = [0xaau8; 4];
    assert_eq!(s.read(3, 100, &mut buf), Ok(()));
    assert_eq!(buf, [0, 0, 0, 0]);
    assert_eq!(s.write(3, 100, &[1, 2, 3, 4]), Ok(()));
    assert_eq!(s.read(3, 99, &mut buf), Ok(()));
    assert_eq!(buf, [0, 1, 2, 3]);
    assert_eq!(s.erase(3), Ok(()));
    assert_eq!(s.read(3, 100, &mut buf), Ok(()));
    assert_eq!(buf, [0xff; 4]);
    // other blocks are untouched
    assert_eq!(s.read(4, 100, &mut buf), Ok(()));
    assert_eq!(buf, [0; 4]);
    assert_eq!(s.sync(), Ok(()));
    assert_eq!(s.rust_sync(), Ok(()));
}

#[test]
fn shared_storage_defaults() {
    let s = SharedStorage::with_defaults();
    assert_eq!(s.block_count(), 128);
    assert_eq!(s.geo.block_size, 512);
    let env = SharedStorage::with_defaults().build_rust_env();
    assert_eq!(env.config.read_size, 16);
    assert_eq!(env.config.prog_size, 16);
    assert_eq!(env.config.block_size, 512);
    assert_eq!(env.config.block_count, 128);
    assert_eq!(env.config.cache_size, 512);
    assert_eq!(env.config.lookahead_size, 512);
    assert_eq!(env.config.block_cycles, -1);
    assert_eq!(env.config.name_max, 255);
}
