use littlefs_rust_core::bd::LfsCache;
use littlefs_rust_core::ctz::LfsCtz;
use littlefs_rust_core::dir::{
    lfs_dir_commit_size, lfs_dir_needsrelocation, lfs_dir_traverse_filter, lfs_dir_traverse_test_cb, lfs_fcrc_fromle32,
    lfs_fcrc_tole32, LfsDir, LfsFcrc, LfsMdir, TraverseTestOut,
};
use littlefs_rust_core::dir_get::{lfs_dir_get, lfs_dir_getread, lfs_dir_getslice};
use littlefs_rust_core::error::Error;
use littlefs_rust_core::file::{
    lfs_dir_close, lfs_dir_tell, lfs_file_flushedread, lfs_file_size, lfs_file_size_, lfs_file_tell, lfs_file_tell_, LfsFile, LfsFileConfig,
};
use littlefs_rust_core::fs::{
    lfs_fs_hasorphans, lfs_fs_preporphans, lfs_fs_prepmove, lfs_fs_prepsuperblock, lfs_init, lfs_mlist_append,
    lfs_mlist_isopen, lfs_mount_finish, lfs_mount_superblock, lfs_tortoise_detectcycles, lfs_unmount, LfsTortoise,
};
use littlefs_rust_core::lfs::{Lfs, LfsMlist};
use littlefs_rust_core::lfs_gstate::{lfs_gstate_hasmove, lfs_gstate_hasmovehere, lfs_gstate_needssuperblock, LfsGstateT};
use littlefs_rust_core::lfs_type::{
    LsfType, LFS_FROM_NOOP, LFS_F_INLINE, LFS_F_WRITING, LFS_O_RDONLY, LFS_TYPE_CREATE, LFS_TYPE_DELETE, LFS_TYPE_INLINESTRUCT, LFS_TYPE_NAME,
};
use littlefs_rust_core::storage::{SharedStorage, Storage, TestGeometry};
use littlefs_rust_core::superblock::{lfs_superblock_fromle32, lfs_superblock_tole32, LfsSuperblock};
use littlefs_rust_core::tag::lfs_mktag;
use littlefs_rust_core::types::{LFS_BLOCK_INLINE, LFS_BLOCK_NULL};

fn new_fs() -> Lfs<SharedStorage> {
    let cfg = SharedStorage::new(TestGeometry::default_geometry()).build_rust_env().config;
    lfs_init(cfg).unwrap()
}

fn mdir(pair: [u32; 2], off: u32, etag: u32) -> LfsMdir {
    LfsMdir { pair, rev: 1, off, etag, count: 1, erased: false, split: false, tail: [LFS_BLOCK_NULL, LFS_BLOCK_NULL] }
}

/// Writes a log of `(tag, data)` entries to `block` after a revision
/// word, each tag stored big-endian and xored with the one before, and
/// gives the offset and tag where the log ends.
fn write_log(lfs: &mut Lfs<SharedStorage>, block: u32, entries: &[(u32, &[u8])]) -> (u32, u32) {
    let mut bytes = vec![1u8, 0, 0, 0];
    let mut ptag = 0xffff_ffffu32;
    for (tag, data) in entries {
        bytes.extend_from_slice(&(tag ^ ptag).to_be_bytes());
        bytes.extend_from_slice(data);
        ptag = *tag;
    }
    assert_eq!(lfs.cfg.context.write(block, 0, &bytes), Ok(()));
    (bytes.len() as u32, ptag)
}

#[test]
fn dir_get_finds_the_latest_matching_tag() {
    let mut lfs = new_fs();
    let name = lfs_mktag(LFS_TYPE_NAME | 1, 0, 3);
    let old = lfs_mktag(LFS_TYPE_INLINESTRUCT, 0, 4);
    let new = lfs_mktag(LFS_TYPE_INLINESTRUCT, 0, 2);
    let (off, etag) = write_log(&mut lfs, 2, &[(name, b"abc"), (old, b"wxyz"), (new, b"hi")]);
    let dir = mdir([2, 3], off, etag);
    let mut buf = [9u8; 4];
    let r = lfs_dir_get(&mut lfs, &dir, lfs_mktag(0x7ff, 0x3ff, 0), lfs_mktag(LFS_TYPE_INLINESTRUCT, 0, 4), &mut buf);
    assert_eq!(r, Ok(new));
    assert_eq!(buf, [b'h', b'i', 0, 0]);
    let mut nbuf = [0u8; 3];
    let r = lfs_dir_get(&mut lfs, &dir, lfs_mktag(0x700, 0x3ff, 0), lfs_mktag(LFS_TYPE_NAME, 0, 3), &mut nbuf);
    assert_eq!(r, Ok(name));
    assert_eq!(&nbuf, b"abc");
    let mut slice = [0u8; 2];
    let r = lfs_dir_getslice(&mut lfs, &dir, lfs_mktag(0x7ff, 0x3ff, 0), lfs_mktag(LFS_TYPE_NAME | 1, 0, 3), 1,
        &mut slice, 2);
    assert_eq!(r, Ok(name));
    assert_eq!(&slice, b"bc");
}

#[test]
fn dir_get_reports_missing_and_deleted_entries() {
    let mut lfs = new_fs();
    let data = lfs_mktag(LFS_TYPE_INLINESTRUCT, 1, 2);
    let del = lfs_mktag(LFS_TYPE_INLINESTRUCT, 1, 0x3ff);
    let (off, etag) = write_log(&mut lfs, 4, &[(data, b"ok"), (del, b"")]);
    let dir = mdir([4, 5], off, etag);
    let mut buf = [0u8; 2];
    let r = lfs_dir_get(&mut lfs, &dir, lfs_mktag(0x7ff, 0x3ff, 0), lfs_mktag(LFS_TYPE_INLINESTRUCT, 1, 2), &mut buf);
    assert_eq!(r, Err(Error::NoEntry));
    let r = lfs_dir_get(&mut lfs, &dir, lfs_mktag(0x7ff, 0x3ff, 0), lfs_mktag(LFS_TYPE_INLINESTRUCT, 7, 2), &mut buf);
    assert_eq!(r, Err(Error::NoEntry));
}

#[test]
fn dir_get_shifts_ids_past_creates() {
    let mut lfs = new_fs();
    // id 0 holds "a"; then an entry is created at id 0, moving "a" to id 1
    let a = lfs_mktag(LFS_TYPE_INLINESTRUCT, 0, 1);
    let create = lfs_mktag(LFS_TYPE_CREATE, 0, 0);
    let b = lfs_mktag(LFS_TYPE_INLINESTRUCT, 0, 1);
    let (off, etag) = write_log(&mut lfs, 6, &[(a, b"a"), (create, b""), (b, b"b")]);
    let dir = mdir([6, 7], off, etag);
    let mut buf = [0u8; 1];
    let r = lfs_dir_get(&mut lfs, &dir, lfs_mktag(0x7ff, 0x3ff, 0), lfs_mktag(LFS_TYPE_INLINESTRUCT, 1, 1), &mut buf);
    assert_eq!(r, Ok(lfs_mktag(LFS_TYPE_INLINESTRUCT, 1, 1)));
    assert_eq!(&buf, b"a");
    let r = lfs_dir_get(&mut lfs, &dir, lfs_mktag(0x7ff, 0x3ff, 0), lfs_mktag(LFS_TYPE_INLINESTRUCT, 0, 1), &mut buf);
    assert_eq!(r, Ok(b));
    assert_eq!(&buf, b"b");
}

#[test]
fn dir_get_hides_an_entry_being_moved_out() {
    let mut lfs = new_fs();
    let a = lfs_mktag(LFS_TYPE_INLINESTRUCT, 2, 1);
    let (off, etag) = write_log(&mut lfs, 8, &[(a, b"a")]);
    let dir = mdir([8, 9], off, etag);
    lfs.gdisk = LfsGstateT { tag: lfs_mktag(LFS_TYPE_DELETE, 2, 0), pair: [8, 9] };
    let mut buf = [0u8; 1];
    let r = lfs_dir_get(&mut lfs, &dir, lfs_mktag(0x7ff, 0x3ff, 0), lfs_mktag(LFS_TYPE_INLINESTRUCT, 2, 1), &mut buf);
    assert_eq!(r, Err(Error::NoEntry));
}

#[test]
fn traverse_filter_drops_redundant_tags() {
    let mut ft = lfs_mktag(LFS_TYPE_INLINESTRUCT, 3, 4);
    // a later struct of the same id replaces it
    assert_eq!(lfs_dir_traverse_filter(&mut ft, lfs_mktag(LFS_TYPE_INLINESTRUCT, 3, 8), &[]), Ok(1));
    assert_eq!(ft, lfs_mktag(LFS_FROM_NOOP, 0, 0));
    // a create before it shifts its id up
    let mut ft = lfs_mktag(LFS_TYPE_INLINESTRUCT, 3, 4);
    assert_eq!(lfs_dir_traverse_filter(&mut ft, lfs_mktag(LFS_TYPE_CREATE, 1, 0), &[]), Ok(0));
    assert_eq!(ft, lfs_mktag(LFS_TYPE_INLINESTRUCT, 4, 4));
    // a tag of another id leaves it alone
    let mut ft = lfs_mktag(LFS_TYPE_INLINESTRUCT, 3, 4);
    assert_eq!(lfs_dir_traverse_filter(&mut ft, lfs_mktag(LFS_TYPE_INLINESTRUCT, 5, 4), &[]), Ok(0));
    assert_eq!(ft, lfs_mktag(LFS_TYPE_INLINESTRUCT, 3, 4));
    // a delete of its id makes it redundant
    let mut ft = lfs_mktag(LFS_TYPE_INLINESTRUCT, 3, 4);
    assert_eq!(lfs_dir_traverse_filter(&mut ft, lfs_mktag(LFS_TYPE_DELETE, 3, 0), &[]), Ok(1));
}

#[test]
fn commit_size_adds_disk_sizes() {
    let mut size = 0u32;
    assert_eq!(lfs_dir_commit_size(&mut size, lfs_mktag(LFS_TYPE_INLINESTRUCT, 0, 10), &[]), Ok(0));
    assert_eq!(size, 14);
    assert_eq!(lfs_dir_commit_size(&mut size, lfs_mktag(LFS_TYPE_DELETE, 0, 0x3ff), &[]), Ok(0));
    assert_eq!(size, 18);
}

#[test]
fn relocation_follows_block_cycles() {
    let mut d = mdir([0, 1], 0, 0);
    d.rev = 99;
    assert!(lfs_dir_needsrelocation(100, &d) == false);
    d.rev = 100;
    assert!(lfs_dir_needsrelocation(100, &d));
    assert!(!lfs_dir_needsrelocation(-1, &d));
    // (1 + 1) | 1 == 3; the revision count wraps to 0, a multiple of 3
    d.rev = 0xffff_ffff;
    assert!(lfs_dir_needsrelocation(1, &d));
    d.rev = 0;
    assert!(!lfs_dir_needsrelocation(1, &d));
}

#[test]
fn traverse_test_callback_records_eight_tags() {
    let mut out = TraverseTestOut { call_count: 0, tags: [0; 8], first_bytes: [0; 8] };
    for i in 0..10u32 {
        let buf = [i as u8 + 1];
        assert_eq!(lfs_dir_traverse_test_cb(&mut out, lfs_mktag(LFS_TYPE_INLINESTRUCT, i, 1), &buf), Ok(0));
    }
    assert_eq!(out.call_count, 8);
    assert_eq!(out.tags, [0x201; 8]);
    assert_eq!(out.first_bytes, [1, 2, 3, 4, 5, 6, 7, 8]);
    let mut out2 = TraverseTestOut { call_count: 0, tags: [0; 8], first_bytes: [9; 8] };
    assert_eq!(lfs_dir_traverse_test_cb(&mut out2, lfs_mktag(LFS_TYPE_NAME, 0, 0), &[]), Ok(0));
    assert_eq!(out2.first_bytes[0], 0);
}

#[test]
fn fcrc_and_superblock_byte_order_round_trip() {
    let mut f = LfsFcrc { size: 0x10, crc: 0xdead_beef };
    lfs_fcrc_tole32(&mut f);
    lfs_fcrc_fromle32(&mut f);
    assert_eq!((f.size, f.crc), (0x10, 0xdead_beef));
    let mut sb = LfsSuperblock { version: 0x0002_0001, block_size: 512, block_count: 128, name_max: 255, file_max: 7, attr_max: 9 };
    lfs_superblock_tole32(&mut sb);
    assert_eq!(sb.version.to_ne_bytes(), [1, 0, 2, 0]);
    lfs_superblock_fromle32(&mut sb);
    assert_eq!(sb.version, 0x0002_0001);
    assert_eq!(sb.block_count, 128);
}

#[test]
fn init_defaults_the_limits() {
    let lfs = new_fs();
    assert_eq!(lfs.block_count, 128);
    assert_eq!(lfs.name_max, 255);
    assert_eq!(lfs.file_max, 2_147_483_647);
    assert_eq!(lfs.attr_max, 1022);
    // cache 512, attributes 1022, an eighth of a 512-byte block: 64
    assert_eq!(lfs.inline_max, 64);
    assert_eq!(lfs.root, [LFS_BLOCK_NULL, LFS_BLOCK_NULL]);
    assert!(lfs.rcache.buffer.iter().all(|&b| b == 0xff));
    assert_eq!(lfs.lookahead.buffer.len(), 512);
    let mut cfg = SharedStorage::new(TestGeometry::default_geometry()).build_rust_env().config;
    cfg.name_max = 0;
    cfg.attr_max = 0;
    cfg.inline_max = u32::MAX;
    let lfs = lfs_init(cfg).unwrap();
    assert_eq!(lfs.name_max, 255);
    assert_eq!(lfs.attr_max, 1022);
    assert_eq!(lfs.inline_max, 0);
}

#[test]
fn unmount_succeeds() {
    let mut lfs = new_fs();
    assert_eq!(lfs_unmount(&mut lfs), Ok(()));
}

#[test]
fn superblock_flag_orphans_and_moves_in_the_global_state() {
    let mut lfs = new_fs();
    lfs_fs_prepsuperblock(&mut lfs, true);
    assert!(lfs_gstate_needssuperblock(&lfs.gstate));
    lfs_fs_prepsuperblock(&mut lfs, false);
    assert!(!lfs_gstate_needssuperblock(&lfs.gstate));

    assert!(!lfs_fs_hasorphans(&lfs));
    assert_eq!(lfs_fs_preporphans(&mut lfs, 1), Ok(()));
    assert!(lfs_fs_hasorphans(&lfs));
    assert_eq!(lfs.gstate.tag, 0x8000_0001);
    assert_eq!(lfs_fs_preporphans(&mut lfs, 1), Ok(()));
    assert_eq!(lfs.gstate.tag, 0x8000_0002);
    assert_eq!(lfs_fs_preporphans(&mut lfs, -1), Ok(()));
    assert_eq!(lfs_fs_preporphans(&mut lfs, -1), Ok(()));
    assert!(!lfs_fs_hasorphans(&lfs));
    assert_eq!(lfs.gstate.tag, 0);

    lfs_fs_prepmove(&mut lfs, 4, Some(&[10, 11]));
    assert!(lfs_gstate_hasmove(&lfs.gstate));
    assert!(lfs_gstate_hasmovehere(&lfs.gstate, &[10, 11]));
    assert_eq!(lfs.gstate.tag, lfs_mktag(LFS_TYPE_DELETE, 4, 0));
    lfs_fs_prepmove(&mut lfs, 0x3ff, None);
    assert!(!lfs_gstate_hasmove(&lfs.gstate));
    assert_eq!(lfs.gstate.pair, [0, 0]);
}

#[test]
fn tortoise_catches_a_cycle() {
    let mut t = LfsTortoise { pair: [LFS_BLOCK_NULL, LFS_BLOCK_NULL], i: 1, period: 1 };
    // a list that loops over the pairs (2,3) -> (4,5) -> (2,3)
    let a = mdir([0, 1], 0, 0);
    let mut d = a;
    let tails = [[2u32, 3u32], [4, 5], [2, 3], [4, 5], [2, 3], [4, 5], [2, 3]];
    let mut caught = false;
    for tail in tails {
        d.tail = tail;
        match lfs_tortoise_detectcycles(&d, &mut t) {
            Ok(()) => {}
            Err(e) => {
                assert_eq!(e, Error::Corrupt);
                caught = true;
                break;
            }
        }
        assert!(1 <= t.i && t.i <= t.period);
    }
    assert!(caught);
}

#[test]
fn mount_checks_and_adopts_a_superblock() {
    let mut lfs = new_fs();
    let good = LfsSuperblock { version: 0x0002_0000, block_size: 512, block_count: 128, name_max: 100, file_max: 0, attr_max: 50 };
    assert_eq!(lfs_mount_superblock(&mut lfs, &good), Ok(()));
    assert_eq!(lfs.name_max, 100);
    assert_eq!(lfs.file_max, 2_147_483_647);
    assert_eq!(lfs.attr_max, 50);
    assert_eq!(lfs.inline_max, 50);
    // an older minor version asks for the superblock to be rewritten
    assert!(lfs_gstate_needssuperblock(&lfs.gstate));

    let mut lfs = new_fs();
    let newer = LfsSuperblock { version: 0x0002_0002, ..good };
    assert_eq!(lfs_mount_superblock(&mut lfs, &newer), Err(Error::Invalid));
    let major = LfsSuperblock { version: 0x0001_0000, ..good };
    assert_eq!(lfs_mount_superblock(&mut lfs, &major), Err(Error::Invalid));
    let big_name = LfsSuperblock { name_max: 300, ..good };
    assert_eq!(lfs_mount_superblock(&mut new_fs(), &big_name), Err(Error::Invalid));
    let other_count = LfsSuperblock { block_count: 64, ..good };
    assert_eq!(lfs_mount_superblock(&mut new_fs(), &other_count), Err(Error::Invalid));
    let other_size = LfsSuperblock { block_size: 1024, ..good };
    assert_eq!(lfs_mount_superblock(&mut new_fs(), &other_size), Err(Error::Invalid));
    let current = LfsSuperblock { version: 0x0002_0001, ..good };
    let mut lfs = new_fs();
    assert_eq!(lfs_mount_superblock(&mut lfs, &current), Ok(()));
    assert!(!lfs_gstate_needssuperblock(&lfs.gstate));
}

#[test]
fn mount_finish_sets_up_the_allocator() {
    let mut lfs = new_fs();
    lfs.seed = 300;
    lfs.gstate = LfsGstateT { tag: 0x8000_0001, pair: [0, 0] };
    lfs_mount_finish(&mut lfs);
    assert_eq!(lfs.gstate.tag, 0x8000_0002);
    assert_eq!(lfs.gdisk.tag, lfs.gstate.tag);
    assert_eq!(lfs.lookahead.start, 300 % 128);
    assert_eq!(lfs.lookahead.size, 0);
    assert_eq!(lfs.lookahead.ckpoint, 128);
    let mut lfs = new_fs();
    lfs_mount_finish(&mut lfs);
    assert_eq!(lfs.gstate.tag, 0);
}

#[test]
fn open_handles_are_listed_and_closed() {
    let mut lfs = new_fs();
    let m = mdir([2, 3], 0, 0);
    lfs_mlist_append(&mut lfs, LfsMlist { id: 1, type_: 2, m });
    lfs_mlist_append(&mut lfs, LfsMlist { id: 2, type_: 2, m });
    assert_eq!(lfs.mlist.len(), 2);
    assert_eq!(lfs.mlist[0].id, 2);
    assert!(lfs_mlist_isopen(&lfs, 1, 2, &m));
    assert!(!lfs_mlist_isopen(&lfs, 3, 2, &m));
    let mut dir = LfsDir { id: 1, type_: 2, m, pos: 5, head: [2, 3] };
    assert_eq!(lfs_dir_tell(&mut lfs, &mut dir), 5);
    assert_eq!(lfs_dir_close(&mut lfs, &mut dir), Ok(()));
    assert!(!lfs_mlist_isopen(&lfs, 1, 2, &m));
    assert_eq!(lfs.mlist.len(), 1);
    assert_eq!(lfs.mlist[0].id, 2);
    // closing again finds nothing to remove
    assert_eq!(lfs_dir_close(&mut lfs, &mut dir), Ok(()));
    assert_eq!(lfs.mlist.len(), 1);
}

#[test]
fn file_position_and_size() {
    let mut lfs = new_fs();
    let mut file = LfsFile {
        id: 0,
        type_: LsfType::REG,
        m: mdir([0, 1], 0, 0),
        ctz: LfsCtz { head: 5, size: 100 },
        flags: 0,
        pos: 40,
        block: 5,
        off: 40,
        cache: LfsCache { block: LFS_BLOCK_NULL, off: 0, size: 0, buffer: vec![0xff; 512] },
        cfg: LfsFileConfig { buffer: Vec::new(), attrs: Vec::new() },
    };
    assert_eq!(lfs_file_tell_(&file), 40);
    assert_eq!(lfs_file_tell(&mut lfs, &file), 40);
    assert_eq!(lfs_file_size_(&lfs, &file), 100);
    file.flags = LFS_F_WRITING;
    file.pos = 150;
    assert_eq!(lfs_file_size(&mut lfs, &file), 150);
    file.pos = 20;
    assert_eq!(lfs_file_size(&mut lfs, &file), 100);
}

#[test]
fn inline_data_is_read_through_the_inline_cache() {
    let mut lfs = new_fs();
    let text = b"hello, inline file";
    let name = lfs_mktag(LFS_TYPE_NAME | 1, 3, 4);
    let data = lfs_mktag(LFS_TYPE_INLINESTRUCT, 3, text.len() as u32);
    let (off, etag) = write_log(&mut lfs, 10, &[(name, b"file"), (data, text)]);
    let dir = mdir([10, 11], off, etag);
    let mut cache = LfsCache { block: LFS_BLOCK_NULL, off: 0, size: 0, buffer: vec![0xff; 512] };
    let mut buf = [0u8; 5];
    let r = lfs_dir_getread(&mut lfs, &dir, None, &mut cache, 512, lfs_mktag(0xfff, 0x1ff, 0),
        lfs_mktag(LFS_TYPE_INLINESTRUCT, 3, 0), 7, &mut buf);
    assert_eq!(r, Ok(()));
    assert_eq!(&buf, b"inlin");
    assert_eq!(cache.block, LFS_BLOCK_INLINE);
    // a pending program cache of inline data wins over the stored data
    let pending = LfsCache { block: LFS_BLOCK_INLINE, off: 0, size: 5, buffer: {
        let mut b = vec![0u8; 512];
        b[..5].copy_from_slice(b"HELLO");
        b
    } };
    let mut buf = [0u8; 7];
    let r = lfs_dir_getread(&mut lfs, &dir, Some(&pending), &mut cache, 512, lfs_mktag(0xfff, 0x1ff, 0),
        lfs_mktag(LFS_TYPE_INLINESTRUCT, 3, 0), 0, &mut buf);
    assert_eq!(r, Ok(()));
    assert_eq!(&buf, b"HELLO, ");
    let mut big = [0u8; 8];
    let r = lfs_dir_getread(&mut lfs, &dir, None, &mut cache, 512, lfs_mktag(0xfff, 0x1ff, 0),
        lfs_mktag(LFS_TYPE_INLINESTRUCT, 3, 0), 508, &mut big);
    assert_eq!(r, Err(Error::Corrupt));

    let mut file = LfsFile {
        id: 3,
        type_: LsfType::REG,
        m: dir,
        ctz: LfsCtz { head: LFS_BLOCK_INLINE, size: text.len() as u32 },
        flags: LFS_O_RDONLY | LFS_F_INLINE,
        pos: 0,
        block: 0,
        off: 0,
        cache: LfsCache { block: LFS_BLOCK_NULL, off: 0, size: 0, buffer: vec![0xff; 512] },
        cfg: LfsFileConfig { buffer: Vec::new(), attrs: Vec::new() },
    };
    let mut out = [0u8; 32];
    assert_eq!(lfs_file_flushedread(&mut lfs, &mut file, &mut out), Ok(text.len() as u32));
    assert_eq!(&out[..text.len()], text);
    assert_eq!(file.pos, text.len() as u32);
}
