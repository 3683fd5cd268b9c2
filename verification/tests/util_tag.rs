use littlefs_rust_core::crc::lfs_crc;
use littlefs_rust_core::endian::{be32_from_bytes, be32_to_bytes, le32_at, le32_from_bytes, le32_to_bytes};
use littlefs_rust_core::lfs_type::{LFS_FROM_NOOP, LFS_TYPE_CREATE, LFS_TYPE_DELETE, LFS_TYPE_INLINESTRUCT, LsfType};
use littlefs_rust_core::tag::{
    lfs_mktag, lfs_mktag_if, lfs_tag_chunk, lfs_tag_dsize, lfs_tag_id, lfs_tag_isdelete, lfs_tag_isvalid,
    lfs_tag_size, lfs_tag_splice, lfs_tag_type1, lfs_tag_type2, lfs_tag_type3,
};
use littlefs_rust_core::util::{
    lfs_aligndown, lfs_alignup, lfs_ctz, lfs_frombe32, lfs_fromle32, lfs_max, lfs_min, lfs_npw2, lfs_pair_cmp,
    lfs_pair_fromle32, lfs_pair_isnull, lfs_pair_issync, lfs_pair_swap, lfs_pair_tole32, lfs_path_isdir,
    lfs_path_islast, lfs_path_namelen, lfs_popc, lfs_scmp, lfs_strcspn, lfs_strspn, lfs_tobe32, lfs_tole32,
};

#[test]
fn align_rounds_to_multiples() {
    assert_eq!(lfs_aligndown(13, 4), 12);
    assert_eq!(lfs_aligndown(16, 4), 16);
    assert_eq!(lfs_alignup(13, 4), 16);
    assert_eq!(lfs_alignup(16, 4), 16);
    assert_eq!(lfs_alignup(0, 16), 0);
}

#[test]
fn npw2_is_ceiling_log2() {
    assert_eq!(lfs_npw2(0), 32);
    assert_eq!(lfs_npw2(1), 1);
    assert_eq!(lfs_npw2(2), 1);
    assert_eq!(lfs_npw2(3), 2);
    assert_eq!(lfs_npw2(4), 2);
    assert_eq!(lfs_npw2(5), 3);
    assert_eq!(lfs_npw2(0x8000_0000), 31);
    assert_eq!(lfs_npw2(0x8000_0001), 32);
}

#[test]
fn ctz_and_popc_count_bits() {
    assert_eq!(lfs_ctz(0), 0);
    assert_eq!(lfs_ctz(1), 0);
    assert_eq!(lfs_ctz(8), 3);
    assert_eq!(lfs_ctz(0x8000_0000), 31);
    assert_eq!(lfs_popc(0), 0);
    assert_eq!(lfs_popc(0xff), 8);
    assert_eq!(lfs_popc(u32::MAX), 32);
    // the identity behind the skip-list arithmetic: popc(n) + ctz(n) == popc(n - 1) + 1
    for n in 1u32..2000 {
        assert_eq!(lfs_popc(n) + lfs_ctz(n), lfs_popc(n - 1) + 1);
    }
}

#[test]
fn scmp_is_wrapping_difference() {
    assert_eq!(lfs_scmp(1, 2), -1);
    assert_eq!(lfs_scmp(2, 1), 1);
    assert_eq!(lfs_scmp(0, 0xffff_ffff), 1);
    assert_eq!(lfs_scmp(7, 7), 0);
}

#[test]
fn min_max() {
    assert_eq!(lfs_min(3, 9), 3);
    assert_eq!(lfs_max(3, 9), 9);
}

#[test]
fn path_helpers() {
    assert_eq!(lfs_strspn(b"///abc", b'/'), 3);
    assert_eq!(lfs_strcspn(b"abc/def", b'/'), 3);
    assert_eq!(lfs_strcspn(b"abc", b'/'), 3);
    assert_eq!(lfs_path_namelen(b"dir/file"), 3);
    assert!(lfs_path_islast(b"file"));
    assert!(lfs_path_islast(b"file//"));
    assert!(!lfs_path_islast(b"dir/file"));
    assert!(lfs_path_isdir(b"dir/"));
    assert!(!lfs_path_isdir(b"file"));
}

#[test]
fn pair_helpers() {
    let mut p = [1u32, 2u32];
    lfs_pair_swap(&mut p);
    assert_eq!(p, [2, 1]);
    lfs_pair_swap(&mut p);
    assert_eq!(p, [1, 2]);
    assert!(lfs_pair_isnull(&[0xffff_ffff, 3]));
    assert!(!lfs_pair_isnull(&[0, 1]));
    // cmp is false when the pairs share a block
    assert!(!lfs_pair_cmp(&[1, 2], &[2, 5]));
    assert!(lfs_pair_cmp(&[1, 2], &[3, 4]));
    assert!(lfs_pair_issync(&[1, 2], &[2, 1]));
    assert!(!lfs_pair_issync(&[1, 2], &[1, 3]));
    let mut q = [0x0102_0304u32, 5];
    lfs_pair_tole32(&mut q);
    lfs_pair_fromle32(&mut q);
    assert_eq!(q, [0x0102_0304, 5]);
}

#[test]
fn byte_order_conversions_round_trip() {
    for x in [0u32, 1, 0x0102_0304, 0xdead_beef, u32::MAX] {
        assert_eq!(lfs_fromle32(lfs_tole32(x)), x);
        assert_eq!(lfs_frombe32(lfs_tobe32(x)), x);
    }
    assert_eq!(lfs_tobe32(0x0102_0304).to_ne_bytes(), [1, 2, 3, 4]);
    assert_eq!(lfs_tole32(0x0102_0304).to_ne_bytes(), [4, 3, 2, 1]);
}

#[test]
fn endian_codecs() {
    assert_eq!(le32_from_bytes(&[1, 2, 3, 4]), 0x0403_0201);
    assert_eq!(be32_from_bytes(&[1, 2, 3, 4]), 0x0102_0304);
    assert_eq!(le32_to_bytes(0x0403_0201), [1, 2, 3, 4]);
    assert_eq!(be32_to_bytes(0x0102_0304), [1, 2, 3, 4]);
    assert_eq!(le32_at(&[9, 9, 1, 2, 3, 4], 2), 0x0403_0201);
    for x in [0u32, 7, 0x8000_0001, u32::MAX] {
        assert_eq!(le32_from_bytes(&le32_to_bytes(x)), x);
        assert_eq!(be32_from_bytes(&be32_to_bytes(x)), x);
    }
}

#[test]
fn crc_matches_the_reference_value() {
    // CRC-32 of "123456789" is 0xcbf43926 with a final inversion, which
    // littlefs leaves to the caller.
    assert_eq!(lfs_crc(0xffff_ffff, b"123456789"), 0x340b_c6d9);
    assert_eq!(lfs_crc(0xffff_ffff, b"123456789") ^ 0xffff_ffff, 0xcbf4_3926);
    assert_eq!(lfs_crc(0x1234_5678, b""), 0x1234_5678);
}

#[test]
fn crc_of_a_concatenation_chains() {
    let a = b"little";
    let b = b"fs, verified";
    let whole = b"littlefs, verified";
    assert_eq!(lfs_crc(lfs_crc(0xffff_ffff, a), b), lfs_crc(0xffff_ffff, whole));
}

#[test]
fn tags_hold_their_fields() {
    let t = lfs_mktag(LFS_TYPE_INLINESTRUCT, 5, 7);
    assert_eq!(t, (0x201 << 20) | (5 << 10) | 7);
    assert_eq!(lfs_tag_type3(t), 0x201);
    assert_eq!(lfs_tag_type2(t), 0x200);
    assert_eq!(lfs_tag_type1(t), 0x200);
    assert_eq!(lfs_tag_chunk(t), 0x01);
    assert_eq!(lfs_tag_id(t), 5);
    assert_eq!(lfs_tag_size(t), 7);
    assert_eq!(lfs_tag_dsize(t), 11);
    assert!(lfs_tag_isvalid(t));
    assert!(!lfs_tag_isvalid(t | 0x8000_0000));
    assert!(!lfs_tag_isdelete(t));
    let d = lfs_mktag(LFS_TYPE_DELETE, 5, 0x3ff);
    assert!(lfs_tag_isdelete(d));
    assert_eq!(lfs_tag_dsize(d), 4);
    assert_eq!(lfs_mktag_if(true, LFS_TYPE_CREATE, 1, 0), lfs_mktag(LFS_TYPE_CREATE, 1, 0));
    assert_eq!(lfs_mktag_if(false, LFS_TYPE_CREATE, 1, 0), lfs_mktag(LFS_FROM_NOOP, 0, 0));
}

#[test]
fn splices_are_signed() {
    assert_eq!(lfs_tag_splice(lfs_mktag(LFS_TYPE_CREATE, 3, 0)), 1);
    assert_eq!(lfs_tag_splice(lfs_mktag(LFS_TYPE_DELETE, 3, 0)), -1);
}

#[test]
fn tag_round_trip_for_all_small_fields() {
    for ty in [0u32, 1, 0x201, 0x4ff, 0x7ff] {
        for id in [0u32, 1, 0x3fe, 0x3ff] {
            for size in [0u32, 4, 0x3ff] {
                let t = lfs_mktag(ty, id, size);
                assert_eq!(lfs_tag_type3(t) as u32, ty);
                assert_eq!(lfs_tag_id(t) as u32, id);
                assert_eq!(lfs_tag_size(t), size);
            }
        }
    }
}

#[test]
fn file_kinds_have_codes() {
    assert_eq!(LsfType::NONE.code(), 0);
    assert_eq!(LsfType::REG.code(), 1);
    assert_eq!(LsfType::DIR.code(), 2);
}
