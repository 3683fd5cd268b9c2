//! Laws that relate several operations of the library.

use vstd::prelude::*;
use crate::bd::{view_byte, view_range, LfsCache};
use crate::fs::orphans_added;
use crate::lfs_type::LFS_TYPE_DELETE;
use crate::tag::{spec_mktag, spec_tag_id, spec_tag_size, spec_tag_type3};
use crate::util::spec_pair_issync;

verus! {

/// A read of the bytes just programmed gives them back: the view that a
/// program leaves holds the data, and a read returns the view.
pub proof fn lemma_read_sees_prog(disk: Seq<Seq<u8>>, pc: LfsCache, block: u32, off: u32, data: Seq<u8>)
    requires
        forall|i: int| 0 <= i < data.len() ==> #[trigger] view_byte(disk, Some(pc), block as int, off + i) == data[i],
    ensures
        view_range(disk, Some(pc), block as int, off as int, data.len() as int) == data,
{
    assert(view_range(disk, Some(pc), block as int, off as int, data.len() as int) =~= data);
}

/// A tag gives back the type, id and size it was made of.
pub proof fn lemma_tag_roundtrip(type_: u32, id: u32, size: u32)
    requires
        type_ <= 0x7ff,
        id <= 0x3ff,
        size <= 0x3ff,
    ensures
        spec_tag_type3(spec_mktag(type_, id, size)) == type_,
        spec_tag_id(spec_mktag(type_, id, size)) == id,
        spec_tag_size(spec_mktag(type_, id, size)) == size,
{
    crate::tag::lemma_mktag_fields(type_, id, size);
    assert(type_ & 0x7ffu32 == type_) by (bit_vector)
        requires type_ <= 0x7ffu32;
}

/// Marking the superblock as due for a rewrite is what the global state
/// then reports, and clearing the mark clears it.
pub proof fn lemma_needssuperblock_after_prep(tag: u32, needs: bool)
    ensures
        (spec_tag_size((tag & !spec_mktag(0, 0, 0x200)) | (if needs { 0x200u32 } else { 0u32 })) >> 9u32 != 0) == needs,
{
    let f: u32 = if needs { 0x200u32 } else { 0u32 };
    assert(spec_mktag(0, 0, 0x200) == 0x200u32 && ((((tag & !0x200u32) | f) & 0x3ffu32) >> 9u32 != 0) == (f
        == 0x200u32)) by (bit_vector)
        requires f == 0x200u32 || f == 0u32;
}

/// A global-state tag whose top bit says whether its orphan count is not
/// zero, as the state keeps it.
pub open spec fn orphan_tag_consistent(tag: u32) -> bool {
    (tag & 0x8000_0000u32 != 0) == (spec_tag_size(tag) != 0)
}

/// Adding orphans moves the count by exactly that many, while the count
/// stays within its field, and leaves the rest of the tag but the top bit.
pub proof fn lemma_preporphans_count(tag: u32, orphans: i8)
    requires
        0 <= spec_tag_size(tag) + orphans <= 0x3ff,
    ensures
        spec_tag_size(orphans_added(tag, orphans)) == spec_tag_size(tag) + orphans,
        orphans_added(tag, orphans) & 0x7fff_fc00u32 == tag & 0x7fff_fc00u32,
        orphan_tag_consistent(orphans_added(tag, orphans)),
{
    let o = orphans as u32;
    assert((orphans >= 0i8 ==> o as int == orphans as int) && (orphans < 0i8 ==> o as int == orphans as int
        + 0x1_0000_0000int)) by (bit_vector)
        requires o == orphans as u32;
    let t = tag.wrapping_add(o);
    assert(t == (if tag as int + o as int > u32::MAX { (tag as int + o as int - 0x1_0000_0000) as u32 } else {
        (tag + o) as u32
    }));
    if orphans >= 0 {
        assert(o == orphans as int);
        assert((t & 0x3ffu32) == (tag & 0x3ffu32) + o && t & 0x7fff_fc00u32 == tag & 0x7fff_fc00u32) by (bit_vector)
            requires
                o <= 0x7fu32,
                (tag & 0x3ffu32) + o <= 0x3ffu32,
                t == (if tag as int + o as int > 0xffff_ffffint { (tag as int + o as int - 0x1_0000_0000) as u32 } else {
                    (tag + o) as u32
                }),
        ;
    } else {
        let m = (0x1_0000_0000 - o) as u32;
        assert((t & 0x3ffu32) + m == (tag & 0x3ffu32) && t & 0x7fff_fc00u32 == tag & 0x7fff_fc00u32) by (bit_vector)
            requires
                1u32 <= m <= 0x80u32,
                o as int + m as int == 0x1_0000_0000int,
                m <= (tag & 0x3ffu32),
                t == (if tag as int + o as int > 0xffff_ffffint { (tag as int + o as int - 0x1_0000_0000) as u32 } else {
                    (tag + o) as u32
                }),
        ;
    }
    let r = orphans_added(tag, orphans);
    let h: u32 = if spec_tag_size(t) != 0 { 0x8000_0000u32 } else { 0u32 };
    assert(spec_mktag(0x800, 0, 0) == 0x8000_0000u32 && r & 0x3ffu32 == t & 0x3ffu32 && r & 0x7fff_fc00u32 == t & 0x7fff_fc00u32 && ((r & 0x8000_0000u32 != 0) == (h
        != 0))) by (bit_vector)
        requires r == (t & !spec_mktag(0x800, 0, 0)) | h, h == 0x8000_0000u32 || h == 0u32;
}

/// Adding orphans and then taking as many away gives back the state, for
/// a state that keeps its top bit in step with its count.
pub proof fn lemma_preporphans_undo(tag: u32, orphans: i8)
    requires
        orphan_tag_consistent(tag),
        0 <= spec_tag_size(tag) + orphans <= 0x3ff,
        orphans != -128,
    ensures
        orphans_added(orphans_added(tag, orphans), (-orphans) as i8) == tag,
{
    let t1 = orphans_added(tag, orphans);
    lemma_preporphans_count(tag, orphans);
    assert(((-orphans) as i8) as int == -(orphans as int));
    assert(tag & 0x3ffu32 <= 0x3ffu32) by (bit_vector);
    lemma_preporphans_count(t1, (-orphans) as i8);
    let t2 = orphans_added(t1, (-orphans) as i8);
    assert(t2 == tag) by (bit_vector)
        requires
            t2 & 0x3ffu32 == tag & 0x3ffu32,
            t2 & 0x7fff_fc00u32 == tag & 0x7fff_fc00u32,
            (t2 & 0x8000_0000u32 != 0) == (t2 & 0x3ffu32 != 0),
            (tag & 0x8000_0000u32 != 0) == (tag & 0x3ffu32 != 0),
    ;
}

/// Recording a move of entry `id` is what the global state then reports:
/// a move, of that id, out of that pair; recording id `0x3ff` clears it.
pub proof fn lemma_prepmove_recorded(tag: u32, id: u16)
    requires
        id <= 0x3ff,
    ensures
        id != 0x3ff ==> {
            let t = (tag & !spec_mktag(0x7ff, 0x3ff, 0)) | spec_mktag(LFS_TYPE_DELETE, id as u32, 0);
            &&& (t >> 20u32) & 0x700u32 != 0
            &&& spec_tag_type3(t) == LFS_TYPE_DELETE
            &&& spec_tag_id(t) == id
        },
        (((tag & !spec_mktag(0x7ff, 0x3ff, 0)) | 0u32) >> 20u32) & 0x700u32 == 0,
{
    let i = id as u32;
    assert(i != 0x3ffu32 ==> {
        let t = (tag & !(((0x7ffu32 << 20u32) | (0x3ffu32 << 10u32)) | 0u32)) | (((0x4ffu32 << 20u32) | (i << 10u32)) | 0u32);
        &&& (t >> 20u32) & 0x700u32 != 0
        &&& (t >> 20u32) & 0x7ffu32 == 0x4ffu32
        &&& (t >> 10u32) & 0x3ffu32 == i
    }) by (bit_vector)
        requires i <= 0x3ffu32;
    assert((((tag & !(((0x7ffu32 << 20u32) | (0x3ffu32 << 10u32)) | 0u32)) | 0u32) >> 20u32) & 0x700u32 == 0)
        by (bit_vector);
}

/// Two pairs that hold the same blocks overlap, so the pair comparison
/// reports them as the same pair.
pub proof fn lemma_pair_issync_overlaps(a: [u32; 2], b: [u32; 2])
    requires
        spec_pair_issync(a, b),
    ensures
        a[0] == b[0] || a[1] == b[1] || a[0] == b[1] || a[1] == b[0],
        spec_pair_issync(b, a),
{
}

} // verus!
