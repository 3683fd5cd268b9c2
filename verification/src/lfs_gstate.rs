//! Global state: a tag word and a block pair, kept as the xor of the
//! deltas stored in the metadata logs.

use vstd::prelude::*;
use crate::tag::{spec_tag_size, lfs_tag_size, lfs_tag_type1};
use crate::util::{lfs_pair_cmp, spec_swap32, lfs_fromle32, lfs_tole32};
use crate::types::lfs_block_t;

verus! {

/// The global state.
#[derive(Clone, Copy, Debug)]
pub struct LfsGstateT {
    pub tag: u32,
    pub pair: [lfs_block_t; 2],
}

pub type LfsGstate = LfsGstateT;

/// The field-wise xor of two states.
pub open spec fn spec_gstate_xor(a: LfsGstateT, b: LfsGstateT) -> LfsGstateT {
    LfsGstateT { tag: a.tag ^ b.tag, pair: [a.pair[0] ^ b.pair[0], a.pair[1] ^ b.pair[1]] }
}

/// Whether the state is all zeros.
pub open spec fn spec_gstate_iszero(a: LfsGstateT) -> bool {
    a.tag == 0 && a.pair[0] == 0 && a.pair[1] == 0
}

/// Xors `b` into `a`.
pub fn lfs_gstate_xor(a: &mut LfsGstateT, b: &LfsGstateT)
    ensures
        *final(a) == spec_gstate_xor(*old(a), *b),
{
    let t = a.tag ^ b.tag;
    let p0 = a.pair[0] ^ b.pair[0];
    let p1 = a.pair[1] ^ b.pair[1];
    a.tag = t;
    a.pair = [p0, p1];
}

/// Whether the state is all zeros.
pub fn lfs_gstate_iszero(a: &LfsGstateT) -> (r: bool)
    ensures
        r == spec_gstate_iszero(*a),
{
    a.tag == 0 && a.pair[0] == 0 && a.pair[1] == 0
}

/// Whether orphans are pending: the size field of the tag is not zero.
pub fn lfs_gstate_hasorphans(a: &LfsGstateT) -> (r: bool)
    ensures
        r <==> spec_tag_size(a.tag) != 0,
{
    lfs_tag_size(a.tag) != 0
}

/// The number of pending orphans: the low nine bits of the size field,
/// cut to a byte.
pub fn lfs_gstate_getorphans(a: &LfsGstateT) -> (r: u8)
    ensures
        r as u32 == a.tag & 0xffu32,
{
    let r = (lfs_tag_size(a.tag) & 0x1ff) as u8;
    proof {
        let t = a.tag;
        assert((((t & 0x3ffu32) & 0x1ffu32) as u8) as u32 == t & 0xffu32) by (bit_vector);
    }
    r
}

/// Whether a move is pending: the top type bits are set.
pub fn lfs_gstate_hasmove(a: &LfsGstateT) -> (r: bool)
    ensures
        r <==> (a.tag >> 20u32) & 0x700u32 != 0,
{
    lfs_tag_type1(a.tag) != 0
}

/// Whether the superblock must be rewritten: bit nine of the size field.
pub fn lfs_gstate_needssuperblock(a: &LfsGstateT) -> (r: bool)
    ensures
        r <==> (spec_tag_size(a.tag) >> 9u32) != 0,
{
    (lfs_tag_size(a.tag) >> 9) != 0
}

/// Whether a move is pending in the metadata pair `pair`.
pub fn lfs_gstate_hasmovehere(a: &LfsGstateT, pair: &[lfs_block_t; 2]) -> (r: bool)
    ensures
        r <==> ((a.tag >> 20u32) & 0x700u32 != 0 && (a.pair[0] == pair@[0] || a.pair[1] == pair@[1]
            || a.pair[0] == pair@[1] || a.pair[1] == pair@[0])),
{
    lfs_tag_type1(a.tag) != 0 && !lfs_pair_cmp(&a.pair, pair)
}

/// Converts the state from its little-endian form.
pub fn lfs_gstate_fromle32(a: &LfsGstateT) -> (r: LfsGstateT)
    ensures
        r.tag == a.tag || r.tag == spec_swap32(a.tag),
        r.pair[0] == a.pair[0] || r.pair[0] == spec_swap32(a.pair[0]),
        r.pair[1] == a.pair[1] || r.pair[1] == spec_swap32(a.pair[1]),
{
    LfsGstateT {
        tag: lfs_fromle32(a.tag),
        pair: [lfs_fromle32(a.pair[0]), lfs_fromle32(a.pair[1])],
    }
}

/// Converts the state to its little-endian form.
pub fn lfs_gstate_tole32(a: &LfsGstateT) -> (r: LfsGstateT)
    ensures
        r.tag == a.tag || r.tag == spec_swap32(a.tag),
        r.pair[0] == a.pair[0] || r.pair[0] == spec_swap32(a.pair[0]),
        r.pair[1] == a.pair[1] || r.pair[1] == spec_swap32(a.pair[1]),
{
    LfsGstateT {
        tag: lfs_tole32(a.tag),
        pair: [lfs_tole32(a.pair[0]), lfs_tole32(a.pair[1])],
    }
}

/// Xor of words: its algebra.
proof fn lemma_xor_word(x: u32, y: u32, z: u32)
    ensures
        (x ^ y) ^ y == x,
        x ^ 0u32 == x,
        x ^ x == 0u32,
        x ^ y == y ^ x,
        (x ^ y) ^ z == x ^ (y ^ z),
{
    assert((x ^ y) ^ y == x && x ^ 0u32 == x && x ^ x == 0u32 && x ^ y == y ^ x && (x ^ y) ^ z == x ^ (y ^ z))
        by (bit_vector);
}

/// Xoring the same delta twice gives back the state: a delta committed and
/// then committed again cancels out.
pub proof fn lemma_gstate_xor_involutive(a: LfsGstateT, b: LfsGstateT)
    ensures
        spec_gstate_xor(spec_gstate_xor(a, b), b) == a,
{
    lemma_xor_word(a.tag, b.tag, 0);
    lemma_xor_word(a.pair[0], b.pair[0], 0);
    lemma_xor_word(a.pair[1], b.pair[1], 0);
    assert(spec_gstate_xor(spec_gstate_xor(a, b), b).pair =~= a.pair);
}

/// Xor with the zero state leaves a state unchanged, and xoring a state
/// with itself gives zero.
pub proof fn lemma_gstate_xor_zero(a: LfsGstateT, z: LfsGstateT)
    requires
        spec_gstate_iszero(z),
    ensures
        spec_gstate_xor(a, z) == a,
        spec_gstate_iszero(spec_gstate_xor(a, a)),
{
    lemma_xor_word(a.tag, 0, 0);
    lemma_xor_word(a.pair[0], 0, 0);
    lemma_xor_word(a.pair[1], 0, 0);
    assert(spec_gstate_xor(a, z).pair =~= a.pair);
}

/// Xor of states is commutative and associative: the deltas of the logs
/// may be gathered in any order.
pub proof fn lemma_gstate_xor_comm_assoc(a: LfsGstateT, b: LfsGstateT, c: LfsGstateT)
    ensures
        spec_gstate_xor(a, b) == spec_gstate_xor(b, a),
        spec_gstate_xor(spec_gstate_xor(a, b), c) == spec_gstate_xor(a, spec_gstate_xor(b, c)),
{
    lemma_xor_word(a.tag, b.tag, c.tag);
    lemma_xor_word(a.pair[0], b.pair[0], c.pair[0]);
    lemma_xor_word(a.pair[1], b.pair[1], c.pair[1]);
    assert(spec_gstate_xor(a, b).pair =~= spec_gstate_xor(b, a).pair);
    assert(spec_gstate_xor(spec_gstate_xor(a, b), c).pair =~= spec_gstate_xor(a, spec_gstate_xor(b, c)).pair);
}

} // verus!
