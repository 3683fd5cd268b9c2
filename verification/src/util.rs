//! Arithmetic, bit, path and block-pair utilities.

use vstd::prelude::*;
use vstd::arithmetic::div_mod::{lemma_fundamental_div_mod, lemma_mod_bound, lemma_div_pos_is_pos};
use vstd::arithmetic::mul::lemma_mul_is_commutative;
use vstd::arithmetic::div_mod::lemma_mod_multiples_basic;
use vstd::arithmetic::power2::pow2;
use vstd::bits::{lemma_u64_shl_is_mul, lemma_u64_pow2_no_overflow};

verus! {

/// `a` rounded down to a multiple of `m`.
pub open spec fn spec_aligndown(a: int, m: int) -> int {
    a - a % m
}

pub proof fn lemma_aligndown(a: int, m: int)
    requires
        0 <= a,
        0 < m,
    ensures
        spec_aligndown(a, m) % m == 0,
        0 <= spec_aligndown(a, m) <= a,
        a - spec_aligndown(a, m) < m,
{
    lemma_fundamental_div_mod(a, m);
    lemma_mod_bound(a, m);
    lemma_div_pos_is_pos(a, m);
    lemma_mul_is_commutative(m, a / m);
    lemma_mod_multiples_basic(a / m, m);
    assert(0 <= m * (a / m)) by (nonlinear_arith)
        requires 0 <= a / m, 0 < m;
}

/// Rounds `a` down to a multiple of `alignment`.
pub fn lfs_aligndown(a: usize, alignment: usize) -> (r: usize)
    requires
        alignment > 0,
    ensures
        r == spec_aligndown(a as int, alignment as int),
        r % alignment == 0,
        r <= a,
        a - r < alignment,
{
    proof {
        lemma_aligndown(a as int, alignment as int);
    }
    a - (a % alignment)
}

/// Rounds `a` up to a multiple of `alignment`.
pub fn lfs_alignup(a: usize, alignment: usize) -> (r: usize)
    requires
        alignment > 0,
        a + alignment - 1 <= usize::MAX,
    ensures
        r == spec_aligndown(a + alignment - 1, alignment as int),
        r % alignment == 0,
        a <= r,
        r < a + alignment,
{
    lfs_aligndown(a + (alignment - 1), alignment)
}

/// The bit-level steps of the ceiling base-2 logarithm.
spec fn npw2_bits(a: u32) -> u32 {
    let x0: u32 = if a == 0 { 0xffff_ffffu32 } else { (a - 1) as u32 };
    let s4: u32 = if x0 > 0xffffu32 { 1u32 } else { 0u32 };
    let x1: u32 = if s4 == 1u32 { x0 >> 16u32 } else { x0 };
    let s3: u32 = if x1 > 0xffu32 { 1u32 } else { 0u32 };
    let x2: u32 = if s3 == 1u32 { x1 >> 8u32 } else { x1 };
    let s2: u32 = if x2 > 0xfu32 { 1u32 } else { 0u32 };
    let x3: u32 = if s2 == 1u32 { x2 >> 4u32 } else { x2 };
    let s1: u32 = if x3 > 0x3u32 { 1u32 } else { 0u32 };
    let x4: u32 = if s1 == 1u32 { x3 >> 2u32 } else { x3 };
    (((s4 << 4u32) | (s3 << 3u32) | (s2 << 2u32) | (s1 << 1u32) | (x4 >> 1u32)) + 1u32) as u32
}

proof fn lemma_npw2_bits(a: u32)
    by (bit_vector)
    ensures
        a == 0 ==> npw2_bits(a) == 32,
        a == 1 ==> npw2_bits(a) == 1,
        a >= 2 ==> 1 <= npw2_bits(a) && npw2_bits(a) <= 32,
        a >= 2 ==> (1u64 << ((npw2_bits(a) - 1u32) as u64)) < (a as u64),
        a >= 2 ==> (a as u64) <= (1u64 << (npw2_bits(a) as u64)),
{
}

/// Ceiling of the base-2 logarithm: for `a >= 2` the least `r` with
/// `a <= 2^r`. (`0` gives 32 and `1` gives 1.)
pub fn lfs_npw2(a: u32) -> (r: u32)
    ensures
        a == 0 ==> r == 32,
        a == 1 ==> r == 1,
        a >= 2 ==> 1 <= r <= 32 && pow2((r - 1) as nat) < a && a <= pow2(r as nat),
{
    let x0 = a.wrapping_sub(1);
    let s4: u32 = if x0 > 0xffff { 1 } else { 0 };
    let x1 = if s4 == 1 { x0 >> 16 } else { x0 };
    let s3: u32 = if x1 > 0xff { 1 } else { 0 };
    let x2 = if s3 == 1 { x1 >> 8 } else { x1 };
    let s2: u32 = if x2 > 0xf { 1 } else { 0 };
    let x3 = if s2 == 1 { x2 >> 4 } else { x2 };
    let s1: u32 = if x3 > 0x3 { 1 } else { 0 };
    let x4 = if s1 == 1 { x3 >> 2 } else { x3 };
    proof {
        lemma_npw2_bits(a);
        assert(x0 == (if a == 0 { 0xffff_ffffu32 } else { (a - 1) as u32 }));
        assert(((s4 << 4u32) | (s3 << 3u32) | (s2 << 2u32) | (s1 << 1u32) | (x4 >> 1u32)) < 32u32)
            by (bit_vector)
            requires
                s4 == (if x0 > 0xffffu32 { 1u32 } else { 0u32 }),
                x1 == (if s4 == 1u32 { x0 >> 16u32 } else { x0 }),
                s3 == (if x1 > 0xffu32 { 1u32 } else { 0u32 }),
                x2 == (if s3 == 1u32 { x1 >> 8u32 } else { x1 }),
                s2 == (if x2 > 0xfu32 { 1u32 } else { 0u32 }),
                x3 == (if s2 == 1u32 { x2 >> 4u32 } else { x2 }),
                s1 == (if x3 > 0x3u32 { 1u32 } else { 0u32 }),
                x4 == (if s1 == 1u32 { x3 >> 2u32 } else { x3 }),
        ;
    }
    let r = ((s4 << 4) | (s3 << 3) | (s2 << 2) | (s1 << 1) | (x4 >> 1)) + 1;
    proof {
        assert(r == npw2_bits(a));
        if a >= 2 {
            lemma_u64_pow2_no_overflow((r - 1) as nat);
            lemma_u64_shl_is_mul(1, (r - 1) as u64);
            if r < 32 {
                lemma_u64_pow2_no_overflow(r as nat);
                lemma_u64_shl_is_mul(1, r as u64);
            } else {
                lemma_u64_pow2_no_overflow(32);
                lemma_u64_shl_is_mul(1, 32);
            }
        }
    }
    r
}


proof fn lemma_pow2_is_shl(k: nat)
    requires
        k <= 32,
    ensures
        pow2(k) == (1u64 << (k as u64)),
{
    lemma_u64_pow2_no_overflow(k);
    lemma_u64_shl_is_mul(1, k as u64);
}

/// Number of trailing zero bits of `a` (0 when `a` is 0).
pub fn lfs_ctz(a: u32) -> (r: u32)
    ensures
        a == 0 ==> r == 0,
        a != 0 ==> r < 32 && (a >> r) & 1u32 == 1u32 && (a >> r) << r == a,
        r == ctz_nat(a as nat),
{
    let neg = (0x1_0000_0000u64 - a as u64) as u32;
    let p = a & neg;
    assert(p <= 0x8000_0000u32 && (a != 0 ==> p != 0) && (a == 0 ==> p == 0)) by (bit_vector)
        requires p == a & ((0x1_0000_0000u64 - a as u64) as u32);
    let x = p + 1;
    let n = lfs_npw2(x);
    let r = n - 1;
    proof {
        if a != 0 {
            lemma_pow2_is_shl(r as nat);
            lemma_pow2_is_shl(n as nat);
            assert(p & ((p - 1u32) as u32) == 0u32) by (bit_vector)
                requires p == a & ((0x1_0000_0000u64 - a as u64) as u32), a != 0u32;
            assert((a >> r) & 1u32 == 1u32 && (a >> r) << r == a) by (bit_vector)
                requires
                    p == a & ((0x1_0000_0000u64 - a as u64) as u32),
                    a != 0u32,
                    r < 32u32,
                    (1u64 << (r as u64)) <= (p as u64),
                    (p as u64) < (1u64 << ((r + 1u32) as u64)),
            ;
            lemma_ctz_shift(a, r);
        }
    }
    r
}

/// Number of set bits among the low `n` bits of `a`.
pub open spec fn popcount_below(a: u32, n: nat) -> nat
    decreases n,
{
    if n == 0 {
        0
    } else {
        popcount_below(a, (n - 1) as nat) + (((a >> ((n - 1) as u32)) & 1u32) as nat)
    }
}

/// Number of set bits of `a`.
pub open spec fn popcount(a: u32) -> nat {
    popcount_below(a, 32)
}

spec fn bit_sum32(a: u32) -> int {
    ((a >> 0u32) & 1u32) + ((a >> 1u32) & 1u32) + ((a >> 2u32) & 1u32) + ((a >> 3u32) & 1u32) + ((a >> 4u32) & 1u32) + ((a >> 5u32) & 1u32) + ((a >> 6u32) & 1u32) + ((a >> 7u32) & 1u32) + ((a >> 8u32) & 1u32) + ((a >> 9u32) & 1u32) + ((a >> 10u32) & 1u32) + ((a >> 11u32) & 1u32) + ((a >> 12u32) & 1u32) + ((a >> 13u32) & 1u32) + ((a >> 14u32) & 1u32) + ((a >> 15u32) & 1u32) + ((a >> 16u32) & 1u32) + ((a >> 17u32) & 1u32) + ((a >> 18u32) & 1u32) + ((a >> 19u32) & 1u32) + ((a >> 20u32) & 1u32) + ((a >> 21u32) & 1u32) + ((a >> 22u32) & 1u32) + ((a >> 23u32) & 1u32) + ((a >> 24u32) & 1u32) + ((a >> 25u32) & 1u32) + ((a >> 26u32) & 1u32) + ((a >> 27u32) & 1u32) + ((a >> 28u32) & 1u32) + ((a >> 29u32) & 1u32) + ((a >> 30u32) & 1u32) + ((a >> 31u32) & 1u32)
}

/// Population count: the number of set bits of `a`.
pub fn lfs_popc(a: u32) -> (r: u32)
    ensures
        r == popcount(a),
        r == popc_nat(a as nat),
        r <= 32,
{
    assert(a >= ((a >> 1u32) & 0x5555_5555u32)) by (bit_vector);
    let a1 = a - ((a >> 1) & 0x5555_5555);
    assert((a1 & 0x3333_3333u32) + ((a1 >> 2u32) & 0x3333_3333u32) <= 0xffff_ffffu32) by (bit_vector);
    let a2 = (a1 & 0x3333_3333) + ((a1 >> 2) & 0x3333_3333);
    assert(a2 + (a2 >> 4u32) <= 0xffff_ffffu32) by (bit_vector)
        requires
            a1 == (a - ((a >> 1u32) & 0x5555_5555u32)) as u32,
            a2 == ((a1 & 0x3333_3333u32) + ((a1 >> 2u32) & 0x3333_3333u32)) as u32,
    ;
    let u = (a2 + (a2 >> 4)) & 0x0f0f_0f0f;
    let m = ((u as u64) * 0x0101_0101u64) as u32;
    let r = m >> 24;
    proof {
        assert(r == bit_sum32(a) && r <= 32) by (bit_vector)
            requires
                a1 == (a - ((a >> 1u32) & 0x5555_5555u32)) as u32,
                a2 == ((a1 & 0x3333_3333u32) + ((a1 >> 2u32) & 0x3333_3333u32)) as u32,
                u == ((a2 + (a2 >> 4u32)) as u32) & 0x0f0f_0f0fu32,
                m == ((u as u64) * 0x0101_0101u64) as u32,
                r == m >> 24u32,
        ;
        reveal_with_fuel(popcount_below, 33);
        lemma_popcount_is_popc_nat(a);
    }
    r
}

/// The number of set bits of `n`, counted on its binary digits.
pub open spec fn popc_nat(n: nat) -> nat
    decreases n,
{
    if n == 0 {
        0
    } else {
        n % 2 + popc_nat(n / 2)
    }
}

/// The number of trailing zero bits of `n` (0 for 0).
pub open spec fn ctz_nat(n: nat) -> nat
    decreases n,
{
    if n == 0 || n % 2 == 1 {
        0
    } else {
        1 + ctz_nat(n / 2)
    }
}

proof fn lemma_popcount_below_step(a: u32, n: nat)
    requires
        1 <= n <= 32,
    ensures
        popcount_below(a, n) == (a & 1u32) + popcount_below(a >> 1u32, (n - 1) as nat),
    decreases n,
{
    if n == 1 {
        assert((a >> 0u32) & 1u32 == a & 1u32) by (bit_vector);
        assert(popcount_below(a >> 1u32, 0) == 0);
        assert(popcount_below(a, 0) == 0);
        assert(popcount_below(a, 1) == popcount_below(a, 0) + ((a >> 0u32) & 1u32));
    } else {
        lemma_popcount_below_step(a, (n - 1) as nat);
        let k = (n - 2) as u32;
        assert(((a >> 1u32) >> k) & 1u32 == (a >> ((k + 1) as u32)) & 1u32) by (bit_vector)
            requires k < 31u32;
        assert(popcount_below(a, n) == popcount_below(a, (n - 1) as nat) + ((a >> ((k + 1) as u32)) & 1u32));
        assert(popcount_below(a >> 1u32, (n - 1) as nat) == popcount_below(a >> 1u32, (n - 2) as nat) + (((a
            >> 1u32) >> k) & 1u32));
    }
}

/// Removing the lowest binary digit: the set bits of `a` are its lowest
/// bit and those of `a / 2`.
proof fn lemma_popcount_halve(a: u32)
    ensures
        popcount(a) == a % 2 + popcount(a / 2),
{
    lemma_popcount_below_step(a, 32);
    assert(((a >> 1u32) >> 31u32) & 1u32 == 0u32 && a & 1u32 == a % 2 && a >> 1u32 == a / 2) by (bit_vector);
}

/// The bitwise population count agrees with the count on binary digits.
pub proof fn lemma_popcount_is_popc_nat(a: u32)
    ensures
        popcount(a) == popc_nat(a as nat),
    decreases a,
{
    if a == 0 {
        reveal_with_fuel(popcount_below, 33);
        assert forall|k: u32| k < 32 implies (0u32 >> k) & 1u32 == 0u32 by {
            assert((0u32 >> k) & 1u32 == 0u32) by (bit_vector);
        }
    } else {
        lemma_popcount_halve(a);
        lemma_popcount_is_popc_nat(a / 2);
    }
}

/// Shifting out trailing zeros: if `a` is an odd number shifted left by
/// `r`, then `r` is its number of trailing zeros.
proof fn lemma_ctz_shift(a: u32, r: u32)
    requires
        a != 0,
        r < 32,
        (a >> r) & 1u32 == 1u32,
        (a >> r) << r == a,
    ensures
        ctz_nat(a as nat) == r,
    decreases r,
{
    if r == 0 {
        assert(a % 2 == 1) by (bit_vector)
            requires (a >> 0u32) & 1u32 == 1u32;
    } else {
        assert(a % 2 == 0 && a >> 1u32 == a / 2) by (bit_vector)
            requires (a >> r) << r == a, 1u32 <= r < 32u32;
        let h = a / 2;
        let r1 = (r - 1) as u32;
        assert(h != 0 && (h >> r1) & 1u32 == 1u32 && (h >> r1) << r1 == h) by (bit_vector)
            requires
                h == a >> 1u32,
                (a >> r) & 1u32 == 1u32,
                (a >> r) << r == a,
                1u32 <= r < 32u32,
                r1 == r - 1u32,
        ;
        lemma_ctz_shift(h, r1);
    }
}

/// One less than `n`: the trailing zeros of `n` become ones and its
/// lowest set bit clears.
pub proof fn lemma_popc_pred(n: nat)
    requires
        n >= 1,
    ensures
        popc_nat(n) + ctz_nat(n) == popc_nat((n - 1) as nat) + 1,
    decreases n,
{
    if n % 2 == 1 {
        assert(((n - 1) as nat) / 2 == n / 2);
        assert(popc_nat((n - 1) as nat) == popc_nat(n / 2));
    } else {
        let m = n / 2;
        assert(((n - 1) as nat) % 2 == 1 && ((n - 1) as nat) / 2 == (m - 1) as nat);
        lemma_popc_pred(m);
    }
}

/// A number below `2^k` has at most `k` set bits, and when it is not zero
/// its set bits and trailing zeros together are at most `k`.
pub proof fn lemma_popc_ctz_bound(n: nat, k: nat)
    requires
        n < pow2(k),
    ensures
        popc_nat(n) <= k,
        n >= 1 ==> popc_nat(n) + ctz_nat(n) <= k,
    decreases k,
{
    vstd::arithmetic::power2::lemma_pow2_pos(k);
    if k == 0 {
        vstd::arithmetic::power2::lemma2_to64();
    } else {
        vstd::arithmetic::power2::lemma_pow2_unfold(k);
        lemma_popc_ctz_bound(n / 2, (k - 1) as nat);
    }
}

/// `w` read as a two's-complement signed number.
fn u32_to_signed(w: u32) -> (r: i32)
    ensures
        r as int == (if w < 0x8000_0000u32 { w as int } else { w as int - 0x1_0000_0000 }),
{
    let r = w as i32;
    proof {
        assert((w as i32) as int == (if w < 0x8000_0000u32 { w as int } else { w as int - 0x1_0000_0000 }))
            by (bit_vector);
    }
    r
}

/// Sequence comparison: the difference `a - b` taken modulo 2^32 and read
/// as a signed number.
pub fn lfs_scmp(a: u32, b: u32) -> (r: i32)
    ensures
        (r - (a - b)) % 0x1_0000_0000int == 0,
{
    u32_to_signed(a.wrapping_sub(b))
}

/// The smaller of two sizes.
pub fn lfs_min(a: u32, b: u32) -> (r: u32)
    ensures
        r == if a < b { a } else { b },
{
    if a < b { a } else { b }
}

/// The larger of two sizes.
pub fn lfs_max(a: u32, b: u32) -> (r: u32)
    ensures
        r == if a > b { a } else { b },
{
    if a > b { a } else { b }
}


/// `k` is the index of the first byte of `p` equal to `c`, or the length of
/// `p` when no byte is.
pub open spec fn is_first_index(p: Seq<u8>, c: u8, k: int) -> bool {
    &&& 0 <= k <= p.len()
    &&& forall|i: int| 0 <= i < k ==> p[i] != c
    &&& k < p.len() ==> p[k] == c
}

/// `k` is the length of the longest prefix of `p` made of `c` alone.
pub open spec fn is_span_len(p: Seq<u8>, c: u8, k: int) -> bool {
    &&& 0 <= k <= p.len()
    &&& forall|i: int| 0 <= i < k ==> p[i] == c
    &&& k < p.len() ==> p[k] != c
}

/// The length of the first path component: the bytes before the first `/`.
pub open spec fn spec_namelen(p: Seq<u8>) -> int {
    choose|k: int| is_first_index(p, 0x2f, k)
}

/// Any two first indices of a byte agree.
pub proof fn lemma_first_index_unique(p: Seq<u8>, c: u8, k1: int, k2: int)
    requires
        is_first_index(p, c, k1),
        is_first_index(p, c, k2),
    ensures
        k1 == k2,
{
}

/// Counts the leading bytes of `p` equal to `c`.
pub fn lfs_strspn(p: &[u8], c: u8) -> (r: usize)
    ensures
        is_span_len(p@, c, r as int),
{
    let mut i: usize = 0;
    while i < p.len()
        invariant
            i <= p@.len(),
            forall|j: int| 0 <= j < i ==> p@[j] == c,
        decreases p@.len() - i,
    {
        if p[i] != c {
            return i;
        }
        i = i + 1;
    }
    i
}

/// Counts the leading bytes of `p` different from `c`.
pub fn lfs_strcspn(p: &[u8], c: u8) -> (r: usize)
    ensures
        is_first_index(p@, c, r as int),
{
    let mut i: usize = 0;
    while i < p.len()
        invariant
            i <= p@.len(),
            forall|j: int| 0 <= j < i ==> p@[j] != c,
        decreases p@.len() - i,
    {
        if p[i] == c {
            return i;
        }
        i = i + 1;
    }
    i
}

/// Length of the first component of `path`.
pub fn lfs_path_namelen(path: &[u8]) -> (r: usize)
    ensures
        is_first_index(path@, 0x2f, r as int),
        r == spec_namelen(path@),
{
    let r = lfs_strcspn(path, 0x2f);
    proof {
        let k = spec_namelen(path@);
        assert(is_first_index(path@, 0x2f, r as int));
        assert(is_first_index(path@, 0x2f, k));
        lemma_first_index_unique(path@, 0x2f, r as int, k);
    }
    r
}

/// Whether `path` holds no component after its first one: what follows
/// the first name is slashes alone.
pub fn lfs_path_islast(path: &[u8]) -> (r: bool)
    ensures
        r <==> (forall|i: int| spec_namelen(path@) <= i < path@.len() ==> path@[i] == 0x2f),
{
    let namelen = lfs_path_namelen(path);
    let mut i = namelen;
    while i < path.len()
        invariant
            namelen <= i <= path@.len(),
            namelen == spec_namelen(path@),
            forall|j: int| namelen <= j < i ==> path@[j] == 0x2f,
        decreases path@.len() - i,
    {
        if path[i] != 0x2f {
            return false;
        }
        i = i + 1;
    }
    true
}

/// Whether the first component of `path` is followed by a non-NUL byte,
/// which makes it a directory name.
pub fn lfs_path_isdir(path: &[u8]) -> (r: bool)
    ensures
        r <==> (spec_namelen(path@) < path@.len() && path@[spec_namelen(path@)] != 0),
{
    let namelen = lfs_path_namelen(path);
    namelen < path.len() && path[namelen] != 0
}

/// `x` with its four bytes in reverse order.
pub open spec fn spec_swap32(x: u32) -> u32 {
    (((x & 0xffu32) << 24u32) | (((x >> 8u32) & 0xffu32) << 16u32)
        | (((x >> 16u32) & 0xffu32) << 8u32) | ((x >> 24u32) & 0xffu32)) as u32
}

/// Calls std's `u32::from_le`. Its documentation: on little-endian targets
/// the value comes back unchanged, on big-endian targets with its bytes
/// swapped. Which of the two holds depends on the machine, so the contract
/// states only that the result is one of them.
#[verifier::external_body]
fn std_u32_from_le(x: u32) -> (r: u32)
    ensures
        r == x || r == spec_swap32(x),
{
    u32::from_le(x)
}

/// Calls std's `u32::to_le`: on little-endian targets the value comes back
/// unchanged, on big-endian targets with its bytes swapped. The contract
/// states only that the result is one of them.
#[verifier::external_body]
fn std_u32_to_le(x: u32) -> (r: u32)
    ensures
        r == x || r == spec_swap32(x),
{
    u32::to_le(x)
}

/// Calls std's `u32::from_be`: on big-endian targets the value comes back
/// unchanged, on little-endian targets with its bytes swapped. The contract
/// states only that the result is one of them.
#[verifier::external_body]
fn std_u32_from_be(x: u32) -> (r: u32)
    ensures
        r == x || r == spec_swap32(x),
{
    u32::from_be(x)
}

/// Calls std's `u32::to_be`: on big-endian targets the value comes back
/// unchanged, on little-endian targets with its bytes swapped. The contract
/// states only that the result is one of them.
#[verifier::external_body]
fn std_u32_to_be(x: u32) -> (r: u32)
    ensures
        r == x || r == spec_swap32(x),
{
    u32::to_be(x)
}

/// Converts a word from its in-memory little-endian form to host order.
pub fn lfs_fromle32(a: u32) -> (r: u32)
    ensures
        r == a || r == spec_swap32(a),
{
    std_u32_from_le(a)
}

/// Converts a word from host order to its in-memory little-endian form.
pub fn lfs_tole32(a: u32) -> (r: u32)
    ensures
        r == a || r == spec_swap32(a),
{
    std_u32_to_le(a)
}

/// Converts a word from its in-memory big-endian form to host order.
pub fn lfs_frombe32(a: u32) -> (r: u32)
    ensures
        r == a || r == spec_swap32(a),
{
    std_u32_from_be(a)
}

/// Converts a word from host order to its in-memory big-endian form.
pub fn lfs_tobe32(a: u32) -> (r: u32)
    ensures
        r == a || r == spec_swap32(a),
{
    std_u32_to_be(a)
}

/// Two block pairs hold the same blocks, in either order.
pub open spec fn spec_pair_issync(a: [u32; 2], b: [u32; 2]) -> bool {
    (a[0] == b[0] && a[1] == b[1]) || (a[0] == b[1] && a[1] == b[0])
}

/// Converts both halves of a block pair from little-endian form.
pub fn lfs_pair_fromle32(pair: &mut [u32; 2])
    ensures
        final(pair)@.len() == 2,
        final(pair)@[0] == old(pair)@[0] || final(pair)@[0] == spec_swap32(old(pair)@[0]),
        final(pair)@[1] == old(pair)@[1] || final(pair)@[1] == spec_swap32(old(pair)@[1]),
{
    let a = lfs_fromle32(pair[0]);
    let b = lfs_fromle32(pair[1]);
    pair[0] = a;
    pair[1] = b;
}

/// Converts both halves of a block pair to little-endian form.
pub fn lfs_pair_tole32(pair: &mut [u32; 2])
    ensures
        final(pair)@.len() == 2,
        final(pair)@[0] == old(pair)@[0] || final(pair)@[0] == spec_swap32(old(pair)@[0]),
        final(pair)@[1] == old(pair)@[1] || final(pair)@[1] == spec_swap32(old(pair)@[1]),
{
    let a = lfs_tole32(pair[0]);
    let b = lfs_tole32(pair[1]);
    pair[0] = a;
    pair[1] = b;
}

/// Swaps the two halves of a block pair.
pub fn lfs_pair_swap(pair: &mut [u32; 2])
    ensures
        final(pair)@ == seq![old(pair)@[1], old(pair)@[0]],
{
    let t = pair[0];
    pair[0] = pair[1];
    pair[1] = t;
}

/// Whether either half of the pair is the null block.
pub fn lfs_pair_isnull(pair: &[u32; 2]) -> (r: bool)
    ensures
        r <==> (pair@[0] == crate::types::LFS_BLOCK_NULL || pair@[1] == crate::types::LFS_BLOCK_NULL),
{
    pair[0] == crate::types::LFS_BLOCK_NULL || pair[1] == crate::types::LFS_BLOCK_NULL
}

/// Whether two pairs share no block. (`false` means they overlap, which
/// littlefs reads as "the same metadata pair".)
pub fn lfs_pair_cmp(paira: &[u32; 2], pairb: &[u32; 2]) -> (r: bool)
    ensures
        r <==> !(paira@[0] == pairb@[0] || paira@[1] == pairb@[1] || paira@[0] == pairb@[1]
            || paira@[1] == pairb@[0]),
{
    !(paira[0] == pairb[0] || paira[1] == pairb[1] || paira[0] == pairb[1] || paira[1] == pairb[0])
}

/// Whether two pairs hold the same two blocks, in either order.
pub fn lfs_pair_issync(paira: &[u32; 2], pairb: &[u32; 2]) -> (r: bool)
    ensures
        r <==> ((paira@[0] == pairb@[0] && paira@[1] == pairb@[1]) || (paira@[0] == pairb@[1]
            && paira@[1] == pairb@[0])),
        r <==> spec_pair_issync(*paira, *pairb),
{
    (paira[0] == pairb[0] && paira[1] == pairb[1]) || (paira[0] == pairb[1] && paira[1] == pairb[0])
}

} // verus!
