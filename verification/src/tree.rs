//! The mathematical model of the memory commitment: a perfect binary hash
//! tree over the byte contents of the address space, 32-byte chunks at the
//! leaves, keccak of the two children at every internal node.

use crate::keccak::keccak_of;
use vstd::arithmetic::div_mod::{lemma_fundamental_div_mod, lemma_mod_bound};
use vstd::arithmetic::power2::{
    lemma2_to64, lemma2_to64_rest, lemma_pow2_adds, lemma_pow2_pos, lemma_pow2_strictly_increases,
    lemma_pow2_unfold, pow2,
};
use vstd::prelude::*;

verus! {

/// Bytes per leaf chunk of the hash tree.
pub const CHUNK_SIZE: u64 = 32;

/// Bytes per page, the unit of allocation and of digest caching.
pub const PAGE_SIZE: u64 = 4096;

/// Chunks per page.
pub const PAGE_CHUNKS: u64 = 128;

/// Levels of the hash tree inside one page: log2(PAGE_CHUNKS).
pub const PAGE_DEPTH: u64 = 7;

/// Levels of the whole hash tree above the chunks: the root sits at this
/// level, covering the full 32-bit address space.
pub const TREE_DEPTH: u64 = 27;

/// Size of the emulated address space in bytes: 2^32.
pub const ADDR_SPACE: u64 = 0x1_0000_0000;

/// Number of pages in the address space: 2^20.
pub const PAGE_COUNT: u64 = 0x10_0000;

/// First byte covered by the node `level` levels above the chunks at
/// horizontal position `i`; the node covers bytes up to `node_lo(level, i + 1)`.
pub open spec fn node_lo(level: nat, i: int) -> int {
    i * pow2(level) * 32
}

/// Value of the tree node at `level` levels above the chunks, horizontal
/// position `i`, for byte contents `m`: the 32-byte chunk itself at level 0,
/// the keccak digest of the two children above it.
pub open spec fn node_hash(m: Seq<u8>, level: nat, i: int) -> Seq<u8>
    decreases level,
{
    if level == 0 {
        m.subrange(i * 32, i * 32 + 32)
    } else {
        keccak_of(
            node_hash(m, (level - 1) as nat, 2 * i) + node_hash(m, (level - 1) as nat, 2 * i + 1),
        )
    }
}

/// Canonical digest of an all-zero subtree of the given height.
pub open spec fn zero_hash(level: nat) -> Seq<u8>
    decreases level,
{
    if level == 0 {
        Seq::new(32, |k: int| 0u8)
    } else {
        keccak_of(zero_hash((level - 1) as nat) + zero_hash((level - 1) as nat))
    }
}

/// An all-zero page, the defined contents of a never-written page.
pub open spec fn zero_page() -> Seq<u8> {
    Seq::new(PAGE_SIZE as nat, |k: int| 0u8)
}

/// The contents of an untouched memory: every byte of the address space zero.
pub open spec fn zero_memory() -> Seq<u8> {
    Seq::new(ADDR_SPACE as nat, |k: int| 0u8)
}

/// Contents `m` with the bytes of `d` written at position `at`: every byte in
/// `[at, at + d.len())` comes from `d`, every other byte is unchanged.
pub open spec fn splice_bytes(m: Seq<u8>, at: int, d: Seq<u8>) -> Seq<u8> {
    Seq::new(m.len(), |k: int| if at <= k < at + d.len() { d[k - at] } else { m[k] })
}

/// A node's value depends only on the bytes the node covers: two contents
/// that agree on `[node_lo(level, i), node_lo(level, i + 1))` give the node
/// the same value.
pub proof fn lemma_node_hash_depends(m1: Seq<u8>, m2: Seq<u8>, level: nat, i: int)
    requires
        m1.len() == m2.len(),
        0 <= i,
        node_lo(level, i + 1) <= m1.len(),
        forall|k: int|
            node_lo(level, i) <= k < node_lo(level, i + 1) ==> #[trigger] m1[k] == m2[k],
    ensures
        node_hash(m1, level, i) == node_hash(m2, level, i),
    decreases level,
{
    if level == 0 {
        lemma2_to64();
        assert(node_lo(0, i) == 32 * i);
        assert(node_lo(0, i + 1) == 32 * i + 32);
        assert(m1.subrange(i * 32, i * 32 + 32) =~= m2.subrange(i * 32, i * 32 + 32));
    } else {
        let lp = (level - 1) as nat;
        let p1 = pow2(lp) as int;
        lemma_pow2_unfold(level);
        lemma_pow2_pos(lp);
        assert(node_lo(lp, 2 * i) == node_lo(level, i)) by (nonlinear_arith)
            requires
                p1 == pow2(lp),
                pow2(level) == 2 * pow2(lp),
        ;
        assert(node_lo(lp, 2 * i + 2) == node_lo(level, i + 1)) by (nonlinear_arith)
            requires
                p1 == pow2(lp),
                pow2(level) == 2 * pow2(lp),
        ;
        assert(node_lo(lp, 2 * i) <= node_lo(lp, 2 * i + 1) <= node_lo(lp, 2 * i + 2))
            by (nonlinear_arith)
            requires
                p1 == pow2(lp),
                p1 >= 1,
        ;
        lemma_node_hash_depends(m1, m2, lp, 2 * i);
        lemma_node_hash_depends(m1, m2, lp, 2 * i + 1);
    }
}

/// A node whose covered bytes are all zero has the canonical zero digest of
/// its height.
pub proof fn lemma_node_hash_zero(m: Seq<u8>, level: nat, i: int)
    requires
        0 <= i,
        node_lo(level, i + 1) <= m.len(),
        forall|k: int| node_lo(level, i) <= k < node_lo(level, i + 1) ==> #[trigger] m[k] == 0,
    ensures
        node_hash(m, level, i) == zero_hash(level),
    decreases level,
{
    if level == 0 {
        lemma2_to64();
        assert(node_lo(0, i) == 32 * i);
        assert(node_lo(0, i + 1) == 32 * i + 32);
        assert(m.subrange(i * 32, i * 32 + 32) =~= Seq::new(32, |k: int| 0u8));
    } else {
        let lp = (level - 1) as nat;
        let p1 = pow2(lp) as int;
        lemma_pow2_unfold(level);
        lemma_pow2_pos(lp);
        assert(node_lo(lp, 2 * i) == node_lo(level, i)) by (nonlinear_arith)
            requires
                p1 == pow2(lp),
                pow2(level) == 2 * pow2(lp),
        ;
        assert(node_lo(lp, 2 * i + 2) == node_lo(level, i + 1)) by (nonlinear_arith)
            requires
                p1 == pow2(lp),
                pow2(level) == 2 * pow2(lp),
        ;
        assert(node_lo(lp, 2 * i) <= node_lo(lp, 2 * i + 1) <= node_lo(lp, 2 * i + 2))
            by (nonlinear_arith)
            requires
                p1 == pow2(lp),
                p1 >= 1,
        ;
        lemma_node_hash_zero(m, lp, 2 * i);
        lemma_node_hash_zero(m, lp, 2 * i + 1);
    }
}

/// A node at or below page height has the same value whether it is computed
/// over one page's bytes or over the whole contents at the page's position.
pub proof fn lemma_node_hash_page(m: Seq<u8>, p: int, level: nat, i: int)
    requires
        0 <= p,
        level <= 7,
        0 <= i < pow2((7 - level) as nat),
        (p + 1) * 4096 <= m.len(),
    ensures
        node_hash(m.subrange(p * 4096, p * 4096 + 4096), level, i) == node_hash(
            m,
            level,
            p * pow2((7 - level) as nat) + i,
        ),
    decreases level,
{
    let sub = m.subrange(p * 4096, p * 4096 + 4096);
    if level == 0 {
        lemma2_to64();
        assert(pow2(7) == 128);
        let g = p * 128 + i;
        assert(g * 32 == p * 4096 + i * 32) by (nonlinear_arith)
            requires
                g == p * 128 + i,
        ;
        assert(sub.subrange(i * 32, i * 32 + 32) =~= m.subrange(g * 32, g * 32 + 32))
            by (nonlinear_arith)
            requires
                sub == m.subrange(p * 4096, p * 4096 + 4096),
                0 <= i < 128,
                0 <= p,
                (p + 1) * 4096 <= m.len(),
                g * 32 == p * 4096 + i * 32,
        ;
    } else {
        let lp = (level - 1) as nat;
        let w = pow2((7 - level) as nat) as int;
        lemma_pow2_unfold((8 - level) as nat);
        lemma_pow2_pos((7 - level) as nat);
        let g = p * w + i;
        assert(2 * g == p * (2 * w) + 2 * i) by (nonlinear_arith)
            requires
                g == p * w + i,
        ;
        assert(2 * i + 1 < pow2((8 - level) as nat));
        lemma_node_hash_page(m, p, lp, 2 * i);
        lemma_node_hash_page(m, p, lp, 2 * i + 1);
    }
}

/// A node at or below page height, positioned inside one page, covers bytes
/// that lie within that page.
pub proof fn lemma_node_within_page(level: nat, i: int)
    requires
        level <= 7,
        0 <= i < pow2((7 - level) as nat),
    ensures
        0 <= node_lo(level, i),
        node_lo(level, i + 1) <= 4096,
        node_lo(level, i) < node_lo(level, i + 1),
    decreases level,
{
    let p = pow2(level) as int;
    let q = pow2((7 - level) as nat) as int;
    lemma_pow2_pos(level);
    lemma_pow2_pos((7 - level) as nat);
    lemma_pow2_adds(level, (7 - level) as nat);
    lemma2_to64();
    assert(0 <= i * p * 32 && (i + 1) * p * 32 <= 4096 && i * p * 32 < (i + 1) * p * 32)
        by (nonlinear_arith)
        requires
            p >= 1,
            q >= 1,
            0 <= i < q,
            p * q == 128,
    ;
}

/// A byte at offset `off` of a page is outside every page-internal node that
/// does not sit on the path above the byte's chunk.
pub proof fn lemma_node_skips_byte(off: int, level: nat, i: int)
    requires
        0 <= off < 4096,
        1 <= level <= 7,
        0 <= i < pow2((7 - level) as nat),
        i != (off / 32) / (pow2(level) as int),
    ensures
        off < node_lo(level, i) || off >= node_lo(level, i + 1),
{
    let p = pow2(level) as int;
    let c = off / 32;
    let q = c / p;
    lemma_pow2_pos(level);
    lemma_fundamental_div_mod(off, 32);
    lemma_mod_bound(off, 32);
    lemma_fundamental_div_mod(c, p);
    lemma_mod_bound(c, p);
    let r1 = off % 32;
    let r2 = c % p;
    assert(q * p <= c && c < (q + 1) * p) by (nonlinear_arith)
        requires
            c == p * q + r2,
            0 <= r2 < p,
    ;
    assert(c * 32 <= off && off < c * 32 + 32) by (nonlinear_arith)
        requires
            off == 32 * c + r1,
            0 <= r1 < 32,
    ;
    if i < q {
        assert((i + 1) * p * 32 <= q * p * 32 <= c * 32 <= off) by (nonlinear_arith)
            requires
                p >= 1,
                i + 1 <= q,
                q * p <= c,
                c * 32 <= off,
        ;
    } else {
        assert(i * p * 32 >= (q + 1) * p * 32 >= (c + 1) * 32 > off) by (nonlinear_arith)
            requires
                p >= 1,
                i >= q + 1,
                c < (q + 1) * p,
                off < c * 32 + 32,
        ;
    }
}

/// 2^e as an executable value.
pub fn exec_pow2(e: u64) -> (r: u64)
    requires
        e <= 63,
    ensures
        r == pow2(e as nat),
{
    let mut r: u64 = 1;
    let mut k: u64 = 0;
    proof {
        lemma2_to64();
        lemma2_to64_rest();
    }
    while k < e
        invariant
            k <= e <= 63,
            r == pow2(k as nat),
        decreases e - k,
    {
        proof {
            lemma_pow2_unfold((k + 1) as nat);
            if k + 1 < 64 {
                lemma_pow2_strictly_increases((k + 1) as nat, 64);
            }
            lemma2_to64_rest();
        }
        r = r * 2;
        k = k + 1;
    }
    r
}

} // verus!
