//! Positions in a perfect binary tree encoded as a single integer, the
//! generalized index: the root is 1, the children of `g` are `2g` and
//! `2g + 1`, and parent, sibling and depth are pure integer arithmetic.

use vstd::arithmetic::power2::{lemma2_to64, lemma2_to64_rest, lemma_pow2_unfold, pow2};
use vstd::prelude::*;

verus! {

/// How many edges separate the node from the root.
pub open spec fn depth_of(g: nat) -> nat
    decreases g,
{
    if g <= 1 {
        0nat
    } else {
        1 + depth_of(g / 2)
    }
}

/// A generalized index is at least as large as two to its depth.
pub proof fn lemma_pow2_depth(g: nat)
    requires
        g >= 1,
    ensures
        pow2(depth_of(g)) <= g,
    decreases g,
{
    if g <= 1 {
        lemma2_to64();
    } else {
        lemma_pow2_depth(g / 2);
        lemma_pow2_unfold(depth_of(g));
    }
}

/// Every valid index has depth below the width of its integer type.
pub proof fn lemma_depth_bound(g: nat)
    requires
        1 <= g < 0x1_0000_0000_0000_0000,
    ensures
        depth_of(g) < 64,
{
    lemma_pow2_depth(g);
    if depth_of(g) >= 64 {
        vstd::arithmetic::power2::lemma_pow2_strictly_increases(64, depth_of(g) + 1);
        lemma2_to64_rest();
        vstd::arithmetic::power2::lemma_pow2_strictly_increases(63, depth_of(g));
        assert(pow2(64) <= pow2(depth_of(g))) by {
            if depth_of(g) > 64 {
                vstd::arithmetic::power2::lemma_pow2_strictly_increases(64, depth_of(g));
            }
        }
    }
}

/// The parent of a non-root node.
pub fn parent(g: u64) -> (r: u64)
    requires
        g > 1,
    ensures
        r == g / 2,
        r >= 1,
        depth_of(r as nat) + 1 == depth_of(g as nat),
{
    g / 2
}

/// The sibling of a non-root node: the other child of the same parent.
pub fn sibling(g: u64) -> (r: u64)
    requires
        g > 1,
    ensures
        g % 2 == 0 ==> r == g + 1,
        g % 2 == 1 ==> r == g - 1,
        r / 2 == g / 2,
        r != g,
{
    if g % 2 == 0 {
        g + 1
    } else {
        g - 1
    }
}

/// The left child of a node.
pub fn left_child(g: u64) -> (r: u64)
    requires
        1 <= g < 0x8000_0000_0000_0000,
    ensures
        r == 2 * g,
        depth_of(r as nat) == depth_of(g as nat) + 1,
{
    2 * g
}

/// The right child of a node.
pub fn right_child(g: u64) -> (r: u64)
    requires
        1 <= g < 0x8000_0000_0000_0000,
    ensures
        r == 2 * g + 1,
        depth_of(r as nat) == depth_of(g as nat) + 1,
{
    2 * g + 1
}

/// Whether the node is a left child: left children have even indices.
pub fn is_left_child(g: u64) -> (r: bool)
    requires
        g > 1,
    ensures
        r == (g % 2 == 0),
{
    g % 2 == 0
}

/// Whether the node sits at the leaf depth of a tree of the given depth.
pub fn is_leaf(g: u64, depth: u64) -> (r: bool)
    requires
        g >= 1,
    ensures
        r == (depth_of(g as nat) == depth),
{
    proof {
        lemma_depth_bound(g as nat);
    }
    let mut cur = g;
    let mut d: u64 = 0;
    while cur > 1
        invariant
            cur >= 1,
            depth_of(g as nat) == depth_of(cur as nat) + d,
            d <= depth_of(g as nat) < 64,
        decreases cur,
    {
        cur = cur / 2;
        d = d + 1;
    }
    d == depth
}

/// The indices from `g` up to the root: `g` itself first, then each
/// node's parent, ending at the root.
pub fn path_to_root(g: u64) -> (r: Vec<u64>)
    requires
        g >= 1,
    ensures
        r@.len() == depth_of(g as nat) + 1,
        r@[0] == g,
        r@[r@.len() - 1] == 1,
        forall|k: int| 0 <= k < r@.len() - 1 ==> (#[trigger] r@[k]) > 1 && r@[k + 1] == r@[k] / 2,
{
    proof {
        lemma_depth_bound(g as nat);
    }
    let mut v: Vec<u64> = Vec::new();
    v.push(g);
    let mut cur = g;
    while cur > 1
        invariant
            cur >= 1,
            v@.len() >= 1,
            v@[0] == g,
            v@[v@.len() - 1] == cur,
            depth_of(g as nat) + 1 == v@.len() + depth_of(cur as nat),
            forall|k: int|
                0 <= k < v@.len() - 1 ==> (#[trigger] v@[k]) > 1 && v@[k + 1] == v@[k] / 2,
        decreases cur,
    {
        cur = cur / 2;
        v.push(cur);
    }
    v
}

} // verus!
