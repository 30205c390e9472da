//! The Merkleizer and the mathematical model of a built tree.
//!
//! A built tree is a flat sequence of 32-byte chunks in binary-heap order:
//! chunk 0 is the root, chunk `i` has children `2i + 1` and `2i + 2`, and the
//! leaves fill the tail of the sequence.  The leaf count of a built tree is
//! always rounded up to the next power of two; the extra leaves are all-zero
//! padding chunks.  `tree_node` is the model: every contract that mentions a
//! chunk of a built tree pins it to `tree_node` of the leaf chunks.

use crate::hashing::{hash_of, hash_pair};
use crate::pack::{chunk_views, zero_bytes, zero_chunk};
use vstd::arithmetic::power2::{
    lemma2_to64, lemma_pow2_pos, lemma_pow2_strictly_increases, lemma_pow2_unfold, pow2,
};
use vstd::prelude::*;

verus! {

/// Upper bound on the leaf-chunk count of one tree, so that chunk indices
/// stay within `usize` on any target.
pub const MAX_LEAF_COUNT: usize = 0x0400_0000;

/// The height of the smallest complete binary tree with at least `c` leaves:
/// the least `h` with `pow2(h) >= c`.
pub open spec fn height_for(c: nat) -> nat
    decreases c,
{
    if c <= 1 {
        0
    } else {
        1 + height_for(((c + 1) / 2) as nat)
    }
}

/// The padded leaf count of a tree built over `c` leaf chunks.
pub open spec fn num_padded_leaves(c: nat) -> nat {
    pow2(height_for(c))
}

/// Leaf `k` of the padded leaf level: a supplied chunk, or zero padding.
pub open spec fn padded_leaf(leaves: Seq<Seq<u8>>, k: int) -> Seq<u8> {
    if 0 <= k < leaves.len() {
        leaves[k]
    } else {
        zero_chunk()
    }
}

/// Chunk `i` of the complete binary tree, in heap order, over a padded leaf
/// level of `nl` chunks (`nl` a power of two): the tail chunks are the
/// leaves, and every earlier chunk hashes its two children.
pub open spec fn tree_node(leaves: Seq<Seq<u8>>, nl: nat, i: int) -> Seq<u8>
    decreases 2 * nl - 1 - i
        when 0 <= i < 2 * nl - 1
{
    if i >= nl - 1 {
        padded_leaf(leaves, i - (nl - 1))
    } else {
        hash_of(tree_node(leaves, nl, 2 * i + 1) + tree_node(leaves, nl, 2 * i + 2))
    }
}

/// The whole built tree over the given leaf chunks, as the chunk store holds
/// it: `2 * nl - 1` chunks in heap order.
pub open spec fn full_tree(leaves: Seq<Seq<u8>>) -> Seq<Seq<u8>> {
    let nl = num_padded_leaves(leaves.len());
    Seq::new((2 * nl - 1) as nat, |i: int| tree_node(leaves, nl, i))
}

/// The root chunk of the built tree, before any length mixing.
pub open spec fn merkle_root(leaves: Seq<Seq<u8>>) -> Seq<u8> {
    tree_node(leaves, num_padded_leaves(leaves.len()), 0)
}

/// Chunk `p` holds the digest of its two children's concatenation.
pub open spec fn parent_hashes_children(cv: Seq<Seq<u8>>, p: int) -> bool {
    cv[p] == hash_of(cv[2 * p + 1] + cv[2 * p + 2])
}

/// Every internal chunk of a tree over `nl` padded leaves hashes its
/// children.
pub open spec fn coherent(cv: Seq<Seq<u8>>, nl: nat) -> bool {
    forall|p: int| 0 <= p < nl - 1 ==> #[trigger] parent_hashes_children(cv, p)
}

/// Every internal chunk both of whose children are clean hashes its
/// children: what the bottom-up rehash pass may rely on for the chunks it
/// skips.
pub open spec fn flag_coherent(cv: Seq<Seq<u8>>, fl: Seq<bool>, nl: nat) -> bool {
    forall|p: int|
        0 <= p < nl - 1 && !fl[2 * p + 1] && !fl[2 * p + 2]
            ==> #[trigger] parent_hashes_children(cv, p)
}

/// A built tree is coherent.
pub proof fn lemma_full_tree_coherent(leaves: Seq<Seq<u8>>)
    ensures
        coherent(full_tree(leaves), num_padded_leaves(leaves.len())),
{
    let nl = num_padded_leaves(leaves.len());
    lemma_pow2_pos(height_for(leaves.len()));
    let cv = full_tree(leaves);
    assert forall|p: int| 0 <= p < nl - 1 implies #[trigger] parent_hashes_children(cv, p) by {
        assert(cv[p] == tree_node(leaves, nl, p));
        assert(cv[2 * p + 1] == tree_node(leaves, nl, 2 * p + 1));
        assert(cv[2 * p + 2] == tree_node(leaves, nl, 2 * p + 2));
    };
}

/// In heap order, a chunk index determines its level and its position in
/// the level.
pub proof fn lemma_heap_index_unique(a: nat, qa: int, b: nat, qb: int)
    requires
        0 <= qa < pow2(a),
        0 <= qb < pow2(b),
        pow2(a) - 1 + qa == pow2(b) - 1 + qb,
    ensures
        a == b,
        qa == qb,
{
    if a < b {
        lemma_pow2_unfold(a + 1);
        if a + 1 < b {
            lemma_pow2_strictly_increases(a + 1, b);
        }
        assert(pow2(a) - 1 + qa < pow2(a + 1) - 1 <= pow2(b) - 1 + qb);
    }
    if b < a {
        lemma_pow2_unfold(b + 1);
        if b + 1 < a {
            lemma_pow2_strictly_increases(b + 1, a);
        }
        assert(pow2(b) - 1 + qb < pow2(b + 1) - 1 <= pow2(a) - 1 + qa);
    }
}

/// Chunk index `m` sits at position `q` of level `l` of a heap-ordered
/// tree.
pub open spec fn heap_slot(l: int, q: int, m: int) -> bool {
    m == pow2(l as nat) - 1 + q
}

/// Every chunk index of a tree of height `h` lies on some level: it is
/// `pow2(l) - 1 + q` for one level `l` and position `q`.
pub proof fn lemma_heap_index_decompose(h: nat, m: int)
    requires
        0 <= m < 2 * pow2(h) - 1,
    ensures
        exists|l: int, q: int|
            0 <= l <= h && 0 <= q < pow2(l as nat) && #[trigger] heap_slot(l, q, m),
    decreases h,
{
    lemma2_to64();
    if h == 0 {
        assert(m == 0);
        assert(0 <= 0 <= h && 0 <= 0 < pow2(0) && heap_slot(0, 0, m));
    } else {
        lemma_pow2_unfold(h);
        if m < pow2(h) - 1 {
            lemma_heap_index_decompose((h - 1) as nat, m);
            let (l, q) = choose|l: int, q: int|
                0 <= l <= h - 1 && 0 <= q < pow2(l as nat) && #[trigger] heap_slot(l, q, m);
            assert(0 <= l <= h && 0 <= q < pow2(l as nat) && heap_slot(l, q, m));
        } else {
            let q = m - (pow2(h) - 1);
            assert(0 <= (h as int) <= h && 0 <= q < pow2(h) && heap_slot(h as int, q, m));
        }
    }
}

/// Compute `pow2(h)` for a small height.
pub fn pow2_usize(h: usize) -> (r: usize)
    requires
        h <= 27,
    ensures
        r == pow2(h as nat),
        1 <= r,
        r <= 0x0800_0000,
{
    proof {
        lemma2_to64();
    }
    let mut l: usize = 1;
    let mut i: usize = 0;
    while i < h
        invariant
            i <= h,
            h <= 27,
            1 <= l,
            l == pow2(i as nat),
            l <= 0x0800_0000,
        decreases h - i,
    {
        proof {
            lemma2_to64();
            if i < 26 {
                lemma_pow2_strictly_increases(i as nat, 26);
            }
            assert(l <= 0x0400_0000);
            lemma_pow2_unfold((i + 1) as nat);
        }
        l = l * 2;
        i = i + 1;
    }
    l
}

/// A list within `MAX_LIST_LEN` packs to a leaf-chunk count the Merkleizer
/// accepts.
pub proof fn lemma_num_leaf_chunks_bound(n: nat)
    requires
        n <= crate::pack::MAX_LIST_LEN,
    ensures
        1 <= crate::pack::num_leaf_chunks(n) <= MAX_LEAF_COUNT,
{
    if n > 0 {
        vstd::arithmetic::div_mod::lemma_div_is_ordered(
            (n + 3) as int,
            (crate::pack::MAX_LIST_LEN + 3) as int,
            4,
        );
        vstd::arithmetic::div_mod::lemma_div_is_ordered(4, (n + 3) as int, 4);
    }
}

/// `height_for` is sound and minimal: `pow2(height_for(c))` reaches `c`, and
/// no smaller height does.
pub proof fn lemma_height_for_min(c: nat)
    ensures
        c <= pow2(height_for(c)),
        height_for(c) > 0 ==> pow2((height_for(c) - 1) as nat) < c,
    decreases c,
{
    lemma2_to64();
    if c <= 1 {
    } else {
        let c2 = ((c + 1) / 2) as nat;
        assert(2 <= c);
        assert(c2 < c);
        assert(2 * c2 >= c);
        lemma_height_for_min(c2);
        let h2 = height_for(c2);
        assert(height_for(c) == 1 + h2);
        lemma_pow2_unfold((1 + h2) as nat);
        assert(pow2(1 + h2) == 2 * pow2(h2));
        assert(c <= 2 * c2 <= 2 * pow2(h2));
        // minimality: pow2(h2) < c
        if h2 == 0 {
            assert(pow2(h2) == 1 < c);
        } else {
            lemma_pow2_unfold(h2);
            assert(pow2(h2) == 2 * pow2((h2 - 1) as nat));
            assert(pow2((h2 - 1) as nat) < c2);
            assert(pow2(h2) <= 2 * c2 - 2);
            assert(2 * c2 <= c + 1);
            assert(pow2(h2) < c);
        }
    }
}

/// Any height that reaches `c` and whose predecessor does not is
/// `height_for(c)`.
pub proof fn lemma_height_for_unique(c: nat, g: nat)
    requires
        1 <= c,
        c <= pow2(g),
        g > 0 ==> pow2((g - 1) as nat) < c,
    ensures
        g == height_for(c),
{
    let h = height_for(c);
    lemma_height_for_min(c);
    if g < h {
        if g < h - 1 {
            lemma_pow2_strictly_increases(g, (h - 1) as nat);
        }
        assert(pow2(g) <= pow2((h - 1) as nat));
        assert(false);
    }
    if g > h {
        if h < g - 1 {
            lemma_pow2_strictly_increases(h, (g - 1) as nat);
        }
        assert(pow2(h) <= pow2((g - 1) as nat));
        assert(false);
    }
}

/// Compute the tree shape for `count` leaf chunks: the height, and the
/// padded leaf count (the least power of two at or above `count`).
pub fn compute_tree_shape(count: usize) -> (r: (usize, usize))
    requires
        1 <= count,
        count <= MAX_LEAF_COUNT,
    ensures
        r.0 == height_for(count as nat),
        r.1 == num_padded_leaves(count as nat),
        count <= r.1,
        r.1 <= 2 * MAX_LEAF_COUNT,
{
    proof {
        lemma2_to64();
    }
    let mut l: usize = 1;
    let mut h: usize = 0;
    while l < count
        invariant
            1 <= count <= MAX_LEAF_COUNT,
            1 <= l,
            l == pow2(h as nat),
            h > 0 ==> pow2((h - 1) as nat) < count,
            l <= 2 * MAX_LEAF_COUNT,
            h <= 26,
        decreases 2 * count - l,
    {
        proof {
            lemma2_to64();
            if h >= 26 {
                assert(l >= 0x0400_0000);
                assert(false);
            }
            lemma_pow2_unfold((h + 1) as nat);
        }
        l = l * 2;
        h = h + 1;
    }
    proof {
        lemma_height_for_unique(count as nat, h as nat);
    }
    (h, l)
}

/// Copy one chunk byte for byte.
pub fn copy_bytes(src: &Vec<u8>) -> (r: Vec<u8>)
    ensures
        r@ == src@,
{
    let mut out: Vec<u8> = Vec::new();
    let mut i: usize = 0;
    while i < src.len()
        invariant
            i <= src@.len(),
            out@ == src@.subrange(0, i as int),
        decreases src@.len() - i,
    {
        out.push(src[i]);
        assert(src@.subrange(0, i + 1) =~= src@.subrange(0, i as int).push(src@[i as int]));
        i = i + 1;
    }
    assert(out@ =~= src@);
    out
}

fn zero_chunk_vec() -> (r: Vec<u8>)
    ensures
        r@ == zero_chunk(),
{
    let mut out: Vec<u8> = Vec::new();
    let mut i: usize = 0;
    while i < 32
        invariant
            i <= 32,
            out@ == zero_bytes(i as nat),
        decreases 32 - i,
    {
        out.push(0u8);
        assert(zero_bytes((i + 1) as nat) =~= zero_bytes(i as nat).push(0u8));
        i = i + 1;
    }
    assert(out@ =~= zero_chunk());
    out
}

/// Build the complete binary Merkle tree over the given leaf chunks: pad the
/// leaf count up to the next power of two with zero chunks, then hash every
/// concatenated child pair bottom-up until one root chunk remains.  Returns
/// the whole flattened tree in heap order.
pub fn merkleize(leaves: &Vec<Vec<u8>>) -> (r: Vec<Vec<u8>>)
    requires
        1 <= leaves@.len(),
        leaves@.len() <= MAX_LEAF_COUNT,
        forall|j: int| 0 <= j < leaves@.len() ==> (#[trigger] leaves@[j])@.len() == 32,
    ensures
        chunk_views(r@) == full_tree(chunk_views(leaves@)),
        r@.len() == 2 * num_padded_leaves(leaves@.len()) - 1,
        forall|i: int| 0 <= i < r@.len() ==> (#[trigger] r@[i])@.len() == 32,
{
    let count = leaves.len();
    let shape = compute_tree_shape(count);
    let nl = shape.1;
    let ghost lv = chunk_views(leaves@);
    let total = 2 * nl - 1;
    let mut out: Vec<Vec<u8>> = Vec::new();
    // placeholders for the internal chunks
    let mut i: usize = 0;
    while i < nl - 1
        invariant
            i <= nl - 1,
            out@.len() == i,
            forall|k: int| 0 <= k < i ==> (#[trigger] out@[k])@.len() == 32,
        decreases nl - 1 - i,
    {
        out.push(zero_chunk_vec());
        i = i + 1;
    }
    // the supplied leaves, then zero padding up to the power of two
    let mut j: usize = 0;
    while j < count
        invariant
            j <= count,
            count == leaves@.len(),
            lv == chunk_views(leaves@),
            lv.len() == count,
            forall|t: int| 0 <= t < leaves@.len() ==> (#[trigger] leaves@[t])@.len() == 32,
            out@.len() == nl - 1 + j,
            nl >= 1,
            forall|k: int| 0 <= k < out@.len() ==> (#[trigger] out@[k])@.len() == 32,
            forall|k: int|
                nl - 1 <= k < out@.len() ==> (#[trigger] out@[k])@ == padded_leaf(lv, k - (nl - 1)),
        decreases count - j,
    {
        let c = copy_bytes(&leaves[j]);
        out.push(c);
        j = j + 1;
    }
    while out.len() < total
        invariant
            count == leaves@.len(),
            lv == chunk_views(leaves@),
            lv.len() == count,
            nl - 1 + count <= out@.len() <= total,
            total == 2 * nl - 1,
            nl >= count,
            nl >= 1,
            forall|k: int| 0 <= k < out@.len() ==> (#[trigger] out@[k])@.len() == 32,
            forall|k: int|
                nl - 1 <= k < out@.len() ==> (#[trigger] out@[k])@ == padded_leaf(lv, k - (nl - 1)),
        decreases total - out@.len(),
    {
        out.push(zero_chunk_vec());
    }
    // bottom-up: hash every child pair into its parent
    let ghost pnl = nl as nat;
    let mut p: usize = nl - 1;
    while p > 0
        invariant
            p <= nl - 1,
            out@.len() == total,
            total == 2 * nl - 1,
            pnl == nl as nat,
            nl == num_padded_leaves(count as nat),
            count == leaves@.len(),
            lv == chunk_views(leaves@),
            lv.len() == count,
            1 <= count <= nl,
            forall|k: int| 0 <= k < out@.len() ==> (#[trigger] out@[k])@.len() == 32,
            forall|k: int| p <= k < total ==> (#[trigger] out@[k])@ == tree_node(lv, pnl, k),
        decreases p,
    {
        p = p - 1;
        let hv = hash_pair(&out[2 * p + 1], &out[2 * p + 2]);
        out[p] = hv;
        assert(out@[p as int]@ == tree_node(lv, pnl, p as int));
    }
    proof {
        if count == 1 {
            lemma2_to64();
        }
        assert(forall|k: int| 0 <= k < total ==> (#[trigger] out@[k])@ == tree_node(lv, pnl, k));
        assert(chunk_views(out@) =~= full_tree(chunk_views(leaves@)));
    }
    out
}

/// A leaf count the Merkleizer accepts fits under height 26.
pub proof fn lemma_height_for_bound(c: nat)
    requires
        c <= 0x0400_0000,
    ensures
        height_for(c) <= 26,
{
    lemma2_to64();
    lemma_height_for_min(c);
    let h = height_for(c);
    if h > 26 {
        if 26 < h - 1 {
            lemma_pow2_strictly_increases(26, (h - 1) as nat);
        }
        assert(pow2((h - 1) as nat) >= pow2(26));
        assert(false);
    }
}

/// Overwriting one chunk and flagging it dirty keeps the rehash pass's
/// reliance sound: a leaf write silences its parent's claim, and an
/// internal write must itself be the hash of its children.
pub proof fn lemma_flag_coherent_update(
    cv: Seq<Seq<u8>>,
    fl: Seq<bool>,
    nl: nat,
    t: int,
    x: Seq<u8>,
)
    requires
        flag_coherent(cv, fl, nl),
        fl.len() == cv.len(),
        cv.len() == 2 * nl - 1,
        0 <= t < cv.len(),
        t >= nl - 1 || x == hash_of(cv[2 * t + 1] + cv[2 * t + 2]),
    ensures
        flag_coherent(cv.update(t, x), fl.update(t, true), nl),
{
    let cv2 = cv.update(t, x);
    let fl2 = fl.update(t, true);
    assert forall|p: int|
        0 <= p < nl - 1 && !fl2[2 * p + 1] && !fl2[2 * p + 2] implies #[trigger] parent_hashes_children(
        cv2,
        p,
    ) by {
        assert(2 * p + 1 != t);
        assert(2 * p + 2 != t);
        assert(cv2[2 * p + 1] == cv[2 * p + 1]);
        assert(cv2[2 * p + 2] == cv[2 * p + 2]);
        if p == t {
            assert(cv2[p] == x);
        } else {
            assert(!fl[2 * p + 1] && !fl[2 * p + 2]);
            assert(parent_hashes_children(cv, p));
        }
    };
}

} // verus!
