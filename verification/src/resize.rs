//! The resizer: reinterpret an existing tree's chunk and flag arrays under a
//! different height when a list's leaf count crosses a power-of-two
//! boundary.
//!
//! Growing carries the old tree into the leftmost subtree of the new one —
//! every old level lands, left-aligned, `to - from` levels deeper — and
//! flags every newly introduced chunk dirty.  Shrinking keeps the leftmost
//! subtree of the old tree.  Neither re-hashes anything: the bottom-up pass
//! afterwards recomputes whatever was flagged.  Either operation fails with
//! a layout-mismatch error if the supplied arrays disagree with the claimed
//! heights.

use crate::merkle::{
    coherent, flag_coherent, heap_slot, lemma_heap_index_decompose, lemma_heap_index_unique,
    parent_hashes_children, pow2_usize,
};
use crate::pack::{chunk_views, zero_vec};
use crate::value::Error;
use vstd::arithmetic::power2::{
    lemma2_to64, lemma_pow2_strictly_increases, lemma_pow2_unfold, pow2,
};
use vstd::prelude::*;

verus! {

/// The node at position `q` of level `l` of the shallower tree `a` sits,
/// with its flag, at position `q` of level `l + d` of the deeper tree `b`.
pub open spec fn copied_pair(
    a_cv: Seq<Seq<u8>>,
    a_fl: Seq<bool>,
    b_cv: Seq<Seq<u8>>,
    b_fl: Seq<bool>,
    d: int,
    l: int,
    q: int,
) -> bool {
    &&& b_cv[pow2((l + d) as nat) - 1 + q] == a_cv[pow2(l as nat) - 1 + q]
    &&& b_fl[pow2((l + d) as nat) - 1 + q] == a_fl[pow2(l as nat) - 1 + q]
}

/// Chunk `m` of the grown tree is one the old tree was carried to: it sits
/// `d` levels below an old level.
pub open spec fn copy_target(d: int, lmax: int, m: int) -> bool {
    exists|l: int, q: int| 0 <= l <= lmax && 0 <= q < pow2(l as nat) && #[trigger] heap_slot(
        l + d,
        q,
        m,
    )
}

/// Carrying a coherent tree down `d` levels keeps every kept parent over
/// its own kept children, so any chunk of the grown tree whose children are
/// both clean still hashes its children.
proof fn lemma_grow_coherence(
    old_cv: Seq<Seq<u8>>,
    old_fl: Seq<bool>,
    nc: Seq<Seq<u8>>,
    nf: Seq<bool>,
    fh: nat,
    th: nat,
)
    requires
        fh < th,
        old_cv.len() == 2 * pow2(fh) - 1,
        old_fl.len() == old_cv.len(),
        nc.len() == 2 * pow2(th) - 1,
        nf.len() == nc.len(),
        coherent(old_cv, pow2(fh)),
        forall|l: int, q: int|
            0 <= l <= fh && 0 <= q < pow2(l as nat) ==> #[trigger] copied_pair(
                old_cv,
                old_fl,
                nc,
                nf,
                th - fh,
                l,
                q,
            ),
        forall|m: int|
            0 <= m < nf.len() && !nf[m] ==> #[trigger] copy_target(th - fh, fh as int, m),
    ensures
        flag_coherent(nc, nf, pow2(th)),
{
    let d = th - fh;
    lemma2_to64();
    assert forall|p: int|
        0 <= p < pow2(th) - 1 && !nf[2 * p + 1] && !nf[2 * p + 2] implies #[trigger] parent_hashes_children(
        nc,
        p,
    ) by {
        let m1 = 2 * p + 1;
        let m2 = 2 * p + 2;
        assert(copy_target(d, fh as int, m1));
        assert(copy_target(d, fh as int, m2));
        let (l1, q1): (int, int) = choose|l: int, q: int|
            0 <= l <= fh && 0 <= q < pow2(l as nat) && #[trigger] heap_slot(l + d, q, m1);
        let (l2, q2): (int, int) = choose|l: int, q: int|
            0 <= l <= fh && 0 <= q < pow2(l as nat) && #[trigger] heap_slot(l + d, q, m2);
        // the two children sit side by side on one level
        lemma_pow2_strictly_increases(l1 as nat, (l1 + d) as nat);
        lemma_pow2_strictly_increases(l2 as nat, (l2 + d) as nat);
        lemma_heap_index_unique((l2 + d) as nat, q2, (l1 + d) as nat, q1 + 1);
        assert(l2 == l1 && q2 == q1 + 1);
        assert(q1 + 1 < pow2(l1 as nat));
        if l1 == 0 {
            assert(false);
        }
        // their shared parent is carried too
        lemma_pow2_unfold((l1 + d) as nat);
        lemma_pow2_unfold(l1 as nat);
        let qp = p + 1 - pow2(((l1 - 1) + d) as nat);
        assert(2 * qp == q1);
        assert(0 <= qp < pow2((l1 - 1) as nat));
        assert(copied_pair(old_cv, old_fl, nc, nf, d, l1 - 1, qp));
        assert(copied_pair(old_cv, old_fl, nc, nf, d, l1, q1));
        assert(copied_pair(old_cv, old_fl, nc, nf, d, l1, q2));
        // in the old tree that parent hashed those very children
        let bigp = pow2((l1 - 1) as nat) - 1 + qp;
        if (l1 as nat) < fh {
            lemma_pow2_strictly_increases(l1 as nat, fh);
        }
        assert(0 <= bigp < pow2(fh) - 1);
        assert(parent_hashes_children(old_cv, bigp));
        assert(2 * bigp + 1 == pow2(l1 as nat) - 1 + q1);
        assert(2 * bigp + 2 == pow2(l1 as nat) - 1 + q2);
        assert(nc[p] == old_cv[bigp]);
        assert(nc[m1] == old_cv[2 * bigp + 1]);
        assert(nc[m2] == old_cv[2 * bigp + 2]);
    };
}

/// Reinterpret a tree's chunks and flags under a greater height.  The old
/// tree, its leaves included, is carried left-aligned into the deeper
/// levels, keeping every still-existing leaf at its leaf position; every
/// newly introduced chunk comes back flagged dirty.  Fails with a
/// layout-mismatch error if the arrays disagree with the heights.
pub fn grow_merkle_cache(
    old_chunks: &Vec<Vec<u8>>,
    old_flags: &Vec<bool>,
    from_height: usize,
    to_height: usize,
) -> (r: Result<(Vec<Vec<u8>>, Vec<bool>), Error>)
    requires
        to_height <= 27,
        forall|i: int| 0 <= i < old_chunks@.len() ==> (#[trigger] old_chunks@[i])@.len() == 32,
    ensures
        match r {
            Ok(res) => {
                &&& from_height < to_height
                &&& old_chunks@.len() == 2 * pow2(from_height as nat) - 1
                &&& old_flags@.len() == old_chunks@.len()
                &&& res.0@.len() == 2 * pow2(to_height as nat) - 1
                &&& res.1@.len() == res.0@.len()
                &&& forall|i: int|
                    0 <= i < res.0@.len() ==> (#[trigger] res.0@[i])@.len() == 32
                &&& forall|l: int, q: int|
                    0 <= l <= from_height && 0 <= q < pow2(l as nat) ==> #[trigger] copied_pair(
                        chunk_views(old_chunks@),
                        old_flags@,
                        chunk_views(res.0@),
                        res.1@,
                        to_height - from_height,
                        l,
                        q,
                    )
                &&& forall|m: int|
                    0 <= m < res.1@.len() && !res.1@[m] ==> #[trigger] copy_target(
                        to_height - from_height,
                        from_height as int,
                        m,
                    )
                &&& (coherent(chunk_views(old_chunks@), pow2(from_height as nat))
                    ==> flag_coherent(
                    chunk_views(res.0@),
                    res.1@,
                    pow2(to_height as nat),
                ))
            },
            Err(e) => {
                &&& e == Error::UnableToGrowMerkleTree
                &&& !(from_height < to_height && old_chunks@.len() == 2 * pow2(
                    from_height as nat,
                ) - 1 && old_flags@.len() == old_chunks@.len())
            },
        },
{
    if !(from_height < to_height) {
        return Err(Error::UnableToGrowMerkleTree);
    }
    let from_nl = pow2_usize(from_height);
    if !(old_chunks.len() == 2 * from_nl - 1 && old_flags.len() == old_chunks.len()) {
        return Err(Error::UnableToGrowMerkleTree);
    }
    let d = to_height - from_height;
    proof {
        lemma2_to64();
    }
    let ghost old_cv = chunk_views(old_chunks@);
    let mut nc: Vec<Vec<u8>> = Vec::new();
    let mut nf: Vec<bool> = Vec::new();
    let mut lam: usize = 0;
    while lam <= to_height
        invariant
            lam <= to_height + 1,
            d == to_height - from_height,
            from_height < to_height <= 27,
            old_cv == chunk_views(old_chunks@),
            old_chunks@.len() == 2 * pow2(from_height as nat) - 1,
            old_flags@.len() == old_chunks@.len(),
            forall|i: int| 0 <= i < old_chunks@.len() ==> (#[trigger] old_chunks@[i])@.len() == 32,
            nc@.len() == pow2(lam as nat) - 1,
            nf@.len() == nc@.len(),
            forall|i: int| 0 <= i < nc@.len() ==> (#[trigger] nc@[i])@.len() == 32,
            forall|l: int, q: int|
                0 <= l && l + d < lam && 0 <= q < pow2(l as nat) ==> #[trigger] copied_pair(
                    old_cv,
                    old_flags@,
                    chunk_views(nc@),
                    nf@,
                    d as int,
                    l,
                    q,
                ),
            forall|m: int|
                0 <= m < nf@.len() && !nf@[m] ==> #[trigger] copy_target(
                    d as int,
                    from_height as int,
                    m,
                ),
        decreases to_height + 1 - lam,
    {
        let lvl = pow2_usize(lam);
        let copy_cnt: usize = if lam >= d {
            pow2_usize(lam - d)
        } else {
            0
        };
        let old_start: usize = if lam >= d {
            pow2_usize(lam - d) - 1
        } else {
            0
        };
        proof {
            if lam >= d && (lam - d) < from_height {
                lemma_pow2_strictly_increases((lam - d) as nat, from_height as nat);
            }
        }
        let mut q: usize = 0;
        while q < lvl
            invariant
                q <= lvl,
                lvl == pow2(lam as nat),
                lam <= to_height,
                d == to_height - from_height,
                from_height < to_height <= 27,
                old_cv == chunk_views(old_chunks@),
                old_chunks@.len() == 2 * pow2(from_height as nat) - 1,
                old_flags@.len() == old_chunks@.len(),
                forall|i: int|
                    0 <= i < old_chunks@.len() ==> (#[trigger] old_chunks@[i])@.len() == 32,
                lam >= d ==> copy_cnt == pow2((lam - d) as nat),
                lam < d ==> copy_cnt == 0,
                lam >= d ==> old_start == pow2((lam - d) as nat) - 1,
                lam >= d ==> copy_cnt <= pow2(from_height as nat),
                nc@.len() == pow2(lam as nat) - 1 + q,
                nf@.len() == nc@.len(),
                forall|i: int| 0 <= i < nc@.len() ==> (#[trigger] nc@[i])@.len() == 32,
                forall|l: int, q2: int|
                    0 <= l && l + d < lam && 0 <= q2 < pow2(l as nat) ==> #[trigger] copied_pair(
                        old_cv,
                        old_flags@,
                        chunk_views(nc@),
                        nf@,
                        d as int,
                        l,
                        q2,
                    ),
                lam >= d ==> forall|q2: int|
                    0 <= q2 < q && q2 < copy_cnt ==> #[trigger] copied_pair(
                        old_cv,
                        old_flags@,
                        chunk_views(nc@),
                        nf@,
                        d as int,
                        (lam - d) as int,
                        q2,
                    ),
                forall|m: int|
                    0 <= m < nf@.len() && !nf@[m] ==> #[trigger] copy_target(
                        d as int,
                        from_height as int,
                        m,
                    ),
            decreases lvl - q,
        {
            let ghost pre_nc = nc@;
            let ghost pre_nf = nf@;
            if q < copy_cnt && lam >= d {
                proof {
                    lemma2_to64();
                    if ((lam - d) as nat) < 26 {
                        lemma_pow2_strictly_increases((lam - d) as nat, 26);
                    }
                    assert(copy_cnt <= 0x0400_0000);
                    assert(old_start + q < old_chunks@.len());
                }
                let c = crate::merkle::copy_bytes(&old_chunks[old_start + q]);
                nc.push(c);
                nf.push(old_flags[old_start + q]);
                proof {
                    assert(heap_slot((lam - d) as int + d as int, q as int, pow2(lam as nat) - 1
                        + q));
                    assert(copied_pair(
                        old_cv,
                        old_flags@,
                        chunk_views(nc@),
                        nf@,
                        d as int,
                        (lam - d) as int,
                        q as int,
                    ));
                }
            } else {
                let z = zero_vec(32);
                nc.push(z);
                nf.push(true);
            }
            proof {
                assert forall|l: int, q2: int|
                    0 <= l && l + d < lam && 0 <= q2 < pow2(l as nat) implies #[trigger] copied_pair(
                    old_cv,
                    old_flags@,
                    chunk_views(nc@),
                    nf@,
                    d as int,
                    l,
                    q2,
                ) by {
                    assert(copied_pair(old_cv, old_flags@, chunk_views(pre_nc), pre_nf, d as int, l, q2));
                    lemma_pow2_strictly_increases(l as nat, (l + d) as nat);
                    lemma_pow2_unfold(((l + d) + 1) as nat);
                    if (l + d) + 1 < lam {
                        lemma_pow2_strictly_increases(((l + d) + 1) as nat, lam as nat);
                    }
                    assert(pow2((l + d) as nat) - 1 + q2 < pow2(lam as nat) - 1);
                };
                if lam >= d {
                    assert forall|q2: int|
                        0 <= q2 < q + 1 && q2 < copy_cnt implies #[trigger] copied_pair(
                        old_cv,
                        old_flags@,
                        chunk_views(nc@),
                        nf@,
                        d as int,
                        (lam - d) as int,
                        q2,
                    ) by {
                        if q2 < q {
                            assert(copied_pair(
                                old_cv,
                                old_flags@,
                                chunk_views(pre_nc),
                                pre_nf,
                                d as int,
                                (lam - d) as int,
                                q2,
                            ));
                        }
                    };
                }
            }
            q = q + 1;
        }
        proof {
            assert forall|l: int, q2: int|
                0 <= l && l + d < lam + 1 && 0 <= q2 < pow2(l as nat) implies #[trigger] copied_pair(
                old_cv,
                old_flags@,
                chunk_views(nc@),
                nf@,
                d as int,
                l,
                q2,
            ) by {
                if l + d >= lam {
                    assert(lam >= d);
                    assert(l == lam - d);
                    assert(q2 < copy_cnt);
                    if ((lam - d) as nat) < (lam as nat) {
                        lemma_pow2_strictly_increases((lam - d) as nat, lam as nat);
                    }
                    assert(q2 < q);
                    assert(copied_pair(
                        old_cv,
                        old_flags@,
                        chunk_views(nc@),
                        nf@,
                        d as int,
                        (lam - d) as int,
                        q2,
                    ));
                }
            };
            lemma_pow2_unfold((lam + 1) as nat);
        }
        lam = lam + 1;
    }
    proof {
        lemma_pow2_unfold((to_height + 1) as nat);
        assert(nc@.len() == 2 * pow2(to_height as nat) - 1);
        assert forall|l: int, q: int|
            0 <= l <= from_height && 0 <= q < pow2(l as nat) implies #[trigger] copied_pair(
            old_cv,
            old_flags@,
            chunk_views(nc@),
            nf@,
            (to_height - from_height) as int,
            l,
            q,
        ) by {
            assert(l + d < to_height + 1);
        };
        if coherent(old_cv, pow2(from_height as nat)) {
            lemma_grow_coherence(
                old_cv,
                old_flags@,
                chunk_views(nc@),
                nf@,
                from_height as nat,
                to_height as nat,
            );
        }
    }
    Ok((nc, nf))
}

/// Keeping the leftmost subtree of a coherent tree keeps every kept parent
/// over its own kept children.
proof fn lemma_shrink_coherence(
    old_cv: Seq<Seq<u8>>,
    old_fl: Seq<bool>,
    nc: Seq<Seq<u8>>,
    nf: Seq<bool>,
    fh: nat,
    th: nat,
)
    requires
        th < fh,
        old_cv.len() == 2 * pow2(fh) - 1,
        old_fl.len() == old_cv.len(),
        nc.len() == 2 * pow2(th) - 1,
        nf.len() == nc.len(),
        coherent(old_cv, pow2(fh)),
        forall|l: int, q: int|
            0 <= l <= th && 0 <= q < pow2(l as nat) ==> #[trigger] copied_pair(
                nc,
                nf,
                old_cv,
                old_fl,
                fh - th,
                l,
                q,
            ),
    ensures
        coherent(nc, pow2(th)),
{
    let d = fh - th;
    lemma2_to64();
    assert forall|p: int| 0 <= p < pow2(th) - 1 implies #[trigger] parent_hashes_children(
        nc,
        p,
    ) by {
        lemma_heap_index_decompose(th, p);
        let (l, q): (int, int) = choose|l: int, q: int|
            0 <= l <= th && 0 <= q < pow2(l as nat) && #[trigger] heap_slot(l, q, p);
        if l == th {
            assert(p >= pow2(th) - 1);
            assert(false);
        }
        lemma_pow2_unfold((l + 1) as nat);
        lemma_pow2_unfold(((l + d) + 1) as nat);
        lemma_pow2_strictly_increases(l as nat, (l + d) as nat);
        assert(copied_pair(nc, nf, old_cv, old_fl, d, l, q));
        assert(copied_pair(nc, nf, old_cv, old_fl, d, l + 1, 2 * q));
        assert(copied_pair(nc, nf, old_cv, old_fl, d, l + 1, 2 * q + 1));
        let bigp = pow2((l + d) as nat) - 1 + q;
        if ((l + d + 1) as nat) < fh {
            lemma_pow2_strictly_increases((l + d + 1) as nat, fh);
        }
        assert(0 <= bigp < pow2(fh) - 1);
        assert(parent_hashes_children(old_cv, bigp));
        assert(2 * bigp + 1 == pow2((l + 1 + d) as nat) - 1 + 2 * q);
        assert(2 * bigp + 2 == pow2((l + 1 + d) as nat) - 1 + 2 * q + 1);
        assert(2 * p + 1 == pow2((l + 1) as nat) - 1 + 2 * q);
        assert(nc[p] == old_cv[bigp]);
        assert(nc[2 * p + 1] == old_cv[2 * bigp + 1]);
        assert(nc[2 * p + 2] == old_cv[2 * bigp + 2]);
    };
}

/// Reinterpret a tree's chunks and flags under a smaller height: keep the
/// leftmost subtree — every kept level left-aligned, `from - to` levels
/// shallower — and drop the truncated chunks.  `new_total_chunks` must be
/// the chunk count of the smaller tree.  Fails with a layout-mismatch error
/// if the arrays disagree with the heights.
pub fn shrink_merkle_cache(
    old_chunks: &Vec<Vec<u8>>,
    old_flags: &Vec<bool>,
    from_height: usize,
    to_height: usize,
    new_total_chunks: usize,
) -> (r: Result<(Vec<Vec<u8>>, Vec<bool>), Error>)
    requires
        from_height <= 27,
        forall|i: int| 0 <= i < old_chunks@.len() ==> (#[trigger] old_chunks@[i])@.len() == 32,
    ensures
        match r {
            Ok(res) => {
                &&& to_height < from_height
                &&& old_chunks@.len() == 2 * pow2(from_height as nat) - 1
                &&& old_flags@.len() == old_chunks@.len()
                &&& new_total_chunks == 2 * pow2(to_height as nat) - 1
                &&& res.0@.len() == new_total_chunks
                &&& res.1@.len() == res.0@.len()
                &&& forall|i: int|
                    0 <= i < res.0@.len() ==> (#[trigger] res.0@[i])@.len() == 32
                &&& forall|l: int, q: int|
                    0 <= l <= to_height && 0 <= q < pow2(l as nat) ==> #[trigger] copied_pair(
                        chunk_views(res.0@),
                        res.1@,
                        chunk_views(old_chunks@),
                        old_flags@,
                        from_height - to_height,
                        l,
                        q,
                    )
                &&& (coherent(chunk_views(old_chunks@), pow2(from_height as nat)) ==> coherent(
                    chunk_views(res.0@),
                    pow2(to_height as nat),
                ))
            },
            Err(e) => {
                &&& e == Error::UnableToShrinkMerkleTree
                &&& !(to_height < from_height && old_chunks@.len() == 2 * pow2(
                    from_height as nat,
                ) - 1 && old_flags@.len() == old_chunks@.len() && new_total_chunks == 2 * pow2(
                    to_height as nat,
                ) - 1)
            },
        },
{
    if !(to_height < from_height) {
        return Err(Error::UnableToShrinkMerkleTree);
    }
    let from_nl = pow2_usize(from_height);
    let to_nl = pow2_usize(to_height);
    if !(old_chunks.len() == 2 * from_nl - 1 && old_flags.len() == old_chunks.len()
        && new_total_chunks == 2 * to_nl - 1) {
        return Err(Error::UnableToShrinkMerkleTree);
    }
    let d = from_height - to_height;
    proof {
        lemma2_to64();
    }
    let ghost old_cv = chunk_views(old_chunks@);
    let mut nc: Vec<Vec<u8>> = Vec::new();
    let mut nf: Vec<bool> = Vec::new();
    let mut lam: usize = 0;
    while lam <= to_height
        invariant
            lam <= to_height + 1,
            d == from_height - to_height,
            to_height < from_height <= 27,
            old_cv == chunk_views(old_chunks@),
            old_chunks@.len() == 2 * pow2(from_height as nat) - 1,
            old_flags@.len() == old_chunks@.len(),
            forall|i: int| 0 <= i < old_chunks@.len() ==> (#[trigger] old_chunks@[i])@.len() == 32,
            nc@.len() == pow2(lam as nat) - 1,
            nf@.len() == nc@.len(),
            forall|i: int| 0 <= i < nc@.len() ==> (#[trigger] nc@[i])@.len() == 32,
            forall|l: int, q: int|
                0 <= l < lam && 0 <= q < pow2(l as nat) ==> #[trigger] copied_pair(
                    chunk_views(nc@),
                    nf@,
                    old_cv,
                    old_flags@,
                    d as int,
                    l,
                    q,
                ),
        decreases to_height + 1 - lam,
    {
        let lvl = pow2_usize(lam);
        let old_start = pow2_usize(lam + d) - 1;
        let mut q: usize = 0;
        while q < lvl
            invariant
                q <= lvl,
                lvl == pow2(lam as nat),
                lam <= to_height,
                d == from_height - to_height,
                to_height < from_height <= 27,
                old_cv == chunk_views(old_chunks@),
                old_chunks@.len() == 2 * pow2(from_height as nat) - 1,
                old_flags@.len() == old_chunks@.len(),
                forall|i: int|
                    0 <= i < old_chunks@.len() ==> (#[trigger] old_chunks@[i])@.len() == 32,
                old_start == pow2((lam + d) as nat) - 1,
                nc@.len() == pow2(lam as nat) - 1 + q,
                nf@.len() == nc@.len(),
                forall|i: int| 0 <= i < nc@.len() ==> (#[trigger] nc@[i])@.len() == 32,
                forall|l: int, q2: int|
                    0 <= l < lam && 0 <= q2 < pow2(l as nat) ==> #[trigger] copied_pair(
                        chunk_views(nc@),
                        nf@,
                        old_cv,
                        old_flags@,
                        d as int,
                        l,
                        q2,
                    ),
                forall|q2: int|
                    0 <= q2 < q ==> #[trigger] copied_pair(
                        chunk_views(nc@),
                        nf@,
                        old_cv,
                        old_flags@,
                        d as int,
                        lam as int,
                        q2,
                    ),
            decreases lvl - q,
        {
            let ghost pre_nc = nc@;
            let ghost pre_nf = nf@;
            proof {
                lemma2_to64();
                lemma_pow2_strictly_increases(lam as nat, (lam + d) as nat);
                if ((lam + d) as nat) < from_height {
                    lemma_pow2_strictly_increases((lam + d) as nat, from_height as nat);
                }
                if ((lam + d) as nat) < 27 {
                    lemma_pow2_strictly_increases((lam + d) as nat, 27);
                }
                assert(old_start + q < old_chunks@.len());
                assert(old_start + q < 0x1000_0000);
            }
            let c = crate::merkle::copy_bytes(&old_chunks[old_start + q]);
            nc.push(c);
            nf.push(old_flags[old_start + q]);
            proof {
                assert(copied_pair(
                    chunk_views(nc@),
                    nf@,
                    old_cv,
                    old_flags@,
                    d as int,
                    lam as int,
                    q as int,
                ));
                assert forall|l: int, q2: int|
                    0 <= l < lam && 0 <= q2 < pow2(l as nat) implies #[trigger] copied_pair(
                    chunk_views(nc@),
                    nf@,
                    old_cv,
                    old_flags@,
                    d as int,
                    l,
                    q2,
                ) by {
                    assert(copied_pair(chunk_views(pre_nc), pre_nf, old_cv, old_flags@, d as int, l, q2));
                    lemma_pow2_unfold((l + 1) as nat);
                    if l + 1 < lam {
                        lemma_pow2_strictly_increases((l + 1) as nat, lam as nat);
                    }
                    assert(pow2(l as nat) - 1 + q2 < pow2(lam as nat) - 1);
                };
                assert forall|q2: int| 0 <= q2 < q + 1 implies #[trigger] copied_pair(
                    chunk_views(nc@),
                    nf@,
                    old_cv,
                    old_flags@,
                    d as int,
                    lam as int,
                    q2,
                ) by {
                    if q2 < q {
                        assert(copied_pair(
                            chunk_views(pre_nc),
                            pre_nf,
                            old_cv,
                            old_flags@,
                            d as int,
                            lam as int,
                            q2,
                        ));
                    }
                };
            }
            q = q + 1;
        }
        proof {
            lemma_pow2_unfold((lam + 1) as nat);
        }
        lam = lam + 1;
    }
    proof {
        lemma_pow2_unfold((to_height + 1) as nat);
        assert(nc@.len() == 2 * pow2(to_height as nat) - 1);
        if coherent(old_cv, pow2(from_height as nat)) {
            lemma_shrink_coherence(
                old_cv,
                old_flags@,
                chunk_views(nc@),
                nf@,
                from_height as nat,
                to_height as nat,
            );
        }
    }
    Ok((nc, nf))
}

} // verus!
