//! The engine's global guarantees, stated over the cache's consistency
//! predicate and the tree model.

use crate::cache::TreeHashCache;
use crate::merkle::merkle_root;
use crate::pack::{packed_leaves, MAX_LIST_LEN};
use crate::value::{len_chunk, Value};
use vstd::bytes::{lemma_auto_spec_u64_to_from_le_bytes, spec_u64_to_le_bytes};
use vstd::prelude::*;

verus! {

/// Equivalence of paths: any two caches consistent with one value hold the
/// same committed root.  A cache carried through any chain of updates is
/// consistent with the last version, so its root equals the root of a cache
/// built fresh from that version.
pub proof fn lemma_paths_equivalent(c1: TreeHashCache, c2: TreeHashCache, v: Value)
    requires
        c1.wf_for(v),
        c2.wf_for(v),
    ensures
        c1.root@ == c2.root@,
{
}

/// Length sensitivity: two Lists with the same packed leaf chunks but
/// different lengths mix different length chunks into their committed
/// roots, so the digest preimages of the two roots differ — the roots
/// themselves then differ unless the digest collides on them.
pub proof fn lemma_length_mixed_inputs_differ(a: Seq<u64>, b: Seq<u64>)
    requires
        a.len() != b.len(),
        a.len() <= MAX_LIST_LEN,
        b.len() <= MAX_LIST_LEN,
        packed_leaves(a) == packed_leaves(b),
    ensures
        merkle_root(packed_leaves(a)) + len_chunk(a.len()) != merkle_root(packed_leaves(b))
            + len_chunk(b.len()),
{
    lemma_auto_spec_u64_to_from_le_bytes();
    let ra = merkle_root(packed_leaves(a));
    let la = len_chunk(a.len());
    let lb = len_chunk(b.len());
    assert(ra == merkle_root(packed_leaves(b)));
    if ra + la == ra + lb {
        assert forall|i: int| 0 <= i < 32 implies la[i] == lb[i] by {
            assert((ra + la)[ra.len() + i] == (ra + lb)[ra.len() + i]);
        };
        assert(la =~= lb);
        assert forall|i: int| 0 <= i < 8 implies #[trigger] spec_u64_to_le_bytes(
            a.len() as u64,
        )[i] == spec_u64_to_le_bytes(b.len() as u64)[i] by {
            assert(la[i] == lb[i]);
        };
        assert(spec_u64_to_le_bytes(a.len() as u64) =~= spec_u64_to_le_bytes(b.len() as u64));
        assert(vstd::bytes::spec_u64_from_le_bytes(spec_u64_to_le_bytes(a.len() as u64))
            == a.len() as u64);
        assert(a.len() as u64 == b.len() as u64);
        assert(false);
    }
}

} // verus!
