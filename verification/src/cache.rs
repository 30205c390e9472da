//! The chunk store: a flat, growable array of 32-byte hash chunks with a
//! parallel dirty bit per chunk, owned by one value's Tree-Hash Cache.
//!
//! A cache is created fresh from a value and then updated in place with
//! newer versions of the same logical value.  `wf_for` is its consistency
//! predicate: the chunks are exactly the value's built tree and the stored
//! root is the value's committed root.  Every constructor establishes it and
//! every update preserves it.

use crate::hashing::hash_pair;
use crate::merkle::merkleize;
use crate::pack::{chunk_views, get_field_leaves, get_packed_leaves, zero_vec};
use crate::value::{
    lemma_spec_leaf_count_bound, len_chunk, spec_chunks, spec_root, valid_value, Error, Value,
};
use vstd::bytes::u64_to_le_bytes;
use vstd::prelude::*;

verus! {

/// One value's tree, chunk by chunk, with a dirty bit per chunk and the
/// value's committed root.
pub struct TreeHashCache {
    pub chunks: Vec<Vec<u8>>,
    pub flags: Vec<bool>,
    pub root: Vec<u8>,
}

/// Compare two byte strings.
pub fn bytes_eq(a: &Vec<u8>, b: &Vec<u8>) -> (r: bool)
    ensures
        r <==> a@ == b@,
{
    if a.len() != b.len() {
        return false;
    }
    let mut i: usize = 0;
    while i < a.len()
        invariant
            i <= a@.len(),
            a@.len() == b@.len(),
            forall|k: int| 0 <= k < i ==> a@[k] == b@[k],
        decreases a@.len() - i,
    {
        if a[i] != b[i] {
            return false;
        }
        i = i + 1;
    }
    proof {
        assert(a@ =~= b@);
    }
    true
}

/// The 32-byte chunk that encodes a List's length for root mixing.
pub fn len_chunk_vec(n: usize) -> (r: Vec<u8>)
    ensures
        r@ == len_chunk(n as nat),
        r@.len() == 32,
{
    let mut b = u64_to_le_bytes(n as u64);
    let mut z = zero_vec(24);
    b.append(&mut z);
    proof {
        vstd::bytes::lemma_auto_spec_u64_to_from_le_bytes();
        assert(b@ =~= len_chunk(n as nat));
    }
    b
}

impl TreeHashCache {
    /// The byte view of every chunk in the store, in order.
    pub open spec fn views(self) -> Seq<Seq<u8>> {
        chunk_views(self.chunks@)
    }

    /// The two parallel arrays agree in length and every chunk is whole.
    pub open spec fn well_sized(self) -> bool {
        &&& self.flags@.len() == self.chunks@.len()
        &&& self.root@.len() == 32
        &&& forall|i: int| 0 <= i < self.chunks@.len() ==> (#[trigger] self.chunks@[i])@.len() == 32
    }

    /// The cache is fully consistent with `v`: its chunks are exactly the
    /// value's built tree and its root is the value's committed root.
    pub open spec fn wf_for(self, v: Value) -> bool {
        &&& self.well_sized()
        &&& self.views() == spec_chunks(v)
        &&& self.root@ == spec_root(v)
    }

    /// No chunk is flagged dirty.
    pub open spec fn clean(self) -> bool {
        forall|i: int| 0 <= i < self.flags@.len() ==> !(#[trigger] self.flags@[i])
    }

    /// The caller-visible changed query after an update that kept the
    /// tree's layout of `2 * nl - 1` chunks: every clean chunk holds
    /// exactly the bytes it held before the update, and a leaf chunk is
    /// flagged dirty precisely when this update rewrote its bytes.
    pub open spec fn flags_mark_changes(self, pre: TreeHashCache, nl: nat) -> bool {
        &&& forall|i: int|
            0 <= i < self.flags@.len() && !(#[trigger] self.flags@[i]) ==> self.views()[i]
                == pre.views()[i]
        &&& forall|t: int|
            nl - 1 <= t < 2 * nl - 1 ==> (#[trigger] self.flags@[t]) == (self.views()[t]
                != pre.views()[t])
    }

    /// Build a fresh cache for a value with no prior version: pack, build
    /// the whole tree, mix in the length for a List, and leave every chunk
    /// clean.
    pub fn new(v: &Value) -> (r: Result<TreeHashCache, Error>)
        requires
            valid_value(*v),
        ensures
            r is Ok,
            r matches Ok(c) ==> c.wf_for(*v) && c.clean(),
    {
        let leaves = match v {
            Value::U64(x) => {
                let mut t: Vec<u64> = Vec::new();
                t.push(*x);
                assert(t@ =~= seq![*x]);
                get_packed_leaves(&t)
            },
            Value::Composite(f) => get_field_leaves(f),
            Value::List(l) => get_packed_leaves(l),
        };
        proof {
            lemma_spec_leaf_count_bound(*v);
            assert(chunk_views(leaves@) == crate::value::leaf_chunks_of(*v));
        }
        let tree = merkleize(&leaves);
        let total = tree.len();
        let mut flags: Vec<bool> = Vec::new();
        let mut i: usize = 0;
        while i < total
            invariant
                i <= total,
                flags@.len() == i,
                forall|k: int| 0 <= k < i ==> !(#[trigger] flags@[k]),
            decreases total - i,
        {
            flags.push(false);
            i = i + 1;
        }
        proof {
            vstd::arithmetic::power2::lemma_pow2_pos(
                crate::merkle::height_for(crate::value::spec_leaf_count(*v)),
            );
            let lc = crate::value::leaf_chunks_of(*v);
            assert(chunk_views(tree@)[0] == tree@[0]@);
            assert(crate::merkle::full_tree(lc)[0] == crate::merkle::merkle_root(lc));
        }
        let root = match v {
            Value::List(l) => {
                let lc = len_chunk_vec(l.len());
                hash_pair(&tree[0], &lc)
            },
            _ => crate::merkle::copy_bytes(&tree[0]),
        };
        Ok(TreeHashCache { chunks: tree, flags, root })
    }

    /// Replace the chunk range `[start, end)` of the store with the given
    /// chunks and their flags: the bounded-range overwrite by which a
    /// subtree of one size is swapped for a subtree of another.  Together
    /// with the leaf overwrite this is the only way the store is mutated.
    pub fn splice(&mut self, start: usize, end: usize, chunks: Vec<Vec<u8>>, flags: Vec<bool>)
        requires
            start <= end,
            end <= old(self).chunks@.len(),
            old(self).flags@.len() == old(self).chunks@.len(),
            flags@.len() == chunks@.len(),
            forall|i: int| 0 <= i < chunks@.len() ==> (#[trigger] chunks@[i])@.len() == 32,
        ensures
            final(self).views() == old(self).views().subrange(0, start as int) + chunk_views(
                chunks@,
            ) + old(self).views().subrange(end as int, old(self).views().len() as int),
            final(self).flags@ == old(self).flags@.subrange(0, start as int) + flags@ + old(
                self,
            ).flags@.subrange(end as int, old(self).flags@.len() as int),
            final(self).chunks@.len() == old(self).chunks@.len() - (end - start) + chunks@.len(),
            final(self).flags@.len() == final(self).chunks@.len(),
            final(self).root == old(self).root,
            (forall|i: int|
                0 <= i < old(self).chunks@.len() ==> (#[trigger] old(self).chunks@[i])@.len()
                    == 32) ==> (forall|i: int|
                0 <= i < final(self).chunks@.len() ==> (#[trigger] final(self).chunks@[i])@.len()
                    == 32),
    {
        let mut nc: Vec<Vec<u8>> = Vec::new();
        let mut nf: Vec<bool> = Vec::new();
        let mut i: usize = 0;
        while i < start
            invariant
                i <= start,
                start <= end <= self.chunks@.len(),
                self.flags@.len() == self.chunks@.len(),
                self.chunks@ == old(self).chunks@,
                self.flags@ == old(self).flags@,
                self.root == old(self).root,
                nc@.len() == i,
                nf@.len() == i,
                chunk_views(nc@) == self.views().subrange(0, i as int),
                nf@ == self.flags@.subrange(0, i as int),
            decreases start - i,
        {
            let c = crate::merkle::copy_bytes(&self.chunks[i]);
            nc.push(c);
            nf.push(self.flags[i]);
            proof {
                assert(chunk_views(nc@) =~= self.views().subrange(0, i + 1));
                assert(nf@ =~= self.flags@.subrange(0, i + 1));
            }
            i = i + 1;
        }
        proof {
            assert(chunk_views(nc@) =~= self.views().subrange(0, start as int) + chunk_views(
                chunks@,
            ).subrange(0, 0));
            assert(nf@ =~= self.flags@.subrange(0, start as int) + flags@.subrange(0, 0));
        }
        let mut j: usize = 0;
        while j < chunks.len()
            invariant
                j <= chunks@.len(),
                start <= end <= self.chunks@.len(),
                self.flags@.len() == self.chunks@.len(),
                self.chunks@ == old(self).chunks@,
                self.flags@ == old(self).flags@,
                self.root == old(self).root,
                flags@.len() == chunks@.len(),
                nc@.len() == start + j,
                nf@.len() == nc@.len(),
                chunk_views(nc@) == self.views().subrange(0, start as int) + chunk_views(
                    chunks@,
                ).subrange(0, j as int),
                nf@ == self.flags@.subrange(0, start as int) + flags@.subrange(0, j as int),
            decreases chunks@.len() - j,
        {
            let ghost prev = nc@;
            let c = crate::merkle::copy_bytes(&chunks[j]);
            nc.push(c);
            nf.push(flags[j]);
            proof {
                assert(forall|t: int|
                    0 <= t < prev.len() ==> #[trigger] chunk_views(nc@)[t] == chunk_views(
                        prev,
                    )[t]);
                assert(chunk_views(nc@)[start + j] == chunks@[j as int]@);
                assert(chunk_views(nc@) =~= self.views().subrange(0, start as int) + chunk_views(
                    chunks@,
                ).subrange(0, j + 1));
                assert(nf@ =~= self.flags@.subrange(0, start as int) + flags@.subrange(
                    0,
                    j + 1,
                ));
            }
            j = j + 1;
        }
        proof {
            assert(chunk_views(chunks@).subrange(0, chunks@.len() as int) =~= chunk_views(
                chunks@,
            ));
            assert(flags@.subrange(0, flags@.len() as int) =~= flags@);
            assert(chunk_views(nc@) =~= self.views().subrange(0, start as int) + chunk_views(
                chunks@,
            ) + self.views().subrange(end as int, end as int));
            assert(nf@ =~= self.flags@.subrange(0, start as int) + flags@ + self.flags@.subrange(
                end as int,
                end as int,
            ));
        }
        let mut k: usize = end;
        while k < self.chunks.len()
            invariant
                end <= k <= self.chunks@.len(),
                start <= end,
                self.flags@.len() == self.chunks@.len(),
                self.chunks@ == old(self).chunks@,
                self.flags@ == old(self).flags@,
                self.root == old(self).root,
                flags@.len() == chunks@.len(),
                nc@.len() == start + chunks@.len() + (k - end),
                nf@.len() == nc@.len(),
                chunk_views(nc@) == self.views().subrange(0, start as int) + chunk_views(chunks@)
                    + self.views().subrange(end as int, k as int),
                nf@ == self.flags@.subrange(0, start as int) + flags@ + self.flags@.subrange(
                    end as int,
                    k as int,
                ),
            decreases self.chunks@.len() - k,
        {
            let ghost prev = nc@;
            let c = crate::merkle::copy_bytes(&self.chunks[k]);
            nc.push(c);
            nf.push(self.flags[k]);
            proof {
                assert(forall|t: int|
                    0 <= t < prev.len() ==> #[trigger] chunk_views(nc@)[t] == chunk_views(
                        prev,
                    )[t]);
                assert(chunk_views(nc@)[prev.len() as int] == self.chunks@[k as int]@);
                assert(self.chunks@[k as int]@ == self.views()[k as int]);
                assert(chunk_views(nc@) =~= self.views().subrange(0, start as int) + chunk_views(
                    chunks@,
                ) + self.views().subrange(end as int, k + 1));
                assert(nf@ =~= self.flags@.subrange(0, start as int) + flags@
                    + self.flags@.subrange(end as int, k + 1));
            }
            k = k + 1;
        }
        self.chunks = nc;
        self.flags = nf;
        proof {
            if forall|t: int|
                0 <= t < old(self).chunks@.len() ==> (#[trigger] old(self).chunks@[t])@.len()
                    == 32 {
                assert forall|t: int|
                    0 <= t < self.chunks@.len() implies (#[trigger] self.chunks@[t])@.len()
                    == 32 by {
                    assert(self.chunks@[t]@ == self.views()[t]);
                    if t < start {
                        assert(self.views()[t] == old(self).views()[t]);
                        assert(old(self).views()[t] == old(self).chunks@[t]@);
                    } else if t < start + chunks@.len() {
                        assert(self.views()[t] == chunks@[t - start]@);
                    } else {
                        assert(self.views()[t] == old(self).views()[t - start - chunks@.len()
                            + end]);
                        assert(old(self).views()[t - start - chunks@.len() + end] == old(
                            self,
                        ).chunks@[t - start - chunks@.len() + end]@);
                    }
                };
            }
        }
    }

    /// Overwrite one chunk and flag it dirty.
    pub fn modify_chunk(&mut self, chunk: usize, new_chunk: &Vec<u8>)
        requires
            chunk < old(self).chunks@.len(),
            old(self).flags@.len() == old(self).chunks@.len(),
            new_chunk@.len() == 32,
        ensures
            final(self).chunks@.len() == old(self).chunks@.len(),
            final(self).flags@.len() == old(self).flags@.len(),
            final(self).views() == old(self).views().update(chunk as int, new_chunk@),
            final(self).flags@ == old(self).flags@.update(chunk as int, true),
            final(self).root == old(self).root,
            (forall|i: int|
                0 <= i < old(self).chunks@.len() ==> (#[trigger] old(self).chunks@[i])@.len()
                    == 32) ==> (forall|i: int|
                0 <= i < final(self).chunks@.len() ==> (#[trigger] final(self).chunks@[i])@.len()
                    == 32),
    {
        let c = crate::merkle::copy_bytes(new_chunk);
        self.chunks[chunk] = c;
        self.flags[chunk] = true;
        proof {
            assert(self.views() =~= old(self).views().update(chunk as int, new_chunk@));
            assert(self.flags@ =~= old(self).flags@.update(chunk as int, true));
        }
    }

    /// Overwrite one chunk only if the supplied bytes differ from what is
    /// cached — the one point of leaf-level change detection for packed
    /// scalars.  An equal chunk is left untouched and stays clean.
    pub fn maybe_update_chunk(&mut self, chunk: usize, new_chunk: &Vec<u8>)
        requires
            chunk < old(self).chunks@.len(),
            old(self).flags@.len() == old(self).chunks@.len(),
            new_chunk@.len() == 32,
        ensures
            final(self).chunks@.len() == old(self).chunks@.len(),
            final(self).flags@.len() == old(self).flags@.len(),
            final(self).views() == old(self).views().update(chunk as int, new_chunk@),
            final(self).root == old(self).root,
            old(self).views()[chunk as int] == new_chunk@ ==> final(self).views() == old(
                self,
            ).views() && final(self).flags@ == old(self).flags@,
            old(self).views()[chunk as int] != new_chunk@ ==> final(self).flags@ == old(
                self,
            ).flags@.update(chunk as int, true),
            (forall|i: int|
                0 <= i < old(self).chunks@.len() ==> (#[trigger] old(self).chunks@[i])@.len()
                    == 32) ==> (forall|i: int|
                0 <= i < final(self).chunks@.len() ==> (#[trigger] final(self).chunks@[i])@.len()
                    == 32),
    {
        let equal = bytes_eq(&self.chunks[chunk], new_chunk);
        if equal {
            proof {
                assert(old(self).views().update(chunk as int, new_chunk@) =~= old(self).views());
            }
        } else {
            self.modify_chunk(chunk, new_chunk);
        }
    }

    /// Whether the chunk at the given index is flagged as changed.
    pub fn changed(&self, chunk: usize) -> (r: Result<bool, Error>)
        ensures
            match r {
                Ok(b) => chunk < self.flags@.len() && b == self.flags@[chunk as int],
                Err(e) => chunk >= self.flags@.len() && e == Error::NoChunkForIndex,
            },
    {
        if chunk < self.flags.len() {
            Ok(self.flags[chunk])
        } else {
            Err(Error::NoChunkForIndex)
        }
    }

    /// Whether either of two child chunks is flagged as changed.
    pub fn either_modified(&self, left: usize, right: usize) -> (r: bool)
        requires
            left < self.flags@.len(),
            right < self.flags@.len(),
        ensures
            r == (self.flags@[left as int] || self.flags@[right as int]),
    {
        self.flags[left] || self.flags[right]
    }

    /// The digest of two sibling chunks' concatenation.
    pub fn hash_children(&self, left: usize, right: usize) -> (r: Vec<u8>)
        requires
            left < self.chunks@.len(),
            right < self.chunks@.len(),
            self.well_sized(),
        ensures
            r@ == crate::hashing::hash_of(self.views()[left as int] + self.views()[right as int]),
            r@.len() == 32,
    {
        hash_pair(&self.chunks[left], &self.chunks[right])
    }

    /// The committed root a List gets: the digest of the given chunk and the
    /// encoded length.
    pub fn mix_in_length(&self, chunk: usize, length: usize) -> (r: Vec<u8>)
        requires
            chunk < self.chunks@.len(),
            self.well_sized(),
        ensures
            r@ == crate::hashing::hash_of(self.views()[chunk as int] + len_chunk(length as nat)),
            r@.len() == 32,
    {
        let lc = len_chunk_vec(length);
        hash_pair(&self.chunks[chunk], &lc)
    }

    /// Clear every dirty flag, as each update cycle does before it begins.
    pub fn reset_modifications(&mut self)
        ensures
            final(self).chunks@ == old(self).chunks@,
            final(self).root == old(self).root,
            final(self).flags@.len() == old(self).flags@.len(),
            final(self).clean(),
    {
        let total = self.flags.len();
        let mut i: usize = 0;
        while i < total
            invariant
                i <= total,
                self.flags@.len() == total,
                self.chunks@ == old(self).chunks@,
                self.root == old(self).root,
                forall|k: int| 0 <= k < i ==> !(#[trigger] self.flags@[k]),
            decreases total - i,
        {
            self.flags[i] = false;
            i = i + 1;
        }
    }

    /// Read the current committed root without mutating the cache.
    pub fn tree_hash_root(&self) -> (r: Vec<u8>)
        ensures
            r@ == self.root@,
    {
        crate::merkle::copy_bytes(&self.root)
    }
}

} // verus!
