//! The incremental hasher: given an old value, a new value and the cache
//! built for the old one, resize the tree if the layouts diverge, overwrite
//! only the leaf chunks whose packed bytes changed, recompute dirty internal
//! chunks bottom-up, and mix in the length where the value is a List.
//!
//! Updating a cache with the very value it already holds is a guaranteed
//! no-op: no chunk reads as different, nothing is flagged dirty and the
//! committed root is untouched.

use crate::btree_overlay::BTreeOverlay;
use crate::cache::TreeHashCache;
use crate::hashing::hash_of;
use crate::merkle::{
    coherent, flag_coherent, full_tree, height_for, lemma_flag_coherent_update,
    lemma_full_tree_coherent, lemma_height_for_bound, lemma_height_for_min,
    lemma_num_leaf_chunks_bound, merkle_root, num_padded_leaves, tree_node,
};
use crate::pack::{
    chunk_views, composite_leaves, get_field_leaves, get_packed_leaves, num_leaf_chunks,
    packed_leaves, zero_vec, MAX_LIST_LEN,
};
use crate::resize::{grow_merkle_cache, shrink_merkle_cache};
use crate::value::{
    elems_of, lemma_spec_leaf_count_bound, len_chunk, same_layout, same_shape, spec_chunks,
    spec_leaf_count, spec_root, valid_value, Error, Value,
};
use vstd::bytes::{lemma_auto_spec_u64_to_from_le_bytes, spec_u64_to_le_bytes};
use vstd::arithmetic::power2::{lemma2_to64, lemma_pow2_pos, lemma_pow2_strictly_increases, pow2};
use vstd::prelude::*;

verus! {

impl Value {
    /// Update `cache`, consistent with `other`, so that it is consistent
    /// with `self`, rehashing only what changed; returns the chunk index one
    /// past this value's tree.  `chunk` is the base of this value's tree,
    /// which is the whole store the cache owns.  Supplying the value the
    /// cache already holds flags nothing dirty and changes nothing.
    pub fn cached_hash_tree_root(
        &self,
        other: &Value,
        cache: &mut TreeHashCache,
        chunk: usize,
    ) -> (r: Result<usize, Error>)
        requires
            valid_value(*self),
            valid_value(*other),
            same_shape(*self, *other),
            old(cache).wf_for(*other),
            chunk == 0,
        ensures
            r is Ok,
            final(cache).wf_for(*self),
            r matches Ok(n) ==> n == spec_chunks(*self).len(),
            elems_of(*self) == elems_of(*other) ==> final(cache).clean() && final(cache).root@
                == old(cache).root@ && final(cache).views() == old(cache).views(),
            same_layout(*self, *other) ==> final(cache).flags_mark_changes(
                *old(cache),
                num_padded_leaves(spec_leaf_count(*self)),
            ),
            (*self) is U64 && elems_of(*self) != elems_of(*other) ==> final(cache).flags@[0]
                == true,
    {
        match (self, other) {
            (Value::U64(x), Value::U64(y)) => {
                proof {
                    lemma2_to64();
                    assert(spec_leaf_count(*self) == num_leaf_chunks(1));
                    assert(num_leaf_chunks(1) == 1);
                    assert(height_for(1) == 0);
                    assert(num_padded_leaves(spec_leaf_count(*self)) == 1);
                    if elems_of(*self) == elems_of(*other) {
                        assert(elems_of(*self)[0] == elems_of(*other)[0]);
                    }
                    if elems_of(*self) != elems_of(*other) && *x == *y {
                        assert(elems_of(*self) =~= elems_of(*other));
                    }
                }
                let next = update_basic(*x, *y, cache, chunk);
                Ok(next)
            },
            (Value::Composite(f_new), Value::Composite(f_old)) => {
                let next = update_composite(self, other, f_new, f_old, cache, chunk)?;
                Ok(next)
            },
            (Value::List(l_new), Value::List(l_old)) => {
                let next = update_list(self, other, l_new, l_old, cache, chunk)?;
                Ok(next)
            },
            _ => {
                proof {
                    assert(false);
                }
                Err(Error::ShouldNotProduceBTreeOverlay)
            },
        }
    }
}

/// The update pass for a Basic scalar: its tree is one packed chunk, which
/// is rebuilt only if the value changed.
fn update_basic(value: u64, other: u64, cache: &mut TreeHashCache, chunk: usize) -> (r: usize)
    requires
        old(cache).wf_for(Value::U64(other)),
        chunk == 0,
    ensures
        final(cache).wf_for(Value::U64(value)),
        r == spec_chunks(Value::U64(value)).len(),
        value == other ==> final(cache).clean() && final(cache).root@ == old(cache).root@
            && final(cache).views() == old(cache).views(),
        value != other ==> final(cache).flags@[0] == true,
        final(cache).flags_mark_changes(*old(cache), 1),
{
    proof {
        lemma2_to64();
        assert(num_leaf_chunks(1) == 1);
        assert(height_for(1) == 0);
        assert(spec_chunks(Value::U64(other)).len() == 1);
        assert(old(cache).views()[0] == tree_node(packed_leaves(seq![other]), 1, 0));
        assert(old(cache).views()[0] == crate::pack::packed_leaf(seq![other], 0));
    }
    cache.reset_modifications();
    if value != other {
        let mut t: Vec<u64> = Vec::new();
        t.push(value);
        assert(t@ =~= elems_of(Value::U64(value)));
        let leaves = get_packed_leaves(&t);
        cache.modify_chunk(chunk, &leaves[0]);
        let rootv = crate::merkle::copy_bytes(&cache.chunks[0]);
        cache.root = rootv;
        proof {
            let elems = elems_of(Value::U64(value));
            assert(cache.views() =~= full_tree(packed_leaves(elems)));
            assert(cache.views()[0] == tree_node(packed_leaves(elems), 1, 0));
            assert(cache.root@ == merkle_root(packed_leaves(elems)));
            // distinct scalars pack to distinct chunks, so the rewritten
            // chunk reads as changed
            lemma_auto_spec_u64_to_from_le_bytes();
            crate::pack::lemma_slot_bytes_len(seq![value], 0);
            crate::pack::lemma_slot_bytes_len(seq![value], 1);
            crate::pack::lemma_slot_bytes_len(seq![value], 2);
            crate::pack::lemma_slot_bytes_len(seq![other], 0);
            crate::pack::lemma_slot_bytes_len(seq![other], 1);
            crate::pack::lemma_slot_bytes_len(seq![other], 2);
            let ca = crate::pack::packed_leaf(seq![value], 0);
            let cb = crate::pack::packed_leaf(seq![other], 0);
            if ca == cb {
                assert forall|i: int| 0 <= i < 8 implies #[trigger] spec_u64_to_le_bytes(
                    value,
                )[i] == spec_u64_to_le_bytes(other)[i] by {
                    assert(ca[i] == spec_u64_to_le_bytes(value)[i]);
                    assert(cb[i] == spec_u64_to_le_bytes(other)[i]);
                };
                assert(spec_u64_to_le_bytes(value) =~= spec_u64_to_le_bytes(other));
                assert(vstd::bytes::spec_u64_from_le_bytes(spec_u64_to_le_bytes(value))
                    == value);
                assert(false);
            }
            assert(cache.views()[0] != old(cache).views()[0]);
        }
    } else {
        proof {
            assert(elems_of(Value::U64(value)) =~= elems_of(Value::U64(other)));
            assert(cache.views() == old(cache).views());
        }
    }
    1
}

/// The update pass for a List of Basic scalars: resize across a leaf-count
/// boundary if needed, overwrite changed leaf chunks, rehash dirty parents
/// bottom-up, and mix the new length into the committed root if the root
/// chunk changed or the length did.
#[verifier::rlimit(30)]
fn update_list(
    new_v: &Value,
    old_v: &Value,
    l_new: &Vec<u64>,
    l_old: &Vec<u64>,
    cache: &mut TreeHashCache,
    chunk: usize,
) -> (r: Result<usize, Error>)
    requires
        *new_v == Value::List(*l_new),
        *old_v == Value::List(*l_old),
        valid_value(*new_v),
        valid_value(*old_v),
        old(cache).wf_for(*old_v),
        chunk == 0,
    ensures
        r is Ok,
        final(cache).wf_for(*new_v),
        r matches Ok(n) ==> n == spec_chunks(*new_v).len(),
        l_new@ == l_old@ ==> final(cache).clean() && final(cache).root@ == old(cache).root@
            && final(cache).views() == old(cache).views(),
        same_layout(*new_v, *old_v) ==> final(cache).flags_mark_changes(
            *old(cache),
            num_padded_leaves(spec_leaf_count(*new_v)),
        ),
{
    let ghost new_elems = l_new@;
    let ghost old_elems = l_old@;
    let ghost lv = packed_leaves(new_elems);
    proof {
        lemma_num_leaf_chunks_bound(new_elems.len());
        lemma_num_leaf_chunks_bound(old_elems.len());
        lemma_height_for_bound(num_leaf_chunks(new_elems.len()));
        lemma_height_for_bound(num_leaf_chunks(old_elems.len()));
        lemma_height_for_min(num_leaf_chunks(new_elems.len()));
        lemma_height_for_min(num_leaf_chunks(old_elems.len()));
        lemma_pow2_pos(height_for(num_leaf_chunks(new_elems.len())));
        lemma_pow2_pos(height_for(num_leaf_chunks(old_elems.len())));
    }
    let offset_handler = match BTreeOverlay::new(new_v, chunk) {
        Ok(o) => o,
        Err(e) => {
            proof {
                assert(false);
            }
            return Err(e);
        },
    };
    let old_offset_handler = match BTreeOverlay::new(old_v, chunk) {
        Ok(o) => o,
        Err(e) => {
            proof {
                assert(false);
            }
            return Err(e);
        },
    };
    let nl = offset_handler.num_leaf_nodes;
    let total = offset_handler.total_chunks();
    let ghost pnl = nl as nat;
    cache.reset_modifications();
    let ghost reset_cache = *cache;
    proof {
        lemma_full_tree_coherent(packed_leaves(old_elems));
        lemma_full_tree_coherent(packed_leaves(new_elems));
        assert(elems_of(*old_v) == old_elems);
        assert(elems_of(*new_v) == new_elems);
        assert(cache.views().len() == cache.chunks@.len());
        assert(packed_leaves(old_elems).len() == num_leaf_chunks(old_elems.len()));
        assert(spec_chunks(*old_v) == full_tree(packed_leaves(old_elems)));
        assert(spec_chunks(*old_v).len() == 2 * num_padded_leaves(num_leaf_chunks(
            old_elems.len(),
        )) - 1);
        assert(old_offset_handler.num_leaf_nodes == pow2(old_offset_handler.height as nat));
        assert(nl == pow2(offset_handler.height as nat));
        assert(cache.chunks@.len() == 2 * pow2(old_offset_handler.height as nat) - 1);
        assert(cache.views() == spec_chunks(*old_v));
        assert(coherent(cache.views(), pow2(old_offset_handler.height as nat)));
    }

    // Step 1: resize when the leaf counts diverge across a power-of-two
    // boundary.
    if offset_handler.num_leaf_nodes != old_offset_handler.num_leaf_nodes {
        proof {
            if offset_handler.height >= old_offset_handler.height {
                if offset_handler.height == old_offset_handler.height {
                    assert(false);
                }
            } else {
                lemma_pow2_strictly_increases(
                    offset_handler.height as nat,
                    old_offset_handler.height as nat,
                );
            }
        }
        if offset_handler.num_leaf_nodes > old_offset_handler.num_leaf_nodes {
            proof {
                if offset_handler.height <= old_offset_handler.height {
                    if offset_handler.height < old_offset_handler.height {
                        lemma_pow2_strictly_increases(
                            offset_handler.height as nat,
                            old_offset_handler.height as nat,
                        );
                    }
                    assert(false);
                }
            }
            let resized = grow_merkle_cache(
                &cache.chunks,
                &cache.flags,
                old_offset_handler.height(),
                offset_handler.height(),
            );
            match resized {
                Ok(pair) => {
                    let ghost pc = pair.0@;
                    let ghost pf = pair.1@;
                    let whole = cache.chunks.len();
                    cache.splice(0, whole, pair.0, pair.1);
                    proof {
                        assert(cache.views() =~= chunk_views(pc));
                        assert(cache.flags@ =~= pf);
                    }
                },
                Err(e) => {
                    proof {
                        assert(false);
                    }
                    return Err(e);
                },
            }
        } else {
            proof {
                if offset_handler.height >= old_offset_handler.height {
                    if old_offset_handler.height < offset_handler.height {
                        lemma_pow2_strictly_increases(
                            old_offset_handler.height as nat,
                            offset_handler.height as nat,
                        );
                    }
                    assert(false);
                }
            }
            let resized = shrink_merkle_cache(
                &cache.chunks,
                &cache.flags,
                old_offset_handler.height(),
                offset_handler.height(),
                total,
            );
            match resized {
                Ok(pair) => {
                    let ghost pc = pair.0@;
                    let ghost pf = pair.1@;
                    let whole = cache.chunks.len();
                    cache.splice(0, whole, pair.0, pair.1);
                    proof {
                        assert(cache.views() =~= chunk_views(pc));
                        assert(cache.flags@ =~= pf);
                    }
                },
                Err(e) => {
                    proof {
                        assert(false);
                    }
                    return Err(e);
                },
            }
        }
    }
    let ghost g0 = *cache;
    proof {
        assert(g0.chunks@.len() == 2 * pnl - 1);
        assert(flag_coherent(g0.views(), g0.flags@, pnl));
        if pnl == num_padded_leaves(spec_leaf_count(*old_v)) {
            assert(nl == old_offset_handler.num_leaf_nodes);
            assert(g0.views() == reset_cache.views());
            assert(g0.flags@ == reset_cache.flags@);
        }
    }

    // Step 2: repack the elements and overwrite only the leaf chunks whose
    // bytes differ from what is cached.
    let leaves = get_packed_leaves(l_new);
    let first_leaf_chunk = offset_handler.first_leaf_node();
    let count = leaves.len();
    let mut j: usize = 0;
    while j < nl
        invariant
            j <= nl,
            *new_v == Value::List(*l_new),
            *old_v == Value::List(*l_old),
            new_elems == l_new@,
            old_elems == l_old@,
            new_elems.len() <= MAX_LIST_LEN,
            old_elems.len() <= MAX_LIST_LEN,
            nl <= 0x0800_0000,
            nl == pnl,
            pnl == num_padded_leaves(num_leaf_chunks(new_elems.len())),
            count == leaves@.len(),
            count == num_leaf_chunks(new_elems.len()),
            count <= nl,
            first_leaf_chunk == nl - 1,
            chunk_views(leaves@) == lv,
            lv == packed_leaves(new_elems),
            forall|t: int| 0 <= t < leaves@.len() ==> (#[trigger] leaves@[t])@.len() == 32,
            cache.chunks@.len() == 2 * pnl - 1,
            cache.flags@.len() == cache.chunks@.len(),
            cache.root == g0.root,
            cache.root@.len() == 32,
            forall|i: int|
                0 <= i < cache.chunks@.len() ==> (#[trigger] cache.chunks@[i])@.len() == 32,
            flag_coherent(cache.views(), cache.flags@, pnl),
            forall|i: int|
                0 <= i < cache.flags@.len() && !(#[trigger] cache.flags@[i]) ==> cache.views()[i]
                    == g0.views()[i] && !g0.flags@[i],
            forall|t: int|
                nl - 1 <= t < nl - 1 + j ==> (#[trigger] cache.views()[t]) == crate::merkle::padded_leaf(
                    lv,
                    t - (nl - 1),
                ),
            reset_cache.views() == spec_chunks(*old_v),
            reset_cache.clean(),
            cache.root == reset_cache.root,
            pnl == num_padded_leaves(spec_leaf_count(*old_v)) ==> g0.views()
                == reset_cache.views() && g0.flags@ == reset_cache.flags@,
            pnl == num_padded_leaves(spec_leaf_count(*old_v)) ==> forall|t: int|
                nl - 1 + j <= t < 2 * pnl - 1 ==> !(#[trigger] cache.flags@[t]),
            pnl == num_padded_leaves(spec_leaf_count(*old_v)) ==> forall|t: int|
                nl - 1 <= t < nl - 1 + j ==> (#[trigger] cache.flags@[t]) == (cache.views()[t]
                    != g0.views()[t]),
            new_elems == old_elems ==> forall|i: int|
                0 <= i < cache.flags@.len() ==> !(#[trigger] cache.flags@[i]),
        decreases nl - j,
    {
        let ghost pre = *cache;
        let target = first_leaf_chunk + j;
        proof {
            if new_elems == old_elems {
                assert(!cache.flags@[target as int]);
                assert(cache.views()[target as int] == g0.views()[target as int]);
                assert(g0.views()[target as int] == spec_chunks(*old_v)[target as int]);
                assert(spec_chunks(*old_v)[target as int] == tree_node(
                    packed_leaves(old_elems),
                    pnl,
                    target as int,
                ));
                assert(tree_node(packed_leaves(old_elems), pnl, target as int)
                    == crate::merkle::padded_leaf(lv, j as int));
            }
        }
        if j < count {
            cache.maybe_update_chunk(target, &leaves[j]);
            proof {
                assert(cache.views()[target as int] == lv[j as int]);
            }
        } else {
            let z = zero_vec(32);
            cache.maybe_update_chunk(target, &z);
            proof {
                assert(cache.views()[target as int] == crate::merkle::padded_leaf(lv, j as int));
            }
        }
        proof {
            if pre.views()[target as int] == cache.views()[target as int] && pre.flags@
                == cache.flags@ {
            } else {
                lemma_flag_coherent_update(
                    pre.views(),
                    pre.flags@,
                    pnl,
                    target as int,
                    cache.views()[target as int],
                );
                assert(cache.views() =~= pre.views().update(
                    target as int,
                    cache.views()[target as int],
                ));
                assert(cache.flags@ =~= pre.flags@.update(target as int, true));
            }
            if pnl == num_padded_leaves(spec_leaf_count(*old_v)) {
                assert(!pre.flags@[target as int]);
                assert(pre.views()[target as int] == g0.views()[target as int]);
                assert forall|t: int|
                    nl - 1 <= t < nl - 1 + j + 1 implies (#[trigger] cache.flags@[t]) == (
                cache.views()[t] != g0.views()[t]) by {
                    if t < target {
                        assert(cache.flags@[t] == pre.flags@[t]);
                        assert(cache.views()[t] == pre.views()[t]);
                    }
                };
            }
        }
        j = j + 1;
    }

    proof {
        assert forall|t: int| nl - 1 <= t < 2 * pnl - 1 implies (#[trigger] cache.views()[t])
            == tree_node(lv, pnl, t) by {
            assert(cache.views()[t] == crate::merkle::padded_leaf(lv, t - (nl - 1)));
        };
    }

    // Step 3: bottom-up rehash — recompute exactly the parents with a dirty
    // child, deepest level first.
    let num_internal = offset_handler.num_internal_nodes();
    let mut p: usize = num_internal;
    while p > 0
        invariant
            p <= num_internal,
            *new_v == Value::List(*l_new),
            *old_v == Value::List(*l_old),
            new_elems == l_new@,
            old_elems == l_old@,
            new_elems.len() <= MAX_LIST_LEN,
            old_elems.len() <= MAX_LIST_LEN,
            nl <= 0x0800_0000,
            num_internal == nl - 1,
            nl == pnl,
            pnl == num_padded_leaves(num_leaf_chunks(new_elems.len())),
            lv == packed_leaves(new_elems),
            cache.chunks@.len() == 2 * pnl - 1,
            cache.flags@.len() == cache.chunks@.len(),
            cache.root == g0.root,
            cache.root@.len() == 32,
            forall|i: int|
                0 <= i < cache.chunks@.len() ==> (#[trigger] cache.chunks@[i])@.len() == 32,
            flag_coherent(cache.views(), cache.flags@, pnl),
            forall|i: int|
                0 <= i < cache.flags@.len() && !(#[trigger] cache.flags@[i]) ==> cache.views()[i]
                    == g0.views()[i] && !g0.flags@[i],
            forall|t: int|
                nl - 1 <= t < 2 * pnl - 1 ==> (#[trigger] cache.views()[t]) == tree_node(
                    lv,
                    pnl,
                    t,
                ),
            forall|t: int|
                p <= t < nl - 1 ==> (#[trigger] cache.views()[t]) == tree_node(lv, pnl, t),
            reset_cache.views() == spec_chunks(*old_v),
            reset_cache.clean(),
            cache.root == reset_cache.root,
            pnl == num_padded_leaves(spec_leaf_count(*old_v)) ==> g0.views()
                == reset_cache.views() && g0.flags@ == reset_cache.flags@,
            pnl == num_padded_leaves(spec_leaf_count(*old_v)) ==> forall|t: int|
                nl - 1 <= t < 2 * pnl - 1 ==> (#[trigger] cache.flags@[t]) == (cache.views()[t]
                    != g0.views()[t]),
            new_elems == old_elems ==> forall|i: int|
                0 <= i < cache.flags@.len() ==> !(#[trigger] cache.flags@[i]),
        decreases p,
    {
        p = p - 1;
        let left = 2 * p + 1;
        let right = 2 * p + 2;
        let ghost pre = *cache;
        if cache.either_modified(left, right) {
            let hashed = cache.hash_children(left, right);
            cache.modify_chunk(p, &hashed);
            proof {
                assert(cache.views()[p as int] == hash_of(
                    tree_node(lv, pnl, left as int) + tree_node(lv, pnl, right as int),
                ));
                assert(cache.views()[p as int] == tree_node(lv, pnl, p as int));
                lemma_flag_coherent_update(
                    pre.views(),
                    pre.flags@,
                    pnl,
                    p as int,
                    cache.views()[p as int],
                );
                assert(cache.views() =~= pre.views().update(
                    p as int,
                    cache.views()[p as int],
                ));
                assert(cache.flags@ =~= pre.flags@.update(p as int, true));
            }
        } else {
            proof {
                assert(crate::merkle::parent_hashes_children(cache.views(), p as int));
                assert(cache.views()[p as int] == tree_node(lv, pnl, p as int));
            }
        }
    }

    // Step 4: mix in the length if the root chunk or the length changed.
    let root_node = offset_handler.root();
    let root_changed = match cache.changed(root_node) {
        Ok(b) => b,
        Err(e) => {
            proof {
                assert(false);
            }
            return Err(e);
        },
    };
    proof {
        assert(cache.views()[0] == tree_node(lv, pnl, 0));
        assert(tree_node(lv, pnl, 0) == merkle_root(lv));
    }
    if root_changed || l_new.len() != l_old.len() {
        let mixed = cache.mix_in_length(root_node, l_new.len());
        cache.root = mixed;
    } else {
        proof {
            assert(new_elems.len() == old_elems.len());
            assert(spec_leaf_count(*new_v) == spec_leaf_count(*old_v));
            assert(pnl == num_padded_leaves(spec_leaf_count(*old_v)));
            assert(!cache.flags@[0]);
            assert(cache.views()[0] == g0.views()[0]);
            assert(g0.views()[0] == reset_cache.views()[0]);
            assert(reset_cache.views()[0] == spec_chunks(*old_v)[0]);
            assert(spec_chunks(*old_v)[0] == tree_node(
                packed_leaves(old_elems),
                num_padded_leaves(num_leaf_chunks(old_elems.len())),
                0,
            ));
            assert(spec_chunks(*old_v)[0] == merkle_root(packed_leaves(old_elems)));
            assert(cache.root@ == reset_cache.root@);
            assert(reset_cache.root@ == spec_root(*old_v));
            assert(spec_root(*old_v) == hash_of(
                merkle_root(packed_leaves(old_elems)) + len_chunk(old_elems.len()),
            ));
            assert(merkle_root(packed_leaves(old_elems)) == cache.views()[0]);
            assert(cache.views()[0] == merkle_root(lv));
            assert(cache.root@ == hash_of(merkle_root(lv) + len_chunk(new_elems.len())));
        }
    }
    proof {
        assert(cache.views() =~= spec_chunks(*new_v));
        if new_elems == old_elems {
            assert(spec_root(*new_v) == spec_root(*old_v));
        }
    }
    Ok(offset_handler.next_node())
}

/// The update pass for a Composite value: its field count is fixed, so its
/// layout never changes — overwrite the leaf chunks of changed fields,
/// rehash dirty parents bottom-up, and refresh the root chunk; no length is
/// mixed in.
#[verifier::rlimit(30)]
fn update_composite(
    new_v: &Value,
    old_v: &Value,
    f_new: &Vec<u64>,
    f_old: &Vec<u64>,
    cache: &mut TreeHashCache,
    chunk: usize,
) -> (r: Result<usize, Error>)
    requires
        *new_v == Value::Composite(*f_new),
        *old_v == Value::Composite(*f_old),
        f_new@.len() == f_old@.len(),
        valid_value(*new_v),
        valid_value(*old_v),
        old(cache).wf_for(*old_v),
        chunk == 0,
    ensures
        r is Ok,
        final(cache).wf_for(*new_v),
        r matches Ok(n) ==> n == spec_chunks(*new_v).len(),
        f_new@ == f_old@ ==> final(cache).clean() && final(cache).root@ == old(cache).root@
            && final(cache).views() == old(cache).views(),
        final(cache).flags_mark_changes(
            *old(cache),
            num_padded_leaves(spec_leaf_count(*new_v)),
        ),
{
    let ghost new_fields = f_new@;
    let ghost old_fields = f_old@;
    let ghost lv = composite_leaves(new_fields);
    proof {
        lemma_spec_leaf_count_bound(*new_v);
        lemma_height_for_min(spec_leaf_count(*new_v));
        lemma_pow2_pos(height_for(spec_leaf_count(*new_v)));
    }
    let offset_handler = match BTreeOverlay::new(new_v, chunk) {
        Ok(o) => o,
        Err(e) => {
            proof {
                assert(false);
            }
            return Err(e);
        },
    };
    let nl = offset_handler.num_leaf_nodes;
    let ghost pnl = nl as nat;
    cache.reset_modifications();
    let ghost g0 = *cache;
    proof {
        lemma_full_tree_coherent(composite_leaves(old_fields));
        assert(elems_of(*old_v) == old_fields);
        assert(cache.views().len() == cache.chunks@.len());
        assert(spec_chunks(*old_v) == full_tree(composite_leaves(old_fields)));
        assert(spec_leaf_count(*old_v) == spec_leaf_count(*new_v));
        assert(g0.chunks@.len() == 2 * pnl - 1);
        assert(coherent(g0.views(), pnl));
        assert(flag_coherent(g0.views(), g0.flags@, pnl));
    }

    // Overwrite only the leaf chunks whose field bytes differ from what is
    // cached.
    let leaves = get_field_leaves(f_new);
    let first_leaf_chunk = offset_handler.first_leaf_node();
    let count = leaves.len();
    let mut j: usize = 0;
    while j < nl
        invariant
            j <= nl,
            *new_v == Value::Composite(*f_new),
            *old_v == Value::Composite(*f_old),
            new_fields == f_new@,
            old_fields == f_old@,
            new_fields.len() == old_fields.len(),
            nl <= 0x0800_0000,
            nl == pnl,
            pnl == num_padded_leaves(spec_leaf_count(*new_v)),
            count == leaves@.len(),
            count == spec_leaf_count(*new_v),
            count <= nl,
            first_leaf_chunk == nl - 1,
            chunk_views(leaves@) == lv,
            lv == composite_leaves(new_fields),
            forall|t: int| 0 <= t < leaves@.len() ==> (#[trigger] leaves@[t])@.len() == 32,
            cache.chunks@.len() == 2 * pnl - 1,
            cache.flags@.len() == cache.chunks@.len(),
            cache.root == g0.root,
            cache.root@.len() == 32,
            forall|i: int|
                0 <= i < cache.chunks@.len() ==> (#[trigger] cache.chunks@[i])@.len() == 32,
            flag_coherent(cache.views(), cache.flags@, pnl),
            forall|i: int|
                0 <= i < cache.flags@.len() && !(#[trigger] cache.flags@[i]) ==> cache.views()[i]
                    == g0.views()[i] && !g0.flags@[i],
            forall|t: int|
                nl - 1 <= t < nl - 1 + j ==> (#[trigger] cache.views()[t]) == crate::merkle::padded_leaf(
                    lv,
                    t - (nl - 1),
                ),
            g0.views() == spec_chunks(*old_v),
            g0.clean(),
            g0.root@ == spec_root(*old_v),
            forall|t: int| nl - 1 + j <= t < 2 * pnl - 1 ==> !(#[trigger] cache.flags@[t]),
            forall|t: int|
                nl - 1 <= t < nl - 1 + j ==> (#[trigger] cache.flags@[t]) == (cache.views()[t]
                    != g0.views()[t]),
            new_fields == old_fields ==> forall|i: int|
                0 <= i < cache.flags@.len() ==> !(#[trigger] cache.flags@[i]),
        decreases nl - j,
    {
        let ghost pre = *cache;
        let target = first_leaf_chunk + j;
        proof {
            if new_fields == old_fields {
                assert(!cache.flags@[target as int]);
                assert(cache.views()[target as int] == g0.views()[target as int]);
                assert(g0.views()[target as int] == spec_chunks(*old_v)[target as int]);
                assert(spec_chunks(*old_v)[target as int] == tree_node(
                    composite_leaves(old_fields),
                    pnl,
                    target as int,
                ));
                assert(tree_node(composite_leaves(old_fields), pnl, target as int)
                    == crate::merkle::padded_leaf(lv, j as int));
            }
        }
        if j < count {
            cache.maybe_update_chunk(target, &leaves[j]);
            proof {
                assert(cache.views()[target as int] == lv[j as int]);
            }
        } else {
            let z = zero_vec(32);
            cache.maybe_update_chunk(target, &z);
            proof {
                assert(cache.views()[target as int] == crate::merkle::padded_leaf(lv, j as int));
            }
        }
        proof {
            if pre.views()[target as int] == cache.views()[target as int] && pre.flags@
                == cache.flags@ {
            } else {
                lemma_flag_coherent_update(
                    pre.views(),
                    pre.flags@,
                    pnl,
                    target as int,
                    cache.views()[target as int],
                );
                assert(cache.views() =~= pre.views().update(
                    target as int,
                    cache.views()[target as int],
                ));
                assert(cache.flags@ =~= pre.flags@.update(target as int, true));
            }
            assert(!pre.flags@[target as int]);
            assert(pre.views()[target as int] == g0.views()[target as int]);
            assert forall|t: int|
                nl - 1 <= t < nl - 1 + j + 1 implies (#[trigger] cache.flags@[t]) == (
            cache.views()[t] != g0.views()[t]) by {
                if t < target {
                    assert(cache.flags@[t] == pre.flags@[t]);
                    assert(cache.views()[t] == pre.views()[t]);
                }
            };
        }
        j = j + 1;
    }
    proof {
        assert forall|t: int| nl - 1 <= t < 2 * pnl - 1 implies (#[trigger] cache.views()[t])
            == tree_node(lv, pnl, t) by {
            assert(cache.views()[t] == crate::merkle::padded_leaf(lv, t - (nl - 1)));
        };
    }

    // Bottom-up rehash — recompute exactly the parents with a dirty child,
    // deepest level first.
    let num_internal = offset_handler.num_internal_nodes();
    let mut p: usize = num_internal;
    while p > 0
        invariant
            p <= num_internal,
            *new_v == Value::Composite(*f_new),
            *old_v == Value::Composite(*f_old),
            new_fields == f_new@,
            old_fields == f_old@,
            new_fields.len() == old_fields.len(),
            nl <= 0x0800_0000,
            num_internal == nl - 1,
            nl == pnl,
            pnl == num_padded_leaves(spec_leaf_count(*new_v)),
            lv == composite_leaves(new_fields),
            cache.chunks@.len() == 2 * pnl - 1,
            cache.flags@.len() == cache.chunks@.len(),
            cache.root == g0.root,
            cache.root@.len() == 32,
            forall|i: int|
                0 <= i < cache.chunks@.len() ==> (#[trigger] cache.chunks@[i])@.len() == 32,
            flag_coherent(cache.views(), cache.flags@, pnl),
            forall|i: int|
                0 <= i < cache.flags@.len() && !(#[trigger] cache.flags@[i]) ==> cache.views()[i]
                    == g0.views()[i] && !g0.flags@[i],
            forall|t: int|
                nl - 1 <= t < 2 * pnl - 1 ==> (#[trigger] cache.views()[t]) == tree_node(
                    lv,
                    pnl,
                    t,
                ),
            forall|t: int|
                p <= t < nl - 1 ==> (#[trigger] cache.views()[t]) == tree_node(lv, pnl, t),
            g0.views() == spec_chunks(*old_v),
            g0.clean(),
            g0.root@ == spec_root(*old_v),
            forall|t: int|
                nl - 1 <= t < 2 * pnl - 1 ==> (#[trigger] cache.flags@[t]) == (cache.views()[t]
                    != g0.views()[t]),
            new_fields == old_fields ==> forall|i: int|
                0 <= i < cache.flags@.len() ==> !(#[trigger] cache.flags@[i]),
        decreases p,
    {
        p = p - 1;
        let left = 2 * p + 1;
        let right = 2 * p + 2;
        let ghost pre = *cache;
        if cache.either_modified(left, right) {
            let hashed = cache.hash_children(left, right);
            cache.modify_chunk(p, &hashed);
            proof {
                assert(cache.views()[p as int] == hash_of(
                    tree_node(lv, pnl, left as int) + tree_node(lv, pnl, right as int),
                ));
                assert(cache.views()[p as int] == tree_node(lv, pnl, p as int));
                lemma_flag_coherent_update(
                    pre.views(),
                    pre.flags@,
                    pnl,
                    p as int,
                    cache.views()[p as int],
                );
                assert(cache.views() =~= pre.views().update(
                    p as int,
                    cache.views()[p as int],
                ));
                assert(cache.flags@ =~= pre.flags@.update(p as int, true));
            }
        } else {
            proof {
                assert(crate::merkle::parent_hashes_children(cache.views(), p as int));
                assert(cache.views()[p as int] == tree_node(lv, pnl, p as int));
            }
        }
    }

    // The root of a Composite is its top chunk, with no length mixed in.
    let root_node = offset_handler.root();
    let root_changed = match cache.changed(root_node) {
        Ok(b) => b,
        Err(e) => {
            proof {
                assert(false);
            }
            return Err(e);
        },
    };
    proof {
        assert(cache.views()[0] == tree_node(lv, pnl, 0));
        assert(tree_node(lv, pnl, 0) == merkle_root(lv));
    }
    if root_changed {
        let rootv = crate::merkle::copy_bytes(&cache.chunks[0]);
        cache.root = rootv;
        proof {
            assert(cache.root@ == cache.views()[0]);
        }
    } else {
        proof {
            assert(!cache.flags@[0]);
            assert(cache.views()[0] == g0.views()[0]);
            assert(g0.views()[0] == spec_chunks(*old_v)[0]);
            assert(spec_chunks(*old_v)[0] == tree_node(
                composite_leaves(old_fields),
                num_padded_leaves(spec_leaf_count(*old_v)),
                0,
            ));
            assert(spec_chunks(*old_v)[0] == merkle_root(composite_leaves(old_fields)));
            assert(cache.root@ == g0.root@);
            assert(g0.root@ == spec_root(*old_v));
            assert(spec_root(*old_v) == merkle_root(composite_leaves(old_fields)));
            assert(cache.root@ == merkle_root(lv));
        }
    }
    proof {
        assert(cache.views() =~= spec_chunks(*new_v));
        if new_fields == old_fields {
            assert(spec_root(*new_v) == spec_root(*old_v));
            assert(spec_chunks(*new_v) == spec_chunks(*old_v));
        }
        assert(g0.views() == old(cache).views());
        assert forall|i: int|
            0 <= i < cache.flags@.len() && !(#[trigger] cache.flags@[i]) implies cache.views()[i]
            == old(cache).views()[i] by {
            assert(cache.views()[i] == g0.views()[i]);
        };
        assert forall|t: int| pnl - 1 <= t < 2 * pnl - 1 implies (#[trigger] cache.flags@[t]) == (
        cache.views()[t] != old(cache).views()[t]) by {
            assert(cache.flags@[t] == (cache.views()[t] != g0.views()[t]));
        };
    }
    Ok(offset_handler.next_node())
}

impl TreeHashCache {
    /// The incremental path: update this cache, consistent with
    /// `old_value`, so that it commits to `new_value`, and return the
    /// 32-byte committed root.  Updating with an unchanged value leaves
    /// every dirty flag false and the root untouched.
    pub fn update(&mut self, new_value: &Value, old_value: &Value) -> (r: Result<Vec<u8>, Error>)
        requires
            valid_value(*new_value),
            valid_value(*old_value),
            same_shape(*new_value, *old_value),
            old(self).wf_for(*old_value),
        ensures
            r is Ok,
            final(self).wf_for(*new_value),
            r matches Ok(root) ==> root@ == spec_root(*new_value),
            elems_of(*new_value) == elems_of(*old_value) ==> final(self).clean()
                && final(self).root@ == old(self).root@ && final(self).views() == old(
                self,
            ).views(),
            same_layout(*new_value, *old_value) ==> final(self).flags_mark_changes(
                *old(self),
                num_padded_leaves(spec_leaf_count(*new_value)),
            ),
            (*new_value) is U64 && elems_of(*new_value) != elems_of(*old_value)
                ==> final(self).flags@[0] == true,
    {
        match new_value.cached_hash_tree_root(old_value, self, 0) {
            Ok(_) => Ok(self.tree_hash_root()),
            Err(e) => {
                proof {
                    assert(false);
                }
                Err(e)
            },
        }
    }
}

} // verus!
