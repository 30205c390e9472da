//! End-to-end checks of the incremental Merkleization engine against a
//! from-scratch reference implementation written directly on sha2.

use cached_tree_hash::btree_overlay::BTreeOverlay;
use cached_tree_hash::cache::TreeHashCache;
use cached_tree_hash::hashing::hash_pair;
use cached_tree_hash::resize::{grow_merkle_cache, shrink_merkle_cache};
use cached_tree_hash::value::{Error, ItemType, Value};
use sha2::Digest;

/// A reference Merkleization of a list of 64-bit integers, computed without
/// the cache: pack little-endian, pad to 32-byte chunks, pad the chunk count
/// to a power of two, hash child pairs bottom-up, then mix in the length.
fn reference_list_root(elems: &[u64]) -> Vec<u8> {
    let mut bytes: Vec<u8> = Vec::new();
    for e in elems {
        bytes.extend_from_slice(&e.to_le_bytes());
    }
    while bytes.is_empty() || bytes.len() % 32 != 0 {
        bytes.push(0);
    }
    let mut chunks: Vec<Vec<u8>> = bytes.chunks(32).map(|c| c.to_vec()).collect();
    let mut nl = 1usize;
    while nl < chunks.len() {
        nl *= 2;
    }
    while chunks.len() < nl {
        chunks.push(vec![0u8; 32]);
    }
    while chunks.len() > 1 {
        let mut next = Vec::new();
        for pair in chunks.chunks(2) {
            let mut cat = pair[0].clone();
            cat.extend_from_slice(&pair[1]);
            next.push(sha2::Sha256::digest(&cat).to_vec());
        }
        chunks = next;
    }
    let mut cat = chunks.remove(0);
    let mut len_bytes = (elems.len() as u64).to_le_bytes().to_vec();
    len_bytes.resize(32, 0);
    cat.extend_from_slice(&len_bytes);
    sha2::Sha256::digest(&cat).to_vec()
}

/// A reference Merkleization of a Composite of 64-bit fields: one whole
/// zero-padded chunk per field, a power-of-two leaf level, hashing bottom-up,
/// and no length mixing.
fn reference_composite_root(fields: &[u64]) -> Vec<u8> {
    let mut chunks: Vec<Vec<u8>> = fields
        .iter()
        .map(|f| {
            let mut c = f.to_le_bytes().to_vec();
            c.resize(32, 0);
            c
        })
        .collect();
    if chunks.is_empty() {
        chunks.push(vec![0u8; 32]);
    }
    let mut nl = 1usize;
    while nl < chunks.len() {
        nl *= 2;
    }
    while chunks.len() < nl {
        chunks.push(vec![0u8; 32]);
    }
    while chunks.len() > 1 {
        let mut next = Vec::new();
        for pair in chunks.chunks(2) {
            let mut cat = pair[0].clone();
            cat.extend_from_slice(&pair[1]);
            next.push(sha2::Sha256::digest(&cat).to_vec());
        }
        chunks = next;
    }
    chunks.remove(0)
}

fn list(elems: &[u64]) -> Value {
    Value::List(elems.to_vec())
}

fn composite(fields: &[u64]) -> Value {
    Value::Composite(fields.to_vec())
}

fn all_clean(cache: &TreeHashCache, total: usize) -> bool {
    (0..total).all(|i| !cache.changed(i).unwrap())
}

#[test]
fn build_matches_reference_scalar() {
    let cache = TreeHashCache::new(&Value::U64(42)).unwrap();
    let mut expected = 42u64.to_le_bytes().to_vec();
    expected.resize(32, 0);
    assert_eq!(cache.tree_hash_root(), expected);
}

#[test]
fn build_matches_reference_list() {
    let elems = [1u64, 2, 3, 4, 5];
    let cache = TreeHashCache::new(&list(&elems)).unwrap();
    assert_eq!(cache.tree_hash_root(), reference_list_root(&elems));
}

#[test]
fn build_matches_reference_empty_list() {
    let cache = TreeHashCache::new(&list(&[])).unwrap();
    assert_eq!(cache.tree_hash_root(), reference_list_root(&[]));
}

#[test]
fn update_is_idempotent() {
    let elems = [7u64, 8, 9];
    let v = list(&elems);
    let mut cache = TreeHashCache::new(&v).unwrap();
    let before = cache.tree_hash_root();
    let root = cache.update(&v, &v).unwrap();
    assert_eq!(root, before);
    assert_eq!(cache.tree_hash_root(), before);
    assert!(all_clean(&cache, 1));
}

#[test]
fn update_chain_equals_fresh_build() {
    let versions: [&[u64]; 4] = [&[1, 2, 3], &[9, 2, 3], &[9, 2, 3, 4, 5, 6, 7, 8, 9], &[9, 2]];
    let mut cache = TreeHashCache::new(&list(versions[0])).unwrap();
    for w in versions.windows(2) {
        let root = cache.update(&list(w[1]), &list(w[0])).unwrap();
        let fresh = TreeHashCache::new(&list(w[1])).unwrap();
        assert_eq!(root, fresh.tree_hash_root());
        assert_eq!(root, reference_list_root(w[1]));
    }
}

#[test]
fn length_changes_the_root() {
    let a = TreeHashCache::new(&list(&[1, 2, 3])).unwrap();
    let b = TreeHashCache::new(&list(&[1, 2, 3, 0])).unwrap();
    assert_ne!(a.tree_hash_root(), b.tree_hash_root());
    assert_ne!(reference_list_root(&[1, 2, 3]), reference_list_root(&[1, 2, 3, 0]));
}

#[test]
fn growing_matches_fresh_build() {
    let old = [1u64, 2, 3];
    let new = [1u64, 2, 3, 4, 5];
    let mut cache = TreeHashCache::new(&list(&old)).unwrap();
    let root = cache.update(&list(&new), &list(&old)).unwrap();
    let fresh = TreeHashCache::new(&list(&new)).unwrap();
    assert_eq!(root, fresh.tree_hash_root());
    assert_eq!(root, reference_list_root(&new));
}

#[test]
fn shrinking_matches_fresh_build() {
    let old: Vec<u64> = (1..=9).collect();
    let new = [1u64, 2];
    let mut cache = TreeHashCache::new(&list(&old)).unwrap();
    let root = cache.update(&list(&new), &list(&old)).unwrap();
    assert_eq!(root, reference_list_root(&new));
}

#[test]
fn packing_boundary_roots_are_correct_and_distinct() {
    let full: Vec<u64> = (1..=8).collect();
    let short: Vec<u64> = (1..=7).collect();
    let a = TreeHashCache::new(&list(&full)).unwrap();
    let b = TreeHashCache::new(&list(&short)).unwrap();
    assert_eq!(a.tree_hash_root(), reference_list_root(&full));
    assert_eq!(b.tree_hash_root(), reference_list_root(&short));
    assert_ne!(a.tree_hash_root(), b.tree_hash_root());
}

#[test]
fn appending_one_element_matches_fresh_build() {
    let fresh = TreeHashCache::new(&list(&[1, 2, 3, 4])).unwrap();
    let mut cache = TreeHashCache::new(&list(&[1, 2, 3])).unwrap();
    let root = cache.update(&list(&[1, 2, 3, 4]), &list(&[1, 2, 3])).unwrap();
    assert_eq!(root, fresh.tree_hash_root());
}

#[test]
fn updating_between_empty_and_one_element() {
    let mut cache = TreeHashCache::new(&list(&[])).unwrap();
    let root = cache.update(&list(&[5]), &list(&[])).unwrap();
    assert_eq!(root, reference_list_root(&[5]));
    let root = cache.update(&list(&[]), &list(&[5])).unwrap();
    assert_eq!(root, reference_list_root(&[]));
}

#[test]
fn large_list_matches_reference() {
    let elems: Vec<u64> = (0..1000).map(|i| i * 31 + 7).collect();
    let cache = TreeHashCache::new(&list(&elems)).unwrap();
    assert_eq!(cache.tree_hash_root(), reference_list_root(&elems));
    let longer: Vec<u64> = (0..1500).map(|i| i * 17 + 3).collect();
    let mut cache = cache;
    let root = cache.update(&list(&longer), &list(&elems)).unwrap();
    assert_eq!(root, reference_list_root(&longer));
}

#[test]
fn composite_build_matches_reference() {
    let fields = [10u64, 20, 30];
    let cache = TreeHashCache::new(&composite(&fields)).unwrap();
    assert_eq!(cache.tree_hash_root(), reference_composite_root(&fields));
}

#[test]
fn composite_root_has_no_length_mixed_in() {
    // one field: the committed root is the field's own padded chunk
    let cache = TreeHashCache::new(&composite(&[99])).unwrap();
    let mut expected = 99u64.to_le_bytes().to_vec();
    expected.resize(32, 0);
    assert_eq!(cache.tree_hash_root(), expected);
}

#[test]
fn composite_update_matches_fresh_build() {
    let old = [10u64, 20, 30, 40, 50];
    let new = [10u64, 21, 30, 40, 50];
    let mut cache = TreeHashCache::new(&composite(&old)).unwrap();
    let root = cache.update(&composite(&new), &composite(&old)).unwrap();
    let fresh = TreeHashCache::new(&composite(&new)).unwrap();
    assert_eq!(root, fresh.tree_hash_root());
    assert_eq!(root, reference_composite_root(&new));
}

#[test]
fn composite_update_is_idempotent() {
    let v = composite(&[4u64, 5, 6]);
    let mut cache = TreeHashCache::new(&v).unwrap();
    let before = cache.tree_hash_root();
    let root = cache.update(&v, &v).unwrap();
    assert_eq!(root, before);
    assert!(all_clean(&cache, 7));
}

#[test]
fn composite_and_list_of_same_scalars_differ() {
    // a Composite spreads its fields one per leaf and mixes no length, so
    // its root differs from the packed, length-mixed List of the same values
    let a = TreeHashCache::new(&composite(&[1, 2, 3])).unwrap();
    let b = TreeHashCache::new(&list(&[1, 2, 3])).unwrap();
    assert_ne!(a.tree_hash_root(), b.tree_hash_root());
}

#[test]
fn scalar_update_changes_and_restores_root() {
    let mut cache = TreeHashCache::new(&Value::U64(1)).unwrap();
    let first = cache.tree_hash_root();
    let second = cache.update(&Value::U64(2), &Value::U64(1)).unwrap();
    assert_ne!(first, second);
    let third = cache.update(&Value::U64(1), &Value::U64(2)).unwrap();
    assert_eq!(first, third);
}

#[test]
fn scalar_has_no_overlay() {
    assert_eq!(Value::U64(5).offsets().unwrap_err(), Error::ShouldNotProduceBTreeOverlay);
    assert!(BTreeOverlay::new(&Value::U64(5), 0).is_err());
}

#[test]
fn empty_containers_have_no_offsets_entries() {
    assert_eq!(list(&[]).offsets().unwrap(), Vec::<usize>::new());
    assert_eq!(composite(&[]).offsets().unwrap(), Vec::<usize>::new());
    assert_eq!(list(&[1]).offsets().unwrap(), vec![1]);
    assert_eq!(list(&[1, 2, 3, 4]).offsets().unwrap(), vec![1]);
}

#[test]
fn flags_mark_exactly_the_changed_leaves() {
    // two leaf chunks under one root: elements 1..=8
    let old: Vec<u64> = (1..=8).collect();
    let mut new = old.clone();
    new[0] = 42;  // touches only the first leaf chunk
    let mut cache = TreeHashCache::new(&list(&old)).unwrap();
    cache.update(&list(&new), &list(&old)).unwrap();
    assert!(cache.changed(0).unwrap());  // root rehashed
    assert!(cache.changed(1).unwrap());  // rewritten leaf
    assert!(!cache.changed(2).unwrap());  // untouched leaf stays clean
}

#[test]
fn splice_replaces_a_chunk_range() {
    // a three-chunk store: replace the two leaf chunks with fresh dirty ones
    let old: Vec<u64> = (1..=8).collect();
    let mut cache = TreeHashCache::new(&list(&old)).unwrap();
    let before_root_chunk = cache.chunks[0].clone();
    let repl = vec![vec![0xaau8; 32], vec![0xbbu8; 32]];
    let repl_flags = vec![true, true];
    cache.splice(1, 3, repl.clone(), repl_flags);
    assert_eq!(cache.chunks.len(), 3);
    assert_eq!(cache.chunks[0], before_root_chunk);
    assert_eq!(cache.chunks[1], repl[0]);
    assert_eq!(cache.chunks[2], repl[1]);
    assert!(!cache.changed(0).unwrap());
    assert!(cache.changed(1).unwrap());
    assert!(cache.changed(2).unwrap());
}

#[test]
fn splice_can_shrink_the_store() {
    let old: Vec<u64> = (1..=8).collect();
    let mut cache = TreeHashCache::new(&list(&old)).unwrap();
    let kept_root_chunk = cache.chunks[0].clone();
    cache.splice(1, 3, vec![vec![0u8; 32]], vec![true]);
    assert_eq!(cache.chunks.len(), 2);
    assert_eq!(cache.chunks[0], kept_root_chunk);
    assert_eq!(cache.chunks[1], vec![0u8; 32]);
}

#[test]
fn changed_scalar_chunk_is_flagged() {
    let mut cache = TreeHashCache::new(&Value::U64(1)).unwrap();
    cache.update(&Value::U64(2), &Value::U64(1)).unwrap();
    assert!(cache.changed(0).unwrap());
    cache.update(&Value::U64(2), &Value::U64(2)).unwrap();
    assert!(!cache.changed(0).unwrap());
}

#[test]
fn list_overlay_shape() {
    let v = list(&[1, 2, 3, 4, 5]);
    let o = BTreeOverlay::new(&v, 0).unwrap();
    assert_eq!(o.num_leaf_nodes, 2);
    assert_eq!(o.height(), 1);
    assert_eq!(o.total_chunks(), 3);
    assert_eq!(o.first_leaf_node(), 1);
    assert_eq!(o.next_node(), 3);
    assert_eq!(o.root(), 0);
    assert_eq!(o.chunk_range(), (0, 3));
    assert_eq!(v.offsets().unwrap(), vec![1, 1]);
}

#[test]
fn value_classification() {
    assert_eq!(Value::U64(1).item_type(), ItemType::Basic);
    assert_eq!(composite(&[1]).item_type(), ItemType::Composite);
    assert_eq!(list(&[1]).item_type(), ItemType::List);
    assert_eq!(composite(&[1, 2]).packing_factor(), 1);
    assert_eq!(composite(&[1, 2]).num_bytes(), 16);
    assert_eq!(composite(&[1, 2, 3]).offsets().unwrap(), vec![1, 1, 1]);
    assert_eq!(composite(&[1, 2, 3]).num_child_nodes(), 6);
    assert_eq!(Value::U64(1).packing_factor(), 4);
    assert_eq!(list(&[1]).packing_factor(), 1);
    assert_eq!(Value::U64(1).num_bytes(), 8);
    assert_eq!(list(&[1, 2, 3]).num_bytes(), 24);
    assert_eq!(Value::U64(513).packed_encoding(), 513u64.to_le_bytes().to_vec());
    assert_eq!(Value::U64(1).num_child_nodes(), 0);
    assert_eq!(list(&[1, 2, 3, 4, 5]).num_child_nodes(), 2);
}

#[test]
fn resize_rejects_mismatched_layouts() {
    let chunks = vec![vec![0u8; 32]; 2];
    let flags = vec![false; 2];
    assert_eq!(
        grow_merkle_cache(&chunks, &flags, 0, 1).unwrap_err(),
        Error::UnableToGrowMerkleTree
    );
    assert_eq!(
        shrink_merkle_cache(&chunks, &flags, 1, 1, 1).unwrap_err(),
        Error::UnableToShrinkMerkleTree
    );
}

#[test]
fn changed_rejects_out_of_range_chunks() {
    let cache = TreeHashCache::new(&Value::U64(0)).unwrap();
    assert!(!cache.changed(0).unwrap());
    assert_eq!(cache.changed(1).unwrap_err(), Error::NoChunkForIndex);
}

#[test]
fn hash_pair_matches_direct_digest() {
    let left = vec![0xabu8; 32];
    let right = vec![0xcdu8; 32];
    let mut cat = left.clone();
    cat.extend_from_slice(&right);
    assert_eq!(hash_pair(&left, &right), sha2::Sha256::digest(&cat).to_vec());
}
