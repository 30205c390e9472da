//! The leaf packer: canonical fixed-width encoding of scalars, and packing of
//! a scalar sequence into zero-padded 32-byte leaf chunks.
//!
//! A 64-bit scalar encodes as 8 little-endian bytes, so `PACKING_FACTOR`
//! (32 / 8 = 4) scalars share one leaf chunk; the last chunk is zero-filled.
//! An empty sequence packs to a single all-zero chunk.

use vstd::bytes::{spec_u64_to_le_bytes, u64_to_le_bytes, lemma_auto_spec_u64_to_from_le_bytes};
use vstd::prelude::*;

verus! {

/// How many 64-bit scalars fit in one 32-byte chunk.
pub const PACKING_FACTOR: usize = 4;

/// Upper bound on the element count of a list, so that every chunk-index
/// computation stays within `usize` on any target.
pub const MAX_LIST_LEN: usize = 0x0fff_ffff;

pub open spec fn zero_bytes(n: nat) -> Seq<u8> {
    Seq::new(n, |i: int| 0u8)
}

/// An all-zero padding chunk.
pub open spec fn zero_chunk() -> Seq<u8> {
    zero_bytes(32)
}

/// The 8 bytes that packing slot `k` holds: the canonical encoding of the
/// `k`-th element, or zero padding past the end of the sequence.
pub open spec fn slot_bytes(elems: Seq<u64>, k: int) -> Seq<u8> {
    if 0 <= k < elems.len() {
        spec_u64_to_le_bytes(elems[k])
    } else {
        zero_bytes(8)
    }
}

/// Leaf chunk `j` of a packed scalar sequence: four consecutive slots.
pub open spec fn packed_leaf(elems: Seq<u64>, j: int) -> Seq<u8> {
    slot_bytes(elems, 4 * j) + slot_bytes(elems, 4 * j + 1) + slot_bytes(elems, 4 * j + 2)
        + slot_bytes(elems, 4 * j + 3)
}

/// How many leaf chunks a packed sequence of `n` scalars occupies before
/// power-of-two padding; an empty sequence still occupies one zero chunk.
pub open spec fn num_leaf_chunks(n: nat) -> nat {
    if n == 0 {
        1
    } else {
        (n + 3) / 4
    }
}

/// All leaf chunks of a packed scalar sequence.
pub open spec fn packed_leaves(elems: Seq<u64>) -> Seq<Seq<u8>> {
    Seq::new(num_leaf_chunks(elems.len()), |j: int| packed_leaf(elems, j))
}

/// The byte views of a sequence of chunks.
pub open spec fn chunk_views(s: Seq<Vec<u8>>) -> Seq<Seq<u8>> {
    s.map(|_i: int, c: Vec<u8>| c@)
}

pub proof fn lemma_slot_bytes_len(elems: Seq<u64>, k: int)
    ensures
        slot_bytes(elems, k).len() == 8,
{
    lemma_auto_spec_u64_to_from_le_bytes();
}

pub proof fn lemma_packed_leaf_len(elems: Seq<u64>, j: int)
    ensures
        packed_leaf(elems, j).len() == 32,
{
    lemma_slot_bytes_len(elems, 4 * j);
    lemma_slot_bytes_len(elems, 4 * j + 1);
    lemma_slot_bytes_len(elems, 4 * j + 2);
    lemma_slot_bytes_len(elems, 4 * j + 3);
}

/// A vector of `n` zero bytes.
pub fn zero_vec(n: usize) -> (r: Vec<u8>)
    ensures
        r@ == zero_bytes(n as nat),
{
    let mut out: Vec<u8> = Vec::new();
    let mut i: usize = 0;
    while i < n
        invariant
            i <= n,
            out@ == zero_bytes(i as nat),
        decreases n - i,
    {
        out.push(0u8);
        assert(zero_bytes((i + 1) as nat) =~= zero_bytes(i as nat).push(0u8));
        i = i + 1;
    }
    out
}

/// Append packing slot `k` of `elems` to `chunk`.
fn push_slot(chunk: &mut Vec<u8>, elems: &Vec<u64>, k: usize)
    ensures
        final(chunk)@ == old(chunk)@ + slot_bytes(elems@, k as int),
{
    if k < elems.len() {
        let mut b = u64_to_le_bytes(elems[k]);
        chunk.append(&mut b);
    } else {
        let mut b = zero_vec(8);
        chunk.append(&mut b);
    }
}

/// Pack a scalar sequence into its zero-padded leaf chunks, four scalars to
/// a chunk; an empty sequence yields one all-zero chunk.
pub fn get_packed_leaves(vec: &Vec<u64>) -> (r: Vec<Vec<u8>>)
    requires
        vec@.len() <= MAX_LIST_LEN,
    ensures
        chunk_views(r@) == packed_leaves(vec@),
        r@.len() == num_leaf_chunks(vec@.len()),
        forall|j: int| 0 <= j < r@.len() ==> (#[trigger] r@[j])@.len() == 32,
{
    let n = vec.len();
    let count: usize = if n == 0 {
        1
    } else {
        (n - 1) / 4 + 1
    };
    assert(count == num_leaf_chunks(vec@.len()));
    let mut out: Vec<Vec<u8>> = Vec::new();
    let mut j: usize = 0;
    while j < count
        invariant
            j <= count,
            count == num_leaf_chunks(vec@.len()),
            vec@.len() <= MAX_LIST_LEN,
            out@.len() == j,
            forall|i: int| 0 <= i < j ==> (#[trigger] out@[i])@ == packed_leaf(vec@, i),
        decreases count - j,
    {
        let mut chunk: Vec<u8> = Vec::new();
        push_slot(&mut chunk, vec, 4 * j);
        push_slot(&mut chunk, vec, 4 * j + 1);
        push_slot(&mut chunk, vec, 4 * j + 2);
        push_slot(&mut chunk, vec, 4 * j + 3);
        assert(chunk@ =~= packed_leaf(vec@, j as int));
        out.push(chunk);
        j = j + 1;
    }
    proof {
        assert forall|j: int| 0 <= j < out@.len() implies (#[trigger] out@[j])@.len() == 32 by {
            lemma_packed_leaf_len(vec@, j);
        }
        assert(chunk_views(out@) =~= packed_leaves(vec@));
    }
    out
}

/// Leaf chunk `i` of a Composite value: each field is merkleized on its
/// own, so a 64-bit field occupies a whole zero-padded chunk; past the
/// fields lies zero padding.
pub open spec fn composite_leaf(fields: Seq<u64>, i: int) -> Seq<u8> {
    if 0 <= i < fields.len() {
        spec_u64_to_le_bytes(fields[i]) + zero_bytes(24)
    } else {
        zero_chunk()
    }
}

/// How many leaf chunks a Composite of `n` fields occupies before
/// power-of-two padding; an empty Composite still occupies one zero chunk.
pub open spec fn num_composite_leaves(n: nat) -> nat {
    if n == 0 {
        1
    } else {
        n
    }
}

/// All leaf chunks of a Composite value, one per field.
pub open spec fn composite_leaves(fields: Seq<u64>) -> Seq<Seq<u8>> {
    Seq::new(num_composite_leaves(fields.len()), |i: int| composite_leaf(fields, i))
}

/// Build the leaf chunks of a Composite value, one whole chunk per field;
/// an empty Composite yields one all-zero chunk.
pub fn get_field_leaves(fields: &Vec<u64>) -> (r: Vec<Vec<u8>>)
    ensures
        chunk_views(r@) == composite_leaves(fields@),
        r@.len() == num_composite_leaves(fields@.len()),
        forall|j: int| 0 <= j < r@.len() ==> (#[trigger] r@[j])@.len() == 32,
{
    proof {
        lemma_auto_spec_u64_to_from_le_bytes();
    }
    let mut out: Vec<Vec<u8>> = Vec::new();
    if fields.len() == 0 {
        out.push(zero_vec(32));
        proof {
            assert(out@[0]@ =~= composite_leaf(fields@, 0));
            assert(chunk_views(out@) =~= composite_leaves(fields@));
        }
        return out;
    }
    let mut i: usize = 0;
    while i < fields.len()
        invariant
            i <= fields@.len(),
            out@.len() == i,
            forall|j: int| 0 <= j < i ==> (#[trigger] out@[j])@ == composite_leaf(fields@, j),
            forall|j: int| 0 <= j < i ==> (#[trigger] out@[j])@.len() == 32,
        decreases fields@.len() - i,
    {
        let mut chunk = vstd::bytes::u64_to_le_bytes(fields[i]);
        let mut z = zero_vec(24);
        chunk.append(&mut z);
        proof {
            lemma_auto_spec_u64_to_from_le_bytes();
            assert(chunk@ =~= composite_leaf(fields@, i as int));
        }
        out.push(chunk);
        i = i + 1;
    }
    proof {
        assert(chunk_views(out@) =~= composite_leaves(fields@));
    }
    out
}

} // verus!
