//! The values the engine commits to, their shape classification, and the
//! mathematical model of a value's committed tree and root.
//!
//! Every value has exactly one of three shapes, fixed by its variant, never
//! inferred at runtime: a *Basic* fixed-width scalar, whose instances pack
//! several to a leaf chunk; a *Composite* of a fixed number of fields, each
//! merkleized on its own leaf, whose count never changes across versions;
//! and a variable-length *List* of scalars, whose length is mixed into its
//! committed root.

use crate::hashing::hash_of;
use crate::merkle::{full_tree, merkle_root, num_padded_leaves, MAX_LEAF_COUNT};
use crate::pack::{
    composite_leaves, packed_leaves, zero_bytes, MAX_LIST_LEN, PACKING_FACTOR,
};
use vstd::bytes::spec_u64_to_le_bytes;
use vstd::prelude::*;

verus! {

/// The shape of a value, resolved once per type, never inferred at runtime.
#[derive(Clone, Copy, PartialEq, Eq, Structural, Debug)]
pub enum ItemType {
    Basic,
    Composite,
    List,
}

/// The errors the engine reports.  Every one is deterministic in its inputs
/// and fatal to the operation that raised it.
#[derive(Clone, Copy, PartialEq, Eq, Structural, Debug)]
pub enum Error {
    /// A Basic scalar was asked for the tree layout only container shapes
    /// have.
    ShouldNotProduceBTreeOverlay,
    /// A chunk index beyond the store was queried.
    NoChunkForIndex,
    /// Growing was asked of chunk and flag arrays whose lengths do not match
    /// the claimed heights.
    UnableToGrowMerkleTree,
    /// Shrinking was asked of chunk and flag arrays whose lengths do not
    /// match the claimed heights.
    UnableToShrinkMerkleTree,
}

/// A value the engine can commit to: a 64-bit Basic scalar, a Composite of
/// 64-bit fields, or a List of 64-bit scalars.
///
/// The model is deliberately one level deep: Composite fields and List
/// elements are scalars, so every leaf of the tree is a packed chunk.  An
/// element that carries a subtree of its own is outside this value model.
pub enum Value {
    U64(u64),
    Composite(Vec<u64>),
    List(Vec<u64>),
}

/// The scalars a value holds, in order.
pub open spec fn elems_of(v: Value) -> Seq<u64> {
    match v {
        Value::U64(x) => seq![x],
        Value::Composite(f) => f@,
        Value::List(l) => l@,
    }
}

/// The leaf chunks of a value's tree before power-of-two padding: a scalar
/// or List packs its scalars several to a chunk; a Composite gives each
/// field a whole chunk of its own.
pub open spec fn leaf_chunks_of(v: Value) -> Seq<Seq<u8>> {
    match v {
        Value::U64(x) => packed_leaves(seq![x]),
        Value::Composite(f) => composite_leaves(f@),
        Value::List(l) => packed_leaves(l@),
    }
}

/// How many leaf chunks a value occupies before power-of-two padding.
pub open spec fn spec_leaf_count(v: Value) -> nat {
    leaf_chunks_of(v).len()
}

/// How many entries a container's layout listing holds: one per element
/// leaf, rounding a partial packed chunk up, and none for an empty
/// container — the single zero chunk of the empty tree is the Merkleizer's
/// padding, not an element's.
pub open spec fn spec_offsets_count(v: Value) -> nat {
    match v {
        Value::U64(_) => 0,
        Value::Composite(f) => f@.len(),
        Value::List(l) => ((l@.len() + 3) / 4) as nat,
    }
}

/// Whether a value is small enough for every chunk index to fit the
/// machine.
pub open spec fn valid_value(v: Value) -> bool {
    match v {
        Value::U64(_) => true,
        Value::Composite(f) => f@.len() <= MAX_LEAF_COUNT,
        Value::List(l) => l@.len() <= MAX_LIST_LEN,
    }
}

/// Two values of the same shape, as versions of one logical value must be.
/// A Composite's field count is fixed at the type level and never changes
/// across versions, so it is part of the shape.
pub open spec fn same_shape(a: Value, b: Value) -> bool {
    ||| (a is U64 && b is U64)
    ||| (a is Composite && b is Composite && a->Composite_0@.len() == b->Composite_0@.len())
    ||| (a is List && b is List)
}

/// Two values whose trees occupy the same layout — the same padded leaf
/// count, hence the same height and chunk range — so updating from one to
/// the other needs no resize.
pub open spec fn same_layout(a: Value, b: Value) -> bool {
    num_padded_leaves(spec_leaf_count(a)) == num_padded_leaves(spec_leaf_count(b))
}

/// The chunks of a value's built tree: its leaf chunks, padded to a power
/// of two, under their complete binary tree of hashes.
pub open spec fn spec_chunks(v: Value) -> Seq<Seq<u8>> {
    full_tree(leaf_chunks_of(v))
}

/// The 32-byte chunk that encodes a List's length for root mixing.
pub open spec fn len_chunk(n: nat) -> Seq<u8> {
    spec_u64_to_le_bytes(n as u64) + zero_bytes(24)
}

/// A value's committed root: the top chunk of its tree, with the length
/// mixed in for a List — `hash(merkle_root, encode(length))`, never omitted
/// even when the List is empty.  A scalar or Composite has no length-mixing
/// step; its root is simply the top chunk.
pub open spec fn spec_root(v: Value) -> Seq<u8> {
    match v {
        Value::List(l) => hash_of(merkle_root(leaf_chunks_of(v)) + len_chunk(l@.len())),
        _ => merkle_root(leaf_chunks_of(v)),
    }
}

impl Value {
    /// The shape of this value.
    pub fn item_type(&self) -> (r: ItemType)
        ensures
            r == (match self {
                Value::U64(_) => ItemType::Basic,
                Value::Composite(_) => ItemType::Composite,
                Value::List(_) => ItemType::List,
            }),
    {
        match self {
            Value::U64(_) => ItemType::Basic,
            Value::Composite(_) => ItemType::Composite,
            Value::List(_) => ItemType::List,
        }
    }

    /// The number of bytes this value packs to before zero padding: 8 per
    /// 64-bit scalar.
    pub fn num_bytes(&self) -> (r: usize)
        requires
            valid_value(*self),
        ensures
            r == 8 * elems_of(*self).len(),
    {
        match self {
            Value::U64(_) => 8,
            Value::Composite(f) => 8 * f.len(),
            Value::List(l) => 8 * l.len(),
        }
    }

    /// How many scalars share one leaf chunk for this shape; container
    /// elements are never packed, so a container's factor is one.
    pub fn packing_factor(&self) -> (r: usize)
        ensures
            r == (match self {
                Value::U64(_) => PACKING_FACTOR as int,
                _ => 1int,
            }),
    {
        match self {
            Value::U64(_) => PACKING_FACTOR,
            _ => 1,
        }
    }

    /// The canonical fixed-width encoding of a Basic scalar.  Only Basic
    /// items are ever packed.
    pub fn packed_encoding(&self) -> (r: Vec<u8>)
        requires
            self is U64,
        ensures
            r@ == spec_u64_to_le_bytes(self->U64_0),
    {
        match self {
            Value::U64(x) => vstd::bytes::u64_to_le_bytes(*x),
            _ => {
                proof {
                    assert(false);
                }
                Vec::new()
            },
        }
    }

    /// The per-leaf subtree sizes of a container's layout, one entry per
    /// element leaf chunk, a partial packed chunk rounded up; an empty
    /// container has no element leaves and yields no entries.  A Basic
    /// scalar has no such layout and is refused.
    pub fn offsets(&self) -> (r: Result<Vec<usize>, Error>)
        requires
            valid_value(*self),
        ensures
            match r {
                Ok(o) => !(self is U64) && o@ == Seq::new(
                    spec_offsets_count(*self),
                    |j: int| 1usize,
                ),
                Err(e) => self is U64 && e == Error::ShouldNotProduceBTreeOverlay,
            },
    {
        let count = match self {
            Value::U64(_) => {
                return Err(Error::ShouldNotProduceBTreeOverlay);
            },
            Value::Composite(f) => f.len(),
            Value::List(l) => {
                if l.len() == 0 {
                    0
                } else {
                    (l.len() - 1) / 4 + 1
                }
            },
        };
        assert(count == spec_offsets_count(*self));
        let mut o: Vec<usize> = Vec::new();
        let mut j: usize = 0;
        while j < count
            invariant
                j <= count,
                o@ == Seq::new(j as nat, |t: int| 1usize),
            decreases count - j,
        {
            o.push(1usize);
            assert(Seq::new((j + 1) as nat, |t: int| 1usize) =~= Seq::new(
                j as nat,
                |t: int| 1usize,
            ).push(1usize));
            j = j + 1;
        }
        Ok(o)
    }

    /// The number of nodes a value's built tree holds below its root,
    /// derived from the overlay.
    pub fn num_child_nodes(&self) -> (r: usize)
        requires
            valid_value(*self),
        ensures
            r == 2 * num_padded_leaves(spec_leaf_count(*self)) - 2,
    {
        let count: usize = match self {
            Value::U64(_) => 1,
            Value::Composite(f) => {
                if f.len() == 0 {
                    1
                } else {
                    f.len()
                }
            },
            Value::List(l) => {
                if l.len() == 0 {
                    1
                } else {
                    (l.len() - 1) / 4 + 1
                }
            },
        };
        assert(count == spec_leaf_count(*self));
        proof {
            lemma_spec_leaf_count_bound(*self);
        }
        let shape = crate::merkle::compute_tree_shape(count);
        2 * shape.1 - 2
    }
}

/// A valid value's leaf-chunk count is one the Merkleizer accepts.
pub proof fn lemma_spec_leaf_count_bound(v: Value)
    requires
        valid_value(v),
    ensures
        1 <= spec_leaf_count(v) <= MAX_LEAF_COUNT,
{
    match v {
        Value::U64(_) => {
            crate::merkle::lemma_num_leaf_chunks_bound(1);
        },
        Value::Composite(_) => {
        },
        Value::List(l) => {
            crate::merkle::lemma_num_leaf_chunks_bound(l@.len());
        },
    }
}

} // verus!
