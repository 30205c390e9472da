//! The shape overlay calculator: given a value and a base chunk offset, the
//! layout its tree would occupy — leaf count, height, chunk range — without
//! touching the chunk store.
//!
//! An overlay is ephemeral and never cached: the same value can legally be
//! overlaid at different base offsets.  Computing it against the old and the
//! new version of a value at the same offset is what detects a resize.

use crate::merkle::{compute_tree_shape, height_for, num_padded_leaves};
use crate::value::{lemma_spec_leaf_count_bound, spec_leaf_count, valid_value, Error, Value};
use vstd::prelude::*;

verus! {

/// The largest base chunk offset an overlay accepts, so that every chunk
/// index of the overlaid subtree fits the machine.
pub const MAX_BASE_CHUNK: usize = 0x4000_0000;

/// A value's layout at a base chunk offset: `num_leaf_nodes` padded leaves
/// (a power of two) under a tree of the given height, occupying the chunks
/// `[offset, offset + 2 * num_leaf_nodes - 1)` in heap order.
pub struct BTreeOverlay {
    pub offset: usize,
    pub num_leaf_nodes: usize,
    pub height: usize,
}

impl BTreeOverlay {
    /// This overlay describes a tree of `leaf_count` unpadded leaf chunks
    /// at the given base.
    pub open spec fn describes(self, leaf_count: nat, chunk: nat) -> bool {
        &&& self.offset == chunk
        &&& self.height == height_for(leaf_count)
        &&& self.num_leaf_nodes == num_padded_leaves(leaf_count)
    }

    /// The overlay's indices stay within the machine.
    pub open spec fn in_bounds(self) -> bool {
        &&& self.offset <= MAX_BASE_CHUNK
        &&& 1 <= self.num_leaf_nodes
        &&& self.num_leaf_nodes <= 0x0800_0000
    }

    /// Compute the overlay of a value at a base chunk.  Only container
    /// shapes have one; a Basic scalar is refused, since it only ever packs
    /// into its parent's leaves.
    pub fn new(v: &Value, chunk: usize) -> (r: Result<BTreeOverlay, Error>)
        requires
            valid_value(*v),
            chunk <= MAX_BASE_CHUNK,
        ensures
            match r {
                Ok(o) => !((*v) is U64) && o.describes(spec_leaf_count(*v), chunk as nat)
                    && o.in_bounds(),
                Err(e) => (*v) is U64 && e == Error::ShouldNotProduceBTreeOverlay,
            },
    {
        let count: usize = match v {
            Value::U64(_) => {
                return Err(Error::ShouldNotProduceBTreeOverlay);
            },
            Value::Composite(f) => {
                if f.len() == 0 {
                    1
                } else {
                    f.len()
                }
            },
            Value::List(l) => {
                if l.len() == 0 {
                    1
                } else {
                    (l.len() - 1) / 4 + 1
                }
            },
        };
        assert(count == spec_leaf_count(*v));
        proof {
            lemma_spec_leaf_count_bound(*v);
        }
        let shape = compute_tree_shape(count);
        Ok(BTreeOverlay { offset: chunk, num_leaf_nodes: shape.1, height: shape.0 })
    }

    /// The height of the overlaid tree.
    pub fn height(&self) -> (r: usize)
        ensures
            r == self.height,
    {
        self.height
    }

    /// How many internal chunks sit above the leaf level.
    pub fn num_internal_nodes(&self) -> (r: usize)
        requires
            self.in_bounds(),
        ensures
            r == self.num_leaf_nodes - 1,
    {
        self.num_leaf_nodes - 1
    }

    /// How many chunks the overlaid tree occupies in all.
    pub fn total_chunks(&self) -> (r: usize)
        requires
            self.in_bounds(),
        ensures
            r == 2 * self.num_leaf_nodes - 1,
    {
        2 * self.num_leaf_nodes - 1
    }

    /// The first and one-past-last chunk index of the overlaid tree.
    pub fn chunk_range(&self) -> (r: (usize, usize))
        requires
            self.in_bounds(),
        ensures
            r.0 == self.offset,
            r.1 == self.offset + 2 * self.num_leaf_nodes - 1,
    {
        (self.offset, self.offset + 2 * self.num_leaf_nodes - 1)
    }

    /// The chunk index of the first leaf.
    pub fn first_leaf_node(&self) -> (r: usize)
        requires
            self.in_bounds(),
        ensures
            r == self.offset + self.num_leaf_nodes - 1,
    {
        self.offset + self.num_leaf_nodes - 1
    }

    /// The chunk index one past the overlaid tree, where the next sibling
    /// subtree would begin.
    pub fn next_node(&self) -> (r: usize)
        requires
            self.in_bounds(),
        ensures
            r == self.offset + 2 * self.num_leaf_nodes - 1,
    {
        self.offset + 2 * self.num_leaf_nodes - 1
    }

    /// The chunk index of the overlaid tree's root.
    pub fn root(&self) -> (r: usize)
        ensures
            r == self.offset,
    {
        self.offset
    }
}

} // verus!
