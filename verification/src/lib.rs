//! An incremental Merkle-commitment engine: it maintains the hash tree root
//! of a value as a flat store of 32-byte chunks with per-chunk dirty flags,
//! and on each new version of the value rehashes only the subtrees whose
//! underlying data changed.
//!
//! The value model is deliberately one level deep: a committed value is a
//! scalar, a Composite of scalar fields, or a List of scalars, so every
//! leaf of a tree is a packed chunk.  Container elements that carry
//! subtrees of their own are outside this engine's scope.

pub mod btree_overlay;
pub mod cache;
pub mod hashing;
pub mod impls;
pub mod laws;
pub mod merkle;
pub mod pack;
pub mod resize;
pub mod slot_epoch;
pub mod slot_height;
pub mod value;
