//! A scoped, persistent associative container.
//!
//! The structure is a hash trie with a fixed fan-out of 16, backed by two
//! append-only arenas (one for branch nodes, one for leaf entries).  A
//! [`ScopedMapBase`] owns the arenas and the hash strategy; any number of
//! lightweight [`ScopedMap`] handles share them.  Creating a child scope is
//! O(1): the child copies only the parent's root reference and a fresh
//! generation stamp.  An insert through a handle never mutates a node stamped
//! with an older generation; it copies the path down to the edited slot
//! instead, so ancestor and sibling scopes keep seeing their own maps.

use vstd::prelude::*;

pub mod arena;
pub mod hasher;
pub mod laws;
pub mod map;
pub mod model;
pub mod structs;

pub use arena::Arena;
pub use laws::{
    assoc_frame_lookup, assoc_lookup, frame_map, frames_map, lemma_ancestor_unaffected,
    lemma_collision_independence, lemma_insert_idempotent, lemma_last_write_wins,
    lemma_reference_equivalence, lemma_scope_isolation, lemma_sibling_unaffected,
};
pub use hasher::{KeyEq, KeyHasher, MaskedHasher, RandomHasher, U64Hasher};
pub use structs::{Block, Entry, Item, ItemRef, ItemRep, ScopedMap, ScopedMapBase};

verus! {

/// Bits of the hash consumed per trie level.
pub const BLOCK_BITS: u64 = 4;

/// Fan-out of a branch node: one child per value of a 4-bit nibble.
pub const BLOCK_SIZE: usize = 16;

} // verus!
