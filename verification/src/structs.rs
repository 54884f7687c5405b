//! The node representation and the two public container types.

use vstd::prelude::*;

use crate::arena::Arena;
use crate::hasher::RandomHasher;
use crate::BLOCK_SIZE;

verus! {

/// A reference to a node: the index of its slot in the owning arena.
#[derive(Clone, Copy)]
pub struct ItemRef {
    pub idx: usize,
}

impl ItemRef {
    pub fn new(idx: usize) -> (r: ItemRef)
        ensures
            r.idx == idx,
    {
        ItemRef { idx }
    }

    /// The generation check at the heart of copy-on-write: a node stamped
    /// with the mutating scope's own generation was created by that scope,
    /// is exclusively owned by it, and may be edited in place — `Ok`.  An
    /// older node may be shared with ancestor or sibling scopes and must be
    /// copied before any edit — `Err`.
    pub fn promote<T: Item>(this: ItemRef, arena: &Arena<T>, generation: u32) -> (r: Result<
        ItemRef,
        ItemRef,
    >)
        requires
            this.idx < arena@.len(),
            arena@[this.idx as int].spec_generation() <= generation,
        ensures
            match r {
                Ok(owned) => owned == this && arena@[this.idx as int].spec_generation()
                    == generation,
                Err(shared) => shared == this && arena@[this.idx as int].spec_generation()
                    < generation,
            },
    {
        if arena.get(this.idx).generation() == generation {
            Ok(this)
        } else {
            Err(this)
        }
    }
}

/// A single hashmap item: a tagged reference that is either empty, a leaf
/// entry (the head of a collision chain in the entry arena), or a branch
/// block (in the block arena).
#[derive(Clone, Copy)]
pub enum ItemRep {
    Empty,
    Entry(ItemRef),
    Block(ItemRef),
}

impl ItemRep {
    /// The entry index, if this item is a leaf.
    pub open spec fn spec_entry(self) -> Option<ItemRef> {
        match self {
            ItemRep::Entry(r) => Some(r),
            _ => None,
        }
    }

    /// The block index, if this item is a branch.
    pub open spec fn spec_block(self) -> Option<ItemRef> {
        match self {
            ItemRep::Block(r) => Some(r),
            _ => None,
        }
    }

    pub fn is_empty(&self) -> (r: bool)
        ensures
            r == (*self is Empty),
    {
        match self {
            ItemRep::Empty => true,
            _ => false,
        }
    }

    pub fn entry(&self) -> (r: Option<ItemRef>)
        ensures
            r == self.spec_entry(),
    {
        match self {
            ItemRep::Entry(e) => Some(*e),
            _ => None,
        }
    }

    pub fn block(&self) -> (r: Option<ItemRef>)
        ensures
            r == self.spec_block(),
    {
        match self {
            ItemRep::Block(b) => Some(*b),
            _ => None,
        }
    }

    pub fn empty() -> (r: Self)
        ensures
            r is Empty,
    {
        ItemRep::Empty
    }

    pub fn from_block(block: ItemRef) -> (r: Self)
        ensures
            r == ItemRep::Block(block),
    {
        ItemRep::Block(block)
    }

    pub fn from_entry(entry: ItemRef) -> (r: Self)
        ensures
            r == ItemRep::Entry(entry),
    {
        ItemRep::Entry(entry)
    }
}

/// A node stamped with the generation that created it.
pub trait Item {
    spec fn spec_generation(&self) -> u32;

    fn generation(&self) -> (g: u32)
        ensures
            g == self.spec_generation(),
    ;
}

/// A branch node: a fixed fan-out array of child items, indexed by one
/// nibble of the hash.
pub struct Block {
    pub generation: u32,
    pub entries: Vec<ItemRep>,
}

impl Item for Block {
    open spec fn spec_generation(&self) -> u32 {
        self.generation
    }

    fn generation(&self) -> (g: u32)
        ensures
            g == self.spec_generation(),
    {
        self.generation
    }
}

impl Block {
    /// A branch with all child slots empty.
    pub fn empty(generation: u32) -> (b: Self)
        ensures
            b.generation == generation,
            b.entries@.len() == BLOCK_SIZE,
            forall|i: int| 0 <= i < BLOCK_SIZE ==> b.entries@[i] is Empty,
    {
        let mut entries: Vec<ItemRep> = Vec::new();
        let mut i: usize = 0;
        while i < BLOCK_SIZE
            invariant
                i <= BLOCK_SIZE,
                entries@.len() == i,
                forall|j: int| 0 <= j < i ==> entries@[j] is Empty,
            decreases BLOCK_SIZE - i,
        {
            entries.push(ItemRep::Empty);
            i = i + 1;
        }
        Block { generation, entries }
    }
}

/// A leaf node: one key/value pair, possibly chained to older entries that
/// share the same full 64-bit hash.
pub struct Entry<K, V> {
    pub generation: u32,
    pub key: K,
    pub value: V,
    /// Invariant: all entries reachable through `next` have the same hash,
    /// and `next` always points to an older (lower-indexed) slot.
    pub next: Option<ItemRef>,
}

impl<K, V> Item for Entry<K, V> {
    open spec fn spec_generation(&self) -> u32 {
        self.generation
    }

    fn generation(&self) -> (g: u32)
        ensures
            g == self.spec_generation(),
    {
        self.generation
    }
}

/// Owner of the two arenas and the hash strategy.  The single long-lived
/// object from which any number of root scopes are created; it outlives
/// every [`ScopedMap`] handle derived from it.
pub struct ScopedMapBase<K, V, S = RandomHasher<K>> {
    pub block_arena: Arena<Block>,
    pub entry_arena: Arena<Entry<K, V>>,
    pub hasher: S,
}

/// A lightweight scope handle: a generation stamp, a root item, and (in
/// ghost state) the set of arena slots this scope allocated itself and may
/// therefore mutate in place.
#[derive(Clone, Copy)]
pub struct ScopedMap {
    pub generation: u32,
    pub root: ItemRep,
    pub owned_blocks: Ghost<Set<int>>,
    pub owned_entries: Ghost<Set<int>>,
}

} // verus!
