//! The container operations: base construction, scope creation, lookup and
//! insert.

use core::hash::Hash;

use vstd::prelude::*;

use crate::arena::Arena;
use crate::hasher::{KeyEq, KeyHasher, RandomHasher};
use crate::model::{
    block_block_nodes, block_entry_nodes, block_separated, chain_lookup, chain_nodes, chain_skips,
    chain_wf, hash_has_path, item_block_nodes, item_entry_nodes, item_wf, lemma_block_copy,
    lemma_block_nodes_elim, lemma_block_nodes_member, lemma_chain_frame,
    lemma_chain_lookup_found, lemma_chain_nodes_facts, lemma_chain_step,
    lemma_chain_update_value, lemma_children_wf_at, lemma_children_wf_intro,
    lemma_hash_eq_from_nibbles, lemma_hash_path_push, lemma_item_frame, lemma_item_nodes_facts,
    lemma_item_wf_gen_mono, lemma_nibble_bound, nibble, owned_covers, path_lookup,
};
use crate::structs::{Block, Entry, ItemRef, ItemRep, ScopedMap, ScopedMapBase};

verus! {

impl<K, V, S: KeyHasher<K>> ScopedMapBase<K, V, S> {
    /// The hash strategy of this base, as a mathematical function of the key.
    pub open spec fn hash_fn(self) -> spec_fn(K) -> u64 {
        let h = self.hasher;
        |k: K| h.hash_spec(k)
    }

    /// A base with no allocations yet, using the given hash strategy.
    pub fn with_hasher(hasher: S) -> (base: Self)
        ensures
            base.block_arena@ == Seq::<Block>::empty(),
            base.entry_arena@ == Seq::<Entry<K, V>>::empty(),
            base.hasher == hasher,
    {
        ScopedMapBase { block_arena: Arena::new(), entry_arena: Arena::new(), hasher }
    }

    /// A fresh root scope over this base: generation 0, an empty root, and
    /// no owned nodes.  O(1); any number of root scopes may coexist.
    pub fn make_map(&self) -> (m: ScopedMap)
        ensures
            m.wf(*self),
            m.as_map(*self) == Map::<K, V>::empty(),
            m.generation == 0,
            m.root is Empty,
            m.owned_blocks@ == Set::<int>::empty(),
            m.owned_entries@ == Set::<int>::empty(),
    {
        let m = ScopedMap {
            generation: 0,
            root: ItemRep::Empty,
            owned_blocks: Ghost(Set::empty()),
            owned_entries: Ghost(Set::empty()),
        };
        proof {
            assert(m.as_map(*self) =~= Map::<K, V>::empty());
        }
        m
    }
}

impl<K: Hash, V> ScopedMapBase<K, V, RandomHasher<K>> {
    /// A base with the default hash strategy: ahash, keyed randomly per base.
    pub fn new() -> (base: Self)
        ensures
            base.block_arena@ == Seq::<Block>::empty(),
            base.entry_arena@ == Seq::<Entry<K, V>>::empty(),
    {
        Self::with_hasher(RandomHasher::new())
    }
}

impl<K: Hash, V> Default for ScopedMapBase<K, V, RandomHasher<K>> {
    fn default() -> (base: Self)
        ensures
            base.block_arena@ == Seq::<Block>::empty(),
            base.entry_arena@ == Seq::<Entry<K, V>>::empty(),
    {
        Self::new()
    }
}

impl ScopedMap {
    /// The handle is well formed over `base`: its root subtree satisfies the
    /// trie invariants for its generation, every reachable node of its own
    /// generation is recorded as owned, and the owned sets list only live
    /// slots stamped with its generation.
    pub open spec fn wf<K, V, S: KeyHasher<K>>(self, base: ScopedMapBase<K, V, S>) -> bool {
        let bs = base.block_arena@;
        let es = base.entry_arena@;
        &&& item_wf(bs, es, self.root, self.generation, Seq::<u64>::empty(), base.hash_fn())
        &&& owned_covers(
            bs,
            es,
            self.root,
            self.generation,
            0,
            self.owned_blocks@,
            self.owned_entries@,
        )
        &&& forall|i: int| #[trigger]
            self.owned_entries@.contains(i) ==> 0 <= i < es.len() && es[i].generation
                == self.generation
        &&& forall|i: int| #[trigger]
            self.owned_blocks@.contains(i) ==> 0 <= i < bs.len() && bs[i].generation
                == self.generation
    }

    /// The map this handle represents over `base`: the keys its trie answers
    /// and the values it answers with.
    pub open spec fn as_map<K, V, S: KeyHasher<K>>(self, base: ScopedMapBase<K, V, S>) -> Map<
        K,
        V,
    > {
        Map::new(
            |k: K|
                path_lookup(
                    base.block_arena@,
                    base.entry_arena@,
                    self.root,
                    base.hasher.hash_spec(k),
                    0,
                    k,
                ) is Some,
            |k: K|
                path_lookup(
                    base.block_arena@,
                    base.entry_arena@,
                    self.root,
                    base.hasher.hash_spec(k),
                    0,
                    k,
                ).unwrap(),
        )
    }

    /// A child scope: the next generation, the same root reference, and no
    /// owned nodes.  O(1) — no node is copied, the trie is shared.
    pub fn new_scope<K, V, S: KeyHasher<K>>(&self, base: &ScopedMapBase<K, V, S>) -> (child:
        ScopedMap)
        requires
            self.wf(*base),
            self.generation < u32::MAX,
        ensures
            child.wf(*base),
            child.as_map(*base) == self.as_map(*base),
            child.generation == self.generation + 1,
            child.root == self.root,
            child.owned_blocks@ == Set::<int>::empty(),
            child.owned_entries@ == Set::<int>::empty(),
    {
        let child = ScopedMap {
            generation: self.generation + 1,
            root: self.root,
            owned_blocks: Ghost(Set::empty()),
            owned_entries: Ghost(Set::empty()),
        };
        proof {
            let bs = base.block_arena@;
            let es = base.entry_arena@;
            let hf = base.hash_fn();
            lemma_item_wf_gen_mono(
                bs,
                es,
                self.root,
                self.generation,
                (self.generation + 1) as u32,
                Seq::<u64>::empty(),
                hf,
            );
            lemma_item_nodes_facts(bs, es, self.root, self.generation, Seq::<u64>::empty(), hf);
            assert(child.as_map(*base) =~= self.as_map(*base));
        }
        child
    }

    /// Looks the key up in this scope: the trie is descended one hash nibble
    /// per level, then the collision chain is walked comparing keys.  Pure
    /// traversal; never allocates or mutates.
    pub fn lookup<'a, K: KeyEq, V, S: KeyHasher<K>>(
        &self,
        base: &'a ScopedMapBase<K, V, S>,
        key: &K,
    ) -> (r: Option<&'a V>)
        requires
            self.wf(*base),
        ensures
            match r {
                Some(v) => self.as_map(*base).contains_key(*key) && *v == self.as_map(*base)[*key],
                None => !self.as_map(*base).contains_key(*key),
            },
    {
        let ghost bs = base.block_arena@;
        let ghost es = base.entry_arena@;
        let ghost hf = base.hash_fn();
        let ghost g = self.generation;
        let hash = base.hasher.hash(key);
        let head: ItemRef = match self.root.block() {
            Some(b) => {
                match Block::get_entry_imm(
                    &base.block_arena,
                    &base.entry_arena,
                    b,
                    hash,
                    Ghost(g),
                    Ghost(hf),
                ) {
                    Some(e) => e,
                    None => {
                        return None;
                    },
                }
            },
            None => {
                match self.root.entry() {
                    Some(e) => e,
                    None => {
                        return None;
                    },
                }
            },
        };
        proof {
            assert(chain_lookup(es, head.idx as int, *key) == path_lookup(
                bs,
                es,
                self.root,
                hash,
                0,
                *key,
            ));
        }
        Entry::lookup(
            &base.entry_arena,
            head,
            key,
            Ghost(g),
            Ghost(hf(es[head.idx as int].key)),
            Ghost(hf),
        )
    }
}

impl Block {
    /// Descends from this branch to the entry chain that could hold `hash`:
    /// one nibble of the hash selects a child per level, until a leaf or an
    /// empty slot ends the walk.  Pure traversal; never allocates.
    pub fn get_entry_imm<K, V>(
        blocks: &Arena<Block>,
        entries: &Arena<Entry<K, V>>,
        b: ItemRef,
        hash: u64,
        Ghost(g): Ghost<u32>,
        Ghost(hf): Ghost<spec_fn(K) -> u64>,
    ) -> (r: Option<ItemRef>)
        requires
            item_wf(blocks@, entries@, ItemRep::Block(b), g, Seq::<u64>::empty(), hf),
        ensures
            match r {
                Some(e) => {
                    &&& chain_wf(entries@, e.idx as int, g, hf(entries@[e.idx as int].key), hf)
                    &&& forall|k: K| #[trigger]
                        path_lookup(blocks@, entries@, ItemRep::Block(b), hash, 0, k)
                            == chain_lookup(entries@, e.idx as int, k)
                },
                None => forall|k: K| #[trigger]
                    path_lookup(blocks@, entries@, ItemRep::Block(b), hash, 0, k) is None,
            },
    {
        let ghost bs = blocks@;
        let ghost es = entries@;
        let mut item = ItemRep::Block(b);
        let mut level: usize = 0;
        let ghost mut path: Seq<u64> = Seq::empty();
        loop
            invariant
                level <= 16,
                path.len() == level,
                item_wf(bs, es, item, g, path, hf),
                bs == blocks@,
                es == entries@,
                forall|k: K| #[trigger]
                    path_lookup(bs, es, item, hash, level as int, k) == path_lookup(
                        bs,
                        es,
                        ItemRep::Block(b),
                        hash,
                        0,
                        k,
                    ),
            decreases 16 - level,
        {
            match item {
                ItemRep::Empty => {
                    proof {
                        assert forall|k: K| #[trigger]
                            path_lookup(bs, es, ItemRep::Block(b), hash, 0, k) is None by {
                            assert(path_lookup(bs, es, item, hash, level as int, k) == path_lookup(
                                bs,
                                es,
                                ItemRep::Block(b),
                                hash,
                                0,
                                k,
                            ));
                        }
                    }
                    return None;
                },
                ItemRep::Entry(e) => {
                    proof {
                        assert forall|k: K| #[trigger]
                            path_lookup(bs, es, ItemRep::Block(b), hash, 0, k) == chain_lookup(
                            es,
                            e.idx as int,
                            k,
                        ) by {
                            assert(path_lookup(bs, es, item, hash, level as int, k) == path_lookup(
                                bs,
                                es,
                                ItemRep::Block(b),
                                hash,
                                0,
                                k,
                            ));
                        }
                    }
                    return Some(e);
                },
                ItemRep::Block(r) => {
                    proof {
                        lemma_nibble_bound(hash, level as int);
                        lemma_children_wf_at(bs, es, r.idx as int, g, path, 0,
                            nibble(hash, level as int) as int, hf);
                    }
                    let ghost prev_level = level as int;
                    let n = ((hash >> ((4 * level) as u64)) & 0xf) as usize;
                    item = blocks.items[r.idx].entries[n];
                    level = level + 1;
                    proof {
                        path = path.push(n as u64);
                        assert(n as u64 == nibble(hash, prev_level));
                        assert forall|k: K| #[trigger]
                            path_lookup(bs, es, item, hash, level as int, k) == path_lookup(
                            bs,
                            es,
                            ItemRep::Block(b),
                            hash,
                            0,
                            k,
                        ) by {
                            assert(path_lookup(bs, es, ItemRep::Block(r), hash, prev_level, k)
                                == path_lookup(bs, es, item, hash, level as int, k));
                        }
                    }
                },
            }
        }
    }
}

impl<K, V> Entry<K, V> {
    /// The hash of this entry's key under the given strategy.
    pub fn hash<S: KeyHasher<K>>(&self, hasher: &S) -> (h: u64)
        ensures
            h == hasher.hash_spec(self.key),
    {
        hasher.hash(&self.key)
    }
}

impl<K: KeyEq, V> Entry<K, V> {
    /// Walks the collision chain headed at `head`, comparing keys by
    /// equality, and returns the value of the first exact match.
    pub fn lookup<'a>(
        entries: &'a Arena<Entry<K, V>>,
        head: ItemRef,
        key: &K,
        Ghost(g): Ghost<u32>,
        Ghost(h): Ghost<u64>,
        Ghost(hf): Ghost<spec_fn(K) -> u64>,
    ) -> (r: Option<&'a V>)
        requires
            chain_wf(entries@, head.idx as int, g, h, hf),
        ensures
            match r {
                Some(v) => chain_lookup(entries@, head.idx as int, *key) == Some(*v),
                None => chain_lookup(entries@, head.idx as int, *key) is None,
            },
    {
        let ghost es = entries@;
        let mut j = head.idx;
        loop
            invariant
                es == entries@,
                chain_wf(es, j as int, g, h, hf),
                chain_lookup(es, j as int, *key) == chain_lookup(es, head.idx as int, *key),
            decreases j,
        {
            let e = &entries.items[j];
            if key.eq_key(&e.key) {
                return Some(&entries.items[j].value);
            }
            match e.next {
                Some(nx) => {
                    j = nx.idx;
                },
                None => {
                    return None;
                },
            }
        }
    }
}

/// The split phase of an insert: the resolved slot held a chain whose hash
/// differs from the new key's hash.  Builds the run of branches along the
/// shared hash prefix, and at the level where the nibbles first differ
/// places the old chain and a fresh entry in their distinct child slots.
/// Only allocates: no existing node is touched.
fn split_at<K, V, S: KeyHasher<K>>(
    base: &mut ScopedMapBase<K, V, S>,
    old_head: ItemRef,
    Ghost(old_hash): Ghost<u64>,
    level: usize,
    Ghost(path): Ghost<Seq<u64>>,
    hash: u64,
    key: K,
    value: V,
    g: u32,
    Ghost(ob): Ghost<Set<int>>,
    Ghost(oe): Ghost<Set<int>>,
) -> (res: (ItemRep, Ghost<Set<int>>, Ghost<Set<int>>))
    requires
        chain_wf(
            old(base).entry_arena@,
            old_head.idx as int,
            g,
            old_hash,
            old(base).hash_fn(),
        ),
        old_hash == old(base).hash_fn()(old(base).entry_arena@[old_head.idx as int].key),
        hash == old(base).hash_fn()(key),
        hash != old_hash,
        path.len() == level,
        level < 16,
        hash_has_path(hash, path),
        hash_has_path(old_hash, path),
        forall|i: int| #[trigger]
            ob.contains(i) ==> 0 <= i < old(base).block_arena@.len()
                && old(base).block_arena@[i].generation == g,
        forall|i: int| #[trigger]
            oe.contains(i) ==> 0 <= i < old(base).entry_arena@.len()
                && old(base).entry_arena@[i].generation == g,
        forall|i: int| #[trigger]
            chain_nodes(old(base).entry_arena@, old_head.idx as int).contains(i)
                && old(base).entry_arena@[i].generation == g ==> oe.contains(i),
    ensures
        final(base).hasher == old(base).hasher,
        old(base).entry_arena@.len() <= final(base).entry_arena@.len(),
        old(base).block_arena@.len() <= final(base).block_arena@.len(),
        forall|i: int|
            0 <= i < old(base).entry_arena@.len() ==> #[trigger] final(base).entry_arena@[i]
                == old(base).entry_arena@[i],
        forall|i: int|
            0 <= i < old(base).block_arena@.len() ==> #[trigger] final(base).block_arena@[i]
                == old(base).block_arena@[i],
        item_wf(final(base).block_arena@, final(base).entry_arena@, res.0, g, path, old(
            base,
        ).hash_fn()),
        forall|i: int| #[trigger]
            item_entry_nodes(
                final(base).block_arena@,
                final(base).entry_arena@,
                res.0,
                path.len() as int,
            ).contains(i) ==> chain_nodes(old(base).entry_arena@, old_head.idx as int).contains(i)
                || old(base).entry_arena@.len() <= i,
        forall|i: int| #[trigger]
            item_block_nodes(
                final(base).block_arena@,
                final(base).entry_arena@,
                res.0,
                path.len() as int,
            ).contains(i) ==> old(base).block_arena@.len() <= i,
        owned_covers(
            final(base).block_arena@,
            final(base).entry_arena@,
            res.0,
            g,
            path.len() as int,
            res.1@,
            res.2@,
        ),
        forall|i: int| #[trigger]
            res.1@.contains(i) ==> 0 <= i < final(base).block_arena@.len()
                && final(base).block_arena@[i].generation == g,
        forall|i: int| #[trigger]
            res.2@.contains(i) ==> 0 <= i < final(base).entry_arena@.len()
                && final(base).entry_arena@[i].generation == g,
        forall|i: int| ob.contains(i) ==> #[trigger] res.1@.contains(i),
        forall|i: int| oe.contains(i) ==> #[trigger] res.2@.contains(i),
        forall|i: int| #[trigger]
            res.1@.contains(i) && !ob.contains(i) ==> old(base).block_arena@.len() <= i,
        forall|i: int| #[trigger]
            res.2@.contains(i) && !oe.contains(i) ==> old(base).entry_arena@.len() <= i,
        forall|k: K|
            hash_has_path(old(base).hash_fn()(k), path) ==> #[trigger] path_lookup(
                final(base).block_arena@,
                final(base).entry_arena@,
                res.0,
                old(base).hash_fn()(k),
                path.len() as int,
                k,
            ) == if k == key {
                Some(value)
            } else {
                chain_lookup(old(base).entry_arena@, old_head.idx as int, k)
            },
    decreases 16 - level,
{
    let ghost bs0 = base.block_arena@;
    let ghost es0 = base.entry_arena@;
    let ghost hf = base.hash_fn();
    let old_hash_x = base.entry_arena.items[old_head.idx].hash(&base.hasher);
    proof {
        assert(old_hash_x == old_hash);
        lemma_nibble_bound(hash, level as int);
        lemma_nibble_bound(old_hash, level as int);
        lemma_chain_nodes_facts(es0, old_head.idx as int, g, old_hash, hf);
    }
    let n_new = ((hash >> ((4 * level) as u64)) & 0xf) as usize;
    let n_old = ((old_hash_x >> ((4 * level) as u64)) & 0xf) as usize;
    if n_new == n_old {
        proof {
            if level == 15 {
                assert forall|l: int| 0 <= l < 16 implies nibble(hash, l) == nibble(
                    old_hash,
                    l,
                ) by {
                    if l < 15 {
                        assert(nibble(hash, l) == path[l]);
                        assert(nibble(old_hash, l) == path[l]);
                    }
                }
                lemma_hash_eq_from_nibbles(hash, old_hash);
                assert(false);
            }
            lemma_hash_path_push(hash, path, n_new as u64);
            lemma_hash_path_push(old_hash, path, n_new as u64);
        }
        let (inner, ob1, oe1) = split_at(
            base,
            old_head,
            Ghost(old_hash),
            level + 1,
            Ghost(path.push(n_new as u64)),
            hash,
            key,
            value,
            g,
            Ghost(ob),
            Ghost(oe),
        );
        let ghost bs1 = base.block_arena@;
        let ghost es1 = base.entry_arena@;
        let mut blk = Block::empty(g);
        blk.entries[n_new] = inner;
        let b = base.block_arena.allocate(blk);
        let res_item = ItemRep::Block(ItemRef::new(b));
        proof {
            let bs2 = base.block_arena@;
            let es2 = base.entry_arena@;
            let bi = b as int;
            let level_i = level as int;
            assert(es2 == es1);
            assert(bs2[bi].entries@.len() == 16);
            assert(bs2[bi].entries@[n_new as int] == inner);
            assert(forall|m: int|
                0 <= m < 16 && m != n_new as int ==> bs2[bi].entries@[m] is Empty);
            // the rebuilt inner item is untouched by pushing the block
            lemma_item_nodes_facts(bs1, es1, inner, g, path.push(n_new as u64), hf);
            lemma_item_frame(bs1, es1, bs2, es2, inner, g, path.push(n_new as u64), hf);
            // children well-formedness of the new block
            assert forall|m: int| 0 <= m < 16 implies item_wf(
                bs2,
                es2,
                #[trigger] bs2[bi].entries@[m],
                g,
                path.push(m as u64),
                hf,
            ) by {
                if m != n_new as int {
                    assert(bs2[bi].entries@[m] is Empty);
                }
            }
            lemma_children_wf_intro(bs2, es2, bi, g, path, 0, hf);
            // separation: only one child is inhabited
            assert forall|m: int|
                0 <= m < 16 && m != n_new as int implies item_entry_nodes(
                bs2,
                es2,
                #[trigger] bs2[bi].entries@[m],
                level_i + 1,
            ) == Set::<int>::empty() && item_block_nodes(bs2, es2, bs2[bi].entries@[m], level_i + 1)
                == Set::<int>::empty() by {
                assert(bs2[bi].entries@[m] is Empty);
            }
            assert(block_separated(bs2, es2, bi, level_i)) by {
                assert forall|n1: int, n2: int|
                    0 <= n1 < 16 && 0 <= n2 < 16 && n1 != n2 implies (#[trigger] item_entry_nodes(
                    bs2,
                    es2,
                    bs2[bi].entries@[n1],
                    level_i + 1,
                )).disjoint(#[trigger] item_entry_nodes(bs2, es2, bs2[bi].entries@[n2], level_i + 1))
                    by {
                    if n1 != n_new as int {
                        assert(item_entry_nodes(bs2, es2, bs2[bi].entries@[n1], level_i + 1)
                            =~= Set::<int>::empty());
                    } else {
                        assert(item_entry_nodes(bs2, es2, bs2[bi].entries@[n2], level_i + 1)
                            =~= Set::<int>::empty());
                    }
                }
                assert forall|n1: int, n2: int|
                    0 <= n1 < 16 && 0 <= n2 < 16 && n1 != n2 implies (#[trigger] item_block_nodes(
                    bs2,
                    es2,
                    bs2[bi].entries@[n1],
                    level_i + 1,
                )).disjoint(#[trigger] item_block_nodes(bs2, es2, bs2[bi].entries@[n2], level_i + 1))
                    by {
                    if n1 != n_new as int {
                        assert(item_block_nodes(bs2, es2, bs2[bi].entries@[n1], level_i + 1)
                            =~= Set::<int>::empty());
                    } else {
                        assert(item_block_nodes(bs2, es2, bs2[bi].entries@[n2], level_i + 1)
                            =~= Set::<int>::empty());
                    }
                }
                assert forall|m: int| 0 <= m < 16 implies !(#[trigger] item_block_nodes(
                    bs2,
                    es2,
                    bs2[bi].entries@[m],
                    level_i + 1,
                )).contains(bi) by {
                    if m == n_new as int {
                        assert(item_block_nodes(bs2, es2, inner, level_i + 1) == item_block_nodes(
                            bs1,
                            es1,
                            inner,
                            level_i + 1,
                        ));
                    } else {
                        assert(bs2[bi].entries@[m] is Empty);
                    }
                }
            }
            assert(item_wf(bs2, es2, res_item, g, path, hf));
            // reachable sets of the new block
            lemma_block_nodes_elim(bs2, es2, bi, level_i, 0);
            lemma_block_nodes_member(bs2, es2, bi, level_i, 0, n_new as int);
            assert(item_entry_nodes(bs2, es2, res_item, level_i) =~= item_entry_nodes(
                bs1,
                es1,
                inner,
                level_i + 1,
            )) by {
                assert forall|i: int| #[trigger]
                    item_entry_nodes(bs2, es2, res_item, level_i).contains(
                    i,
                ) implies item_entry_nodes(bs1, es1, inner, level_i + 1).contains(i) by {
                    assert(block_entry_nodes(bs2, es2, bi, level_i, 0).contains(i));
                    let m = choose|m: int|
                        0 <= m < 16 && item_entry_nodes(bs2, es2, bs2[bi].entries@[m], level_i + 1)
                            .contains(i);
                    assert(item_entry_nodes(bs2, es2, bs2[bi].entries@[m], level_i + 1).contains(
                        i,
                    ));
                    if m != n_new as int {
                        assert(item_entry_nodes(bs2, es2, bs2[bi].entries@[m], level_i + 1)
                            =~= Set::<int>::empty());
                    }
                }
                assert forall|i: int| #[trigger]
                    item_entry_nodes(bs1, es1, inner, level_i + 1).contains(
                    i,
                ) implies item_entry_nodes(bs2, es2, res_item, level_i).contains(i) by {
                    assert(item_entry_nodes(bs2, es2, inner, level_i + 1).contains(i));
                    assert(block_entry_nodes(bs2, es2, bi, level_i, 0).contains(i));
                }
            }
            assert(item_block_nodes(bs2, es2, res_item, level_i) =~= item_block_nodes(
                bs1,
                es1,
                inner,
                level_i + 1,
            ).insert(bi)) by {
                assert forall|i: int|
                    #[trigger] item_block_nodes(bs2, es2, res_item, level_i).contains(i) && i
                        != bi implies item_block_nodes(bs1, es1, inner, level_i + 1).contains(
                    i,
                ) by {
                    assert(block_block_nodes(bs2, es2, bi, level_i, 0).contains(i));
                    let m = choose|m: int|
                        0 <= m < 16 && item_block_nodes(bs2, es2, bs2[bi].entries@[m], level_i + 1)
                            .contains(i);
                    assert(item_block_nodes(bs2, es2, bs2[bi].entries@[m], level_i + 1).contains(
                        i,
                    ));
                    if m != n_new as int {
                        assert(item_block_nodes(bs2, es2, bs2[bi].entries@[m], level_i + 1)
                            =~= Set::<int>::empty());
                    }
                }
                assert forall|i: int| #[trigger]
                    item_block_nodes(bs1, es1, inner, level_i + 1).contains(
                    i,
                ) implies item_block_nodes(bs2, es2, res_item, level_i).contains(i) by {
                    assert(item_block_nodes(bs2, es2, inner, level_i + 1).contains(i));
                    assert(block_block_nodes(bs2, es2, bi, level_i, 0).contains(i));
                }
            }
            lemma_item_nodes_facts(bs2, es2, res_item, g, path, hf);
            assert(owned_covers(bs2, es2, res_item, g, level_i, ob1@.insert(b as int), oe1@)) by {
                assert forall|i: int|
                    (#[trigger] item_entry_nodes(bs2, es2, res_item, level_i).contains(i)) && 0
                        <= i < es2.len() && es2[i].generation == g implies oe1@.contains(i) by {
                    assert(item_entry_nodes(bs1, es1, inner, level_i + 1).contains(i));
                }
                assert forall|i: int|
                    (#[trigger] item_block_nodes(bs2, es2, res_item, level_i).contains(i)) && 0
                        <= i < bs2.len() && bs2[i].generation == g implies ob1@.insert(
                    b as int,
                ).contains(i) by {
                    if i != bi {
                        assert(item_block_nodes(bs1, es1, inner, level_i + 1).contains(i));
                    }
                }
            }
            // lookups through the new block
            assert forall|k: K| hash_has_path(hf(k), path) implies #[trigger] path_lookup(
                bs2,
                es2,
                res_item,
                hf(k),
                level_i,
                k,
            ) == (if k == key {
                Some(value)
            } else {
                chain_lookup(es0, old_head.idx as int, k)
            }) by {
                let hk = hf(k);
                lemma_nibble_bound(hk, level_i);
                let m = nibble(hk, level_i) as int;
                assert(path_lookup(bs2, es2, res_item, hk, level_i, k) == path_lookup(
                    bs2,
                    es2,
                    bs2[bi].entries@[m],
                    hk,
                    level_i + 1,
                    k,
                ));
                if m == n_new as int {
                    lemma_hash_path_push(hk, path, n_new as u64);
                    assert(path_lookup(bs2, es2, inner, hk, level_i + 1, k) == path_lookup(
                        bs1,
                        es1,
                        inner,
                        hk,
                        level_i + 1,
                        k,
                    ));
                } else {
                    assert(k != key);
                    assert(path_lookup(bs2, es2, bs2[bi].entries@[m], hk, level_i + 1, k)
                        is None);
                    if chain_lookup(es0, old_head.idx as int, k) is Some {
                        lemma_chain_lookup_found(es0, old_head.idx as int, g, old_hash, hf, k);
                        assert(nibble(hk, level_i) == nibble(old_hash, level_i));
                        assert(false);
                    }
                }
            }
        }
        (res_item, Ghost(ob1@.insert(b as int)), oe1)
    } else {
        let e = base.entry_arena.allocate(
            Entry { generation: g, key, value, next: None },
        );
        let mut blk = Block::empty(g);
        blk.entries[n_old] = ItemRep::Entry(old_head);
        blk.entries[n_new] = ItemRep::Entry(ItemRef::new(e));
        let b = base.block_arena.allocate(blk);
        let res_item = ItemRep::Block(ItemRef::new(b));
        proof {
            let bs2 = base.block_arena@;
            let es2 = base.entry_arena@;
            let bi = b as int;
            let ei = e as int;
            let level_i = level as int;
            assert(nibble(hash, level_i) == n_new as u64);
            assert(nibble(old_hash, level_i) == n_old as u64);
            assert(bs2[bi].entries@.len() == 16);
            assert(bs2[bi].entries@[n_old as int] == ItemRep::Entry(old_head));
            assert(bs2[bi].entries@[n_new as int] == ItemRep::Entry(ItemRef { idx: e }));
            assert(forall|m: int|
                0 <= m < 16 && m != n_old as int && m != n_new as int ==> bs2[bi].entries@[m]
                    is Empty);
            assert(es2 == es0.push(Entry { generation: g, key, value, next: None }));
            // old chain untouched by the append
            lemma_chain_frame(es0, es2, old_head.idx as int, g, old_hash, hf);
            // new singleton chain
            assert(es2[ei].key == key);
            assert(chain_wf(es2, ei, g, hash, hf));
            assert(chain_nodes(es2, ei) =~= Set::<int>::empty().insert(ei));
            // child well-formedness
            lemma_hash_path_push(old_hash, path, n_old as u64);
            lemma_hash_path_push(hash, path, n_new as u64);
            assert forall|m: int| 0 <= m < 16 implies item_wf(
                bs2,
                es2,
                #[trigger] bs2[bi].entries@[m],
                g,
                path.push(m as u64),
                hf,
            ) by {
                if m == n_old as int {
                    assert(es2[old_head.idx as int].key == es0[old_head.idx as int].key);
                    assert(hf(es2[old_head.idx as int].key) == old_hash);
                } else if m == n_new as int {
                    assert(hf(es2[ei].key) == hash);
                } else {
                    assert(bs2[bi].entries@[m] is Empty);
                }
            }
            lemma_children_wf_intro(bs2, es2, bi, g, path, 0, hf);
            // reachable sets of the two inhabited children
            assert(item_entry_nodes(bs2, es2, bs2[bi].entries@[n_old as int], level_i + 1)
                == chain_nodes(es2, old_head.idx as int));
            assert(item_entry_nodes(bs2, es2, bs2[bi].entries@[n_new as int], level_i + 1)
                == chain_nodes(es2, ei));
            assert forall|m: int|
                0 <= m < 16 && m != n_old as int && m != n_new as int implies item_entry_nodes(
                bs2,
                es2,
                #[trigger] bs2[bi].entries@[m],
                level_i + 1,
            ) == Set::<int>::empty() && item_block_nodes(bs2, es2, bs2[bi].entries@[m], level_i + 1)
                == Set::<int>::empty() by {
                assert(bs2[bi].entries@[m] is Empty);
            }
            assert(forall|m: int|
                0 <= m < 16 ==> #[trigger] item_block_nodes(bs2, es2, bs2[bi].entries@[m], level_i + 1)
                    =~= Set::<int>::empty());
            assert(block_separated(bs2, es2, bi, level_i)) by {
                assert forall|n1: int, n2: int|
                    0 <= n1 < 16 && 0 <= n2 < 16 && n1 != n2 implies (#[trigger] item_entry_nodes(
                    bs2,
                    es2,
                    bs2[bi].entries@[n1],
                    level_i + 1,
                )).disjoint(#[trigger] item_entry_nodes(bs2, es2, bs2[bi].entries@[n2], level_i + 1))
                    by {
                    lemma_chain_nodes_facts(es2, old_head.idx as int, g, old_hash, hf);
                    assert(!chain_nodes(es2, old_head.idx as int).contains(ei));
                }
                assert forall|n1: int, n2: int|
                    0 <= n1 < 16 && 0 <= n2 < 16 && n1 != n2 implies (#[trigger] item_block_nodes(
                    bs2,
                    es2,
                    bs2[bi].entries@[n1],
                    level_i + 1,
                )).disjoint(#[trigger] item_block_nodes(bs2, es2, bs2[bi].entries@[n2], level_i + 1))
                    by {}
            }
            assert(item_wf(bs2, es2, res_item, g, path, hf));
            lemma_block_nodes_elim(bs2, es2, bi, level_i, 0);
            assert forall|i: int| #[trigger]
                item_entry_nodes(bs2, es2, res_item, level_i).contains(i) implies chain_nodes(
                es0,
                old_head.idx as int,
            ).contains(i) || es0.len() <= i by {
                assert(item_entry_nodes(bs2, es2, res_item, level_i) == block_entry_nodes(
                    bs2,
                    es2,
                    bi,
                    level_i,
                    0,
                ));
                assert(block_entry_nodes(bs2, es2, bi, level_i, 0).contains(i));
                let m = choose|m: int|
                    0 <= m < 16 && item_entry_nodes(bs2, es2, bs2[bi].entries@[m], level_i + 1)
                        .contains(i);
                assert(item_entry_nodes(bs2, es2, bs2[bi].entries@[m], level_i + 1).contains(i));
                if m == n_old as int {
                    assert(chain_nodes(es0, old_head.idx as int).contains(i));
                } else if m == n_new as int {
                    assert(i == ei);
                } else {
                    assert(item_entry_nodes(bs2, es2, bs2[bi].entries@[m], level_i + 1)
                        =~= Set::<int>::empty());
                }
            }
            assert forall|i: int| #[trigger]
                item_block_nodes(bs2, es2, res_item, level_i).contains(i) implies bs0.len()
                <= i by {
                assert(item_block_nodes(bs2, es2, res_item, level_i) == block_block_nodes(
                    bs2,
                    es2,
                    bi,
                    level_i,
                    0,
                ).insert(bi));
                if i != bi {
                    assert(block_block_nodes(bs2, es2, bi, level_i, 0).contains(i));
                    let m = choose|m: int|
                        0 <= m < 16 && item_block_nodes(bs2, es2, bs2[bi].entries@[m], level_i + 1)
                            .contains(i);
                    assert(item_block_nodes(bs2, es2, bs2[bi].entries@[m], level_i + 1).contains(
                        i,
                    ));
                    assert(item_block_nodes(bs2, es2, bs2[bi].entries@[m], level_i + 1)
                        =~= Set::<int>::empty());
                }
            }
            // ownership coverage: chain nodes of this generation were owned
            // already; the new entry and block slots are added
            assert(owned_covers(
                bs2,
                es2,
                res_item,
                g,
                level_i,
                ob.insert(b as int),
                oe.insert(e as int),
            )) by {
                lemma_chain_nodes_facts(es0, old_head.idx as int, g, old_hash, hf);
                assert forall|i: int|
                    (#[trigger] item_entry_nodes(bs2, es2, res_item, level_i).contains(i)) && 0
                        <= i < es2.len() && es2[i].generation == g implies oe.insert(
                    e as int,
                ).contains(i) by {
                    if i != ei {
                        assert(chain_nodes(es0, old_head.idx as int).contains(i) || es0.len()
                            <= i);
                        assert(chain_nodes(es0, old_head.idx as int).contains(i));
                        assert(es2[i] == es0[i]);
                        assert(oe.contains(i));
                    }
                }
                assert forall|i: int|
                    (#[trigger] item_block_nodes(bs2, es2, res_item, level_i).contains(i)) && 0
                        <= i < bs2.len() && bs2[i].generation == g implies ob.insert(
                    b as int,
                ).contains(i) by {
                    assert(bs0.len() <= i);
                    assert(i < bs2.len());
                    assert(i == bi);
                }
            }
            // lookups through the new block
            assert forall|k: K| hash_has_path(hf(k), path) implies #[trigger] path_lookup(
                bs2,
                es2,
                res_item,
                hf(k),
                level_i,
                k,
            ) == (if k == key {
                Some(value)
            } else {
                chain_lookup(es0, old_head.idx as int, k)
            }) by {
                let hk = hf(k);
                lemma_nibble_bound(hk, level_i);
                let m = nibble(hk, level_i) as int;
                assert(path_lookup(bs2, es2, res_item, hk, level_i, k) == path_lookup(
                    bs2,
                    es2,
                    bs2[bi].entries@[m],
                    hk,
                    level_i + 1,
                    k,
                ));
                if chain_lookup(es0, old_head.idx as int, k) is Some {
                    lemma_chain_lookup_found(es0, old_head.idx as int, g, old_hash, hf, k);
                }
                if m == n_new as int {
                    if k != key {
                        assert(chain_lookup(es2, ei, k) is None);
                        assert(nibble(hk, level_i) != nibble(old_hash, level_i));
                        assert(chain_lookup(es0, old_head.idx as int, k) is None);
                    }
                } else if m == n_old as int {
                    assert(k != key);
                } else {
                    assert(k != key);
                    assert(chain_lookup(es0, old_head.idx as int, k) is None);
                }
            }
        }
        (
            res_item,
            Ghost(ob.insert(b as int)),
            Ghost(oe.insert(e as int)),
        )
    }
}

/// A shallow copy of a block's child array: the children themselves are
/// shared, only the fan-out array is duplicated.
fn clone_children(blocks: &Arena<Block>, b: usize) -> (cs: Vec<ItemRep>)
    requires
        b < blocks@.len(),
    ensures
        cs@ == blocks@[b as int].entries@,
{
    let mut cs: Vec<ItemRep> = Vec::new();
    let mut i: usize = 0;
    let len = blocks.items[b].entries.len();
    while i < len
        invariant
            b < blocks@.len(),
            len == blocks@[b as int].entries@.len(),
            i <= len,
            cs@ == blocks@[b as int].entries@.take(i as int),
        decreases len - i,
    {
        cs.push(blocks.items[b].entries[i]);
        i = i + 1;
        proof {
            assert(blocks@[b as int].entries@.take(i as int) =~= blocks@[
                b as int
            ].entries@.take(i as int - 1).push(blocks@[b as int].entries@[i as int - 1]));
        }
    }
    proof {
        assert(blocks@[b as int].entries@.take(len as int) =~= blocks@[b as int].entries@);
    }
    cs
}

/// One insert step at the slot `item`, reached after consuming `level`
/// nibbles of `hash`.  Walks and edits the trie: descends through owned
/// branches in place, duplicates shared branches (path copying), and
/// resolves the final slot as an empty slot, a same-hash chain, or a split.
/// Returns the item now standing in the slot together with the handle's
/// grown owned sets.
#[verifier::loop_isolation(false)]
#[verifier::rlimit(40)]
fn insert_at<K: KeyEq, V, S: KeyHasher<K>>(
    base: &mut ScopedMapBase<K, V, S>,
    item: ItemRep,
    level: usize,
    Ghost(path): Ghost<Seq<u64>>,
    hash: u64,
    key: K,
    value: V,
    g: u32,
    Ghost(ob): Ghost<Set<int>>,
    Ghost(oe): Ghost<Set<int>>,
) -> (res: (ItemRep, Ghost<Set<int>>, Ghost<Set<int>>))
    requires
        item_wf(old(base).block_arena@, old(base).entry_arena@, item, g, path, old(
            base,
        ).hash_fn()),
        owned_covers(
            old(base).block_arena@,
            old(base).entry_arena@,
            item,
            g,
            path.len() as int,
            ob,
            oe,
        ),
        forall|i: int| #[trigger]
            ob.contains(i) ==> 0 <= i < old(base).block_arena@.len()
                && old(base).block_arena@[i].generation == g,
        forall|i: int| #[trigger]
            oe.contains(i) ==> 0 <= i < old(base).entry_arena@.len()
                && old(base).entry_arena@[i].generation == g,
        path.len() == level,
        level <= 16,
        hash == old(base).hash_fn()(key),
        hash_has_path(hash, path),
    ensures
        final(base).hasher == old(base).hasher,
        old(base).entry_arena@.len() <= final(base).entry_arena@.len(),
        old(base).block_arena@.len() <= final(base).block_arena@.len(),
        forall|i: int|
            0 <= i < old(base).entry_arena@.len() && !oe.contains(i)
                ==> #[trigger] final(base).entry_arena@[i] == old(base).entry_arena@[i],
        forall|i: int|
            0 <= i < old(base).block_arena@.len() && !ob.contains(i)
                ==> #[trigger] final(base).block_arena@[i] == old(base).block_arena@[i],
        forall|i: int|
            0 <= i < old(base).entry_arena@.len() && !item_entry_nodes(
                old(base).block_arena@,
                old(base).entry_arena@,
                item,
                path.len() as int,
            ).contains(i) ==> #[trigger] final(base).entry_arena@[i] == old(base).entry_arena@[i],
        forall|i: int|
            0 <= i < old(base).block_arena@.len() && !item_block_nodes(
                old(base).block_arena@,
                old(base).entry_arena@,
                item,
                path.len() as int,
            ).contains(i) ==> #[trigger] final(base).block_arena@[i] == old(base).block_arena@[i],
        item_wf(final(base).block_arena@, final(base).entry_arena@, res.0, g, path, old(
            base,
        ).hash_fn()),
        forall|i: int| #[trigger]
            item_entry_nodes(
                final(base).block_arena@,
                final(base).entry_arena@,
                res.0,
                path.len() as int,
            ).contains(i) ==> item_entry_nodes(
                old(base).block_arena@,
                old(base).entry_arena@,
                item,
                path.len() as int,
            ).contains(i) || old(base).entry_arena@.len() <= i,
        forall|i: int| #[trigger]
            item_block_nodes(
                final(base).block_arena@,
                final(base).entry_arena@,
                res.0,
                path.len() as int,
            ).contains(i) ==> item_block_nodes(
                old(base).block_arena@,
                old(base).entry_arena@,
                item,
                path.len() as int,
            ).contains(i) || old(base).block_arena@.len() <= i,
        owned_covers(
            final(base).block_arena@,
            final(base).entry_arena@,
            res.0,
            g,
            path.len() as int,
            res.1@,
            res.2@,
        ),
        forall|i: int| #[trigger]
            res.1@.contains(i) ==> 0 <= i < final(base).block_arena@.len()
                && final(base).block_arena@[i].generation == g,
        forall|i: int| #[trigger]
            res.2@.contains(i) ==> 0 <= i < final(base).entry_arena@.len()
                && final(base).entry_arena@[i].generation == g,
        forall|i: int| ob.contains(i) ==> #[trigger] res.1@.contains(i),
        forall|i: int| oe.contains(i) ==> #[trigger] res.2@.contains(i),
        forall|i: int| #[trigger]
            res.1@.contains(i) && !ob.contains(i) ==> old(base).block_arena@.len() <= i,
        forall|i: int| #[trigger]
            res.2@.contains(i) && !oe.contains(i) ==> old(base).entry_arena@.len() <= i,
        forall|k: K|
            hash_has_path(old(base).hash_fn()(k), path) ==> #[trigger] path_lookup(
                final(base).block_arena@,
                final(base).entry_arena@,
                res.0,
                old(base).hash_fn()(k),
                path.len() as int,
                k,
            ) == if k == key {
                Some(value)
            } else {
                path_lookup(
                    old(base).block_arena@,
                    old(base).entry_arena@,
                    item,
                    old(base).hash_fn()(k),
                    path.len() as int,
                    k,
                )
            },
    decreases 16 - level,
{
    let ghost bs0 = base.block_arena@;
    let ghost es0 = base.entry_arena@;
    let ghost hf = base.hash_fn();
    let ghost level_i = level as int;
    match item {
        ItemRep::Empty => {
            let e = base.entry_arena.allocate(
                Entry { generation: g, key, value, next: None },
            );
            let res_item = ItemRep::Entry(ItemRef::new(e));
            proof {
                let es2 = base.entry_arena@;
                let ei = e as int;
                assert(es2[ei].key == key);
                assert(chain_wf(es2, ei, g, hash, hf));
                assert(hf(es2[ei].key) == hash);
                assert(item_wf(bs0, es2, res_item, g, path, hf));
                assert(chain_nodes(es2, ei) =~= Set::<int>::empty().insert(ei));
                assert(item_entry_nodes(bs0, es2, res_item, level_i) == chain_nodes(es2, ei));
            }
            (res_item, Ghost(ob), Ghost(oe.insert(e as int)))
        },
        ItemRep::Entry(r) => {
            let ghost hd = r.idx as int;
            let ghost old_hash = hf(es0[hd].key);
            let head_hash = base.entry_arena.items[r.idx].hash(&base.hasher);
            if head_hash == hash {
                // the slot's chain carries this very hash: walk the owned
                // prefix; overwrite in place on a key match, else attach a
                // new head in front of the whole chain
                let mut j = r.idx;
                proof {
                    assert(chain_wf(es0, hd, g, hash, hf));
                    lemma_chain_nodes_facts(es0, hd, g, hash, hf);
                }
                loop
                    invariant
                        base.block_arena@ == bs0,
                        base.entry_arena@ == es0,
                        base.hasher == old(base).hasher,
                        chain_wf(es0, j as int, g, hash, hf),
                        chain_skips(es0, hd, j as int, key),
                        chain_nodes(es0, hd).contains(j as int),
                    decreases j,
                {
                    if let Err(_) = ItemRef::promote(ItemRef::new(j), &base.entry_arena, g) {
                        break ;
                    }
                    if key.eq_key(&base.entry_arena.items[j].key) {
                        // owned entry with the same key: overwrite in place,
                        // no allocation
                        base.entry_arena.items[j].value = value;
                        proof {
                            let es2 = base.entry_arena@;
                            let ji = j as int;
                            assert(es2 =~= es0.update(
                                ji,
                                (Entry {
                                    generation: es0[ji].generation,
                                    key: es0[ji].key,
                                    value: value,
                                    next: es0[ji].next,
                                }),
                            ));
                            lemma_chain_update_value(es0, es2, hd, ji, g, hash, hf, key, value);
                            assert(es2[hd].key == es0[hd].key);
                            assert(hf(es2[hd].key) == hash);
                            assert(item_wf(bs0, es2, item, g, path, hf));
                            assert(item_entry_nodes(bs0, es2, item, level_i) == chain_nodes(
                                es2,
                                hd,
                            ));
                            // the overwritten slot is reachable and of this
                            // generation, hence owned
                            assert(es0[ji].generation == g);
                            assert(item_entry_nodes(bs0, es0, item, level_i) == chain_nodes(
                                es0,
                                hd,
                            ));
                            assert(item_entry_nodes(bs0, es0, item, level_i).contains(ji));
                            assert(oe.contains(ji));
                            assert(forall|i: int|
                                0 <= i < es0.len() && i != ji ==> es2[i] == es0[i]);
                            assert(owned_covers(bs0, es2, item, g, level_i, ob, oe)) by {
                                assert(item_entry_nodes(bs0, es2, item, level_i) == chain_nodes(
                                    es2,
                                    hd,
                                ));
                                assert forall|i: int|
                                    (#[trigger] item_entry_nodes(bs0, es2, item, level_i).contains(
                                        i,
                                    )) && 0 <= i < es2.len() && es2[i].generation == g implies
                                    oe.contains(i) by {
                                    assert(es2[i].generation == es0[i].generation);
                                    assert(item_entry_nodes(bs0, es0, item, level_i).contains(i));
                                }
                            }
                        }
                        return (item, Ghost(ob), Ghost(oe));
                    }
                    let nxt = base.entry_arena.items[j].next;
                    match nxt {
                        Some(nx) => {
                            proof {
                                lemma_chain_step(es0, hd, j as int, nx, key, g, hash, hf);
                            }
                            j = nx.idx;
                        },
                        None => {
                            break ;
                        },
                    }
                }
                // no owned entry carries the key: a fresh head shadows any
                // older binding further down the chain
                let e = base.entry_arena.allocate(
                    Entry { generation: g, key, value, next: Some(r) },
                );
                let res_item = ItemRep::Entry(ItemRef::new(e));
                proof {
                    let es2 = base.entry_arena@;
                    let ei = e as int;
                    lemma_chain_nodes_facts(es0, hd, g, hash, hf);
                    lemma_chain_frame(es0, es2, hd, g, hash, hf);
                    assert(es2[ei].key == key);
                    assert(es2[ei].next == Some(r));
                    assert(hd < ei);
                    assert(chain_wf(es2, ei, g, hash, hf));
                    assert(hf(es2[ei].key) == hash);
                    assert(item_wf(bs0, es2, res_item, g, path, hf));
                    assert(chain_nodes(es2, ei) =~= chain_nodes(es2, hd).insert(ei));
                    assert(item_entry_nodes(bs0, es2, res_item, level_i) == chain_nodes(es2, ei));
                    assert(item_entry_nodes(bs0, es0, item, level_i) == chain_nodes(es0, hd));
                    assert forall|k: K| hash_has_path(hf(k), path) implies #[trigger] path_lookup(
                        bs0,
                        es2,
                        res_item,
                        hf(k),
                        level_i,
                        k,
                    ) == (if k == key {
                        Some(value)
                    } else {
                        path_lookup(bs0, es0, item, hf(k), level_i, k)
                    }) by {
                        if k != key {
                            assert(chain_lookup(es2, ei, k) == chain_lookup(es2, hd, k));
                            assert(chain_lookup(es2, hd, k) == chain_lookup(es0, hd, k));
                        }
                    }
                }
                (res_item, Ghost(ob), Ghost(oe.insert(e as int)))
            } else {
                // the chain's hash shares only a prefix with the new key's:
                // grow branches until the two part ways
                proof {
                    if level == 16 {
                        assert forall|l: int| 0 <= l < 16 implies nibble(hash, l) == nibble(
                            old_hash,
                            l,
                        ) by {
                            assert(nibble(hash, l) == path[l]);
                            assert(nibble(old_hash, l) == path[l]);
                        }
                        lemma_hash_eq_from_nibbles(hash, old_hash);
                        assert(false);
                    }
                    assert(item_entry_nodes(bs0, es0, item, level_i) == chain_nodes(es0, hd));
                    lemma_chain_nodes_facts(es0, hd, g, old_hash, hf);
                    assert forall|i: int| #[trigger]
                        chain_nodes(es0, hd).contains(i) && es0[i].generation == g implies
                        oe.contains(i) by {
                        assert(item_entry_nodes(bs0, es0, item, level_i).contains(i));
                    }
                }
                let (res_item, ob2, oe2) = split_at(
                    base,
                    r,
                    Ghost(old_hash),
                    level,
                    Ghost(path),
                    hash,
                    key,
                    value,
                    g,
                    Ghost(ob),
                    Ghost(oe),
                );
                proof {
                    assert(item_block_nodes(bs0, es0, item, level_i) =~= Set::<int>::empty());
                }
                (res_item, ob2, oe2)
            }
        },
        ItemRep::Block(r) => {
            let ghost b_gen = base.block_arena@[r.idx as int].generation;
            let rb: ItemRef;
            let ghost obp: Set<int>;
            proof {
                assert(r.idx < base.block_arena@.len());
            }
            if let Ok(owned) = ItemRef::promote(r, &base.block_arena, g) {
                // this branch already belongs to the mutating scope: edit it
                // in place
                rb = owned;
                proof {
                    obp = ob;
                    assert(item_block_nodes(bs0, es0, item, level_i).contains(r.idx as int));
                    assert(ob.contains(r.idx as int));
                }
            } else {
                // shared branch: duplicate its fan-out array into a block of
                // the current generation and edit the duplicate
                let cs = clone_children(&base.block_arena, r.idx);
                let c = base.block_arena.allocate(Block { generation: g, entries: cs });
                rb = ItemRef::new(c);
                proof {
                    obp = ob.insert(c as int);
                    lemma_block_copy(bs0, es0, base.block_arena@, r, rb, g, path, hf);
                }
            }
            let ghost bsp = base.block_arena@;
            let ghost itemp = ItemRep::Block(rb);
            let ghost rbi = rb.idx as int;
            proof {
                assert(item_wf(bsp, es0, itemp, g, path, hf));
                assert(item_entry_nodes(bsp, es0, itemp, level_i) == item_entry_nodes(
                    bs0,
                    es0,
                    item,
                    level_i,
                ));
                if b_gen == g {
                    assert(item_block_nodes(bsp, es0, itemp, level_i) == item_block_nodes(
                        bs0,
                        es0,
                        item,
                        level_i,
                    ));
                } else {
                    assert(item_block_nodes(bsp, es0, itemp, level_i) == item_block_nodes(
                        bs0,
                        es0,
                        item,
                        level_i,
                    ).remove(r.idx as int).insert(rbi));
                }
                assert(owned_covers(bsp, es0, itemp, g, level_i, obp, oe));
                lemma_item_nodes_facts(bsp, es0, itemp, g, path, hf);
                lemma_nibble_bound(hash, level_i);
            }
            let n = ((hash >> ((4 * level) as u64)) & 0xf) as usize;
            let ghost pushed = path.push(n as u64);
            let child = base.block_arena.items[rb.idx].entries[n];
            proof {
                assert(pushed.len() as int == level_i + 1);
                lemma_children_wf_at(bsp, es0, rbi, g, path, 0, n as int, hf);
                lemma_hash_path_push(hash, path, n as u64);
                lemma_block_nodes_member(bsp, es0, rbi, level_i, 0, n as int);
                assert(item_wf(bsp, es0, child, g, pushed, hf));
                assert(owned_covers(bsp, es0, child, g, level_i + 1, obp, oe)) by {
                    assert(forall|i: int| #[trigger]
                        item_entry_nodes(bsp, es0, child, level_i + 1).contains(i)
                            ==> item_entry_nodes(bsp, es0, itemp, level_i).contains(i));
                    assert(forall|i: int| #[trigger]
                        item_block_nodes(bsp, es0, child, level_i + 1).contains(i)
                            ==> item_block_nodes(bsp, es0, itemp, level_i).contains(i));
                }
            }
            let (res_child, ob2, oe2) = insert_at(
                base,
                child,
                level + 1,
                Ghost(pushed),
                hash,
                key,
                value,
                g,
                Ghost(obp),
                Ghost(oe),
            );
            let ghost bs1 = base.block_arena@;
            let ghost es1 = base.entry_arena@;
            proof {
                // the edited branch itself was not under the child, so it is
                // untouched by the recursive step
                assert(!item_block_nodes(bsp, es0, child, level_i + 1).contains(rbi));
                assert(bs1[rbi] == bsp[rbi]);
            }
            let blk = &mut base.block_arena.items[rb.idx];
            blk.entries[n] = res_child;
            let res_item = ItemRep::Block(rb);
            proof {
                let bs2 = base.block_arena@;
                let es2 = base.entry_arena@;
                let ch = bsp[rbi].entries@;
                assert(es2 == es1);
                assert(bs2.len() == bs1.len());
                assert(forall|i: int| 0 <= i < bs1.len() && i != rbi ==> bs2[i] == bs1[i]);
                assert(bs2[rbi].generation == bsp[rbi].generation);
                assert(bs2[rbi].entries@ == ch.update(n as int, res_child));
                assert(forall|m: int| 0 <= m < 16 && m != n as int ==> bs2[rbi].entries@[m] == ch[m]);
                // siblings: untouched and unchanged in every respect
                assert forall|m: int| 0 <= m < 16 && m != n as int implies item_wf(
                    bs2,
                    es2,
                    #[trigger] ch[m],
                    g,
                    path.push(m as u64),
                    hf,
                ) && item_entry_nodes(bs2, es2, ch[m], level_i + 1) == item_entry_nodes(
                    bsp,
                    es0,
                    ch[m],
                    level_i + 1,
                ) && item_block_nodes(bs2, es2, ch[m], level_i + 1) == item_block_nodes(
                    bsp,
                    es0,
                    ch[m],
                    level_i + 1,
                ) && (forall|h2: u64, k2: K| #[trigger]
                    path_lookup(bs2, es2, ch[m], h2, level_i + 1, k2) == path_lookup(
                        bsp,
                        es0,
                        ch[m],
                        h2,
                        level_i + 1,
                        k2,
                    )) by {
                    lemma_children_wf_at(bsp, es0, rbi, g, path, 0, m, hf);
                    lemma_item_nodes_facts(bsp, es0, ch[m], g, path.push(m as u64), hf);
                    lemma_block_nodes_member(bsp, es0, rbi, level_i, 0, m);
                    assert forall|i: int| #[trigger]
                        item_entry_nodes(bsp, es0, ch[m], level_i + 1).contains(i) implies 0 <= i
                        < es2.len() && i < es0.len() && es2[i] == es0[i] by {
                        assert(item_entry_nodes(bsp, es0, ch[m], level_i + 1).disjoint(
                            item_entry_nodes(bsp, es0, ch[n as int], level_i + 1),
                        ));
                        assert(!item_entry_nodes(bsp, es0, child, level_i + 1).contains(i));
                    }
                    assert forall|i: int| #[trigger]
                        item_block_nodes(bsp, es0, ch[m], level_i + 1).contains(i) implies 0 <= i
                        < bs2.len() && i < bsp.len() && bs2[i] == bsp[i] by {
                        assert(item_block_nodes(bsp, es0, ch[m], level_i + 1).disjoint(
                            item_block_nodes(bsp, es0, ch[n as int], level_i + 1),
                        ));
                        assert(!item_block_nodes(bsp, es0, child, level_i + 1).contains(i));
                        assert(i != rbi);
                        assert(bs1[i] == bsp[i]);
                    }
                    lemma_item_frame(bsp, es0, bs2, es2, ch[m], g, path.push(m as u64), hf);
                }
                // the rebuilt child is untouched by the final splice
                lemma_item_nodes_facts(bs1, es1, res_child, g, pushed, hf);
                assert forall|i: int| #[trigger]
                    item_block_nodes(bs1, es1, res_child, level_i + 1).contains(i) implies 0 <= i
                    < bs2.len() && i < bs1.len() && bs2[i] == bs1[i] by {
                    assert(item_block_nodes(bsp, es0, child, level_i + 1).contains(i) || bsp.len()
                        <= i);
                    assert(i != rbi);
                }
                lemma_item_frame(bs1, es1, bs2, es2, res_child, g, pushed, hf);
                assert(item_wf(bs2, es2, res_child, g, pushed, hf));
                // children of the edited branch are all well-formed again
                assert forall|m: int| 0 <= m < 16 implies item_wf(
                    bs2,
                    es2,
                    #[trigger] bs2[rbi].entries@[m],
                    g,
                    path.push(m as u64),
                    hf,
                ) by {
                    if m == n as int {
                        assert(bs2[rbi].entries@[m] == res_child);
                    } else {
                        assert(bs2[rbi].entries@[m] == ch[m]);
                    }
                }
                lemma_children_wf_intro(bs2, es2, rbi, g, path, 0, hf);
                // separation: the rebuilt child reaches only its old nodes
                // and fresh ones, so it still shares nothing with a sibling
                assert forall|n1: int, n2: int|
                    0 <= n1 < 16 && 0 <= n2 < 16 && n1 != n2 implies (#[trigger] item_entry_nodes(
                    bs2,
                    es2,
                    bs2[rbi].entries@[n1],
                    level_i + 1,
                )).disjoint(
                    #[trigger] item_entry_nodes(bs2, es2, bs2[rbi].entries@[n2], level_i + 1),
                ) && (#[trigger] item_block_nodes(
                    bs2,
                    es2,
                    bs2[rbi].entries@[n1],
                    level_i + 1,
                )).disjoint(
                    #[trigger] item_block_nodes(bs2, es2, bs2[rbi].entries@[n2], level_i + 1),
                ) by {
                    lemma_children_wf_at(bsp, es0, rbi, g, path, 0, n1, hf);
                    lemma_children_wf_at(bsp, es0, rbi, g, path, 0, n2, hf);
                    lemma_item_nodes_facts(bsp, es0, ch[n1], g, path.push(n1 as u64), hf);
                    lemma_item_nodes_facts(bsp, es0, ch[n2], g, path.push(n2 as u64), hf);
                    if n1 != n as int && n2 != n as int {
                        assert(item_entry_nodes(bs2, es2, bs2[rbi].entries@[n1], level_i + 1)
                            == item_entry_nodes(bsp, es0, ch[n1], level_i + 1));
                        assert(item_entry_nodes(bs2, es2, bs2[rbi].entries@[n2], level_i + 1)
                            == item_entry_nodes(bsp, es0, ch[n2], level_i + 1));
                        assert(item_block_nodes(bs2, es2, bs2[rbi].entries@[n1], level_i + 1)
                            == item_block_nodes(bsp, es0, ch[n1], level_i + 1));
                        assert(item_block_nodes(bs2, es2, bs2[rbi].entries@[n2], level_i + 1)
                            == item_block_nodes(bsp, es0, ch[n2], level_i + 1));
                    } else {
                        let mm = if n1 == n as int {
                            n2
                        } else {
                            n1
                        };
                        lemma_children_wf_at(bsp, es0, rbi, g, path, 0, mm, hf);
                        lemma_item_nodes_facts(bsp, es0, ch[mm], g, path.push(mm as u64), hf);
                        assert(path.push(mm as u64).len() as int == level_i + 1);
                        assert(child == ch[n as int]);
                        assert(item_entry_nodes(bs2, es2, res_child, level_i + 1)
                            == item_entry_nodes(bs1, es1, res_child, level_i + 1));
                        assert(item_block_nodes(bs2, es2, res_child, level_i + 1)
                            == item_block_nodes(bs1, es1, res_child, level_i + 1));
                        assert forall|i: int| #[trigger]
                            item_entry_nodes(bs1, es1, res_child, level_i + 1).contains(
                            i,
                        ) implies !item_entry_nodes(bs2, es2, bs2[rbi].entries@[mm], level_i + 1)
                            .contains(i) by {
                            assert(item_entry_nodes(bs2, es2, bs2[rbi].entries@[mm], level_i + 1)
                                == item_entry_nodes(bsp, es0, ch[mm], level_i + 1));
                            assert(item_entry_nodes(bsp, es0, child, level_i + 1).contains(i)
                                || es0.len() <= i);
                            assert(item_entry_nodes(bsp, es0, ch[mm], level_i + 1).disjoint(
                                item_entry_nodes(bsp, es0, ch[n as int], level_i + 1),
                            ));
                            if item_entry_nodes(bsp, es0, child, level_i + 1).contains(i) {
                                assert(!item_entry_nodes(bsp, es0, ch[mm], level_i + 1).contains(
                                    i,
                                ));
                            } else {
                                assert(es0.len() <= i);
                                assert(!item_entry_nodes(bsp, es0, ch[mm], level_i + 1).contains(
                                    i,
                                ));
                            }
                        }
                        assert forall|i: int| #[trigger]
                            item_block_nodes(bs1, es1, res_child, level_i + 1).contains(
                            i,
                        ) implies !item_block_nodes(bs2, es2, bs2[rbi].entries@[mm], level_i + 1)
                            .contains(i) by {
                            assert(item_block_nodes(bs2, es2, bs2[rbi].entries@[mm], level_i + 1)
                                == item_block_nodes(bsp, es0, ch[mm], level_i + 1));
                            assert(item_block_nodes(bsp, es0, child, level_i + 1).contains(i)
                                || bsp.len() <= i);
                            assert(item_block_nodes(bsp, es0, ch[mm], level_i + 1).disjoint(
                                item_block_nodes(bsp, es0, ch[n as int], level_i + 1),
                            ));
                            if item_block_nodes(bsp, es0, child, level_i + 1).contains(i) {
                                assert(!item_block_nodes(bsp, es0, ch[mm], level_i + 1).contains(
                                    i,
                                ));
                            } else {
                                assert(bsp.len() <= i);
                                assert(!item_block_nodes(bsp, es0, ch[mm], level_i + 1).contains(
                                    i,
                                ));
                            }
                        }
                        assert(item_entry_nodes(bs2, es2, bs2[rbi].entries@[n as int], level_i + 1)
                            .disjoint(
                            item_entry_nodes(bs2, es2, bs2[rbi].entries@[mm], level_i + 1),
                        ));
                        assert(item_block_nodes(bs2, es2, bs2[rbi].entries@[n as int], level_i + 1)
                            .disjoint(
                            item_block_nodes(bs2, es2, bs2[rbi].entries@[mm], level_i + 1),
                        ));
                    }
                }
                assert forall|m: int| 0 <= m < 16 implies !(#[trigger] item_block_nodes(
                    bs2,
                    es2,
                    bs2[rbi].entries@[m],
                    level_i + 1,
                )).contains(rbi) by {
                    if m == n as int {
                        assert(item_block_nodes(bs2, es2, res_child, level_i + 1)
                            == item_block_nodes(bs1, es1, res_child, level_i + 1));
                        if item_block_nodes(bs1, es1, res_child, level_i + 1).contains(rbi) {
                            assert(item_block_nodes(bsp, es0, child, level_i + 1).contains(rbi)
                                || bsp.len() <= rbi);
                            assert(false);
                        }
                    } else {
                        assert(item_block_nodes(bs2, es2, bs2[rbi].entries@[m], level_i + 1)
                            == item_block_nodes(bsp, es0, ch[m], level_i + 1));
                    }
                }
                assert(block_separated(bs2, es2, rbi, level_i));
                assert(item_wf(bs2, es2, res_item, g, path, hf));
                // route membership in the edited block through its children
                lemma_block_nodes_elim(bs2, es2, rbi, level_i, 0);
                lemma_block_nodes_member(bs2, es2, rbi, level_i, 0, n as int);
                assert forall|i: int| #[trigger]
                    item_entry_nodes(bs2, es2, res_item, level_i).contains(i) implies
                    item_entry_nodes(bs0, es0, item, level_i).contains(i) || es0.len() <= i by {
                    assert(block_entry_nodes(bs2, es2, rbi, level_i, 0).contains(i));
                    let m = choose|m: int|
                        0 <= m < 16 && item_entry_nodes(bs2, es2, bs2[rbi].entries@[m], level_i + 1)
                            .contains(i);
                    assert(item_entry_nodes(bs2, es2, bs2[rbi].entries@[m], level_i + 1).contains(
                        i,
                    ));
                    if m == n as int {
                        assert(item_entry_nodes(bs1, es1, res_child, level_i + 1).contains(i));
                        assert(item_entry_nodes(bsp, es0, child, level_i + 1).contains(i)
                            || es0.len() <= i);
                        if item_entry_nodes(bsp, es0, child, level_i + 1).contains(i) {
                            assert(item_entry_nodes(bsp, es0, itemp, level_i).contains(i));
                        }
                    } else {
                        assert(item_entry_nodes(bsp, es0, ch[m], level_i + 1).contains(i));
                        lemma_block_nodes_member(bsp, es0, rbi, level_i, 0, m);
                        assert(item_entry_nodes(bsp, es0, itemp, level_i).contains(i));
                    }
                }
                assert forall|i: int| #[trigger]
                    item_block_nodes(bs2, es2, res_item, level_i).contains(i) implies
                    item_block_nodes(bs0, es0, item, level_i).contains(i) || bs0.len() <= i by {
                    if i == rbi {
                        if b_gen == g {
                            assert(item_block_nodes(bs0, es0, item, level_i).contains(i));
                        } else {
                            assert(bs0.len() <= i);
                        }
                    } else {
                        assert(block_block_nodes(bs2, es2, rbi, level_i, 0).contains(i));
                        let m = choose|m: int|
                            0 <= m < 16 && item_block_nodes(
                                bs2,
                                es2,
                                bs2[rbi].entries@[m],
                                level_i + 1,
                            ).contains(i);
                        assert(item_block_nodes(bs2, es2, bs2[rbi].entries@[m], level_i + 1)
                            .contains(i));
                        if m == n as int {
                            assert(item_block_nodes(bs1, es1, res_child, level_i + 1).contains(i));
                            assert(item_block_nodes(bsp, es0, child, level_i + 1).contains(i)
                                || bsp.len() <= i);
                            if item_block_nodes(bsp, es0, child, level_i + 1).contains(i) {
                                assert(item_block_nodes(bsp, es0, itemp, level_i).contains(i));
                            }
                        } else {
                            assert(item_block_nodes(bsp, es0, ch[m], level_i + 1).contains(i));
                            lemma_block_nodes_member(bsp, es0, rbi, level_i, 0, m);
                            assert(item_block_nodes(bsp, es0, itemp, level_i).contains(i));
                        }
                        if item_block_nodes(bsp, es0, itemp, level_i).contains(i) {
                            if b_gen == g {
                            } else {
                                assert(item_block_nodes(bs0, es0, item, level_i).remove(
                                    r.idx as int,
                                ).insert(rbi).contains(i));
                            }
                        }
                    }
                }
                // ownership coverage of the spliced result
                assert(owned_covers(bs2, es2, res_item, g, level_i, ob2@, oe2@)) by {
                    assert forall|i: int|
                        (#[trigger] item_entry_nodes(bs2, es2, res_item, level_i).contains(i)) && 0
                            <= i < es2.len() && es2[i].generation == g implies oe2@.contains(
                        i,
                    ) by {
                        assert(block_entry_nodes(bs2, es2, rbi, level_i, 0).contains(i));
                        let m = choose|m: int|
                            0 <= m < 16 && item_entry_nodes(
                                bs2,
                                es2,
                                bs2[rbi].entries@[m],
                                level_i + 1,
                            ).contains(i);
                        assert(item_entry_nodes(bs2, es2, bs2[rbi].entries@[m], level_i + 1)
                            .contains(i));
                        if m == n as int {
                            assert(item_entry_nodes(bs1, es1, res_child, level_i + 1).contains(i));
                        } else {
                            assert(item_entry_nodes(bsp, es0, ch[m], level_i + 1).contains(i));
                            lemma_children_wf_at(bsp, es0, rbi, g, path, 0, m, hf);
                            lemma_item_nodes_facts(bsp, es0, ch[m], g, path.push(m as u64), hf);
                            assert(path.push(m as u64).len() as int == level_i + 1);
                            assert(i < es0.len());
                            assert(child == ch[n as int]);
                            assert(item_entry_nodes(bsp, es0, ch[m], level_i + 1).disjoint(
                                item_entry_nodes(bsp, es0, ch[n as int], level_i + 1),
                            ));
                            assert(!item_entry_nodes(bsp, es0, child, pushed.len() as int)
                                .contains(i));
                            assert(es1[i] == es0[i]);
                            assert(es2[i] == es0[i]);
                            lemma_block_nodes_member(bsp, es0, rbi, level_i, 0, m);
                            assert(item_entry_nodes(bsp, es0, itemp, level_i).contains(i));
                            assert(oe.contains(i));
                        }
                    }
                    assert forall|i: int|
                        (#[trigger] item_block_nodes(bs2, es2, res_item, level_i).contains(i)) && 0
                            <= i < bs2.len() && bs2[i].generation == g implies ob2@.contains(
                        i,
                    ) by {
                        if i == rbi {
                            assert(obp.contains(i));
                        } else {
                            assert(block_block_nodes(bs2, es2, rbi, level_i, 0).contains(i));
                            let m = choose|m: int|
                                0 <= m < 16 && item_block_nodes(
                                    bs2,
                                    es2,
                                    bs2[rbi].entries@[m],
                                    level_i + 1,
                                ).contains(i);
                            assert(item_block_nodes(bs2, es2, bs2[rbi].entries@[m], level_i + 1)
                                .contains(i));
                            if m == n as int {
                                assert(item_block_nodes(bs1, es1, res_child, level_i + 1).contains(
                                    i,
                                ));
                                assert(bs1[i] == bs2[i]);
                            } else {
                                assert(item_block_nodes(bsp, es0, ch[m], level_i + 1).contains(i));
                                lemma_children_wf_at(bsp, es0, rbi, g, path, 0, m, hf);
                                lemma_item_nodes_facts(bsp, es0, ch[m], g, path.push(m as u64), hf);
                                assert(path.push(m as u64).len() as int == level_i + 1);
                                assert(i < bsp.len());
                                assert(child == ch[n as int]);
                                assert(item_block_nodes(bsp, es0, ch[m], level_i + 1).disjoint(
                                    item_block_nodes(bsp, es0, ch[n as int], level_i + 1),
                                ));
                                assert(!item_block_nodes(bsp, es0, child, pushed.len() as int)
                                    .contains(i));
                                assert(bs1[i] == bsp[i]);
                                assert(bs2[i] == bsp[i]);
                                lemma_block_nodes_member(bsp, es0, rbi, level_i, 0, m);
                                assert(item_block_nodes(bsp, es0, itemp, level_i).contains(i));
                                assert(obp.contains(i));
                            }
                        }
                    }
                }
                // branches outside this subtree are untouched
                assert forall|i: int|
                    0 <= i < bs0.len() && !item_block_nodes(bs0, es0, item, level_i).contains(
                    i,
                ) implies bs2[i] == bs0[i] by {
                    assert(item_block_nodes(bs0, es0, item, level_i).contains(r.idx as int));
                    assert(i != rbi);
                    if item_block_nodes(bsp, es0, child, level_i + 1).contains(i) {
                        assert(item_block_nodes(bsp, es0, itemp, level_i).contains(i));
                        assert(false);
                    }
                    assert(bs1[i] == bsp[i]);
                    assert(bsp[i] == bs0[i]);
                    assert(bs2[i] == bs1[i]);
                }
                // the spliced block answers the new key; every other key is
                // answered as before
                assert forall|k: K| hash_has_path(hf(k), path) implies #[trigger] path_lookup(
                    bs2,
                    es2,
                    res_item,
                    hf(k),
                    level_i,
                    k,
                ) == (if k == key {
                    Some(value)
                } else {
                    path_lookup(bs0, es0, item, hf(k), level_i, k)
                }) by {
                    let hk = hf(k);
                    lemma_nibble_bound(hk, level_i);
                    let m = nibble(hk, level_i) as int;
                    assert(path_lookup(bs2, es2, res_item, hk, level_i, k) == path_lookup(
                        bs2,
                        es2,
                        bs2[rbi].entries@[m],
                        hk,
                        level_i + 1,
                        k,
                    ));
                    assert(path_lookup(bsp, es0, itemp, hk, level_i, k) == path_lookup(
                        bsp,
                        es0,
                        ch[m],
                        hk,
                        level_i + 1,
                        k,
                    ));
                    assert(path_lookup(bsp, es0, itemp, hk, level_i, k) == path_lookup(
                        bs0,
                        es0,
                        item,
                        hk,
                        level_i,
                        k,
                    ));
                    if m == n as int {
                        lemma_hash_path_push(hk, path, n as u64);
                        assert(path_lookup(bs2, es2, res_child, hk, level_i + 1, k) == path_lookup(
                            bs1,
                            es1,
                            res_child,
                            hk,
                            level_i + 1,
                            k,
                        ));
                    } else {
                        assert(k != key);
                        assert(path_lookup(bs2, es2, bs2[rbi].entries@[m], hk, level_i + 1, k)
                            == path_lookup(bsp, es0, ch[m], hk, level_i + 1, k));
                    }
                }
            }
            (res_item, ob2, oe2)
        },
    }
}

impl ScopedMap {
    /// Inserts or overwrites the key's binding in this scope.  Nodes stamped
    /// with this scope's own generation are edited in place; every older
    /// node along the edited path is first duplicated (path copying), so the
    /// maps of ancestor and sibling scopes are untouched: no arena slot
    /// outside this handle's owned sets is written, and slots added to the
    /// owned sets are freshly allocated.
    pub fn insert<K: KeyEq, V, S: KeyHasher<K>>(
        &mut self,
        base: &mut ScopedMapBase<K, V, S>,
        key: K,
        value: V,
    )
        requires
            old(self).wf(*old(base)),
        ensures
            final(self).wf(*final(base)),
            final(self).generation == old(self).generation,
            final(self).as_map(*final(base)) == old(self).as_map(*old(base)).insert(key, value),
            final(base).hasher == old(base).hasher,
            old(base).entry_arena@.len() <= final(base).entry_arena@.len(),
            old(base).block_arena@.len() <= final(base).block_arena@.len(),
            forall|i: int|
                0 <= i < old(base).entry_arena@.len() && !old(self).owned_entries@.contains(i)
                    ==> #[trigger] final(base).entry_arena@[i] == old(base).entry_arena@[i],
            forall|i: int|
                0 <= i < old(base).block_arena@.len() && !old(self).owned_blocks@.contains(i)
                    ==> #[trigger] final(base).block_arena@[i] == old(base).block_arena@[i],
            old(self).owned_entries@.subset_of(final(self).owned_entries@),
            old(self).owned_blocks@.subset_of(final(self).owned_blocks@),
            forall|i: int| #[trigger]
                final(self).owned_entries@.contains(i) && !old(self).owned_entries@.contains(i)
                    ==> old(base).entry_arena@.len() <= i,
            forall|i: int| #[trigger]
                final(self).owned_blocks@.contains(i) && !old(self).owned_blocks@.contains(i)
                    ==> old(base).block_arena@.len() <= i,
    {
        let hash = base.hasher.hash(&key);
        let ghost key_spec = key;
        let ghost value_spec = value;
        let (res, ob2, oe2) = insert_at(
            base,
            self.root,
            0,
            Ghost(Seq::<u64>::empty()),
            hash,
            key,
            value,
            self.generation,
            Ghost(self.owned_blocks@),
            Ghost(self.owned_entries@),
        );
        self.root = res;
        self.owned_blocks = ob2;
        self.owned_entries = oe2;
        proof {
            let m0 = old(self).as_map(*old(base));
            let m1 = self.as_map(*base);
            let hf = old(base).hash_fn();
            assert(base.hash_fn() == hf);
            assert forall|k: K| true implies #[trigger] path_lookup(
                base.block_arena@,
                base.entry_arena@,
                self.root,
                base.hasher.hash_spec(k),
                0,
                k,
            ) == (if k == key_spec {
                Some(value_spec)
            } else {
                path_lookup(
                    old(base).block_arena@,
                    old(base).entry_arena@,
                    old(self).root,
                    old(base).hasher.hash_spec(k),
                    0,
                    k,
                )
            }) by {
                assert(hash_has_path(hf(k), Seq::<u64>::empty()));
                assert(hf(k) == base.hasher.hash_spec(k));
            }
            assert(m1 =~= m0.insert(key_spec, value_spec));
        }
    }
}

} // verus!
