//! The laws of scoping, stated and proved over the contracts of `insert`,
//! `lookup`, `new_scope` and `make_map`.

use vstd::prelude::*;

use crate::hasher::KeyHasher;
use crate::model::{item_block_nodes, item_entry_nodes, lemma_item_frame, lemma_item_nodes_facts};
use crate::structs::{ScopedMap, ScopedMapBase};

verus! {

/// Scope isolation: a handle observes the same map over two stores that
/// agree on every arena slot it can reach — every slot older than its own
/// generation, and every slot it owns.  An insert through any other handle
/// rewrites only slots that handle owns and appends fresh ones, so whenever
/// those owned slots are none of this handle's, this handle's map is intact.
pub proof fn lemma_scope_isolation<K, V, S: KeyHasher<K>>(
    base0: ScopedMapBase<K, V, S>,
    base1: ScopedMapBase<K, V, S>,
    h: ScopedMap,
)
    requires
        h.wf(base0),
        base1.hasher == base0.hasher,
        base0.entry_arena@.len() <= base1.entry_arena@.len(),
        base0.block_arena@.len() <= base1.block_arena@.len(),
        forall|i: int|
            0 <= i < base0.entry_arena@.len() && (base0.entry_arena@[i].generation < h.generation
                || h.owned_entries@.contains(i)) ==> #[trigger] base1.entry_arena@[i]
                == base0.entry_arena@[i],
        forall|i: int|
            0 <= i < base0.block_arena@.len() && (base0.block_arena@[i].generation < h.generation
                || h.owned_blocks@.contains(i)) ==> #[trigger] base1.block_arena@[i]
                == base0.block_arena@[i],
    ensures
        h.wf(base1),
        h.as_map(base1) == h.as_map(base0),
{
    let bs0 = base0.block_arena@;
    let es0 = base0.entry_arena@;
    let bs1 = base1.block_arena@;
    let es1 = base1.entry_arena@;
    let hf = base0.hash_fn();
    let g = h.generation;
    assert(base1.hash_fn() == hf);
    lemma_item_nodes_facts(bs0, es0, h.root, g, Seq::<u64>::empty(), hf);
    assert forall|i: int| #[trigger]
        item_entry_nodes(bs0, es0, h.root, 0).contains(i) implies 0 <= i < es1.len() && i
        < es0.len() && es1[i] == es0[i] by {
        if es0[i].generation == g {
            assert(h.owned_entries@.contains(i));
        }
    }
    assert forall|i: int| #[trigger]
        item_block_nodes(bs0, es0, h.root, 0).contains(i) implies 0 <= i < bs1.len() && i
        < bs0.len() && bs1[i] == bs0[i] by {
        if bs0[i].generation == g {
            assert(h.owned_blocks@.contains(i));
        }
    }
    lemma_item_frame(bs0, es0, bs1, es1, h.root, g, Seq::<u64>::empty(), hf);
    assert(h.as_map(base1) =~= h.as_map(base0));
}

/// Visibility, the ancestor half: a scope is unaffected by inserts made
/// through any scope of a younger generation — in particular by every scope
/// directly or indirectly derived from it.  The hypotheses are exactly what
/// `insert` through the younger handle ensures: only slots the writer owns
/// were rewritten, and a writer's owned slots all carry its generation.
pub proof fn lemma_ancestor_unaffected<K, V, S: KeyHasher<K>>(
    base0: ScopedMapBase<K, V, S>,
    base1: ScopedMapBase<K, V, S>,
    ancestor: ScopedMap,
    writer: ScopedMap,
)
    requires
        ancestor.wf(base0),
        writer.wf(base0),
        ancestor.generation < writer.generation,
        base1.hasher == base0.hasher,
        base0.entry_arena@.len() <= base1.entry_arena@.len(),
        base0.block_arena@.len() <= base1.block_arena@.len(),
        forall|i: int|
            0 <= i < base0.entry_arena@.len() && !writer.owned_entries@.contains(i)
                ==> #[trigger] base1.entry_arena@[i] == base0.entry_arena@[i],
        forall|i: int|
            0 <= i < base0.block_arena@.len() && !writer.owned_blocks@.contains(i)
                ==> #[trigger] base1.block_arena@[i] == base0.block_arena@[i],
    ensures
        ancestor.wf(base1),
        ancestor.as_map(base1) == ancestor.as_map(base0),
{
    assert forall|i: int|
        0 <= i < base0.entry_arena@.len() && (base0.entry_arena@[i].generation
            < ancestor.generation || ancestor.owned_entries@.contains(i)) implies #[trigger]
        base1.entry_arena@[i] == base0.entry_arena@[i] by {
        assert(!writer.owned_entries@.contains(i));
    }
    assert forall|i: int|
        0 <= i < base0.block_arena@.len() && (base0.block_arena@[i].generation
            < ancestor.generation || ancestor.owned_blocks@.contains(i)) implies #[trigger]
        base1.block_arena@[i] == base0.block_arena@[i] by {
        assert(!writer.owned_blocks@.contains(i));
    }
    lemma_scope_isolation(base0, base1, ancestor);
}

/// Visibility, the sibling half: two scopes of the same generation that own
/// disjoint slot sets cannot see each other's inserts.  Sibling scopes start
/// with empty owned sets and only ever add freshly allocated slots, so their
/// owned sets stay disjoint.
pub proof fn lemma_sibling_unaffected<K, V, S: KeyHasher<K>>(
    base0: ScopedMapBase<K, V, S>,
    base1: ScopedMapBase<K, V, S>,
    reader: ScopedMap,
    writer: ScopedMap,
)
    requires
        reader.wf(base0),
        writer.wf(base0),
        reader.generation == writer.generation,
        reader.owned_entries@.disjoint(writer.owned_entries@),
        reader.owned_blocks@.disjoint(writer.owned_blocks@),
        base1.hasher == base0.hasher,
        base0.entry_arena@.len() <= base1.entry_arena@.len(),
        base0.block_arena@.len() <= base1.block_arena@.len(),
        forall|i: int|
            0 <= i < base0.entry_arena@.len() && !writer.owned_entries@.contains(i)
                ==> #[trigger] base1.entry_arena@[i] == base0.entry_arena@[i],
        forall|i: int|
            0 <= i < base0.block_arena@.len() && !writer.owned_blocks@.contains(i)
                ==> #[trigger] base1.block_arena@[i] == base0.block_arena@[i],
    ensures
        reader.wf(base1),
        reader.as_map(base1) == reader.as_map(base0),
{
    assert forall|i: int|
        0 <= i < base0.entry_arena@.len() && (base0.entry_arena@[i].generation < reader.generation
            || reader.owned_entries@.contains(i)) implies #[trigger] base1.entry_arena@[i]
        == base0.entry_arena@[i] by {
        assert(!writer.owned_entries@.contains(i));
    }
    assert forall|i: int|
        0 <= i < base0.block_arena@.len() && (base0.block_arena@[i].generation < reader.generation
            || reader.owned_blocks@.contains(i)) implies #[trigger] base1.block_arena@[i]
        == base0.block_arena@[i] by {
        assert(!writer.owned_blocks@.contains(i));
    }
    lemma_scope_isolation(base0, base1, reader);
}

/// Shadowing / last write wins: inserting the same key twice in one scope,
/// a later lookup answers the latest value, and no other key's answer moves.
/// The two hypotheses are the maps that two consecutive `insert` calls leave
/// behind, as their contracts state them.
pub proof fn lemma_last_write_wins<K, V, S: KeyHasher<K>>(
    base0: ScopedMapBase<K, V, S>,
    base1: ScopedMapBase<K, V, S>,
    base2: ScopedMapBase<K, V, S>,
    h0: ScopedMap,
    h1: ScopedMap,
    h2: ScopedMap,
    k: K,
    v1: V,
    v2: V,
)
    requires
        h1.as_map(base1) == h0.as_map(base0).insert(k, v1),
        h2.as_map(base2) == h1.as_map(base1).insert(k, v2),
    ensures
        h2.as_map(base2).contains_key(k),
        h2.as_map(base2)[k] == v2,
        forall|k2: K|
            k2 != k ==> #[trigger] h2.as_map(base2).contains_key(k2) == h0.as_map(
                base0,
            ).contains_key(k2),
        forall|k2: K|
            k2 != k && h0.as_map(base0).contains_key(k2) ==> #[trigger] h2.as_map(base2)[k2]
                == h0.as_map(base0)[k2],
{
}

/// Idempotence: inserting a pair that the scope already binds leaves every
/// lookup result unchanged — the scope's map is the same map afterwards.
pub proof fn lemma_insert_idempotent<K, V, S: KeyHasher<K>>(
    base0: ScopedMapBase<K, V, S>,
    base1: ScopedMapBase<K, V, S>,
    h0: ScopedMap,
    h1: ScopedMap,
    k: K,
    v: V,
)
    requires
        h0.as_map(base0).contains_key(k),
        h0.as_map(base0)[k] == v,
        h1.as_map(base1) == h0.as_map(base0).insert(k, v),
    ensures
        h1.as_map(base1) == h0.as_map(base0),
{
    assert(h1.as_map(base1) =~= h0.as_map(base0));
}

/// The naive reference lookup inside one scope's record of inserts: an
/// association list, the most recently recorded binding first.
pub open spec fn assoc_frame_lookup<K, V>(frame: Seq<(K, V)>, k: K) -> Option<V>
    decreases frame.len(),
{
    if frame.len() == 0 {
        None
    } else if frame.last().0 == k {
        Some(frame.last().1)
    } else {
        assoc_frame_lookup(frame.drop_last(), k)
    }
}

/// The naive reference for a stack of scopes: the innermost scope's
/// association list first, then the ancestors in order.
pub open spec fn assoc_lookup<K, V>(frames: Seq<Seq<(K, V)>>, k: K) -> Option<V>
    decreases frames.len(),
{
    if frames.len() == 0 {
        None
    } else {
        match assoc_frame_lookup(frames.last(), k) {
            Some(v) => Some(v),
            None => assoc_lookup(frames.drop_last(), k),
        }
    }
}

/// The map a scope's insert list builds on top of the map it inherited.
pub open spec fn frame_map<K, V>(m0: Map<K, V>, frame: Seq<(K, V)>) -> Map<K, V>
    decreases frame.len(),
{
    if frame.len() == 0 {
        m0
    } else {
        frame_map(m0, frame.drop_last()).insert(frame.last().0, frame.last().1)
    }
}

/// The map of the innermost scope of a stack of insert lists.
pub open spec fn frames_map<K, V>(frames: Seq<Seq<(K, V)>>) -> Map<K, V>
    decreases frames.len(),
{
    if frames.len() == 0 {
        Map::<K, V>::empty()
    } else {
        frame_map(frames_map(frames.drop_last()), frames.last())
    }
}

/// One scope's worth of the reference equivalence: scanning the scope's own
/// association list first and falling back to the inherited map answers
/// exactly as the map its insert list builds.
proof fn lemma_frame_map_lookup<K, V>(m0: Map<K, V>, frame: Seq<(K, V)>, k: K)
    ensures
        match assoc_frame_lookup(frame, k) {
            Some(v) => frame_map(m0, frame).contains_key(k) && frame_map(m0, frame)[k] == v,
            None => {
                &&& frame_map(m0, frame).contains_key(k) == m0.contains_key(k)
                &&& m0.contains_key(k) ==> frame_map(m0, frame)[k] == m0[k]
            },
        },
    decreases frame.len(),
{
    if frame.len() > 0 {
        lemma_frame_map_lookup(m0, frame.drop_last(), k);
    }
}

/// Differential equivalence: for every stack of scopes, each recorded as
/// the sequence of inserts made through it, the naive reference — walk the
/// innermost scope's association list newest-first, then the ancestors in
/// order — answers every lookup exactly as the map model does.  The
/// contracts of `make_map` (the empty map), `new_scope` (the parent's map,
/// unchanged) and `insert` (the map plus one binding) state that a handle's
/// map is `frames_map` of those insert lists, so the structure's answers
/// match the reference at every step of any operation sequence.
pub proof fn lemma_reference_equivalence<K, V>(frames: Seq<Seq<(K, V)>>, k: K)
    ensures
        match assoc_lookup(frames, k) {
            Some(v) => frames_map(frames).contains_key(k) && frames_map(frames)[k] == v,
            None => !frames_map(frames).contains_key(k),
        },
    decreases frames.len(),
{
    if frames.len() > 0 {
        lemma_reference_equivalence(frames.drop_last(), k);
        lemma_frame_map_lookup(frames_map(frames.drop_last()), frames.last(), k);
    }
}

/// Collision correctness: the insert and lookup contracts never mention
/// what the hash of a key is, so distinct keys stay independently bound and
/// retrievable even under a hash that collapses them onto one value — no
/// hypothesis about the hash strategy appears below.
pub proof fn lemma_collision_independence<K, V, S: KeyHasher<K>>(
    base0: ScopedMapBase<K, V, S>,
    base1: ScopedMapBase<K, V, S>,
    base2: ScopedMapBase<K, V, S>,
    h0: ScopedMap,
    h1: ScopedMap,
    h2: ScopedMap,
    k1: K,
    k2: K,
    v1: V,
    v2: V,
)
    requires
        k1 != k2,
        h1.as_map(base1) == h0.as_map(base0).insert(k1, v1),
        h2.as_map(base2) == h1.as_map(base1).insert(k2, v2),
    ensures
        h2.as_map(base2).contains_key(k1),
        h2.as_map(base2)[k1] == v1,
        h2.as_map(base2).contains_key(k2),
        h2.as_map(base2)[k2] == v2,
{
}

} // verus!
