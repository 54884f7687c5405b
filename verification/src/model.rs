//! The mathematical model of the trie.
//!
//! A handle's map is defined by `path_lookup`: starting from the root item,
//! each trie level consumes one 4-bit nibble of the key's hash (low bits
//! first) to select a child, until an entry chain, an empty slot, or the end
//! of the hash is reached.  Well-formedness (`item_wf`) pins down what every
//! reachable node must satisfy: chains link strictly downwards in the entry
//! arena and share one full hash, every node's generation is bounded by the
//! handle's, entries sit under the trie path their hash selects, and the
//! subtrees below a branch are pairwise disjoint, so a node owned by one
//! handle is reachable there exactly once.

use vstd::prelude::*;

use crate::structs::{Block, Entry, ItemRef, ItemRep};

verus! {

/// The 4-bit group of `h` consumed at trie level `level`.
pub open spec fn nibble(h: u64, level: int) -> u64 {
    (h >> ((4 * level) as u64)) & 0xf
}

/// Does `h` select exactly the child slots recorded in `path`, level by
/// level?
pub open spec fn hash_has_path(h: u64, path: Seq<u64>) -> bool {
    forall|j: int| 0 <= j < path.len() ==> #[trigger] nibble(h, j) == path[j]
}

/// A nibble always fits the fan-out.
pub proof fn lemma_nibble_bound(h: u64, level: int)
    ensures
        nibble(h, level) < 16,
{
    let s = (4 * level) as u64;
    assert((h >> s) & 0xf < 16) by (bit_vector);
}

/// Two hashes that agree on all 16 nibbles are the same hash.
pub proof fn lemma_hash_eq_from_nibbles(h1: u64, h2: u64)
    requires
        forall|l: int| 0 <= l < 16 ==> nibble(h1, l) == nibble(h2, l),
    ensures
        h1 == h2,
{
    assert(nibble(h1, 0) == nibble(h2, 0));
    assert(nibble(h1, 1) == nibble(h2, 1));
    assert(nibble(h1, 2) == nibble(h2, 2));
    assert(nibble(h1, 3) == nibble(h2, 3));
    assert(nibble(h1, 4) == nibble(h2, 4));
    assert(nibble(h1, 5) == nibble(h2, 5));
    assert(nibble(h1, 6) == nibble(h2, 6));
    assert(nibble(h1, 7) == nibble(h2, 7));
    assert(nibble(h1, 8) == nibble(h2, 8));
    assert(nibble(h1, 9) == nibble(h2, 9));
    assert(nibble(h1, 10) == nibble(h2, 10));
    assert(nibble(h1, 11) == nibble(h2, 11));
    assert(nibble(h1, 12) == nibble(h2, 12));
    assert(nibble(h1, 13) == nibble(h2, 13));
    assert(nibble(h1, 14) == nibble(h2, 14));
    assert(nibble(h1, 15) == nibble(h2, 15));
    assert(h1 == h2) by (bit_vector)
        requires
            (h1 >> 0u64) & 0xf == (h2 >> 0u64) & 0xf,
            (h1 >> 4u64) & 0xf == (h2 >> 4u64) & 0xf,
            (h1 >> 8u64) & 0xf == (h2 >> 8u64) & 0xf,
            (h1 >> 12u64) & 0xf == (h2 >> 12u64) & 0xf,
            (h1 >> 16u64) & 0xf == (h2 >> 16u64) & 0xf,
            (h1 >> 20u64) & 0xf == (h2 >> 20u64) & 0xf,
            (h1 >> 24u64) & 0xf == (h2 >> 24u64) & 0xf,
            (h1 >> 28u64) & 0xf == (h2 >> 28u64) & 0xf,
            (h1 >> 32u64) & 0xf == (h2 >> 32u64) & 0xf,
            (h1 >> 36u64) & 0xf == (h2 >> 36u64) & 0xf,
            (h1 >> 40u64) & 0xf == (h2 >> 40u64) & 0xf,
            (h1 >> 44u64) & 0xf == (h2 >> 44u64) & 0xf,
            (h1 >> 48u64) & 0xf == (h2 >> 48u64) & 0xf,
            (h1 >> 52u64) & 0xf == (h2 >> 52u64) & 0xf,
            (h1 >> 56u64) & 0xf == (h2 >> 56u64) & 0xf,
            (h1 >> 60u64) & 0xf == (h2 >> 60u64) & 0xf,
    ;
}

/// The set of entry slots linked into the chain headed at `i`.
pub open spec fn chain_nodes<K, V>(es: Seq<Entry<K, V>>, i: int) -> Set<int>
    decreases i,
{
    if 0 <= i < es.len() {
        match es[i].next {
            None => Set::empty().insert(i),
            Some(r) => if r.idx < i {
                chain_nodes(es, r.idx as int).insert(i)
            } else {
                Set::empty().insert(i)
            },
        }
    } else {
        Set::<int>::empty()
    }
}

/// Well-formedness of the chain headed at `i`: every link is in range and
/// points strictly downwards, every entry hashes to the chain's hash `h`,
/// and no entry is newer than generation `g`.
pub open spec fn chain_wf<K, V>(
    es: Seq<Entry<K, V>>,
    i: int,
    g: u32,
    h: u64,
    hf: spec_fn(K) -> u64,
) -> bool
    decreases i,
{
    if 0 <= i < es.len() {
        &&& hf(es[i].key) == h
        &&& es[i].generation <= g
        &&& match es[i].next {
            None => true,
            Some(r) => if r.idx < i {
                chain_wf(es, r.idx as int, g, h, hf)
            } else {
                false
            },
        }
    } else {
        false
    }
}

/// The value the chain headed at `i` associates with key `k`: the value of
/// the first entry whose key equals `k`, head first.
pub open spec fn chain_lookup<K, V>(es: Seq<Entry<K, V>>, i: int, k: K) -> Option<V>
    decreases i,
{
    if 0 <= i < es.len() {
        if es[i].key == k {
            Some(es[i].value)
        } else {
            match es[i].next {
                None => None,
                Some(r) => if r.idx < i {
                    chain_lookup(es, r.idx as int, k)
                } else {
                    None
                },
            }
        }
    } else {
        None
    }
}

/// The walk from `i` reaches `j` without passing any entry whose key is `k`.
pub open spec fn chain_skips<K, V>(es: Seq<Entry<K, V>>, i: int, j: int, k: K) -> bool
    decreases i,
{
    if i == j {
        true
    } else if 0 <= i < es.len() {
        &&& es[i].key != k
        &&& match es[i].next {
            None => false,
            Some(r) => if r.idx < i {
                chain_skips(es, r.idx as int, j, k)
            } else {
                false
            },
        }
    } else {
        false
    }
}

/// Facts every slot on a well-formed chain satisfies.
pub proof fn lemma_chain_nodes_facts<K, V>(
    es: Seq<Entry<K, V>>,
    i: int,
    g: u32,
    h: u64,
    hf: spec_fn(K) -> u64,
)
    requires
        chain_wf(es, i, g, h, hf),
    ensures
        chain_nodes(es, i).contains(i),
        forall|j: int| #[trigger]
            chain_nodes(es, i).contains(j) ==> 0 <= j <= i && j < es.len()
                && es[j].generation <= g && hf(es[j].key) == h,
    decreases i,
{
    match es[i].next {
        None => {},
        Some(r) => {
            if r.idx < i {
                lemma_chain_nodes_facts(es, r.idx as int, g, h, hf);
            }
        },
    }
}

/// A chain is untouched by any store change outside its own slots.
pub proof fn lemma_chain_frame<K, V>(
    es0: Seq<Entry<K, V>>,
    es1: Seq<Entry<K, V>>,
    i: int,
    g: u32,
    h: u64,
    hf: spec_fn(K) -> u64,
)
    requires
        chain_wf(es0, i, g, h, hf),
        forall|j: int| #[trigger]
            chain_nodes(es0, i).contains(j) ==> 0 <= j < es1.len() && es1[j] == es0[j],
    ensures
        chain_wf(es1, i, g, h, hf),
        chain_nodes(es1, i) == chain_nodes(es0, i),
        forall|k: K| #[trigger] chain_lookup(es1, i, k) == chain_lookup(es0, i, k),
    decreases i,
{
    lemma_chain_nodes_facts(es0, i, g, h, hf);
    assert(chain_nodes(es0, i).contains(i));
    match es0[i].next {
        None => {
            assert(chain_nodes(es1, i) =~= chain_nodes(es0, i));
        },
        Some(r) => {
            if r.idx < i {
                assert(chain_nodes(es0, i) == chain_nodes(es0, r.idx as int).insert(i));
                assert(forall|j: int| #[trigger]
                    chain_nodes(es0, r.idx as int).contains(j) ==> chain_nodes(
                        es0,
                        i,
                    ).contains(j));
                lemma_chain_frame(es0, es1, r.idx as int, g, h, hf);
                assert(chain_nodes(es1, i) =~= chain_nodes(es0, i));
            }
        },
    }
    assert forall|k: K| #[trigger] chain_lookup(es1, i, k) == chain_lookup(es0, i, k) by {
        assert(es1[i] == es0[i]);
        if es0[i].key != k {
            match es0[i].next {
                None => {},
                Some(r) => {
                    if r.idx < i {
                        assert(chain_lookup(es1, r.idx as int, k) == chain_lookup(
                            es0,
                            r.idx as int,
                            k,
                        ));
                    }
                },
            }
        }
    }
}

/// A key that a well-formed chain knows hashes to the chain's hash.
pub proof fn lemma_chain_lookup_found<K, V>(
    es: Seq<Entry<K, V>>,
    i: int,
    g: u32,
    h: u64,
    hf: spec_fn(K) -> u64,
    k: K,
)
    requires
        chain_wf(es, i, g, h, hf),
        chain_lookup(es, i, k) is Some,
    ensures
        hf(k) == h,
    decreases i,
{
    if es[i].key == k {
    } else {
        match es[i].next {
            None => {},
            Some(r) => {
                if r.idx < i {
                    lemma_chain_lookup_found(es, r.idx as int, g, h, hf, k);
                }
            },
        }
    }
}

/// Overwriting the value of the first entry carrying key `k` rewrites the
/// chain's answer for `k` and nothing else.
pub proof fn lemma_chain_update_value<K, V>(
    es0: Seq<Entry<K, V>>,
    es1: Seq<Entry<K, V>>,
    i: int,
    j: int,
    g: u32,
    h: u64,
    hf: spec_fn(K) -> u64,
    k: K,
    v: V,
)
    requires
        chain_wf(es0, i, g, h, hf),
        chain_skips(es0, i, j, k),
        0 <= j < es0.len(),
        es0[j].key == k,
        es1 == es0.update(
            j,
            (Entry {
                generation: es0[j].generation,
                key: es0[j].key,
                value: v,
                next: es0[j].next,
            }),
        ),
    ensures
        chain_wf(es1, i, g, h, hf),
        chain_nodes(es1, i) == chain_nodes(es0, i),
        chain_lookup(es1, i, k) == Some(v),
        forall|k2: K| k2 != k ==> #[trigger] chain_lookup(es1, i, k2) == chain_lookup(es0, i, k2),
    decreases i,
{
    assert(es1.len() == es0.len());
    assert(forall|x: int| 0 <= x < es0.len() && x != j ==> es1[x] == es0[x]);
    if i == j {
        match es0[i].next {
            None => {
                assert(chain_nodes(es1, i) =~= chain_nodes(es0, i));
            },
            Some(r) => {
                if r.idx < i {
                    lemma_chain_same_shape(es0, es1, r.idx as int, g, h, hf, j, k, v);
                    assert(chain_nodes(es1, i) =~= chain_nodes(es0, i));
                }
            },
        }
        assert(chain_lookup(es1, i, k) == Some(v));
        assert forall|k2: K| k2 != k implies #[trigger] chain_lookup(es1, i, k2) == chain_lookup(
            es0,
            i,
            k2,
        ) by {
            assert(es1[i].key == es0[i].key);
            assert(es1[i].next == es0[i].next);
            match es0[i].next {
                None => {},
                Some(r) => {
                    if r.idx < i {
                        assert(chain_lookup(es1, r.idx as int, k2) == chain_lookup(
                            es0,
                            r.idx as int,
                            k2,
                        ));
                    }
                },
            }
        }
    } else {
        match es0[i].next {
            None => {},
            Some(r) => {
                if r.idx < i {
                    lemma_chain_update_value(es0, es1, r.idx as int, j, g, h, hf, k, v);
                    assert(chain_nodes(es1, i) =~= chain_nodes(es0, i));
                    assert(es1[i] == es0[i]);
                    assert(es1[i].key != k);
                    assert(chain_lookup(es1, i, k) == Some(v));
                    assert forall|k2: K| k2 != k implies #[trigger] chain_lookup(es1, i, k2)
                        == chain_lookup(es0, i, k2) by {
                        assert(chain_lookup(es1, r.idx as int, k2) == chain_lookup(
                            es0,
                            r.idx as int,
                            k2,
                        ));
                    }
                }
            },
        }
    }
}

/// Helper for the suffix below the updated entry: entries there differ from
/// the old store at most in the value stored at `j`, whose key is `k`, so
/// lookups for `k` keep answering `v` and others are unchanged.
proof fn lemma_chain_same_shape<K, V>(
    es0: Seq<Entry<K, V>>,
    es1: Seq<Entry<K, V>>,
    i: int,
    g: u32,
    h: u64,
    hf: spec_fn(K) -> u64,
    j: int,
    k: K,
    v: V,
)
    requires
        chain_wf(es0, i, g, h, hf),
        0 <= j < es0.len(),
        es0[j].key == k,
        es1 == es0.update(
            j,
            (Entry {
                generation: es0[j].generation,
                key: es0[j].key,
                value: v,
                next: es0[j].next,
            }),
        ),
    ensures
        chain_wf(es1, i, g, h, hf),
        chain_nodes(es1, i) == chain_nodes(es0, i),
        forall|k2: K| k2 != k ==> #[trigger] chain_lookup(es1, i, k2) == chain_lookup(es0, i, k2),
    decreases i,
{
    match es0[i].next {
        None => {
            assert(chain_nodes(es1, i) =~= chain_nodes(es0, i));
        },
        Some(r) => {
            if r.idx < i {
                lemma_chain_same_shape(es0, es1, r.idx as int, g, h, hf, j, k, v);
                assert(chain_nodes(es1, i) =~= chain_nodes(es0, i));
            }
        },
    }
    assert forall|k2: K| k2 != k implies #[trigger] chain_lookup(es1, i, k2) == chain_lookup(
        es0,
        i,
        k2,
    ) by {
        assert(es1[i].key == es0[i].key);
        assert(es1[i].next == es0[i].next);
        if es0[i].key == k2 {
            assert(i != j);
            assert(es1[i] == es0[i]);
        } else {
            match es0[i].next {
                None => {},
                Some(r) => {
                    if r.idx < i {
                        assert(chain_lookup(es1, r.idx as int, k2) == chain_lookup(
                            es0,
                            r.idx as int,
                            k2,
                        ));
                    }
                },
            }
        }
    }
}

/// The entry slots reachable from `item`, walking blocks level by level and
/// chains link by link.
pub open spec fn item_entry_nodes<K, V>(
    bs: Seq<Block>,
    es: Seq<Entry<K, V>>,
    item: ItemRep,
    level: int,
) -> Set<int>
    decreases 16 - level, 17int,
{
    match item {
        ItemRep::Empty => Set::empty(),
        ItemRep::Entry(r) => chain_nodes(es, r.idx as int),
        ItemRep::Block(r) => {
            let b = r.idx as int;
            if level < 16 && 0 <= b < bs.len() && bs[b].entries@.len() == 16 {
                block_entry_nodes(bs, es, b, level, 0)
            } else {
                Set::empty()
            }
        },
    }
}

/// The entry slots reachable from children `n..16` of block `b`.
pub open spec fn block_entry_nodes<K, V>(
    bs: Seq<Block>,
    es: Seq<Entry<K, V>>,
    b: int,
    level: int,
    n: int,
) -> Set<int>
    decreases 16 - level, 16 - n,
{
    if 0 <= n < 16 && level < 16 && 0 <= b < bs.len() && bs[b].entries@.len() == 16 {
        item_entry_nodes(bs, es, bs[b].entries@[n], level + 1).union(
            block_entry_nodes(bs, es, b, level, n + 1),
        )
    } else {
        Set::<int>::empty()
    }
}

/// The block slots reachable from `item`, itself included if it is a block.
pub open spec fn item_block_nodes<K, V>(
    bs: Seq<Block>,
    es: Seq<Entry<K, V>>,
    item: ItemRep,
    level: int,
) -> Set<int>
    decreases 16 - level, 17int,
{
    match item {
        ItemRep::Empty => Set::empty(),
        ItemRep::Entry(_) => Set::empty(),
        ItemRep::Block(r) => {
            let b = r.idx as int;
            if level < 16 && 0 <= b < bs.len() && bs[b].entries@.len() == 16 {
                block_block_nodes(bs, es, b, level, 0).insert(b)
            } else {
                Set::empty().insert(b)
            }
        },
    }
}

/// The block slots reachable from children `n..16` of block `b`.
pub open spec fn block_block_nodes<K, V>(
    bs: Seq<Block>,
    es: Seq<Entry<K, V>>,
    b: int,
    level: int,
    n: int,
) -> Set<int>
    decreases 16 - level, 16 - n,
{
    if 0 <= n < 16 && level < 16 && 0 <= b < bs.len() && bs[b].entries@.len() == 16 {
        item_block_nodes(bs, es, bs[b].entries@[n], level + 1).union(
            block_block_nodes(bs, es, b, level, n + 1),
        )
    } else {
        Set::<int>::empty()
    }
}

/// Subtrees under distinct children of block `b` share no node, and none of
/// them reaches back to `b` itself.
pub open spec fn block_separated<K, V>(
    bs: Seq<Block>,
    es: Seq<Entry<K, V>>,
    b: int,
    level: int,
) -> bool {
    &&& forall|n1: int, n2: int|
        0 <= n1 < 16 && 0 <= n2 < 16 && n1 != n2 ==> (#[trigger] item_entry_nodes(
            bs,
            es,
            bs[b].entries@[n1],
            level + 1,
        )).disjoint(#[trigger] item_entry_nodes(bs, es, bs[b].entries@[n2], level + 1))
    &&& forall|n1: int, n2: int|
        0 <= n1 < 16 && 0 <= n2 < 16 && n1 != n2 ==> (#[trigger] item_block_nodes(
            bs,
            es,
            bs[b].entries@[n1],
            level + 1,
        )).disjoint(#[trigger] item_block_nodes(bs, es, bs[b].entries@[n2], level + 1))
    &&& forall|n: int|
        0 <= n < 16 ==> !(#[trigger] item_block_nodes(bs, es, bs[b].entries@[n], level + 1))
            .contains(b)
}

/// Well-formedness of the subtree rooted at `item`, sitting under trie path
/// `path` for a handle of generation `g` whose hash function is `hf`.
pub open spec fn item_wf<K, V>(
    bs: Seq<Block>,
    es: Seq<Entry<K, V>>,
    item: ItemRep,
    g: u32,
    path: Seq<u64>,
    hf: spec_fn(K) -> u64,
) -> bool
    decreases 16 - path.len(), 17int,
{
    match item {
        ItemRep::Empty => true,
        ItemRep::Entry(r) => {
            let i = r.idx as int;
            &&& i < es.len()
            &&& chain_wf(es, i, g, hf(es[i].key), hf)
            &&& hash_has_path(hf(es[i].key), path)
        },
        ItemRep::Block(r) => {
            let b = r.idx as int;
            if path.len() < 16 && 0 <= b < bs.len() && bs[b].entries@.len() == 16 {
                &&& bs[b].generation <= g
                &&& block_children_wf(bs, es, b, g, path, 0, hf)
                &&& block_separated(bs, es, b, path.len() as int)
            } else {
                false
            }
        },
    }
}

/// Well-formedness of children `n..16` of block `b`.
pub open spec fn block_children_wf<K, V>(
    bs: Seq<Block>,
    es: Seq<Entry<K, V>>,
    b: int,
    g: u32,
    path: Seq<u64>,
    n: int,
    hf: spec_fn(K) -> u64,
) -> bool
    decreases 16 - path.len(), 16 - n,
{
    if 0 <= n < 16 && path.len() < 16 && 0 <= b < bs.len() && bs[b].entries@.len() == 16 {
        &&& item_wf(bs, es, bs[b].entries@[n], g, path.push(n as u64), hf)
        &&& block_children_wf(bs, es, b, g, path, n + 1, hf)
    } else {
        true
    }
}

/// The value the subtree at `item` associates with key `k`, whose hash is
/// `h`, with `level` nibbles of the hash already consumed.
pub open spec fn path_lookup<K, V>(
    bs: Seq<Block>,
    es: Seq<Entry<K, V>>,
    item: ItemRep,
    h: u64,
    level: int,
    k: K,
) -> Option<V>
    decreases 16 - level,
{
    match item {
        ItemRep::Empty => None,
        ItemRep::Entry(r) => chain_lookup(es, r.idx as int, k),
        ItemRep::Block(r) => {
            let b = r.idx as int;
            if level < 16 && 0 <= b < bs.len() && bs[b].entries@.len() == 16 {
                path_lookup(bs, es, bs[b].entries@[nibble(h, level) as int], h, level + 1, k)
            } else {
                None
            }
        },
    }
}

/// Every reachable node of the mutating generation `g` is listed in the
/// handle's owned sets, so everything else is older and frozen.
pub open spec fn owned_covers<K, V>(
    bs: Seq<Block>,
    es: Seq<Entry<K, V>>,
    item: ItemRep,
    g: u32,
    level: int,
    ob: Set<int>,
    oe: Set<int>,
) -> bool {
    &&& forall|i: int|
        (#[trigger] item_entry_nodes(bs, es, item, level).contains(i)) && 0 <= i < es.len()
            && es[i].generation == g ==> oe.contains(i)
    &&& forall|i: int|
        (#[trigger] item_block_nodes(bs, es, item, level).contains(i)) && 0 <= i < bs.len()
            && bs[i].generation == g ==> ob.contains(i)
}

/// Extending a path by the nibble the hash selects next keeps the hash on
/// the path, and conversely.
pub proof fn lemma_hash_path_push(h: u64, path: Seq<u64>, n: u64)
    ensures
        hash_has_path(h, path.push(n)) <==> (hash_has_path(h, path) && nibble(
            h,
            path.len() as int,
        ) == n),
{
    let p1 = path.push(n);
    if hash_has_path(h, p1) {
        assert forall|j: int| 0 <= j < path.len() implies #[trigger] nibble(h, j) == path[j] by {
            assert(nibble(h, j) == p1[j]);
        }
        assert(nibble(h, path.len() as int) == p1[path.len() as int]);
    }
    if hash_has_path(h, path) && nibble(h, path.len() as int) == n {
        assert forall|j: int| 0 <= j < p1.len() implies #[trigger] nibble(h, j) == p1[j] by {
            if j < path.len() {
                assert(nibble(h, j) == path[j]);
            }
        }
    }
}

/// Well-formedness of children `n..16` gives well-formedness of each child.
pub proof fn lemma_children_wf_at<K, V>(
    bs: Seq<Block>,
    es: Seq<Entry<K, V>>,
    b: int,
    g: u32,
    path: Seq<u64>,
    n: int,
    m: int,
    hf: spec_fn(K) -> u64,
)
    requires
        block_children_wf(bs, es, b, g, path, n, hf),
        path.len() < 16,
        0 <= b < bs.len(),
        bs[b].entries@.len() == 16,
        0 <= n <= m < 16,
    ensures
        item_wf(bs, es, bs[b].entries@[m], g, path.push(m as u64), hf),
    decreases m - n,
{
    if n < m {
        lemma_children_wf_at(bs, es, b, g, path, n + 1, m, hf);
    }
}

/// A node reachable from child `m` is reachable from the child range `n..16`
/// containing `m`.
pub proof fn lemma_block_nodes_member<K, V>(
    bs: Seq<Block>,
    es: Seq<Entry<K, V>>,
    b: int,
    level: int,
    n: int,
    m: int,
)
    requires
        level < 16,
        0 <= b < bs.len(),
        bs[b].entries@.len() == 16,
        0 <= n <= m < 16,
    ensures
        forall|x: int| #[trigger]
            item_entry_nodes(bs, es, bs[b].entries@[m], level + 1).contains(x)
                ==> block_entry_nodes(bs, es, b, level, n).contains(x),
        forall|x: int| #[trigger]
            item_block_nodes(bs, es, bs[b].entries@[m], level + 1).contains(x)
                ==> block_block_nodes(bs, es, b, level, n).contains(x),
    decreases m - n,
{
    if n < m {
        lemma_block_nodes_member(bs, es, b, level, n + 1, m);
    }
}

/// A node reachable from the child range `n..16` is reachable from one of
/// its children.
pub proof fn lemma_block_nodes_elim<K, V>(
    bs: Seq<Block>,
    es: Seq<Entry<K, V>>,
    b: int,
    level: int,
    n: int,
)
    requires
        level < 16,
        0 <= b < bs.len(),
        bs[b].entries@.len() == 16,
        0 <= n < 16,
    ensures
        forall|x: int| #[trigger]
            block_entry_nodes(bs, es, b, level, n).contains(x) ==> exists|m: int|
                n <= m < 16 && item_entry_nodes(bs, es, bs[b].entries@[m], level + 1).contains(x),
        forall|x: int| #[trigger]
            block_block_nodes(bs, es, b, level, n).contains(x) ==> exists|m: int|
                n <= m < 16 && item_block_nodes(bs, es, bs[b].entries@[m], level + 1).contains(x),
    decreases 16 - n,
{
    if n + 1 < 16 {
        lemma_block_nodes_elim(bs, es, b, level, n + 1);
    }
    assert forall|x: int| #[trigger]
        block_entry_nodes(bs, es, b, level, n).contains(x) implies exists|m: int|
        n <= m < 16 && item_entry_nodes(bs, es, bs[b].entries@[m], level + 1).contains(x) by {
        if item_entry_nodes(bs, es, bs[b].entries@[n], level + 1).contains(x) {
            assert(n <= n < 16 && item_entry_nodes(bs, es, bs[b].entries@[n], level + 1).contains(
                x,
            ));
        } else {
            assert(block_entry_nodes(bs, es, b, level, n + 1).contains(x));
        }
    }
    assert forall|x: int| #[trigger]
        block_block_nodes(bs, es, b, level, n).contains(x) implies exists|m: int|
        n <= m < 16 && item_block_nodes(bs, es, bs[b].entries@[m], level + 1).contains(x) by {
        if item_block_nodes(bs, es, bs[b].entries@[n], level + 1).contains(x) {
            assert(n <= n < 16 && item_block_nodes(bs, es, bs[b].entries@[n], level + 1).contains(
                x,
            ));
        } else {
            assert(block_block_nodes(bs, es, b, level, n + 1).contains(x));
        }
    }
}

/// Every node reachable from a well-formed subtree is in range and no newer
/// than the handle's generation.
pub proof fn lemma_item_nodes_facts<K, V>(
    bs: Seq<Block>,
    es: Seq<Entry<K, V>>,
    item: ItemRep,
    g: u32,
    path: Seq<u64>,
    hf: spec_fn(K) -> u64,
)
    requires
        item_wf(bs, es, item, g, path, hf),
    ensures
        forall|i: int| #[trigger]
            item_entry_nodes(bs, es, item, path.len() as int).contains(i) ==> 0 <= i < es.len()
                && es[i].generation <= g,
        forall|i: int| #[trigger]
            item_block_nodes(bs, es, item, path.len() as int).contains(i) ==> 0 <= i < bs.len()
                && bs[i].generation <= g,
    decreases 16 - path.len(), 17int,
{
    match item {
        ItemRep::Empty => {},
        ItemRep::Entry(r) => {
            let i = r.idx as int;
            lemma_chain_nodes_facts(es, i, g, hf(es[i].key), hf);
        },
        ItemRep::Block(r) => {
            let b = r.idx as int;
            let level = path.len() as int;
            lemma_block_nodes_facts(bs, es, b, g, path, 0, hf);
            assert(item_entry_nodes(bs, es, item, level) == block_entry_nodes(bs, es, b, level, 0));
            assert(item_block_nodes(bs, es, item, level) == block_block_nodes(
                bs,
                es,
                b,
                level,
                0,
            ).insert(b));
            assert forall|i: int| #[trigger]
                item_block_nodes(bs, es, item, level).contains(i) implies 0 <= i < bs.len()
                && bs[i].generation <= g by {
                if i != b {
                    assert(block_block_nodes(bs, es, b, level, 0).contains(i));
                }
            }
        },
    }
}

/// The range/generation facts for the children `n..16` of block `b`.
pub proof fn lemma_block_nodes_facts<K, V>(
    bs: Seq<Block>,
    es: Seq<Entry<K, V>>,
    b: int,
    g: u32,
    path: Seq<u64>,
    n: int,
    hf: spec_fn(K) -> u64,
)
    requires
        block_children_wf(bs, es, b, g, path, n, hf),
        path.len() < 16,
        0 <= b < bs.len(),
        bs[b].entries@.len() == 16,
        0 <= n < 16,
    ensures
        forall|i: int| #[trigger]
            block_entry_nodes(bs, es, b, path.len() as int, n).contains(i) ==> 0 <= i < es.len()
                && es[i].generation <= g,
        forall|i: int| #[trigger]
            block_block_nodes(bs, es, b, path.len() as int, n).contains(i) ==> 0 <= i < bs.len()
                && bs[i].generation <= g,
    decreases 16 - path.len(), 16 - n,
{
    let child = bs[b].entries@[n];
    let level = path.len() as int;
    assert(item_wf(bs, es, child, g, path.push(n as u64), hf));
    lemma_item_nodes_facts(bs, es, child, g, path.push(n as u64), hf);
    assert(path.push(n as u64).len() as int == level + 1);
    if n + 1 < 16 {
        lemma_block_nodes_facts(bs, es, b, g, path, n + 1, hf);
    }
    assert(block_entry_nodes(bs, es, b, level, n) == item_entry_nodes(bs, es, child, level + 1)
        .union(block_entry_nodes(bs, es, b, level, n + 1)));
    assert(block_block_nodes(bs, es, b, level, n) == item_block_nodes(bs, es, child, level + 1)
        .union(block_block_nodes(bs, es, b, level, n + 1)));
    assert forall|i: int| #[trigger]
        block_entry_nodes(bs, es, b, level, n).contains(i) implies 0 <= i < es.len()
        && es[i].generation <= g by {
        if item_entry_nodes(bs, es, child, level + 1).contains(i) {
        } else {
            assert(block_entry_nodes(bs, es, b, level, n + 1).contains(i));
        }
    }
    assert forall|i: int| #[trigger]
        block_block_nodes(bs, es, b, level, n).contains(i) implies 0 <= i < bs.len()
        && bs[i].generation <= g by {
        if item_block_nodes(bs, es, child, level + 1).contains(i) {
        } else {
            assert(block_block_nodes(bs, es, b, level, n + 1).contains(i));
        }
    }
}

/// Raising the generation bound preserves chain well-formedness.
pub proof fn lemma_chain_wf_gen_mono<K, V>(
    es: Seq<Entry<K, V>>,
    i: int,
    g: u32,
    g2: u32,
    h: u64,
    hf: spec_fn(K) -> u64,
)
    requires
        chain_wf(es, i, g, h, hf),
        g <= g2,
    ensures
        chain_wf(es, i, g2, h, hf),
    decreases i,
{
    match es[i].next {
        None => {},
        Some(r) => {
            if r.idx < i {
                lemma_chain_wf_gen_mono(es, r.idx as int, g, g2, h, hf);
            }
        },
    }
}

/// Raising the generation bound preserves subtree well-formedness.
pub proof fn lemma_item_wf_gen_mono<K, V>(
    bs: Seq<Block>,
    es: Seq<Entry<K, V>>,
    item: ItemRep,
    g: u32,
    g2: u32,
    path: Seq<u64>,
    hf: spec_fn(K) -> u64,
)
    requires
        item_wf(bs, es, item, g, path, hf),
        g <= g2,
    ensures
        item_wf(bs, es, item, g2, path, hf),
    decreases 16 - path.len(), 17int,
{
    match item {
        ItemRep::Empty => {},
        ItemRep::Entry(r) => {
            let i = r.idx as int;
            lemma_chain_wf_gen_mono(es, i, g, g2, hf(es[i].key), hf);
        },
        ItemRep::Block(r) => {
            let b = r.idx as int;
            lemma_block_children_wf_gen_mono(bs, es, b, g, g2, path, 0, hf);
        },
    }
}

/// Generation monotonicity for the children `n..16` of block `b`.
pub proof fn lemma_block_children_wf_gen_mono<K, V>(
    bs: Seq<Block>,
    es: Seq<Entry<K, V>>,
    b: int,
    g: u32,
    g2: u32,
    path: Seq<u64>,
    n: int,
    hf: spec_fn(K) -> u64,
)
    requires
        block_children_wf(bs, es, b, g, path, n, hf),
        path.len() < 16,
        0 <= b < bs.len(),
        bs[b].entries@.len() == 16,
        0 <= n < 16,
        g <= g2,
    ensures
        block_children_wf(bs, es, b, g2, path, n, hf),
    decreases 16 - path.len(), 16 - n,
{
    lemma_item_wf_gen_mono(bs, es, bs[b].entries@[n], g, g2, path.push(n as u64), hf);
    if n + 1 < 16 {
        lemma_block_children_wf_gen_mono(bs, es, b, g, g2, path, n + 1, hf);
    }
}

/// A well-formed subtree is untouched by any store change outside its own
/// nodes: well-formedness, the reachable sets, and every lookup answer are
/// preserved.
pub proof fn lemma_item_frame<K, V>(
    bs0: Seq<Block>,
    es0: Seq<Entry<K, V>>,
    bs1: Seq<Block>,
    es1: Seq<Entry<K, V>>,
    item: ItemRep,
    g: u32,
    path: Seq<u64>,
    hf: spec_fn(K) -> u64,
)
    requires
        item_wf(bs0, es0, item, g, path, hf),
        forall|i: int| #[trigger]
            item_entry_nodes(bs0, es0, item, path.len() as int).contains(i) ==> 0 <= i
                < es1.len() && i < es0.len() && es1[i] == es0[i],
        forall|i: int| #[trigger]
            item_block_nodes(bs0, es0, item, path.len() as int).contains(i) ==> 0 <= i
                < bs1.len() && i < bs0.len() && bs1[i] == bs0[i],
    ensures
        item_wf(bs1, es1, item, g, path, hf),
        item_entry_nodes(bs1, es1, item, path.len() as int) == item_entry_nodes(
            bs0,
            es0,
            item,
            path.len() as int,
        ),
        item_block_nodes(bs1, es1, item, path.len() as int) == item_block_nodes(
            bs0,
            es0,
            item,
            path.len() as int,
        ),
        forall|h: u64, k: K| #[trigger]
            path_lookup(bs1, es1, item, h, path.len() as int, k) == path_lookup(
                bs0,
                es0,
                item,
                h,
                path.len() as int,
                k,
            ),
    decreases 16 - path.len(), 17int,
{
    let level = path.len() as int;
    match item {
        ItemRep::Empty => {
            assert(item_entry_nodes(bs1, es1, item, level) =~= item_entry_nodes(
                bs0,
                es0,
                item,
                level,
            ));
            assert(item_block_nodes(bs1, es1, item, level) =~= item_block_nodes(
                bs0,
                es0,
                item,
                level,
            ));
        },
        ItemRep::Entry(r) => {
            let i = r.idx as int;
            let h0 = hf(es0[i].key);
            lemma_chain_nodes_facts(es0, i, g, h0, hf);
            assert(item_entry_nodes(bs0, es0, item, level) == chain_nodes(es0, i));
            assert(chain_nodes(es0, i).contains(i));
            lemma_chain_frame(es0, es1, i, g, h0, hf);
            assert(es1[i] == es0[i]);
            assert(item_entry_nodes(bs1, es1, item, level) == chain_nodes(es1, i));
            assert(item_block_nodes(bs1, es1, item, level) =~= item_block_nodes(
                bs0,
                es0,
                item,
                level,
            ));
        },
        ItemRep::Block(r) => {
            let b = r.idx as int;
            assert(item_block_nodes(bs0, es0, item, level) == block_block_nodes(
                bs0,
                es0,
                b,
                level,
                0,
            ).insert(b));
            assert(item_block_nodes(bs0, es0, item, level).contains(b));
            assert(bs1[b] == bs0[b]);
            assert(item_entry_nodes(bs0, es0, item, level) == block_entry_nodes(
                bs0,
                es0,
                b,
                level,
                0,
            ));
            assert(forall|i: int| #[trigger]
                block_block_nodes(bs0, es0, b, level, 0).contains(i) ==> item_block_nodes(
                    bs0,
                    es0,
                    item,
                    level,
                ).contains(i));
            lemma_block_children_frame(bs0, es0, bs1, es1, b, g, path, 0, hf);
            let ch = bs0[b].entries@;
            assert(bs1[b].entries@ == ch);
            // separation carries over child by child, since each child's
            // reachable sets are unchanged
            assert forall|n1: int, n2: int|
                0 <= n1 < 16 && 0 <= n2 < 16 && n1 != n2 implies (#[trigger] item_entry_nodes(
                bs1,
                es1,
                bs1[b].entries@[n1],
                level + 1,
            )).disjoint(#[trigger] item_entry_nodes(bs1, es1, bs1[b].entries@[n2], level + 1)) by {
                assert(item_entry_nodes(bs1, es1, ch[n1], level + 1) == item_entry_nodes(
                    bs0,
                    es0,
                    ch[n1],
                    level + 1,
                ));
                assert(item_entry_nodes(bs1, es1, ch[n2], level + 1) == item_entry_nodes(
                    bs0,
                    es0,
                    ch[n2],
                    level + 1,
                ));
            }
            assert forall|n1: int, n2: int|
                0 <= n1 < 16 && 0 <= n2 < 16 && n1 != n2 implies (#[trigger] item_block_nodes(
                bs1,
                es1,
                bs1[b].entries@[n1],
                level + 1,
            )).disjoint(#[trigger] item_block_nodes(bs1, es1, bs1[b].entries@[n2], level + 1)) by {
                assert(item_block_nodes(bs1, es1, ch[n1], level + 1) == item_block_nodes(
                    bs0,
                    es0,
                    ch[n1],
                    level + 1,
                ));
                assert(item_block_nodes(bs1, es1, ch[n2], level + 1) == item_block_nodes(
                    bs0,
                    es0,
                    ch[n2],
                    level + 1,
                ));
            }
            assert forall|n: int| 0 <= n < 16 implies !(#[trigger] item_block_nodes(
                bs1,
                es1,
                bs1[b].entries@[n],
                level + 1,
            )).contains(b) by {
                assert(item_block_nodes(bs1, es1, ch[n], level + 1) == item_block_nodes(
                    bs0,
                    es0,
                    ch[n],
                    level + 1,
                ));
            }
            assert(block_separated(bs1, es1, b, level));
            assert(item_wf(bs1, es1, item, g, path, hf));
            assert(item_entry_nodes(bs1, es1, item, level) == block_entry_nodes(
                bs1,
                es1,
                b,
                level,
                0,
            ));
            assert(item_block_nodes(bs1, es1, item, level) == block_block_nodes(
                bs1,
                es1,
                b,
                level,
                0,
            ).insert(b));
            assert forall|h: u64, k: K| #[trigger]
                path_lookup(bs1, es1, item, h, level, k) == path_lookup(
                bs0,
                es0,
                item,
                h,
                level,
                k,
            ) by {
                lemma_nibble_bound(h, level);
                let m = nibble(h, level) as int;
                assert(path_lookup(bs1, es1, ch[m], h, level + 1, k) == path_lookup(
                    bs0,
                    es0,
                    ch[m],
                    h,
                    level + 1,
                    k,
                ));
            }
        },
    }
}

/// The frame property for the children `n..16` of block `b`.
pub proof fn lemma_block_children_frame<K, V>(
    bs0: Seq<Block>,
    es0: Seq<Entry<K, V>>,
    bs1: Seq<Block>,
    es1: Seq<Entry<K, V>>,
    b: int,
    g: u32,
    path: Seq<u64>,
    n: int,
    hf: spec_fn(K) -> u64,
)
    requires
        block_children_wf(bs0, es0, b, g, path, n, hf),
        path.len() < 16,
        0 <= b < bs0.len(),
        bs0[b].entries@.len() == 16,
        0 <= n < 16,
        0 <= b < bs1.len(),
        bs1[b] == bs0[b],
        forall|i: int| #[trigger]
            block_entry_nodes(bs0, es0, b, path.len() as int, n).contains(i) ==> 0 <= i
                < es1.len() && i < es0.len() && es1[i] == es0[i],
        forall|i: int| #[trigger]
            block_block_nodes(bs0, es0, b, path.len() as int, n).contains(i) ==> 0 <= i
                < bs1.len() && i < bs0.len() && bs1[i] == bs0[i],
    ensures
        block_children_wf(bs1, es1, b, g, path, n, hf),
        block_entry_nodes(bs1, es1, b, path.len() as int, n) == block_entry_nodes(
            bs0,
            es0,
            b,
            path.len() as int,
            n,
        ),
        block_block_nodes(bs1, es1, b, path.len() as int, n) == block_block_nodes(
            bs0,
            es0,
            b,
            path.len() as int,
            n,
        ),
        forall|m: int|
            n <= m < 16 ==> #[trigger] item_entry_nodes(
                bs1,
                es1,
                bs0[b].entries@[m],
                path.len() as int + 1,
            ) == item_entry_nodes(bs0, es0, bs0[b].entries@[m], path.len() as int + 1),
        forall|m: int|
            n <= m < 16 ==> #[trigger] item_block_nodes(
                bs1,
                es1,
                bs0[b].entries@[m],
                path.len() as int + 1,
            ) == item_block_nodes(bs0, es0, bs0[b].entries@[m], path.len() as int + 1),
        forall|m: int, h: u64, k: K|
            n <= m < 16 ==> #[trigger] path_lookup(
                bs1,
                es1,
                bs0[b].entries@[m],
                h,
                path.len() as int + 1,
                k,
            ) == path_lookup(bs0, es0, bs0[b].entries@[m], h, path.len() as int + 1, k),
    decreases 16 - path.len(), 16 - n,
{
    let level = path.len() as int;
    let child = bs0[b].entries@[n];
    let pushed = path.push(n as u64);
    assert(pushed.len() as int == level + 1);
    assert(block_entry_nodes(bs0, es0, b, level, n) == item_entry_nodes(
        bs0,
        es0,
        child,
        level + 1,
    ).union(block_entry_nodes(bs0, es0, b, level, n + 1)));
    assert(block_block_nodes(bs0, es0, b, level, n) == item_block_nodes(
        bs0,
        es0,
        child,
        level + 1,
    ).union(block_block_nodes(bs0, es0, b, level, n + 1)));
    assert(forall|i: int| #[trigger]
        item_entry_nodes(bs0, es0, child, level + 1).contains(i) ==> block_entry_nodes(
            bs0,
            es0,
            b,
            level,
            n,
        ).contains(i));
    assert(forall|i: int| #[trigger]
        item_block_nodes(bs0, es0, child, level + 1).contains(i) ==> block_block_nodes(
            bs0,
            es0,
            b,
            level,
            n,
        ).contains(i));
    lemma_item_frame(bs0, es0, bs1, es1, child, g, pushed, hf);
    if n + 1 < 16 {
        assert(forall|i: int| #[trigger]
            block_entry_nodes(bs0, es0, b, level, n + 1).contains(i) ==> block_entry_nodes(
                bs0,
                es0,
                b,
                level,
                n,
            ).contains(i));
        assert(forall|i: int| #[trigger]
            block_block_nodes(bs0, es0, b, level, n + 1).contains(i) ==> block_block_nodes(
                bs0,
                es0,
                b,
                level,
                n,
            ).contains(i));
        lemma_block_children_frame(bs0, es0, bs1, es1, b, g, path, n + 1, hf);
    } else {
        assert(block_entry_nodes(bs1, es1, b, level, n + 1) =~= block_entry_nodes(
            bs0,
            es0,
            b,
            level,
            n + 1,
        ));
        assert(block_block_nodes(bs1, es1, b, level, n + 1) =~= block_block_nodes(
            bs0,
            es0,
            b,
            level,
            n + 1,
        ));
    }
    assert(bs1[b].entries@[n] == child);
    assert(block_entry_nodes(bs1, es1, b, level, n) == item_entry_nodes(
        bs1,
        es1,
        child,
        level + 1,
    ).union(block_entry_nodes(bs1, es1, b, level, n + 1)));
    assert(block_block_nodes(bs1, es1, b, level, n) == item_block_nodes(
        bs1,
        es1,
        child,
        level + 1,
    ).union(block_block_nodes(bs1, es1, b, level, n + 1)));
}

/// One step of the chain walk: moving from a visited non-matching entry `j`
/// to its continuation keeps the walk on the chain and still missing `k`.
pub proof fn lemma_chain_step<K, V>(
    es: Seq<Entry<K, V>>,
    i: int,
    j: int,
    nx: ItemRef,
    k: K,
    g: u32,
    h: u64,
    hf: spec_fn(K) -> u64,
)
    requires
        chain_wf(es, i, g, h, hf),
        chain_wf(es, j, g, h, hf),
        chain_skips(es, i, j, k),
        chain_nodes(es, i).contains(j),
        es[j].key != k,
        es[j].next == Some(nx),
    ensures
        nx.idx < j,
        chain_wf(es, nx.idx as int, g, h, hf),
        chain_skips(es, i, nx.idx as int, k),
        chain_nodes(es, i).contains(nx.idx as int),
{
    assert(nx.idx < j);
    assert(chain_skips(es, nx.idx as int, nx.idx as int, k));
    assert(chain_skips(es, j, nx.idx as int, k));
    lemma_chain_skips_trans(es, i, j, nx.idx as int, k);
    lemma_chain_nodes_facts(es, nx.idx as int, g, h, hf);
    assert(chain_nodes(es, j) == chain_nodes(es, nx.idx as int).insert(j));
    assert(chain_nodes(es, j).contains(nx.idx as int));
    lemma_chain_nodes_closed(es, i, j, g, h, hf);
}

/// Chain-walk misses compose: a walk that misses `k` from `i` to `j` and
/// from `j` to `l` misses `k` from `i` to `l`.
pub proof fn lemma_chain_skips_trans<K, V>(es: Seq<Entry<K, V>>, i: int, j: int, l: int, k: K)
    requires
        chain_skips(es, i, j, k),
        chain_skips(es, j, l, k),
    ensures
        chain_skips(es, i, l, k),
    decreases i,
{
    if i == j {
    } else {
        match es[i].next {
            None => {},
            Some(r) => {
                if r.idx < i {
                    lemma_chain_skips_trans(es, r.idx as int, j, l, k);
                }
            },
        }
    }
}

/// Every entry on a chain is reachable from the head, so the continuation of
/// a chain node stays inside the chain's slot set.
pub proof fn lemma_chain_nodes_closed<K, V>(
    es: Seq<Entry<K, V>>,
    i: int,
    j: int,
    g: u32,
    h: u64,
    hf: spec_fn(K) -> u64,
)
    requires
        chain_wf(es, i, g, h, hf),
        chain_nodes(es, i).contains(j),
    ensures
        chain_wf(es, j, g, h, hf),
        forall|x: int| #[trigger]
            chain_nodes(es, j).contains(x) ==> chain_nodes(es, i).contains(x),
    decreases i,
{
    if j == i {
    } else {
        match es[i].next {
            None => {},
            Some(r) => {
                if r.idx < i {
                    assert(chain_nodes(es, i) == chain_nodes(es, r.idx as int).insert(i));
                    lemma_chain_nodes_closed(es, r.idx as int, j, g, h, hf);
                }
            },
        }
    }
}

/// Per-child well-formedness of all children from `n` up assembles into the
/// recursive children predicate.
pub proof fn lemma_children_wf_intro<K, V>(
    bs: Seq<Block>,
    es: Seq<Entry<K, V>>,
    b: int,
    g: u32,
    path: Seq<u64>,
    n: int,
    hf: spec_fn(K) -> u64,
)
    requires
        path.len() < 16,
        0 <= b < bs.len(),
        bs[b].entries@.len() == 16,
        0 <= n < 16,
        forall|m: int|
            n <= m < 16 ==> item_wf(
                bs,
                es,
                #[trigger] bs[b].entries@[m],
                g,
                path.push(m as u64),
                hf,
            ),
    ensures
        block_children_wf(bs, es, b, g, path, n, hf),
    decreases 16 - n,
{
    if n + 1 < 16 {
        lemma_children_wf_intro(bs, es, b, g, path, n + 1, hf);
    } else {
        assert(block_children_wf(bs, es, b, g, path, n + 1, hf));
    }
    assert(item_wf(bs, es, bs[b].entries@[n], g, path.push(n as u64), hf));
}

/// Two blocks with the same child array describe the same children: the
/// children predicate and both reachable-set functions agree.
pub proof fn lemma_twin_children<K, V>(
    bs: Seq<Block>,
    es: Seq<Entry<K, V>>,
    b1: int,
    b2: int,
    level: int,
    n: int,
)
    requires
        level < 16,
        0 <= b1 < bs.len(),
        0 <= b2 < bs.len(),
        bs[b1].entries@.len() == 16,
        bs[b1].entries@ == bs[b2].entries@,
        0 <= n < 16,
    ensures
        block_entry_nodes(bs, es, b2, level, n) == block_entry_nodes(bs, es, b1, level, n),
        block_block_nodes(bs, es, b2, level, n) == block_block_nodes(bs, es, b1, level, n),
    decreases 16 - n,
{
    if n + 1 < 16 {
        lemma_twin_children(bs, es, b1, b2, level, n + 1);
    } else {
        assert(block_entry_nodes(bs, es, b2, level, n + 1) =~= block_entry_nodes(
            bs,
            es,
            b1,
            level,
            n + 1,
        ));
        assert(block_block_nodes(bs, es, b2, level, n + 1) =~= block_block_nodes(
            bs,
            es,
            b1,
            level,
            n + 1,
        ));
    }
    assert(bs[b2].entries@[n] == bs[b1].entries@[n]);
}

/// Two blocks with the same child array satisfy the same children
/// well-formedness predicate.
pub proof fn lemma_twin_children_wf<K, V>(
    bs: Seq<Block>,
    es: Seq<Entry<K, V>>,
    b1: int,
    b2: int,
    g: u32,
    path: Seq<u64>,
    n: int,
    hf: spec_fn(K) -> u64,
)
    requires
        path.len() < 16,
        0 <= b1 < bs.len(),
        0 <= b2 < bs.len(),
        bs[b1].entries@.len() == 16,
        bs[b1].entries@ == bs[b2].entries@,
        0 <= n < 16,
        block_children_wf(bs, es, b1, g, path, n, hf),
    ensures
        block_children_wf(bs, es, b2, g, path, n, hf),
    decreases 16 - n,
{
    if n + 1 < 16 {
        lemma_twin_children_wf(bs, es, b1, b2, g, path, n + 1, hf);
    } else {
        assert(block_children_wf(bs, es, b2, g, path, n + 1, hf));
    }
    assert(bs[b2].entries@[n] == bs[b1].entries@[n]);
    assert(item_wf(bs, es, bs[b2].entries@[n], g, path.push(n as u64), hf));
}

/// Duplicating a block's child array into a fresh slot `rc` yields a block
/// describing the same subtrees: same entry nodes, same lookups, and the
/// reachable block set merely trades the old slot for the new one.
pub proof fn lemma_block_copy<K, V>(
    bs0: Seq<Block>,
    es: Seq<Entry<K, V>>,
    bs1: Seq<Block>,
    rb: ItemRef,
    rc: ItemRef,
    g: u32,
    path: Seq<u64>,
    hf: spec_fn(K) -> u64,
)
    requires
        item_wf(bs0, es, ItemRep::Block(rb), g, path, hf),
        rc.idx == bs0.len(),
        bs1.len() == bs0.len() + 1,
        forall|i: int| 0 <= i < bs0.len() ==> bs1[i] == bs0[i],
        bs1[rc.idx as int].entries@ == bs0[rb.idx as int].entries@,
        bs1[rc.idx as int].generation <= g,
    ensures
        item_wf(bs1, es, ItemRep::Block(rc), g, path, hf),
        item_entry_nodes(bs1, es, ItemRep::Block(rc), path.len() as int) == item_entry_nodes(
            bs0,
            es,
            ItemRep::Block(rb),
            path.len() as int,
        ),
        item_block_nodes(bs1, es, ItemRep::Block(rc), path.len() as int) == item_block_nodes(
            bs0,
            es,
            ItemRep::Block(rb),
            path.len() as int,
        ).remove(rb.idx as int).insert(rc.idx as int),
        forall|h: u64, k: K| #[trigger]
            path_lookup(bs1, es, ItemRep::Block(rc), h, path.len() as int, k) == path_lookup(
                bs0,
                es,
                ItemRep::Block(rb),
                h,
                path.len() as int,
                k,
            ),
{
    let b = rb.idx as int;
    let c = rc.idx as int;
    let level = path.len() as int;
    let item0 = ItemRep::Block(rb);
    let item1 = ItemRep::Block(rc);
    let ch = bs0[b].entries@;
    lemma_item_nodes_facts(bs0, es, item0, g, path, hf);
    assert(item_entry_nodes(bs0, es, item0, level) == block_entry_nodes(bs0, es, b, level, 0));
    assert(item_block_nodes(bs0, es, item0, level) == block_block_nodes(
        bs0,
        es,
        b,
        level,
        0,
    ).insert(b));
    assert(forall|i: int| #[trigger]
        block_entry_nodes(bs0, es, b, level, 0).contains(i) ==> item_entry_nodes(
            bs0,
            es,
            item0,
            level,
        ).contains(i));
    assert(forall|i: int| #[trigger]
        block_block_nodes(bs0, es, b, level, 0).contains(i) ==> item_block_nodes(
            bs0,
            es,
            item0,
            level,
        ).contains(i));
    lemma_block_children_frame(bs0, es, bs1, es, b, g, path, 0, hf);
    lemma_twin_children_wf(bs1, es, b, c, g, path, 0, hf);
    lemma_twin_children(bs1, es, b, c, level, 0);
    assert(bs1[c].entries@ == ch);
    // each child keeps its reachable sets, so separation carries to the copy
    assert forall|n1: int, n2: int|
        0 <= n1 < 16 && 0 <= n2 < 16 && n1 != n2 implies (#[trigger] item_entry_nodes(
        bs1,
        es,
        bs1[c].entries@[n1],
        level + 1,
    )).disjoint(#[trigger] item_entry_nodes(bs1, es, bs1[c].entries@[n2], level + 1)) by {
        assert(item_entry_nodes(bs1, es, ch[n1], level + 1) == item_entry_nodes(
            bs0,
            es,
            ch[n1],
            level + 1,
        ));
        assert(item_entry_nodes(bs1, es, ch[n2], level + 1) == item_entry_nodes(
            bs0,
            es,
            ch[n2],
            level + 1,
        ));
    }
    assert forall|n1: int, n2: int|
        0 <= n1 < 16 && 0 <= n2 < 16 && n1 != n2 implies (#[trigger] item_block_nodes(
        bs1,
        es,
        bs1[c].entries@[n1],
        level + 1,
    )).disjoint(#[trigger] item_block_nodes(bs1, es, bs1[c].entries@[n2], level + 1)) by {
        assert(item_block_nodes(bs1, es, ch[n1], level + 1) == item_block_nodes(
            bs0,
            es,
            ch[n1],
            level + 1,
        ));
        assert(item_block_nodes(bs1, es, ch[n2], level + 1) == item_block_nodes(
            bs0,
            es,
            ch[n2],
            level + 1,
        ));
    }
    // no child reaches the fresh slot: all reachable blocks predate it
    assert forall|n: int| 0 <= n < 16 implies !(#[trigger] item_block_nodes(
        bs1,
        es,
        bs1[c].entries@[n],
        level + 1,
    )).contains(c) by {
        assert(item_block_nodes(bs1, es, ch[n], level + 1) == item_block_nodes(
            bs0,
            es,
            ch[n],
            level + 1,
        ));
        if item_block_nodes(bs0, es, ch[n], level + 1).contains(c) {
            lemma_block_nodes_member(bs0, es, b, level, 0, n);
            assert(block_block_nodes(bs0, es, b, level, 0).contains(c));
            assert(item_block_nodes(bs0, es, item0, level).contains(c));
        }
    }
    assert(block_separated(bs1, es, c, level));
    assert(item_wf(bs1, es, item1, g, path, hf));
    // reachable sets of the copy
    assert(item_entry_nodes(bs1, es, item1, level) == block_entry_nodes(bs1, es, c, level, 0));
    assert(item_entry_nodes(bs1, es, item1, level) == item_entry_nodes(bs0, es, item0, level));
    assert(item_block_nodes(bs1, es, item1, level) == block_block_nodes(
        bs1,
        es,
        c,
        level,
        0,
    ).insert(c));
    // the old slot is not among its own children's reachable blocks
    assert(!block_block_nodes(bs0, es, b, level, 0).contains(b)) by {
        if block_block_nodes(bs0, es, b, level, 0).contains(b) {
            lemma_block_nodes_elim(bs0, es, b, level, 0);
            let m = choose|m: int|
                0 <= m < 16 && item_block_nodes(bs0, es, ch[m], level + 1).contains(b);
            assert(!item_block_nodes(bs0, es, ch[m], level + 1).contains(b));
        }
    }
    assert(item_block_nodes(bs1, es, item1, level) =~= item_block_nodes(
        bs0,
        es,
        item0,
        level,
    ).remove(b).insert(c));
    // lookups agree child by child
    assert forall|h: u64, k: K| #[trigger]
        path_lookup(bs1, es, item1, h, level, k) == path_lookup(bs0, es, item0, h, level, k) by {
        lemma_nibble_bound(h, level);
        let m = nibble(h, level) as int;
        assert(path_lookup(bs1, es, ch[m], h, level + 1, k) == path_lookup(
            bs0,
            es,
            ch[m],
            h,
            level + 1,
            k,
        ));
    }
}

} // verus!
