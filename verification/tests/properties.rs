use scoped_map::{MaskedHasher, ScopedMapBase, U64Hasher};

#[test]
fn scenario_nested_scope() {
    let mut base = ScopedMapBase::new();
    let mut root = base.make_map();
    root.insert(&mut base, 'a', "apple");
    root.insert(&mut base, 'b', "banana");
    let mut s1 = root.new_scope(&base);
    s1.insert(&mut base, 'c', "citrus");
    assert_eq!(s1.lookup(&base, &'a'), Some(&"apple"));
    assert_eq!(s1.lookup(&base, &'c'), Some(&"citrus"));
    assert_eq!(root.lookup(&base, &'c'), None);
    assert_eq!(root.lookup(&base, &'a'), Some(&"apple"));
}

#[test]
fn scope_isolation_under_child_inserts() {
    let mut base = ScopedMapBase::with_hasher(U64Hasher);
    let mut parent = base.make_map();
    for k in 0u64..40 {
        parent.insert(&mut base, k, k as u32);
    }
    let mut child = parent.new_scope(&base);
    for k in 0u64..80 {
        child.insert(&mut base, k, 1000 + k as u32);
    }
    // every lookup on the parent answers as before the child existed
    for k in 0u64..40 {
        assert_eq!(parent.lookup(&base, &k), Some(&(k as u32)));
    }
    for k in 40u64..80 {
        assert_eq!(parent.lookup(&base, &k), None);
    }
}

#[test]
fn visibility_in_descendants_not_in_siblings() {
    let mut base = ScopedMapBase::with_hasher(U64Hasher);
    let mut root = base.make_map();
    root.insert(&mut base, 7, 70);
    let mut left = root.new_scope(&base);
    let mut right = root.new_scope(&base);
    left.insert(&mut base, 8, 80);
    right.insert(&mut base, 9, 90);
    // the writer and its descendants see the key
    assert_eq!(left.lookup(&base, &8), Some(&80));
    let grandchild = left.new_scope(&base);
    assert_eq!(grandchild.lookup(&base, &8), Some(&80));
    assert_eq!(grandchild.lookup(&base, &7), Some(&70));
    // the parent and the sibling do not
    assert_eq!(root.lookup(&base, &8), None);
    assert_eq!(right.lookup(&base, &8), None);
    assert_eq!(left.lookup(&base, &9), None);
    assert_eq!(right.lookup(&base, &9), Some(&90));
}

#[test]
fn shadowing_last_write_wins() {
    let mut base = ScopedMapBase::with_hasher(U64Hasher);
    let mut map = base.make_map();
    map.insert(&mut base, 5, 1);
    map.insert(&mut base, 6, 2);
    map.insert(&mut base, 5, 3);
    assert_eq!(map.lookup(&base, &5), Some(&3));
    assert_eq!(map.lookup(&base, &6), Some(&2));
}

#[test]
fn shadowing_across_scopes() {
    let mut base = ScopedMapBase::with_hasher(U64Hasher);
    let mut root = base.make_map();
    root.insert(&mut base, 1, 10);
    let mut child = root.new_scope(&base);
    child.insert(&mut base, 1, 11);
    assert_eq!(child.lookup(&base, &1), Some(&11));
    assert_eq!(root.lookup(&base, &1), Some(&10));
}

#[test]
fn insert_idempotent() {
    let mut base = ScopedMapBase::with_hasher(U64Hasher);
    let mut map = base.make_map();
    for k in 0u64..20 {
        map.insert(&mut base, k, k as u32 * 2);
    }
    map.insert(&mut base, 13, 26);
    for k in 0u64..20 {
        assert_eq!(map.lookup(&base, &k), Some(&(k as u32 * 2)));
    }
}

#[test]
fn collisions_all_keys_retrievable() {
    // only four hash values for a hundred keys: long chains everywhere
    let mut base = ScopedMapBase::with_hasher(MaskedHasher { mask: 0x3 });
    let mut map = base.make_map();
    for k in 0u64..100 {
        map.insert(&mut base, k, 500 + k as u32);
    }
    for k in 0u64..100 {
        assert_eq!(map.lookup(&base, &k), Some(&(500 + k as u32)));
    }
    assert_eq!(map.lookup(&base, &100), None);
}

#[test]
fn full_collision_single_chain() {
    // every key hashes to zero: the trie degenerates to one chain
    let mut base = ScopedMapBase::with_hasher(MaskedHasher { mask: 0 });
    let mut map = base.make_map();
    for k in 0u64..32 {
        map.insert(&mut base, k, k as u32);
    }
    for k in 0u64..32 {
        assert_eq!(map.lookup(&base, &k), Some(&(k as u32)));
    }
    map.insert(&mut base, 3, 999);
    assert_eq!(map.lookup(&base, &3), Some(&999));
    assert_eq!(map.lookup(&base, &4), Some(&4));
}

#[test]
fn collision_chains_respect_scopes() {
    let mut base = ScopedMapBase::with_hasher(MaskedHasher { mask: 0 });
    let mut root = base.make_map();
    root.insert(&mut base, 1, 10);
    root.insert(&mut base, 2, 20);
    let mut child = root.new_scope(&base);
    child.insert(&mut base, 1, 11);
    child.insert(&mut base, 3, 30);
    assert_eq!(child.lookup(&base, &1), Some(&11));
    assert_eq!(child.lookup(&base, &2), Some(&20));
    assert_eq!(child.lookup(&base, &3), Some(&30));
    assert_eq!(root.lookup(&base, &1), Some(&10));
    assert_eq!(root.lookup(&base, &2), Some(&20));
    assert_eq!(root.lookup(&base, &3), None);
}

#[test]
fn chain_overwrite_above_shared_suffix() {
    // a child overwrites its own chain entry in place while the tail of the
    // chain is still shared with the parent
    let mut base = ScopedMapBase::with_hasher(MaskedHasher { mask: 0 });
    let mut root = base.make_map();
    root.insert(&mut base, 1, 10);
    let mut child = root.new_scope(&base);
    child.insert(&mut base, 3, 30);
    child.insert(&mut base, 3, 31);
    assert_eq!(child.lookup(&base, &3), Some(&31));
    assert_eq!(child.lookup(&base, &1), Some(&10));
    assert_eq!(root.lookup(&base, &3), None);
    assert_eq!(root.lookup(&base, &1), Some(&10));
}

#[test]
fn multiple_root_scopes_share_a_base() {
    let mut base = ScopedMapBase::with_hasher(U64Hasher);
    let mut first = base.make_map();
    first.insert(&mut base, 1, 10);
    let mut second = base.make_map();
    second.insert(&mut base, 2, 20);
    assert_eq!(first.lookup(&base, &1), Some(&10));
    assert_eq!(first.lookup(&base, &2), None);
    assert_eq!(second.lookup(&base, &2), Some(&20));
    assert_eq!(second.lookup(&base, &1), None);
}

#[test]
fn many_keys_deep_trie() {
    let mut base = ScopedMapBase::with_hasher(U64Hasher);
    let mut map = base.make_map();
    for k in 0u64..1000 {
        map.insert(&mut base, k.wrapping_mul(0x9E3779B97F4A7C15), k as u32);
    }
    for k in 0u64..1000 {
        assert_eq!(map.lookup(&base, &k.wrapping_mul(0x9E3779B97F4A7C15)), Some(&(k as u32)));
    }
}

#[test]
fn deep_split_on_shared_prefix() {
    // the two hashes agree on the first fifteen nibbles and part ways only
    // at the last one, so the split grows a branch run of full depth
    let mut base = ScopedMapBase::with_hasher(U64Hasher);
    let mut map = base.make_map();
    let a: u64 = 0x1;
    let b: u64 = 0xF000_0000_0000_0001;
    map.insert(&mut base, a, 100);
    map.insert(&mut base, b, 200);
    assert_eq!(map.lookup(&base, &a), Some(&100));
    assert_eq!(map.lookup(&base, &b), Some(&200));
    assert_eq!(map.lookup(&base, &2), None);
}
