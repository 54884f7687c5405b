use scoped_map::{Arena, Block, Entry, Item, ItemRef, ItemRep, KeyEq, KeyHasher, MaskedHasher,
    U64Hasher};

#[test]
fn arena_allocate_and_get() {
    let mut a: Arena<u32> = Arena::new();
    assert_eq!(a.len(), 0);
    let i = a.allocate(11);
    let j = a.allocate(22);
    assert_eq!(i, 0);
    assert_eq!(j, 1);
    assert_eq!(a.len(), 2);
    assert_eq!(*a.get(0), 11);
    assert_eq!(*a.get(1), 22);
}

#[test]
fn item_rep_tags() {
    let empty = ItemRep::empty();
    assert!(empty.is_empty());
    assert!(empty.entry().is_none());
    assert!(empty.block().is_none());

    let e = ItemRep::from_entry(ItemRef::new(3));
    assert!(!e.is_empty());
    assert_eq!(e.entry().map(|r| r.idx), Some(3));
    assert!(e.block().is_none());

    let b = ItemRep::from_block(ItemRef::new(5));
    assert!(!b.is_empty());
    assert!(b.entry().is_none());
    assert_eq!(b.block().map(|r| r.idx), Some(5));
}

#[test]
fn block_empty_children() {
    let b = Block::empty(4);
    assert_eq!(b.generation(), 4);
    assert_eq!(b.entries.len(), 16);
    for child in b.entries.iter() {
        assert!(child.is_empty());
    }
}

#[test]
fn entry_generation() {
    let e = Entry { generation: 9, key: 1u64, value: "one", next: Some(ItemRef::new(0)) };
    assert_eq!(e.generation(), 9);
}

#[test]
fn hashers_compute_expected_values() {
    assert_eq!(U64Hasher.hash(&0xABCD), 0xABCD);
    assert_eq!(MaskedHasher { mask: 0xF }.hash(&0x1234), 0x4);
    assert_eq!(MaskedHasher { mask: 0 }.hash(&55), 0);
}

#[test]
fn key_equality() {
    assert!(7u64.eq_key(&7));
    assert!(!7u64.eq_key(&8));
    assert!('x'.eq_key(&'x'));
    assert!(!'x'.eq_key(&'y'));
}
