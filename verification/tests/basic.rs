use scoped_map::{RandomHasher, ScopedMap, ScopedMapBase};

#[test]
fn simple_test() {
    let mut base = ScopedMapBase::new();
    let mut map = base.make_map();
    map.insert(&mut base, 'a', "apple");
    map.insert(&mut base, 'b', "banana");
    assert_eq!(map.lookup(&base, &'a'), Some(&"apple"));
    assert_eq!(map.lookup(&base, &'b'), Some(&"banana"));
    {
        let mut sub_map = map.new_scope(&base);
        sub_map.insert(&mut base, 'c', "citrus? idk");

        assert_eq!(sub_map.lookup(&base, &'a'), Some(&"apple"));
        assert_eq!(sub_map.lookup(&base, &'b'), Some(&"banana"));
        assert_eq!(sub_map.lookup(&base, &'c'), Some(&"citrus? idk"));

        assert_eq!(map.lookup(&base, &'a'), Some(&"apple"));
        assert_eq!(map.lookup(&base, &'b'), Some(&"banana"));
        assert_eq!(map.lookup(&base, &'c'), None);
    }
    assert_eq!(map.lookup(&base, &'a'), Some(&"apple"));
    assert_eq!(map.lookup(&base, &'b'), Some(&"banana"));
    assert_eq!(map.lookup(&base, &'c'), None);
}

fn insert_from(
    xs: &mut dyn Iterator<Item = char>,
    base: &mut ScopedMapBase<char, u32, RandomHasher<char>>,
    mut map: ScopedMap,
) {
    let key = match xs.next() {
        Some(next) => next,
        _ => return,
    };
    let uniq_val = map.generation;
    map.insert(base, key, uniq_val);
    assert_eq!(map.lookup(base, &key), Some(&uniq_val));
    let child = map.new_scope(base);
    insert_from(xs, base, child);
    assert_eq!(map.lookup(base, &key), Some(&uniq_val));
}

#[test]
fn another_simple_test() {
    let mut base = ScopedMapBase::new();
    let map = base.make_map();
    insert_from(
        &mut "hello there, this has repeated characters in it".chars(),
        &mut base,
        map,
    );
}
