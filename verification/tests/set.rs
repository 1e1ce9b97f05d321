use panoradix::RadixSet;

#[test]
fn set_it_can_be_created() {
    let _: RadixSet<[i32]> = RadixSet::new();
}

#[test]
fn it_accepts_an_empty_element() {
    let mut set: RadixSet<str> = RadixSet::new();
    set.insert("");
    assert!(!set.is_empty());
}

#[test]
fn set_it_accepts_an_element() {
    let mut set: RadixSet<str> = RadixSet::new();
    set.insert("a");
    assert!(!set.is_empty());
}

#[test]
fn set_it_accepts_multiple_elements() {
    let mut set: RadixSet<str> = RadixSet::new();
    set.insert("a");
    set.insert("b");
    set.insert("c");
    set.insert("ac");
    set.insert("ab");
    assert!(!set.is_empty());
}

#[test]
fn set_it_can_be_built_from_multiple_elements() {
    let items = vec!["a", "ac", "acb", "b", "c", "d"];

    let set: RadixSet<str> = RadixSet::from_items(items.clone());

    assert!(items.iter().all(|k| set.contains(k)))
}

#[test]
fn set_it_has_a_key_iterator() {
    let mut map = RadixSet::<str>::new();
    map.insert("foo");
    map.insert("bar");
    map.insert("baz");

    let mut it = map.iter();
    let keys: Vec<_> = std::iter::from_fn(|| it.next()).collect();
    assert_eq!(keys, vec!["bar", "baz", "foo"]);
}
