use panoradix::RadixMap;

#[test]
fn it_can_lookup_elements() {
    let mut map: RadixMap<str, i32> = RadixMap::new();
    map.insert("a", 0);
    map.insert("ac", 1);

    let v = map.get("a");
    assert_eq!(v.map(|x| *x), Some(0));

    let v = map.get("ac");
    assert_eq!(v.map(|x| *x), Some(1));
}

#[test]
fn map_it_can_lookup_elements() {
    let mut map: RadixMap<str, i32> = RadixMap::new();
    map.insert(&"a".to_string(), 0);
    map.insert(&"ac".to_string(), 1);

    let v = map.get(&"a".to_string());
    assert_eq!(v.map(|x| *x), Some(0));

    let v = map.get(&"ac".to_string());
    assert_eq!(v.map(|x| *x), Some(1));
}

#[test]
fn map_it_has_a_key_iterator() {
    let mut map: RadixMap<str, ()> = RadixMap::new();
    map.insert("foo", ());
    map.insert("bar", ());
    map.insert("baz", ());

    let mut it = map.keys();
    let keys: Vec<_> = std::iter::from_fn(|| it.next()).collect();
    assert_eq!(keys, vec!["bar", "baz", "foo"]);
}

#[test]
fn it_has_a_value_iterator() {
    let mut map: RadixMap<str, i32> = RadixMap::new();
    map.insert("foo", 0);
    map.insert("bar", 1);
    map.insert("baz", 2);

    let mut it = map.values();
    let values: Vec<_> = std::iter::from_fn(|| it.next()).collect();
    assert_eq!(values, vec![&1, &2, &0]);
}

#[test]
fn map_it_can_be_created() {
    let _: RadixMap<str, ()> = RadixMap::new();
}

#[test]
fn map_it_accepts_an_element() {
    let mut map: RadixMap<str, ()> = RadixMap::new();
    map.insert(&"a".to_string(), ());
    assert!(!map.is_empty());
}

#[test]
fn map_it_accepts_multiple_elements() {
    let mut map: RadixMap<str, ()> = RadixMap::new();
    map.insert(&"a".to_string(), ());
    map.insert(&"b".to_string(), ());
    map.insert(&"c".to_string(), ());
    map.insert(&"ac".to_string(), ());
    map.insert(&"ab".to_string(), ());
    assert!(!map.is_empty());
}

#[test]
fn map_it_can_be_built_from_multiple_elements() {
    let items = vec![
        ("a".to_string(), ()),
        ("ac".to_string(), ()),
        ("acb".to_string(), ()),
        ("b".to_string(), ()),
        ("c".to_string(), ()),
        ("d".to_string(), ()),
    ];

    let map: RadixMap<str, ()> =
        RadixMap::from_items(items.iter().map(|(k, v)| (k.as_str(), *v)).collect());

    for (k, v) in items {
        let cloned_key = k.clone();
        let found = map.get(&k).map(|x| *x);
        assert_eq!((cloned_key, found), (k, Some(v)));
    }
}

#[test]
fn map_it_can_iterate_on_elements() {
    let map: RadixMap<str, ()> = RadixMap::new();
    let mut it = map.iter();
    assert!(it.next().is_none());
}
