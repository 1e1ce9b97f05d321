use panoradix::tree::Tree;

fn keys_of(t: &Tree<u8, ()>) -> Vec<Vec<u8>> {
    let mut it = t.iter();
    std::iter::from_fn(|| it.next()).map(|(k, _)| k).collect()
}

#[test]
fn it_can_be_constructed() {
    let t = Tree::<(), ()>::new();
    assert!(t.is_empty());
}

#[test]
fn it_maps_elements() {
    let mut t = Tree::<u8, i32>::new();
    t.insert(b"abc", 0);
    t.insert(b"others", 1);
    t.insert(b"other", 2);
    t.insert(b"othello", 3);

    assert_eq!(t.get(b"abc"), Some(&0));
    assert_eq!(t.get(b"others"), Some(&1));
    assert_eq!(t.get(b"other"), Some(&2));
    assert_eq!(t.get(b"othello"), Some(&3));
}

#[test]
fn it_is_empty_after_being_cleared() {
    let mut t = Tree::new();
    t.insert(b"foo", ());
    t.insert(b"bar", ());
    t.insert(b"baz", ());

    // before clear
    assert!(!t.is_empty());
    assert!(t.get(b"foo").is_some());
    assert!(t.get(b"bar").is_some());
    assert!(t.get(b"baz").is_some());

    t.clear();

    // after clear
    assert!(t.is_empty());
    assert!(t.get(b"foo").is_none());
    assert!(t.get(b"bar").is_none());
    assert!(t.get(b"baz").is_none());
}

#[test]
fn it_handles_adding_existing_parts() {
    let mut t: Tree<u8, &'static str> = Tree::new();
    t.insert(b"abc", "long");
    t.insert(b"ab", "shorter");
    t.insert(b"a", "short");

    assert_eq!(t.get(b"abc").map(|s| s.to_string()), Some("long".to_string()));
    assert_eq!(t.get(b"ab").map(|s| s.to_string()), Some("shorter".to_string()));
    assert_eq!(t.get(b"a").map(|s| s.to_string()), Some("short".to_string()));
}

#[test]
fn it_can_remove_keys() {
    let mut t = Tree::new();
    t.insert(b"abc", "long");
    t.insert(b"ab", "shorter");
    t.insert(b"a", "short");

    t.remove(b"ab");
    assert_eq!(t.get(b"ab"), None);

    t.remove(b"abc");
    assert_eq!(t.get(b"abc"), None);

    t.remove(b"a");
    assert_eq!(t.get(b"a"), None);

    assert!(t.is_empty());
}

#[test]
fn it_can_iterate_on_items() {
    let items: Vec<(&'static [u8], i32)> = vec![
        (b"abc", 0),
        (b"ac", 1),
        (b"bc", 2),
        (b"a", 3),
        (b"ab", 4),
    ];

    let mut tree = Tree::new();
    for &(key, value) in items.iter() {
        tree.insert(key, value);
    }

    for &(key, value) in items.iter() {
        assert_eq!(tree.get(key).map(|v| *v), Some(value));
    }

    let mut it = tree.iter();
    let mut got_items: Vec<_> = std::iter::from_fn(|| it.next()).map(|(k, v)| (k, *v)).collect();
    got_items.sort();

    let mut items: Vec<_> = items.iter().map(|&(k, v)| (k.to_owned(), v)).collect();
    items.sort();

    assert_eq!(got_items, items);
}

#[test]
fn it_can_complete_a_prefix() {
    let items: Vec<&'static [u8]> = vec![
        b"apes",
        b"apples",
        b"apricots",
        b"asteroids",
        b"babies",
        b"bananas",
        b"glasses",
        b"oranges",
    ];

    let t = {
        let mut t = Tree::new();
        for item in items.iter() {
            t.insert(item, ());
        }
        t
    };

    let mut found = t.find(b"ap");
    let matches: Vec<_> = std::iter::from_fn(|| found.next()).map(|(k, _)| k).collect();
    let expected: Vec<&'static [u8]> = vec![b"apes", b"apples", b"apricots"];
    assert_eq!(matches, expected);
}

#[test]
fn it_has_sorted_iterators() {
    let items: Vec<&'static [u8]> = vec![b"c", b"b", b"a"];

    let mut tree = Tree::new();
    for key in items.iter() {
        tree.insert(key, ());
    }

    let found = keys_of(&tree);
    let expected: Vec<&'static [u8]> = vec![b"a", b"b", b"c"];
    assert_eq!(found, expected);
}

#[test]
fn tree_it_can_be_created() {
    let _: Tree<u8, ()> = Tree::new();
}

#[test]
fn tree_it_accepts_an_element() {
    let mut t: Tree<u8, ()> = Tree::new();
    t.insert(b"a", ());
    assert!(!t.is_empty());
}

#[test]
fn tree_it_accepts_multiple_elements() {
    let mut t: Tree<u8, ()> = Tree::new();
    t.insert(b"a", ());
    t.insert(b"b", ());
    t.insert(b"c", ());
    t.insert(b"ac", ());
    t.insert(b"ab", ());
    assert!(!t.is_empty());
}

#[test]
fn tree_it_can_lookup_elements() {
    let mut t: Tree<u8, i32> = Tree::new();
    t.insert(b"a", 0);
    t.insert(b"ac", 1);

    let v = t.get(b"a");
    assert_eq!(v.map(|x| *x), Some(0));

    let v = t.get(b"ac");
    assert_eq!(v.map(|x| *x), Some(1));
}

#[test]
fn tree_it_can_be_built_from_multiple_elements() {
    let items: Vec<(String, ())> = vec![
        ("c".to_string(), ()),
        ("d".to_string(), ()),
        ("acb".to_string(), ()),
        ("b".to_string(), ()),
        ("a".to_string(), ()),
        ("ac".to_string(), ()),
    ];

    let mut t: Tree<u8, ()> = Tree::new();
    for (k, v) in items.clone() {
        t.insert(k.as_bytes(), v);
    }

    for (k, v) in items {
        let cloned_key = k.clone();
        let found = t.get(k.as_bytes()).map(|x| *x);
        assert_eq!((cloned_key, found), (k, Some(v)));
    }
}

#[test]
fn tree_it_can_iterate_on_elements() {
    let t: Tree<u8, ()> = Tree::new();
    assert_eq!(keys_of(&t), Vec::<Vec<u8>>::new());
}
