use panoradix::tree::Tree;
use panoradix::{RadixMap, RadixSet};
use std::collections::BTreeMap;

fn entries<V: Copy>(t: &Tree<u8, V>) -> Vec<(Vec<u8>, V)> {
    let mut it = t.iter();
    std::iter::from_fn(|| it.next()).map(|(k, v)| (k, *v)).collect()
}

fn found<V: Copy>(t: &Tree<u8, V>, prefix: &[u8]) -> Vec<(Vec<u8>, V)> {
    let mut it = t.find(prefix);
    std::iter::from_fn(|| it.next()).map(|(k, v)| (k, *v)).collect()
}

fn sample() -> Tree<u8, u32> {
    let mut t = Tree::new();
    let keys: [&[u8]; 9] = [
        b"romane", b"romanus", b"romulus", b"rubens", b"ruber", b"rubicon", b"rubicundus", b"",
        b"r",
    ];
    for (i, k) in keys.iter().enumerate() {
        t.insert(k, i as u32);
    }
    t
}

#[test]
fn round_trip_returns_the_last_value_of_each_key() {
    let mut t: Tree<u8, u32> = Tree::new();
    assert_eq!(t.insert(b"key", 1), None);
    assert_eq!(t.insert(b"kettle", 2), None);
    assert_eq!(t.insert(b"key", 3), Some(1));
    assert_eq!(t.insert(b"k", 4), None);
    assert_eq!(t.insert(b"kettle", 5), Some(2));

    assert_eq!(t.get(b"key"), Some(&3));
    assert_eq!(t.get(b"kettle"), Some(&5));
    assert_eq!(t.get(b"k"), Some(&4));
    assert_eq!(t.get(b"ke"), None);
    assert_eq!(t.get(b"keys"), None);
    assert_eq!(t.get(b""), None);
    assert_eq!(t.get(b"other"), None);
}

#[test]
fn walk_is_strictly_ascending() {
    let t = sample();
    let got = entries(&t);
    assert_eq!(got.len(), 9);
    for pair in got.windows(2) {
        assert!(pair[0].0 < pair[1].0);
    }
    let keys: Vec<Vec<u8>> = got.into_iter().map(|(k, _)| k).collect();
    let expected: Vec<&[u8]> = vec![
        b"", b"r", b"romane", b"romanus", b"romulus", b"rubens", b"ruber", b"rubicon",
        b"rubicundus",
    ];
    assert_eq!(keys, expected);
}

#[test]
fn walk_yields_the_values_with_their_keys() {
    let t = sample();
    let got = entries(&t);
    assert_eq!(got[0], (b"".to_vec(), 7));
    assert_eq!(got[1], (b"r".to_vec(), 8));
    assert_eq!(got[2], (b"romane".to_vec(), 0));
    assert_eq!(got[8], (b"rubicundus".to_vec(), 6));
}

#[test]
fn find_at_a_node_is_the_walk_restricted_to_the_prefix() {
    let t = sample();
    let all = entries(&t);
    for prefix in [&b""[..], b"r", b"rom", b"rub", b"roman", b"rubic", b"romane", b"x", b"rz"] {
        let expected: Vec<_> =
            all.iter().filter(|(k, _)| k.starts_with(prefix)).map(|e| e.clone()).collect();
        assert_eq!(found(&t, prefix), expected);
    }
}

#[test]
fn find_within_an_edge_yields_nothing() {
    let mut t: Tree<u8, ()> = Tree::new();
    t.insert(b"apple", ());
    assert_eq!(found(&t, b"ap"), vec![]);
    assert_eq!(found(&t, b"apple"), vec![(b"apple".to_vec(), ())]);
    assert_eq!(found(&t, b""), vec![(b"apple".to_vec(), ())]);

    // once another key has split the edge at that place, a node stands there
    t.insert(b"apricot", ());
    assert_eq!(found(&t, b"ap"), vec![(b"apple".to_vec(), ()), (b"apricot".to_vec(), ())]);
    assert_eq!(found(&t, b"app"), vec![]);
}

#[test]
fn insert_then_remove_leaves_the_rest_alone() {
    let mut t = sample();
    let before = entries(&t);
    assert_eq!(t.insert(b"rome", 100), None);
    assert_eq!(t.get(b"rome"), Some(&100));
    assert_eq!(t.remove(b"rome"), Some(100));
    assert_eq!(t.get(b"rome"), None);
    assert_eq!(entries(&t), before);
    assert_eq!(t.get(b"romane"), Some(&0));
    assert_eq!(t.get(b"romanus"), Some(&1));
    assert_eq!(t.get(b"romulus"), Some(&2));
}

#[test]
fn remove_of_a_stored_key_leaves_the_others() {
    let mut t = sample();
    let before = entries(&t);
    assert_eq!(t.remove(b"rubens"), Some(3));
    let expected: Vec<_> = before.into_iter().filter(|(k, _)| k != b"rubens").collect();
    assert_eq!(entries(&t), expected);
    assert_eq!(t.remove(b"rubens"), None);
}

#[test]
fn remove_of_what_is_not_stored_changes_nothing() {
    let mut t = sample();
    let before = entries(&t);
    assert_eq!(t.remove(b"rom"), None);
    assert_eq!(t.remove(b"romanes"), None);
    assert_eq!(t.remove(b"zebra"), None);
    assert_eq!(t.remove(b"ru"), None);
    assert_eq!(entries(&t), before);
}

#[test]
fn clear_empties_the_tree() {
    let mut t = sample();
    assert!(!t.is_empty());
    t.clear();
    assert!(t.is_empty());
    assert_eq!(t.get(b"romane"), None);
    assert_eq!(t.get(b""), None);
    assert_eq!(entries(&t), vec![]);
    t.clear();
    assert!(t.is_empty());
}

#[test]
fn lookup_of_two_keys() {
    let mut t: Tree<u8, i32> = Tree::new();
    t.insert(b"a", 0);
    t.insert(b"ac", 1);
    assert_eq!(t.get(b"a"), Some(&0));
    assert_eq!(t.get(b"ac"), Some(&1));
    assert_eq!(t.get(b"c"), None);
}

#[test]
fn split_keeps_the_values_apart() {
    let mut t: Tree<u8, &'static str> = Tree::new();
    t.insert(b"abc", "long");
    t.insert(b"ab", "shorter");
    t.insert(b"a", "short");
    assert_eq!(t.get(b"abc"), Some(&"long"));
    assert_eq!(t.get(b"ab"), Some(&"shorter"));
    assert_eq!(t.get(b"a"), Some(&"short"));
}

#[test]
fn remove_in_the_middle() {
    let mut t: Tree<u8, i32> = Tree::new();
    let keys: [&[u8]; 5] = [b"abc", b"ac", b"bc", b"a", b"ab"];
    for (i, k) in keys.iter().enumerate() {
        t.insert(k, i as i32);
    }
    assert_eq!(t.remove(b"ab"), Some(4));
    assert_eq!(t.get(b"ab"), None);
    assert_eq!(t.get(b"abc"), Some(&0));
}

#[test]
fn find_by_prefix() {
    let mut set: RadixSet<str> = RadixSet::new();
    for k in ["apes", "apples", "apricots", "asteroids", "babies", "bananas", "glasses", "oranges"]
    {
        set.insert(k);
    }
    let mut it = set.find("ap");
    let got: Vec<String> = std::iter::from_fn(|| it.next()).collect();
    assert_eq!(got, vec!["apes", "apples", "apricots"]);
}

#[test]
fn sorted_keys() {
    let mut set: RadixSet<str> = RadixSet::new();
    set.insert("foo");
    set.insert("bar");
    set.insert("baz");
    let mut it = set.iter();
    let got: Vec<String> = std::iter::from_fn(|| it.next()).collect();
    assert_eq!(got, vec!["bar", "baz", "foo"]);
}

#[test]
fn removing_every_key_in_any_order_empties_the_tree() {
    let keys: [&[u8]; 3] = [b"abc", b"ab", b"a"];
    let orders: [[usize; 3]; 6] =
        [[0, 1, 2], [0, 2, 1], [1, 0, 2], [1, 2, 0], [2, 0, 1], [2, 1, 0]];
    for insert_order in orders.iter() {
        for remove_order in orders.iter() {
            let mut t: Tree<u8, usize> = Tree::new();
            for &i in insert_order.iter() {
                t.insert(keys[i], i);
            }
            for &i in remove_order.iter() {
                assert!(!t.is_empty());
                assert_eq!(t.remove(keys[i]), Some(i));
            }
            assert!(t.is_empty());
            assert_eq!(entries(&t), vec![]);
        }
    }
}

#[test]
fn the_empty_key_belongs_to_the_root() {
    let mut t: Tree<u8, i32> = Tree::new();
    assert_eq!(t.insert(b"", 7), None);
    assert!(!t.is_empty());
    assert_eq!(t.get(b""), Some(&7));
    assert_eq!(t.insert(b"", 8), Some(7));
    assert_eq!(entries(&t), vec![(vec![], 8)]);
    assert_eq!(t.remove(b""), Some(8));
    assert!(t.is_empty());
}

#[test]
fn a_key_that_ends_within_an_edge_is_not_stored() {
    let mut t: Tree<u8, i32> = Tree::new();
    t.insert(b"abcdef", 1);
    assert_eq!(t.get(b"abc"), None);
    assert_eq!(t.get(b"abcdefg"), None);
    assert_eq!(t.get(b"abd"), None);
    assert_eq!(t.remove(b"abc"), None);
    assert_eq!(t.get(b"abcdef"), Some(&1));
}

#[test]
fn len_counts_the_entries() {
    let mut t = sample();
    assert_eq!(t.len(), 9);
    t.remove(b"");
    assert_eq!(t.len(), 8);
    t.insert(b"ruber", 50);
    assert_eq!(t.len(), 8);
    t.clear();
    assert_eq!(t.len(), 0);
}

#[test]
fn components_are_ordered_by_their_own_order() {
    let mut t: Tree<i32, ()> = Tree::new();
    for k in [[3, 1], [-5, 0], [0, -1], [0, 7], [-5, -9]] {
        t.insert(&k, ());
    }
    let mut it = t.iter();
    let got: Vec<Vec<i32>> = std::iter::from_fn(|| it.next()).map(|(k, _)| k).collect();
    assert_eq!(got, vec![vec![-5, -9], vec![-5, 0], vec![0, -1], vec![0, 7], vec![3, 1]]);
}

#[test]
fn bool_and_char_components() {
    let mut t: Tree<bool, ()> = Tree::new();
    t.insert(&[true], ());
    t.insert(&[false, true], ());
    t.insert(&[false], ());
    let mut it = t.iter();
    let got: Vec<Vec<bool>> = std::iter::from_fn(|| it.next()).map(|(k, _)| k).collect();
    assert_eq!(got, vec![vec![false], vec![false, true], vec![true]]);

    let mut s: RadixSet<[char]> = RadixSet::new();
    s.insert(&['z']);
    s.insert(&['a', 'b']);
    s.insert(&['\u{e9}']);
    let mut it = s.iter();
    let got: Vec<Vec<char>> = std::iter::from_fn(|| it.next()).collect();
    assert_eq!(got, vec![vec!['a', 'b'], vec!['z'], vec!['\u{e9}']]);
}

#[test]
fn map_answers_with_previous_values() {
    let mut map: RadixMap<str, i32> = RadixMap::new();
    assert_eq!(map.insert("a", 37), None);
    assert_eq!(map.is_empty(), false);
    map.insert("a", 42);
    assert_eq!(map.insert("a", 1337), Some(42));
    assert_eq!(map.get("a"), Some(&1337));
    assert_eq!(map.get("b"), None);
    assert_eq!(map.remove("a"), Some(1337));
    assert_eq!(map.remove("a"), None);
    assert!(map.is_empty());
}

#[test]
fn map_len_and_clear() {
    let mut m: RadixMap<str, i32> = RadixMap::new();
    m.insert("a", 1);
    m.insert("b", 2);
    m.insert("c", 3);
    assert_eq!(m.len(), 3);
    m.clear();
    assert!(m.is_empty());
    assert_eq!(m.len(), 0);
}

#[test]
fn map_walks_in_key_order() {
    let mut map: RadixMap<str, i32> = RadixMap::new();
    map.insert("c", 3);
    map.insert("b", 2);
    map.insert("a", 1);
    let mut it = map.iter();
    let got: Vec<(String, i32)> = std::iter::from_fn(|| it.next()).map(|(k, v)| (k, *v)).collect();
    assert_eq!(got, vec![("a".to_string(), 1), ("b".to_string(), 2), ("c".to_string(), 3)]);
}

#[test]
fn map_find_yields_whole_keys() {
    let mut map: RadixMap<str, i32> = RadixMap::new();
    map.insert("abc", 1);
    map.insert("acd", 2);
    map.insert("abd", 3);
    map.insert("bbb", 1);
    map.insert("ccc", 1);
    let mut it = map.find("a");
    let got: Vec<(String, i32)> = std::iter::from_fn(|| it.next()).map(|(k, v)| (k, *v)).collect();
    assert_eq!(
        got,
        vec![("abc".to_string(), 1), ("abd".to_string(), 3), ("acd".to_string(), 2)]
    );
}

#[test]
fn map_keys_come_back_as_the_text_that_went_in() {
    let words = ["na\u{ef}ve", "na\u{ef}f", "nai", "\u{65e5}\u{672c}", "\u{65e5}\u{6708}", ""];
    let mut map: RadixMap<str, usize> = RadixMap::new();
    for (i, w) in words.iter().enumerate() {
        map.insert(w, i);
    }
    let mut it = map.keys();
    let got: Vec<String> = std::iter::from_fn(|| it.next()).collect();
    let mut expected: Vec<String> = words.iter().map(|w| w.to_string()).collect();
    expected.sort();
    assert_eq!(got, expected);
    for (i, w) in words.iter().enumerate() {
        assert_eq!(map.get(w), Some(&i));
    }
}

#[test]
fn map_from_items_keeps_the_last_value() {
    let map: RadixMap<str, i32> =
        RadixMap::from_items(vec![("a", 1), ("b", 2), ("a", 3), ("ab", 4), ("b", 5)]);
    assert_eq!(map.get("a"), Some(&3));
    assert_eq!(map.get("b"), Some(&5));
    assert_eq!(map.get("ab"), Some(&4));
    assert_eq!(map.get("c"), None);
    assert_eq!(map.len(), 3);
}

#[test]
fn map_default_is_empty() {
    let map: RadixMap<str, i32> = Default::default();
    assert!(map.is_empty());
    let set: RadixSet<[u8]> = Default::default();
    assert!(set.is_empty());
}

#[test]
fn set_says_what_was_there() {
    let mut set: RadixSet<str> = RadixSet::new();
    assert_eq!(set.insert("a"), true);
    assert_eq!(set.is_empty(), false);
    assert_eq!(set.insert("a"), false);
    assert_eq!(set.contains("a"), true);
    assert_eq!(set.contains("b"), false);
    assert_eq!(set.remove("a"), true);
    assert_eq!(set.remove("a"), false);
    assert!(set.is_empty());
    set.insert("x");
    set.clear();
    assert!(set.is_empty());
}

#[test]
fn set_of_slices() {
    let mut set: RadixSet<[i32]> = RadixSet::new();
    set.insert(&[1, 2, 3]);
    set.insert(&[1, 2]);
    set.insert(&[1, 4]);
    assert!(set.contains(&[1, 2]));
    assert!(!set.contains(&[1]));
    let mut it = set.find(&[1, 2]);
    let got: Vec<Vec<i32>> = std::iter::from_fn(|| it.next()).collect();
    assert_eq!(got, vec![vec![1, 2], vec![1, 2, 3]]);
}

#[test]
fn insertion_order_does_not_matter() {
    let keys: [&str; 7] = ["test", "toaster", "toasting", "slow", "slowly", "t", "team"];
    let mut sorted: Vec<String> = keys.iter().map(|k| k.to_string()).collect();
    sorted.sort();
    for shift in 0..keys.len() {
        let mut set: RadixSet<str> = RadixSet::new();
        for i in 0..keys.len() {
            set.insert(keys[(i * 3 + shift) % keys.len()]);
        }
        assert!(keys.iter().all(|k| set.contains(k)));
        let mut it = set.iter();
        let got: Vec<String> = std::iter::from_fn(|| it.next()).collect();
        assert_eq!(got, sorted);
    }
}

#[test]
fn a_node_stays_while_a_key_lies_below_it() {
    let mut t: Tree<u8, i32> = Tree::new();
    t.insert(b"ab", 1);
    t.insert(b"ac", 2);
    assert_eq!(found(&t, b"a"), vec![(b"ab".to_vec(), 1), (b"ac".to_vec(), 2)]);
    // the node at "a" has one edge left and is not merged with it
    assert_eq!(t.remove(b"ac"), Some(2));
    assert_eq!(found(&t, b"a"), vec![(b"ab".to_vec(), 1)]);
    assert_eq!(found(&t, b"ab"), vec![(b"ab".to_vec(), 1)]);
}

#[test]
fn a_node_goes_when_no_key_lies_below_it() {
    let mut t: Tree<u8, i32> = Tree::new();
    t.insert(b"a", 1);
    t.insert(b"abcd", 2);
    t.insert(b"abef", 3);
    assert_eq!(found(&t, b"ab"), vec![(b"abcd".to_vec(), 2), (b"abef".to_vec(), 3)]);
    assert_eq!(t.remove(b"abcd"), Some(2));
    assert_eq!(t.remove(b"abef"), Some(3));
    // the nodes at "abcd", "abef" and "ab" are gone with their edges
    assert_eq!(found(&t, b"ab"), vec![]);
    assert_eq!(found(&t, b"a"), vec![(b"a".to_vec(), 1)]);
    t.insert(b"abzz", 4);
    assert_eq!(found(&t, b"ab"), vec![]);
    assert_eq!(found(&t, b"a"), vec![(b"a".to_vec(), 1), (b"abzz".to_vec(), 4)]);
}

#[test]
fn a_split_puts_a_node_where_the_key_parts() {
    let mut t: Tree<u8, i32> = Tree::new();
    t.insert(b"team", 1);
    assert_eq!(found(&t, b"te"), vec![]);
    t.insert(b"test", 2);
    assert_eq!(found(&t, b"te"), vec![(b"team".to_vec(), 1), (b"test".to_vec(), 2)]);
    assert_eq!(found(&t, b"t"), vec![]);
    t.insert(b"t", 3);
    assert_eq!(
        found(&t, b"t"),
        vec![(b"t".to_vec(), 3), (b"team".to_vec(), 1), (b"test".to_vec(), 2)]
    );
    assert_eq!(found(&t, b"tea"), vec![]);
    assert_eq!(found(&t, b"team"), vec![(b"team".to_vec(), 1)]);
}

#[test]
fn a_value_under_a_leading_part_of_an_edge_splits_it() {
    let mut t: Tree<u8, i32> = Tree::new();
    t.insert(b"abc", 1);
    t.insert(b"ab", 2);
    assert_eq!(t.get(b"ab"), Some(&2));
    assert_eq!(t.get(b"abc"), Some(&1));
    assert_eq!(entries(&t), vec![(b"ab".to_vec(), 2), (b"abc".to_vec(), 1)]);
    assert_eq!(t.remove(b"ab"), Some(2));
    assert_eq!(entries(&t), vec![(b"abc".to_vec(), 1)]);
    assert_eq!(found(&t, b"ab"), vec![(b"abc".to_vec(), 1)]);
}

#[test]
fn new_edges_go_to_their_place_among_the_others() {
    let mut t: Tree<u8, u8> = Tree::new();
    for c in [b'm', b'c', b'x', b'a', b'q', b'z', b'e', b'n'] {
        t.insert(&[c, c], c);
    }
    let keys: Vec<Vec<u8>> = entries(&t).into_iter().map(|(k, _)| k).collect();
    let expected: Vec<Vec<u8>> =
        [b'a', b'c', b'e', b'm', b'n', b'q', b'x', b'z'].iter().map(|&c| vec![c, c]).collect();
    assert_eq!(keys, expected);
    for c in [b'm', b'c', b'x', b'a', b'q', b'z', b'e', b'n'] {
        assert_eq!(t.get(&[c, c]), Some(&c));
        assert_eq!(t.get(&[c]), None);
    }
}

#[test]
fn set_from_items_holds_each_key_once() {
    let set: RadixSet<str> = RadixSet::from_items(vec!["b", "a", "b", "ab", "a"]);
    let mut it = set.iter();
    let got: Vec<String> = std::iter::from_fn(|| it.next()).collect();
    assert_eq!(got, vec!["a", "ab", "b"]);
}

#[test]
fn agrees_with_an_ordered_map_over_many_changes() {
    let mut state: u64 = 0x2545_f491_4f6c_dd1d;
    let mut next = move |bound: u64| {
        state ^= state << 13;
        state ^= state >> 7;
        state ^= state << 17;
        state % bound
    };
    let mut tree: Tree<u8, u64> = Tree::new();
    let mut model: BTreeMap<Vec<u8>, u64> = BTreeMap::new();
    for round in 0..4000u64 {
        let len = next(6) as usize;
        let key: Vec<u8> = (0..len).map(|_| b'a' + next(3) as u8).collect();
        match next(4) {
            0 | 1 => assert_eq!(tree.insert(&key, round), model.insert(key.clone(), round)),
            2 => assert_eq!(tree.remove(&key), model.remove(&key)),
            _ => assert_eq!(tree.get(&key), model.get(&key)),
        }
        assert_eq!(tree.is_empty(), model.is_empty());
        if round % 97 == 0 {
            let expected: Vec<(Vec<u8>, u64)> =
                model.iter().map(|(k, v)| (k.clone(), *v)).collect();
            assert_eq!(entries(&tree), expected);
            assert_eq!(tree.len(), model.len());
            // a stored key ends at a node, so the search for it finds all that starts with it
            for stored in model.keys().take(20) {
                let below: Vec<(Vec<u8>, u64)> = model
                    .iter()
                    .filter(|(k, _)| k.starts_with(stored))
                    .map(|(k, v)| (k.clone(), *v))
                    .collect();
                assert_eq!(found(&tree, stored), below);
            }
        }
    }
}
