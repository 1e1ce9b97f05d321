//! An ordered map from keys to values on a radix tree.

use vstd::prelude::*;
use crate::iter::{Iter as TreeIter, Matches as TreeMatches};
use crate::key::Key;
use crate::laws::{insert_all, nodes_after_all};
use crate::order::{leads, parts_at, stored};
use crate::tree::Tree;

verus! {

/// A map based on a radix tree: the keys are split over the edges of the
/// tree, so that keys with a common leading part share it, and the entries
/// can be walked in key order or searched by prefix.
///
/// `K` is the borrowed form of the keys, `str` or `[T]`.
pub struct RadixMap<K: Key + ?Sized, V> {
    tree: Tree<<K as Key>::Component, V>,
}

impl<K: Key + ?Sized, V> View for RadixMap<K, V> {
    type V = Map<Seq<K::Component>, V>;

    /// The map from the keys, as their components, to the values.
    open spec fn view(&self) -> Map<Seq<K::Component>, V> {
        self.tree()@
    }
}

impl<K: Key + ?Sized, V> RadixMap<K, V> {
    /// The tree that holds the entries.
    pub closed spec fn tree(self) -> Tree<K::Component, V> {
        self.tree
    }

    /// The invariant of the map: the tree is well-formed, and whatever it
    /// stores is the components of a key. It holds of every map; a proof
    /// learns it from `use_type_invariant`.
    #[verifier::type_invariant]
    pub open spec fn wf(self) -> bool {
        &&& self.tree().wf()
        &&& forall|k: Seq<K::Component>| #[trigger] self@.contains_key(k) ==> K::is_key(k)
    }

    /// The entries in ascending key order.
    pub open spec fn entries(self) -> Seq<(Seq<K::Component>, V)> {
        self.tree().entries()
    }

    /// A node of the tree stands where `q` ends.
    pub open spec fn reaches(self, q: Seq<K::Component>) -> bool {
        self.tree().reaches(q)
    }

    /// What a search for the keys that start with `prefix` yields: the
    /// entries whose keys start with `prefix`, in key order, where a node
    /// stands at the end of `prefix`, and nothing elsewhere.
    pub open spec fn found(self, prefix: Seq<K::Component>) -> Seq<(Seq<K::Component>, V)> {
        self.tree().found(prefix)
    }

    /// Makes a new empty map.
    pub fn new() -> (r: RadixMap<K, V>)
        ensures
            r@ == Map::<Seq<K::Component>, V>::empty(),
            forall|q: Seq<K::Component>| #[trigger] r.reaches(q) <==> q.len() == 0,
    {
        RadixMap { tree: Tree::new() }
    }

    /// Clears the map, removing all values.
    pub fn clear(&mut self)
        ensures
            final(self)@ == Map::<Seq<K::Component>, V>::empty(),
            forall|q: Seq<K::Component>| #[trigger] final(self).reaches(q) <==> q.len() == 0,
    {
        self.tree = Tree::new();
    }

    /// Inserts a key-value pair into the map. Hands back the value that the
    /// key held before, if it held one.
    pub fn insert(&mut self, key: &K, value: V) -> (r: Option<V>)
        ensures
            final(self)@ == old(self)@.insert(key.components(), value),
            r == stored(old(self)@, key.components()),
            forall|q: Seq<K::Component>| #[trigger]
                final(self).reaches(q) <==> {
                    ||| old(self).reaches(q)
                    ||| q == key.components()
                    ||| parts_at(old(self)@, key.components(), q)
                },
    {
        proof {
            use_type_invariant(&*self);
        }
        let mut tree = Tree::new();
        std::mem::swap(&mut tree, &mut self.tree);
        let r = tree.insert(key.as_slice(), value);
        self.tree = tree;
        r
    }

    /// A reference to the value that the key holds, if it holds one.
    pub fn get(&self, key: &K) -> (r: Option<&V>)
        ensures
            r == match stored(self@, key.components()) {
                Some(v) => Some(&v),
                None => None,
            },
    {
        proof {
            use_type_invariant(self);
        }
        self.tree.get(key.as_slice())
    }

    /// Whether the map holds no entry.
    pub fn is_empty(&self) -> (r: bool)
        ensures
            r == (self@ == Map::<Seq<K::Component>, V>::empty()),
    {
        proof {
            use_type_invariant(self);
        }
        self.tree.is_empty()
    }

    /// Removes a key from the map and hands back the value that it held, if
    /// it held one.
    pub fn remove(&mut self, key: &K) -> (r: Option<V>)
        ensures
            final(self)@ == old(self)@.remove(key.components()),
            r == stored(old(self)@, key.components()),
            forall|q: Seq<K::Component>| #[trigger]
                final(self).reaches(q) <==> old(self).reaches(q) && leads(final(self)@, q),
    {
        proof {
            use_type_invariant(&*self);
        }
        let mut tree = Tree::new();
        std::mem::swap(&mut tree, &mut self.tree);
        let r = tree.remove(key.as_slice());
        self.tree = tree;
        r
    }
}

impl<K: Key + ?Sized, V> RadixMap<K, V> {
    /// The number of entries in the map.
    pub fn len(&self) -> (r: usize)
        requires
            self@.len() <= usize::MAX,
        ensures
            r == self@.len(),
    {
        proof {
            use_type_invariant(self);
        }
        self.tree.len()
    }

    /// Every entry of the tree has the components of a key as its key.
    proof fn lemma_entries_are_keys(self)
        requires
            self.wf(),
        ensures
            all_keys::<K, V>(self.entries()),
    {
        self.tree.lemma_entries_are_view();
        assert forall|i: int| 0 <= i < self.entries().len() implies K::is_key(
            (#[trigger] self.entries()[i]).0,
        ) by {
            let e = self.entries()[i];
            assert(self.entries().contains((e.0, e.1)));
            assert(self@.contains_key(e.0));
        }
    }

    /// A walk over the entries of the map, sorted by key.
    pub fn iter(&self) -> (r: Iter<'_, K, V>)
        ensures
            r.remaining() == self.entries(),
    {
        proof {
            use_type_invariant(self);
            self.lemma_entries_are_keys();
        }
        Iter { iter: self.tree.iter() }
    }

    /// A walk over the keys of the map, sorted.
    pub fn keys(&self) -> (r: Keys<'_, K, V>)
        ensures
            r.remaining() == self.entries(),
    {
        Keys { iter: self.iter() }
    }

    /// A walk over the values of the map, sorted by their keys.
    pub fn values(&self) -> (r: Values<'_, K, V>)
        ensures
            r.remaining() == self.entries(),
    {
        Values { iter: self.iter() }
    }

    /// A walk over the entries whose keys start with `key`, sorted by key.
    /// Each entry comes with its whole key. The search follows the edges of
    /// the tree and finds the entries where a node stands at the end of
    /// `key`, as it does where `key` is itself a key of the map.
    pub fn find<'a>(&'a self, key: &K) -> (r: Matches<'a, K, V>)
        ensures
            r.remaining() == self.found(key.components()),
    {
        proof {
            use_type_invariant(self);
            let p = key.components();
            self.lemma_entries_are_keys();
            let found = self.tree.found(p);
            assert forall|i: int| 0 <= i < found.len() implies K::is_key(
                (#[trigger] found[i]).0,
            ) by {
                self.tree.lemma_found_is_stored(p, i);
                let a = choose|a: int|
                    0 <= a < self.entries().len() && self.entries()[a] == found[i];
                assert(K::is_key(self.entries()[a].0));
            }
        }
        Matches { matches: self.tree.find(key.as_slice()) }
    }

    /// A map that holds the given entries, inserted one after the other:
    /// where a key occurs more than once, its last value stays.
    pub fn from_items(items: Vec<(&K, V)>) -> (r: RadixMap<K, V>)
        ensures
            r@ == insert_all(Map::empty(), item_entries::<K, V>(items@)),
            forall|q: Seq<K::Component>| #[trigger]
                r.reaches(q) <==> nodes_after_all(item_entries::<K, V>(items@), q),
    {
        let mut map: RadixMap<K, V> = RadixMap::new();
        let ghost all = items@;
        for item in it: items
            invariant
                it.seq() == all,
                map@ == insert_all(Map::empty(), item_entries::<K, V>(all.take(it.index() as int))),
                forall|q: Seq<K::Component>| #[trigger]
                    map.reaches(q) <==> nodes_after_all(
                        item_entries::<K, V>(all.take(it.index() as int)),
                        q,
                    ),
        {
            let ghost done = it.index() as int;
            let (key, value) = item;
            map.insert(key, value);
            proof {
                let now = item_entries::<K, V>(all.take(done + 1));
                assert(now.drop_last() =~= item_entries::<K, V>(all.take(done)));
                assert(now.last() == (key.components(), value));
            }
        }
        proof {
            assert(all.take(all.len() as int) =~= all);
        }
        map
    }
}

impl<K: Key + ?Sized, V> Default for RadixMap<K, V> {
    /// An empty map.
    fn default() -> (r: Self)
        ensures
            r@ == Map::<Seq<K::Component>, V>::empty(),
            forall|q: Seq<K::Component>| #[trigger] r.reaches(q) <==> q.len() == 0,
    {
        Self::new()
    }
}

/// The items as entries: each key by its components.
pub open spec fn item_entries<K: Key + ?Sized, V>(items: Seq<(&K, V)>) -> Seq<
    (Seq<K::Component>, V),
> {
    Seq::new(items.len(), |i: int| (items[i].0.components(), items[i].1))
}

/// Every key among the entries is the components of a key of the kind `K`.
pub open spec fn all_keys<K: Key + ?Sized, V>(s: Seq<(Seq<K::Component>, V)>) -> bool {
    forall|i: int| 0 <= i < s.len() ==> K::is_key((#[trigger] s[i]).0)
}

/// A walk over the entries of a map.
pub struct Iter<'a, K: Key + ?Sized, V> {
    iter: TreeIter<'a, K::Component, V>,
}

impl<'a, K: Key + ?Sized, V> Iter<'a, K, V> {
    /// The walk over the tree.
    pub closed spec fn inner(self) -> TreeIter<'a, K::Component, V> {
        self.iter
    }

    /// The entries that the walk has still to yield, keys by their
    /// components, in the order in which it yields them.
    pub open spec fn remaining(self) -> Seq<(Seq<K::Component>, V)> {
        self.inner().remaining()
    }

    /// The invariant of the walk: that of the walk over the tree, and every
    /// key still to come is the components of a key.
    #[verifier::type_invariant]
    pub open spec fn wf(self) -> bool {
        &&& self.inner().wf()
        &&& all_keys::<K, V>(self.remaining())
    }

    /// The next entry: the key in its owned form and the value in the map;
    /// nothing when the walk is over.
    pub fn next(&mut self) -> (r: Option<(K::Owned, &'a V)>)
        ensures
            match r {
                Some((key, value)) => {
                    &&& old(self).remaining().len() > 0
                    &&& (K::owned_components(&key), *value) == old(self).remaining()[0]
                    &&& final(self).remaining() == old(self).remaining().drop_first()
                },
                None => {
                    &&& old(self).remaining().len() == 0
                    &&& final(self).remaining().len() == 0
                },
            },
    {
        proof {
            use_type_invariant(&*self);
        }
        let ghost before = self.remaining();
        let mut walk = TreeIter::done();
        std::mem::swap(&mut walk, &mut self.iter);
        let step = walk.next();
        proof {
            assert forall|i: int| 0 <= i < walk.remaining().len() implies K::is_key(
                (#[trigger] walk.remaining()[i]).0,
            ) by {
                assert(walk.remaining()[i] == before[i + 1]);
            }
        }
        self.iter = walk;
        match step {
            Some((k, v)) => {
                proof {
                    assert(K::is_key(before[0].0));
                }
                Some((K::from_vec(k), v))
            },
            None => None,
        }
    }
}

/// A walk over the keys of a map.
pub struct Keys<'a, K: Key + ?Sized, V> {
    iter: Iter<'a, K, V>,
}

impl<'a, K: Key + ?Sized, V> Keys<'a, K, V> {
    /// The walk over the entries.
    pub closed spec fn inner(self) -> Iter<'a, K, V> {
        self.iter
    }

    /// The entries whose keys the walk has still to yield.
    pub open spec fn remaining(self) -> Seq<(Seq<K::Component>, V)> {
        self.inner().remaining()
    }

    /// The next key, in its owned form; nothing when the walk is over.
    pub fn next(&mut self) -> (r: Option<K::Owned>)
        ensures
            match r {
                Some(key) => {
                    &&& old(self).remaining().len() > 0
                    &&& K::owned_components(&key) == old(self).remaining()[0].0
                    &&& final(self).remaining() == old(self).remaining().drop_first()
                },
                None => {
                    &&& old(self).remaining().len() == 0
                    &&& final(self).remaining().len() == 0
                },
            },
    {
        match self.iter.next() {
            Some((k, _)) => Some(k),
            None => None,
        }
    }
}

/// A walk over the values of a map.
pub struct Values<'a, K: Key + ?Sized, V> {
    iter: Iter<'a, K, V>,
}

impl<'a, K: Key + ?Sized, V> Values<'a, K, V> {
    /// The walk over the entries.
    pub closed spec fn inner(self) -> Iter<'a, K, V> {
        self.iter
    }

    /// The entries whose values the walk has still to yield.
    pub open spec fn remaining(self) -> Seq<(Seq<K::Component>, V)> {
        self.inner().remaining()
    }

    /// The next value; nothing when the walk is over.
    pub fn next(&mut self) -> (r: Option<&'a V>)
        ensures
            match r {
                Some(value) => {
                    &&& old(self).remaining().len() > 0
                    &&& *value == old(self).remaining()[0].1
                    &&& final(self).remaining() == old(self).remaining().drop_first()
                },
                None => {
                    &&& old(self).remaining().len() == 0
                    &&& final(self).remaining().len() == 0
                },
            },
    {
        match self.iter.next() {
            Some((_, v)) => Some(v),
            None => None,
        }
    }
}

/// A walk over the entries that a search by prefix found.
pub struct Matches<'a, K: Key + ?Sized, V> {
    matches: TreeMatches<'a, K::Component, V>,
}

impl<'a, K: Key + ?Sized, V> Matches<'a, K, V> {
    /// The walk over the tree.
    pub closed spec fn inner(self) -> TreeMatches<'a, K::Component, V> {
        self.matches
    }

    /// The entries that the walk has still to yield, keys by their
    /// components, in the order in which it yields them.
    pub open spec fn remaining(self) -> Seq<(Seq<K::Component>, V)> {
        self.inner().remaining()
    }

    /// The invariant of the walk: that of the walk over the tree, and every
    /// key still to come is the components of a key.
    #[verifier::type_invariant]
    pub open spec fn wf(self) -> bool {
        &&& self.inner().wf()
        &&& all_keys::<K, V>(self.remaining())
    }

    /// The next entry: the key in its owned form and the value in the map;
    /// nothing when the walk is over.
    pub fn next(&mut self) -> (r: Option<(K::Owned, &'a V)>)
        ensures
            match r {
                Some((key, value)) => {
                    &&& old(self).remaining().len() > 0
                    &&& (K::owned_components(&key), *value) == old(self).remaining()[0]
                    &&& final(self).remaining() == old(self).remaining().drop_first()
                },
                None => {
                    &&& old(self).remaining().len() == 0
                    &&& final(self).remaining().len() == 0
                },
            },
    {
        proof {
            use_type_invariant(&*self);
        }
        let ghost before = self.remaining();
        let mut walk = TreeMatches::none();
        std::mem::swap(&mut walk, &mut self.matches);
        let step = walk.next();
        proof {
            assert forall|i: int| 0 <= i < walk.remaining().len() implies K::is_key(
                (#[trigger] walk.remaining()[i]).0,
            ) by {
                assert(walk.remaining()[i] == before[i + 1]);
            }
        }
        self.matches = walk;
        match step {
            Some((k, v)) => {
                proof {
                    assert(K::is_key(before[0].0));
                }
                Some((K::from_vec(k), v))
            },
            None => None,
        }
    }
}

} // verus!
