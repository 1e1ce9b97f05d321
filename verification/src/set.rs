//! An ordered set of keys on a radix tree.

use vstd::prelude::*;
use crate::key::Key;
use crate::laws::{keys_of, lemma_insert_all_keys, nodes_after_all};
use crate::map::{item_entries, Keys as MapKeys, Matches as MapMatches, RadixMap};
use crate::order::{leads, parts_at};

verus! {

/// A set based on a radix tree: a `RadixMap` from the keys to `()`.
pub struct RadixSet<K: Key + ?Sized> {
    map: RadixMap<K, ()>,
}

/// A walk over the keys of a set.
pub type Iter<'a, K> = MapKeys<'a, K, ()>;

impl<K: Key + ?Sized> View for RadixSet<K> {
    type V = Set<Seq<K::Component>>;

    /// The set of the keys, as their components.
    open spec fn view(&self) -> Set<Seq<K::Component>> {
        self.map()@.dom()
    }
}

impl<K: Key + ?Sized> RadixSet<K> {
    /// The map that holds the keys.
    pub closed spec fn map(self) -> RadixMap<K, ()> {
        self.map
    }

    /// The invariant of the set, which is that of its map. It holds of every
    /// set; a proof learns it from `use_type_invariant`.
    #[verifier::type_invariant]
    pub open spec fn wf(self) -> bool {
        self.map().wf()
    }

    /// The keys in ascending order, each as an entry of the map.
    pub open spec fn entries(self) -> Seq<(Seq<K::Component>, ())> {
        self.map().entries()
    }

    /// A node of the tree stands where `q` ends.
    pub open spec fn reaches(self, q: Seq<K::Component>) -> bool {
        self.map().reaches(q)
    }

    /// What a search for the keys that start with `prefix` yields: these
    /// keys, in order, where a node stands at the end of `prefix`, and
    /// nothing elsewhere.
    pub open spec fn found(self, prefix: Seq<K::Component>) -> Seq<(Seq<K::Component>, ())> {
        self.map().found(prefix)
    }

    /// Makes a new empty set.
    pub fn new() -> (r: RadixSet<K>)
        ensures
            r@ == Set::<Seq<K::Component>>::empty(),
            forall|q: Seq<K::Component>| #[trigger] r.reaches(q) <==> q.len() == 0,
    {
        let map = RadixMap::new();
        proof {
            use_type_invariant(&map);
        }
        let r = RadixSet { map: map };
        assert(r@ =~= Set::<Seq<K::Component>>::empty());
        r
    }

    /// Clears the set, removing all keys.
    pub fn clear(&mut self)
        ensures
            final(self)@ == Set::<Seq<K::Component>>::empty(),
            forall|q: Seq<K::Component>| #[trigger] final(self).reaches(q) <==> q.len() == 0,
    {
        let map = RadixMap::new();
        proof {
            use_type_invariant(&map);
        }
        self.map = map;
        assert(self@ =~= Set::<Seq<K::Component>>::empty());
    }

    /// Inserts a key into the set. Says whether the key is new to the set.
    pub fn insert(&mut self, key: &K) -> (r: bool)
        ensures
            final(self)@ == old(self)@.insert(key.components()),
            r == !old(self)@.contains(key.components()),
            forall|q: Seq<K::Component>| #[trigger]
                final(self).reaches(q) <==> {
                    ||| old(self).reaches(q)
                    ||| q == key.components()
                    ||| parts_at(old(self).map()@, key.components(), q)
                },
    {
        let mut map = RadixMap::new();
        proof {
            use_type_invariant(&map);
        }
        std::mem::swap(&mut map, &mut self.map);
        let r = map.insert(key, ()).is_none();
        proof {
            use_type_invariant(&map);
        }
        self.map = map;
        assert(self@ =~= old(self)@.insert(key.components()));
        r
    }

    /// Whether the key is in the set.
    pub fn contains(&self, key: &K) -> (r: bool)
        ensures
            r == self@.contains(key.components()),
    {
        self.map.get(key).is_some()
    }

    /// Whether the set holds no key.
    pub fn is_empty(&self) -> (r: bool)
        ensures
            r == (self@ == Set::<Seq<K::Component>>::empty()),
    {
        let r = self.map.is_empty();
        proof {
            if self@ == Set::<Seq<K::Component>>::empty() {
                assert(self.map@ =~= Map::<Seq<K::Component>, ()>::empty());
            }
            if r {
                assert(self@ =~= Set::<Seq<K::Component>>::empty());
            }
        }
        r
    }

    /// Removes a key from the set. Says whether the key was in the set.
    pub fn remove(&mut self, key: &K) -> (r: bool)
        ensures
            final(self)@ == old(self)@.remove(key.components()),
            r == old(self)@.contains(key.components()),
            forall|q: Seq<K::Component>| #[trigger]
                final(self).reaches(q) <==> old(self).reaches(q) && leads(final(self).map()@, q),
    {
        let mut map = RadixMap::new();
        proof {
            use_type_invariant(&map);
        }
        std::mem::swap(&mut map, &mut self.map);
        let r = map.remove(key).is_some();
        proof {
            use_type_invariant(&map);
        }
        self.map = map;
        assert(self@ =~= old(self)@.remove(key.components()));
        r
    }

    /// A walk over the keys of the set, sorted.
    pub fn iter(&self) -> (r: Iter<'_, K>)
        ensures
            r.remaining() == self.entries(),
    {
        self.map.keys()
    }

    /// A walk over the keys that start with `key`, sorted. Each comes whole.
    /// The search follows the edges of the tree and finds the keys where a
    /// node stands at the end of `key`, as it does where `key` is itself in
    /// the set.
    pub fn find<'a>(&'a self, key: &K) -> (r: Matches<'a, K>)
        ensures
            r.remaining() == self.found(key.components()),
    {
        Matches { iter: self.map.find(key) }
    }

    /// A set of the given keys, inserted one after the other.
    pub fn from_items(items: Vec<&K>) -> (r: RadixSet<K>)
        ensures
            r@ == item_keys::<K>(items@).to_set(),
            forall|q: Seq<K::Component>| #[trigger]
                r.reaches(q) <==> nodes_after_all(unit_entries::<K>(items@), q),
    {
        let ghost all = items@;
        let mut pairs: Vec<(&K, ())> = Vec::new();
        for key in it: items
            invariant
                it.seq() == all,
                pairs@.len() == it.index(),
                forall|i: int| 0 <= i < pairs@.len() ==> (#[trigger] pairs@[i]).0 == all[i],
        {
            pairs.push((key, ()));
        }
        proof {
            assert(item_entries::<K, ()>(pairs@) =~= unit_entries::<K>(all));
            assert(keys_of(unit_entries::<K>(all)) =~= item_keys::<K>(all));
            lemma_insert_all_keys(unit_entries::<K>(all));
        }
        let map = RadixMap::from_items(pairs);
        proof {
            use_type_invariant(&map);
        }
        RadixSet { map: map }
    }
}

impl<K: Key + ?Sized> Default for RadixSet<K> {
    /// An empty set.
    fn default() -> (r: Self)
        ensures
            r@ == Set::<Seq<K::Component>>::empty(),
            forall|q: Seq<K::Component>| #[trigger] r.reaches(q) <==> q.len() == 0,
    {
        Self::new()
    }
}

/// The items as entries of a map to `()`: each key by its components.
pub open spec fn unit_entries<K: Key + ?Sized>(items: Seq<&K>) -> Seq<(Seq<K::Component>, ())> {
    Seq::new(items.len(), |i: int| (items[i].components(), ()))
}

/// The items by their components.
pub open spec fn item_keys<K: Key + ?Sized>(items: Seq<&K>) -> Seq<Seq<K::Component>> {
    Seq::new(items.len(), |i: int| items[i].components())
}

/// A walk over the keys that a search by prefix found.
pub struct Matches<'a, K: Key + ?Sized> {
    iter: MapMatches<'a, K, ()>,
}

impl<'a, K: Key + ?Sized> Matches<'a, K> {
    /// The walk over the map.
    pub closed spec fn inner(self) -> MapMatches<'a, K, ()> {
        self.iter
    }

    /// The entries whose keys the walk has still to yield.
    pub open spec fn remaining(self) -> Seq<(Seq<K::Component>, ())> {
        self.inner().remaining()
    }

    /// The next key, in its owned form; nothing when the walk is over.
    pub fn next(&mut self) -> (r: Option<K::Owned>)
        ensures
            match r {
                Some(key) => {
                    &&& old(self).remaining().len() > 0
                    &&& K::owned_components(&key) == old(self).remaining()[0].0
                    &&& final(self).remaining() == old(self).remaining().drop_first()
                },
                None => {
                    &&& old(self).remaining().len() == 0
                    &&& final(self).remaining().len() == 0
                },
            },
    {
        match self.iter.next() {
            Some((k, _)) => Some(k),
            None => None,
        }
    }
}

} // verus!
