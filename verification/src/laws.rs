//! What holds of every tree: how the walk order, the map view and the prefix
//! search relate.

use vstd::prelude::*;
use vstd::seq_lib::seq_to_set_is_finite;
use crate::entries::{lemma_ascending_add, lemma_filter_ascending, lemma_filter_holds};
use crate::key::KeyComponent;
use crate::order::{
    ascending, leads, lemma_ascending_unique, lemma_lex_lt_empty, lemma_lex_lt_irreflexive, lex_lt,
    other_than, parts_at, starts, stored,
};
use crate::tree::Node;

verus! {

impl<K: KeyComponent, V> Node<K, V> {
    /// A walk over a tree yields the keys in strictly ascending order: each
    /// entry's key comes before the keys of all entries after it.
    pub proof fn lemma_entries_ascending(self)
        requires
            self.wf(),
        ensures
            ascending(self.entries()),
        decreases self, self.fanout() + 1,
    {
        let own = match self.value {
            Some(x) => seq![(Seq::<K>::empty(), x)],
            None => Seq::empty(),
        };
        let rest = self.entries_from(0);
        self.lemma_entries_from_ascending(0);
        assert forall|a: int, b: int| 0 <= a < own.len() && 0 <= b < rest.len() implies lex_lt(
            #[trigger] own[a].0,
            #[trigger] rest[b].0,
        ) by {
            assert(self.under(0, rest[b].0));
            lemma_lex_lt_empty(rest[b].0);
        }
        lemma_ascending_add(own, rest);
    }

    /// A walk over a tree yields no key twice.
    pub proof fn lemma_entries_distinct(self, i: int, j: int)
        requires
            self.wf(),
            0 <= i < j < self.entries().len(),
        ensures
            self.entries()[i].0 != self.entries()[j].0,
    {
        self.lemma_entries_ascending();
        lemma_lex_lt_irreflexive(self.entries()[i].0);
    }

    /// A walk over a tree yields exactly what the tree stores: an entry is
    /// among those of the walk if and only if the map view holds its value
    /// under its key.
    pub proof fn lemma_entries_are_view(self)
        requires
            self.wf(),
        ensures
            forall|k: Seq<K>, v: V| #[trigger]
                self.entries().contains((k, v)) <==> stored(self@, k) == Some(v),
    {
        assert forall|k: Seq<K>, v: V| #[trigger]
            self.entries().contains((k, v)) <==> stored(self@, k) == Some(v) by {
            self.lemma_entries_lookup(k, v);
        }
    }
}

/// The map that inserting the entries of `items` one after the other makes of
/// `m`.
pub open spec fn insert_all<K, V>(m: Map<Seq<K>, V>, items: Seq<(Seq<K>, V)>) -> Map<Seq<K>, V>
    decreases items.len(),
{
    if items.len() == 0 {
        m
    } else {
        insert_all(m, items.drop_last()).insert(items.last().0, items.last().1)
    }
}

/// Whether a node stands at the end of `q` after the entries of `items` were
/// inserted into an empty tree one after the other: at the root, where a key
/// of `items` ends, and where such a key parted from the keys before it.
pub open spec fn nodes_after_all<K, V>(items: Seq<(Seq<K>, V)>, q: Seq<K>) -> bool
    decreases items.len(),
{
    if items.len() == 0 {
        q.len() == 0
    } else {
        ||| nodes_after_all(items.drop_last(), q)
        ||| q == items.last().0
        ||| parts_at(insert_all(Map::empty(), items.drop_last()), items.last().0, q)
    }
}

/// After any entries were inserted into an empty tree one after the other,
/// the stored keys are the keys of these entries.
pub proof fn lemma_insert_all_keys<K, V>(items: Seq<(Seq<K>, V)>)
    ensures
        insert_all(Map::empty(), items).dom() == keys_of(items).to_set(),
    decreases items.len(),
{
    let keys = keys_of(items);
    let m = insert_all(Map::empty(), items);
    if items.len() > 0 {
        let front = items.drop_last();
        lemma_insert_all_keys(front);
        assert forall|k: Seq<K>| m.dom().contains(k) <==> keys.to_set().contains(k) by {
            if keys_of(front).contains(k) {
                let i = choose|i: int| 0 <= i < keys_of(front).len() && keys_of(front)[i] == k;
                assert(keys[i] == k);
            }
            if k == items.last().0 {
                assert(keys[items.len() - 1] == k);
            }
            if keys.contains(k) {
                let i = choose|i: int| 0 <= i < keys.len() && keys[i] == k;
                if i < front.len() {
                    assert(keys_of(front)[i] == k);
                }
            }
        }
    }
    assert(m.dom() =~= keys.to_set());
}

/// Entry `i` of `items` is the last one with the key `k`.
pub open spec fn last_with_key<K, V>(items: Seq<(Seq<K>, V)>, k: Seq<K>, i: int) -> bool {
    &&& 0 <= i < items.len()
    &&& items[i].0 == k
    &&& forall|j: int| i < j < items.len() ==> (#[trigger] items[j]).0 != k
}

/// After any entries were inserted into an empty tree one after the other,
/// each key that occurs among them holds the value of the last entry with
/// that key, and no other key is stored.
pub proof fn lemma_round_trip<K, V>(items: Seq<(Seq<K>, V)>, k: Seq<K>)
    ensures
        forall|i: int|
            last_with_key(items, k, i) ==> stored(insert_all(Map::empty(), items), k) == Some(
                (#[trigger] items[i]).1,
            ),
        (forall|i: int| 0 <= i < items.len() ==> (#[trigger] items[i]).0 != k) ==> stored(
            insert_all(Map::empty(), items),
            k,
        ) is None,
    decreases items.len(),
{
    if items.len() > 0 {
        let front = items.drop_last();
        lemma_round_trip(front, k);
        assert forall|i: int| last_with_key(items, k, i) implies stored(
            insert_all(Map::empty(), items),
            k,
        ) == Some((#[trigger] items[i]).1) by {
            if i < items.len() - 1 {
                assert(items[items.len() - 1].0 != k);
                assert(front[i] == items[i]);
                assert forall|j: int| i < j < front.len() implies (#[trigger] front[j]).0 != k by {
                    assert(front[j] == items[j]);
                }
                assert(last_with_key(front, k, i));
            }
        }
        if forall|i: int| 0 <= i < items.len() ==> (#[trigger] items[i]).0 != k {
            assert forall|i: int| 0 <= i < front.len() implies (#[trigger] front[i]).0 != k by {
                assert(front[i] == items[i]);
            }
            assert(items[items.len() - 1].0 != k);
        }
    }
}

impl<K: KeyComponent, V> Node<K, V> {
    /// The walk over a tree is a function of what the tree stores: two trees
    /// with the same map view yield the same entries in the same order,
    /// whatever their edges are.
    pub proof fn lemma_entries_determined(self, other: Self)
        requires
            self.wf(),
            other.wf(),
            self@ == other@,
        ensures
            self.entries() == other.entries(),
    {
        self.lemma_entries_ascending();
        other.lemma_entries_ascending();
        self.lemma_entries_are_view();
        other.lemma_entries_are_view();
        assert forall|e: (Seq<K>, V)|
            self.entries().contains(e) <==> other.entries().contains(e) by {
            assert(e == (e.0, e.1));
        }
        lemma_ascending_unique(self.entries(), other.entries());
    }

    /// The walk over a tree from which `key` was removed is the walk over the
    /// tree before with the entry of `key` left out: the entries of all other
    /// keys stay, each with its value and in its place among the others.
    pub proof fn lemma_entries_without(self, after: Self, key: Seq<K>)
        requires
            self.wf(),
            after.wf(),
            after@ == self@.remove(key),
        ensures
            after.entries() == self.entries().filter(other_than(key)),
    {
        let kept = self.entries().filter(other_than(key));
        self.lemma_entries_ascending();
        after.lemma_entries_ascending();
        lemma_filter_ascending(self.entries(), other_than(key));
        self.lemma_entries_are_view();
        after.lemma_entries_are_view();
        assert forall|e: (Seq<K>, V)| kept.contains(e) <==> after.entries().contains(e) by {
            assert(e == (e.0, e.1));
            lemma_filter_holds(self.entries(), other_than(key), e);
        }
        lemma_ascending_unique(kept, after.entries());
    }

    /// Inserting a key and removing it again leaves the key absent and
    /// everything else as it was before: every other key holds what it held,
    /// and the walk yields what it yielded for the other keys.
    pub proof fn lemma_insert_then_remove(self, mid: Self, after: Self, key: Seq<K>, value: V)
        requires
            self.wf(),
            mid.wf(),
            after.wf(),
            mid@ == self@.insert(key, value),
            after@ == mid@.remove(key),
        ensures
            stored(after@, key) is None,
            forall|k: Seq<K>| k != key ==> stored(after@, k) == stored(self@, k),
            after.entries() == self.entries().filter(other_than(key)),
    {
        assert(after@ =~= self@.remove(key));
        self.lemma_entries_without(after, key);
    }

    /// A tree without entries has no value for any key, and its walk yields
    /// nothing.
    pub proof fn lemma_empty_tree(self, k: Seq<K>)
        requires
            self.wf(),
            self@ == Map::<Seq<K>, V>::empty(),
        ensures
            stored(self@, k) is None,
            self.entries().len() == 0,
    {
        self.lemma_entries_are_view();
        if self.entries().len() > 0 {
            let e = self.entries()[0];
            assert(self.entries().contains((e.0, e.1)));
        }
    }
}

/// The keys of the entries of `s`, in their order.
pub open spec fn keys_of<K, V>(s: Seq<(Seq<K>, V)>) -> Seq<Seq<K>> {
    Seq::new(s.len(), |i: int| s[i].0)
}

impl<K: KeyComponent, V> Node<K, V> {
    /// A tree stores finitely many keys, as many as its walk yields entries,
    /// and they are the keys of these entries.
    pub proof fn lemma_entries_count(self)
        requires
            self.wf(),
        ensures
            self@.dom().finite(),
            self@.dom().len() == self.entries().len(),
            self@.dom() == keys_of(self.entries()).to_set(),
    {
        let keys = keys_of(self.entries());
        self.lemma_entries_ascending();
        self.lemma_entries_are_view();
        assert forall|i: int, j: int|
            0 <= i < keys.len() && 0 <= j < keys.len() && i != j implies keys[i] != keys[j] by {
            if i < j {
                self.lemma_entries_distinct(i, j);
            } else {
                self.lemma_entries_distinct(j, i);
            }
        }
        keys.unique_seq_to_set();
        seq_to_set_is_finite(keys);
        assert forall|k: Seq<K>| self@.dom().contains(k) <==> keys.to_set().contains(k) by {
            if self@.dom().contains(k) {
                let v = self@[k];
                assert(self.entries().contains((k, v)));
                let i = choose|i: int| 0 <= i < self.entries().len() && self.entries()[i] == (k, v);
                assert(keys[i] == k);
            }
            if keys.to_set().contains(k) {
                let i = choose|i: int| 0 <= i < keys.len() && keys[i] == k;
                let e = self.entries()[i];
                assert(self.entries().contains((e.0, e.1)));
            }
        }
        assert(self@.dom() =~= keys.to_set());
    }
}

impl<K: KeyComponent, V> Node<K, V> {
    /// Below every node lies a key: the path to a node leads some stored key,
    /// if it is not the empty path to the root.
    pub proof fn lemma_node_leads(self, q: Seq<K>)
        requires
            self.wf(),
            self.reaches(q),
        ensures
            leads(self@, q),
        decreases self,
    {
        if q.len() > 0 {
            let i = self.branch(q[0]).unwrap();
            let e = self.edges@[i];
            assert(self.starts_with(i, q[0]));
            e.node.lemma_node_leads(q.skip(e.prefix@.len() as int));
            self.lemma_leads_hit(q, i);
        }
    }

    /// A node stands where a stored key ends.
    pub proof fn lemma_key_ends_at_node(self, k: Seq<K>)
        requires
            self.wf(),
            self@.contains_key(k),
        ensures
            self.reaches(k),
        decreases self,
    {
        if k.len() > 0 {
            let i = self.branch(k[0]).unwrap();
            let e = self.edges@[i];
            e.node.lemma_view_lookup(k.skip(e.prefix@.len() as int));
            e.node.lemma_key_ends_at_node(k.skip(e.prefix@.len() as int));
        }
    }
}

impl<K: KeyComponent, V> Node<K, V> {
    /// A search for a prefix yields exactly the entries of the walk whose
    /// keys start with the prefix, in the order of the walk, unless the
    /// prefix ends within an edge: that is, if a node stands where the prefix
    /// ends, or no stored key starts with it.
    pub proof fn lemma_find_is_filter(self, p: Seq<K>)
        requires
            self.wf(),
            self.reaches(p) || !leads(self@, p),
        ensures
            self.found(p) == self.entries().filter(starts(p)),
    {
        if !self.reaches(p) {
            self.lemma_nothing_starts(p);
        }
    }

    /// A search for a prefix that ends within an edge yields nothing, though
    /// the walk has entries whose keys start with the prefix.
    pub proof fn lemma_find_within_edge(self, p: Seq<K>)
        requires
            self.wf(),
            leads(self@, p),
            !self.reaches(p),
        ensures
            self.found(p).len() == 0,
            self.entries().filter(starts(p)).len() > 0,
    {
        self.lemma_splits_edge(p);
        self.lemma_matches_within_edge(p);
    }

    /// What a search yields is part of the walk: each entry found is an
    /// entry of the tree.
    pub proof fn lemma_found_is_stored(self, p: Seq<K>, i: int)
        requires
            self.wf(),
            0 <= i < self.found(p).len(),
        ensures
            self.entries().contains(self.found(p)[i]),
            p.is_prefix_of(self.found(p)[i].0),
    {
        let hit = self.found(p)[i];
        assert(self.found(p).contains(hit));
        lemma_filter_holds(self.entries(), starts(p), hit);
    }
}

} // verus!
