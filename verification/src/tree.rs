//! The radix tree: nodes joined by edges that carry a non-empty run of key
//! components, with lookup, insertion that splits edges, and removal that
//! prunes what it empties.

use vstd::prelude::*;
use crate::key::KeyComponent;
use crate::changes::{lemma_split_node, split_lookup};
use crate::order::{is_common_len, leads, lemma_agree_is_prefix, parts_at, stored, with_prefix};
use crate::places::{lemma_split_places, split_reaches};

verus! {

/// A node of the tree. The value, if any, belongs to the key that ends at this
/// node; each edge leads to the keys that go on with the edge's prefix.
pub struct Node<K: KeyComponent, V> {
    pub(crate) value: Option<V>,
    pub(crate) edges: Vec<Edge<K, V>>,
}

/// A labelled link from a node to the child it owns.
pub(crate) struct Edge<K: KeyComponent, V> {
    pub(crate) prefix: Vec<K>,
    pub(crate) node: Box<Node<K, V>>,
}

/// A tree is its root node; the root stands for the empty key.
pub type Tree<K, V> = Node<K, V>;

pub use crate::iter::{Iter, Matches};

/// How an edge's prefix relates to what is left of a key, where the two share
/// at least their first component.
pub(crate) enum PrefixCmp<'a, K> {
    /// The whole prefix leads the key; what follows it in the key is kept.
    Full(&'a [K]),
    /// Only this many components are shared, fewer than the prefix has.
    Partial(usize),
}

impl<'a, K> PrefixCmp<'a, K> {
    /// What the comparison says of the prefix `haystack` and the key `needle`.
    pub(crate) open spec fn describes(self, haystack: Seq<K>, needle: Seq<K>) -> bool {
        match self {
            PrefixCmp::Full(suffix) => {
                &&& haystack.len() > 0
                &&& haystack.is_prefix_of(needle)
                &&& suffix@ == needle.skip(haystack.len() as int)
            },
            PrefixCmp::Partial(n) => {
                &&& 0 < n < haystack.len()
                &&& is_common_len(haystack, needle, n as int)
            },
        }
    }
}

impl<K: KeyComponent, V> Node<K, V> {
    /// The number of edges that leave the node.
    pub open(crate) spec fn fanout(self) -> nat {
        self.edges@.len()
    }

    /// The node holds no value and has no edge.
    pub open(crate) spec fn vacant(self) -> bool {
        self.value.is_none() && self.edges@.len() == 0
    }

    /// Every edge has a non-empty prefix, and the first components of the
    /// prefixes strictly ascend. So no two edges share a leading part, and the
    /// edges stand in the order of their prefixes.
    pub(crate) open spec fn edges_ordered(self) -> bool {
        &&& forall|i: int|
            0 <= i < self.edges@.len() ==> (#[trigger] self.edges@[i]).prefix@.len() > 0
        &&& forall|i: int, j: int|
            0 <= i < j < self.edges@.len() ==> (#[trigger] self.edges@[i]).prefix@[0].precedes(
                (#[trigger] self.edges@[j]).prefix@[0],
            )
    }

    /// The invariant of the tree: at every node the edges are ordered, and no
    /// edge leads to a vacant node. `new` makes a tree that meets it, and
    /// every operation keeps it.
    pub open(crate) spec fn wf(self) -> bool
        decreases self,
    {
        &&& self.edges_ordered()
        &&& forall|i: int|
            0 <= i < self.edges@.len() ==> {
                &&& (#[trigger] self.edges@[i]).node.wf()
                &&& !self.edges@[i].node.vacant()
            }
    }

    /// The edge whose prefix starts with `c`, if there is one.
    pub(crate) open spec fn branch(self, c: K) -> Option<int> {
        if exists|i: int| self.starts_with(i, c) {
            Some(choose|i: int| self.starts_with(i, c))
        } else {
            None
        }
    }

    /// Edge `i` exists and its prefix starts with `c`.
    pub(crate) open spec fn starts_with(self, i: int, c: K) -> bool {
        &&& 0 <= i < self.edges@.len()
        &&& self.edges@[i].prefix@.len() > 0
        &&& self.edges@[i].prefix@[0] == c
    }

    /// The key starts as the prefix of edge `i` does, and `how` says how that
    /// prefix relates to the key.
    pub(crate) open spec fn meets(self, key: Seq<K>, i: usize, how: PrefixCmp<K>) -> bool {
        &&& key.len() > 0
        &&& self.starts_with(i as int, key[0])
        &&& how.describes(self.edges@[i as int].prefix@, key)
    }

    /// The value stored under `key`: the node's own for the empty key,
    /// otherwise what the child holds under the rest of the key, if an edge's
    /// whole prefix leads the key.
    pub(crate) open spec fn lookup(self, key: Seq<K>) -> Option<V>
        decreases self,
    {
        if key.len() == 0 {
            self.value
        } else {
            match self.branch(key[0]) {
                Some(i) => {
                    let e = self.edges@[i];
                    if 0 <= i < self.edges@.len() && e.prefix@.is_prefix_of(key) {
                        e.node.lookup(key.skip(e.prefix@.len() as int))
                    } else {
                        None
                    }
                },
                None => None,
            }
        }
    }

    /// A node stands where `p` ends: going down from this node, `p` is used
    /// up by whole edge prefixes.
    pub open(crate) spec fn reaches(self, p: Seq<K>) -> bool
        decreases self,
    {
        if p.len() == 0 {
            true
        } else {
            match self.branch(p[0]) {
                Some(i) => {
                    let e = self.edges@[i];
                    &&& 0 <= i < self.edges@.len()
                    &&& e.prefix@.is_prefix_of(p)
                    &&& e.node.reaches(p.skip(e.prefix@.len() as int))
                },
                None => false,
            }
        }
    }

    /// The entries below the edges from `j` on, in edge order, each key with
    /// its edge's prefix in front.
    pub(crate) open spec fn entries_from(self, j: int) -> Seq<(Seq<K>, V)>
        decreases self, self.fanout() - j,
    {
        if 0 <= j < self.edges@.len() {
            with_prefix(self.edges@[j].prefix@, self.edges@[j].node.entries())
                + self.entries_from(j + 1)
        } else {
            Seq::empty()
        }
    }

    /// Every stored key with its value, in the order of a walk that visits a
    /// node's own value first and then its edges in turn.
    pub open(crate) spec fn entries(self) -> Seq<(Seq<K>, V)>
        decreases self, self.fanout() + 1,
    {
        let own = match self.value {
            Some(v) => seq![(Seq::<K>::empty(), v)],
            None => Seq::empty(),
        };
        own + self.entries_from(0)
    }
}

impl<K: KeyComponent, V> View for Node<K, V> {
    type V = Map<Seq<K>, V>;

    /// The tree as a map from keys to values.
    open(crate) spec fn view(&self) -> Map<Seq<K>, V> {
        Map::new(|k: Seq<K>| self.lookup(k).is_some(), |k: Seq<K>| self.lookup(k).unwrap())
    }
}

impl<K: KeyComponent, V> Node<K, V> {
    /// Among ordered edges the one that starts with a given component is the
    /// only one that does.
    pub(crate) proof fn lemma_branch_hit(self, c: K, i: int)
        requires
            self.edges_ordered(),
            self.starts_with(i, c),
        ensures
            self.branch(c) == Some(i),
    {
        let b = choose|b: int| self.starts_with(b, c);
        K::lemma_irreflexive(c);
        if b < i {
            assert(self.edges@[b].prefix@[0].precedes(self.edges@[i].prefix@[0]));
        } else if i < b {
            assert(self.edges@[i].prefix@[0].precedes(self.edges@[b].prefix@[0]));
        }
    }

    /// One step of a lookup through the edge that starts as the key does.
    pub(crate) proof fn lemma_lookup_hit(self, key: Seq<K>, i: int)
        requires
            self.edges_ordered(),
            key.len() > 0,
            self.starts_with(i, key[0]),
        ensures
            self.lookup(key) == if self.edges@[i].prefix@.is_prefix_of(key) {
                self.edges@[i].node.lookup(key.skip(self.edges@[i].prefix@.len() as int))
            } else {
                None
            },
    {
        self.lemma_branch_hit(key[0], i);
    }

    /// A key that no edge starts like is not stored.
    pub(crate) proof fn lemma_lookup_miss(self, key: Seq<K>)
        requires
            key.len() > 0,
            forall|i: int| !self.starts_with(i, key[0]),
        ensures
            self.lookup(key).is_none(),
    {
    }

    /// A vacant node stores nothing.
    pub(crate) proof fn lemma_vacant_stores_nothing(self)
        requires
            self.vacant(),
        ensures
            forall|k: Seq<K>| self.lookup(k).is_none(),
            self@ =~= Map::<Seq<K>, V>::empty(),
    {
        assert forall|k: Seq<K>| self.lookup(k).is_none() by {
            if k.len() > 0 {
                self.lemma_lookup_miss(k);
            }
        }
    }

    /// A well-formed node that is not vacant stores some key.
    pub(crate) proof fn lemma_occupied_stores_some(self) -> (k: Seq<K>)
        requires
            self.wf(),
            !self.vacant(),
        ensures
            self.lookup(k).is_some(),
        decreases self,
    {
        if self.value.is_some() {
            Seq::empty()
        } else {
            let e = self.edges@[0];
            let rest = e.node.lemma_occupied_stores_some();
            let k = e.prefix@ + rest;
            assert(self.starts_with(0, k[0]));
            self.lemma_lookup_hit(k, 0);
            assert(e.prefix@ =~= k.subrange(0, e.prefix@.len() as int));
            assert(k.skip(e.prefix@.len() as int) =~= rest);
            k
        }
    }

    /// An empty tree.
    pub fn new() -> (r: Self)
        ensures
            r.wf(),
            r.vacant(),
            r@ == Map::<Seq<K>, V>::empty(),
            forall|q: Seq<K>| #[trigger] r.reaches(q) <==> q.len() == 0,
    {
        let r = Node { value: None, edges: Vec::new() };
        proof {
            r.lemma_vacant_stores_nothing();
            assert forall|q: Seq<K>| #[trigger] r.reaches(q) <==> q.len() == 0 by {
                if q.len() > 0 {
                    r.lemma_reaches_miss(q);
                }
            }
        }
        r
    }

    /// Drops every entry.
    pub fn clear(&mut self)
        ensures
            final(self).wf(),
            final(self)@ == Map::<Seq<K>, V>::empty(),
            forall|q: Seq<K>| #[trigger] final(self).reaches(q) <==> q.len() == 0,
    {
        *self = Node::new();
    }

    /// Whether the tree stores no key at all.
    pub fn is_empty(&self) -> (r: bool)
        requires
            self.wf(),
        ensures
            r == (self@ == Map::<Seq<K>, V>::empty()),
    {
        let r = self.value.is_none() && self.edges.len() == 0;
        proof {
            if r {
                self.lemma_vacant_stores_nothing();
            } else {
                let k = self.lemma_occupied_stores_some();
                assert(self@.contains_key(k));
            }
        }
        r
    }

    /// The value stored under `key`, if the key is stored.
    pub fn get(&self, key: &[K]) -> (r: Option<&V>)
        requires
            self.wf(),
        ensures
            r == match stored(self@, key@) {
                Some(v) => Some(&v),
                None => None,
            },
        decreases self,
    {
        if key.len() == 0 {
            self.value.as_ref()
        } else {
            match self.search_for_prefix(key) {
                Some((i, PrefixCmp::Full(suffix))) => {
                    proof {
                        self.lemma_lookup_hit(key@, i as int);
                    }
                    self.edges[i].node.get(suffix)
                },
                Some((i, PrefixCmp::Partial(n))) => {
                    proof {
                        self.lemma_lookup_hit(key@, i as int);
                        lemma_agree_is_prefix(self.edges@[i as int].prefix@, key@);
                    }
                    None
                },
                None => {
                    proof {
                        self.lemma_lookup_miss(key@);
                    }
                    None
                },
            }
        }
    }

    /// The first edge whose prefix shares its first component with `key`, and
    /// how that prefix relates to the key.
    pub(crate) fn search_for_prefix<'a>(&self, key: &'a [K]) -> (r: Option<
        (usize, PrefixCmp<'a, K>),
    >)
        requires
            key@.len() > 0,
        ensures
            match r {
                Some((i, how)) => self.meets(key@, i, how),
                None => forall|i: int| !self.starts_with(i, key@[0]),
            },
    {
        let mut i: usize = 0;
        while i < self.edges.len()
            invariant
                i <= self.edges@.len(),
                key@.len() > 0,
                forall|j: int| 0 <= j < i ==> !self.starts_with(j, key@[0]),
            decreases self.edges@.len() - i,
        {
            match cmp_prefix(self.edges[i].prefix.as_slice(), key) {
                Some(how) => {
                    return Some((i, how));
                },
                None => {},
            }
            i += 1;
        }
        None
    }
}

/// Compares an edge's prefix `haystack` with the rest of a key, `needle`:
/// nothing where they share no leading component, otherwise whether the whole
/// prefix leads the key or only a part of it.
pub(crate) fn cmp_prefix<'a, K: KeyComponent>(haystack: &[K], needle: &'a [K]) -> (r: Option<
    PrefixCmp<'a, K>,
>)
    ensures
        match r {
            Some(how) => how.describes(haystack@, needle@),
            None => is_common_len(haystack@, needle@, 0),
        },
{
    let mut nb: usize = 0;
    while nb < haystack.len() && nb < needle.len() && haystack[nb].equals(&needle[nb])
        invariant
            nb <= haystack@.len(),
            nb <= needle@.len(),
            forall|i: int| 0 <= i < nb ==> haystack@[i] == needle@[i],
        decreases haystack@.len() - nb,
    {
        nb += 1;
    }
    if nb == 0 {
        None
    } else if nb < haystack.len() {
        Some(PrefixCmp::Partial(nb))
    } else {
        proof {
            lemma_agree_is_prefix(haystack@, needle@);
        }
        let (_, suffix) = needle.split_at(nb);
        Some(PrefixCmp::Full(suffix))
    }
}

/// A copy of the components of `s`.
pub(crate) fn to_vec<K: KeyComponent>(s: &[K]) -> (v: Vec<K>)
    ensures
        v@ == s@,
{
    let mut v: Vec<K> = Vec::with_capacity(s.len());
    let mut i: usize = 0;
    while i < s.len()
        invariant
            i <= s@.len(),
            v@ == s@.take(i as int),
        decreases s@.len() - i,
    {
        v.push(s[i].duplicate());
        i += 1;
        assert(v@ =~= s@.take(i as int));
    }
    assert(s@.take(s@.len() as int) =~= s@);
    v
}

impl<K: KeyComponent, V> Edge<K, V> {
    /// An edge with the given prefix to a fresh node that holds `value` and
    /// has no edges.
    pub(crate) fn new(prefix: Vec<K>, value: Option<V>) -> (r: Edge<K, V>)
        ensures
            r.prefix == prefix,
            r.node.value == value,
            r.node.edges@.len() == 0,
    {
        let mut node = Box::new(Node::new());
        node.value = value;
        Edge { prefix: prefix, node: node }
    }

    /// Splits the edge after its first `i` components, which are all it
    /// shares with `key`, and stores `value` under what `key` has beyond them.
    /// The edge keeps the shared part; its node becomes an intermediate node
    /// above the former child, which hangs below the rest of the old prefix,
    /// and above a new leaf for the rest of the key, if the key has a rest.
    pub(crate) fn split_insert(&mut self, i: usize, key: &[K], value: V)
        requires
            0 < i < old(self).prefix@.len(),
            is_common_len(old(self).prefix@, key@, i as int),
            old(self).node.wf(),
            !old(self).node.vacant(),
        ensures
            final(self).prefix@ == key@.take(i as int),
            final(self).node.wf(),
            !final(self).node.vacant(),
            forall|k: Seq<K>| #[trigger]
                final(self).node.lookup(k) == split_lookup(
                    *old(self).node,
                    old(self).prefix@.skip(i as int),
                    key@.skip(i as int),
                    value,
                    k,
                ),
            forall|q: Seq<K>| #[trigger]
                final(self).node.reaches(q) == split_reaches(
                    *old(self).node,
                    old(self).prefix@.skip(i as int),
                    key@.skip(i as int),
                    q,
                ),
    {
        let ghost child = *self.node;
        let ghost es = self.prefix@.skip(i as int);
        let ghost ks = key@.skip(i as int);
        let (head, key_rest) = key.split_at(i);
        let (_, edge_rest) = self.prefix.as_slice().split_at(i);
        let prefix = to_vec(head);
        let key_suffix = to_vec(key_rest);
        let edge_suffix = to_vec(edge_rest);

        // the edge keeps what it shares with the key
        self.prefix = prefix;

        // the former child goes below a new edge with the rest of the old
        // prefix: its value and its edges move to the node of that edge, and
        // the edge's own node stays as the intermediate node
        let moved_value = self.node.value.take();
        let mut new_edges: Vec<Edge<K, V>> = Vec::with_capacity(2);
        std::mem::swap(&mut self.node.edges, &mut new_edges);
        let mut moved_edge = Edge::new(edge_suffix, moved_value);
        moved_edge.node.edges = new_edges;
        assert(*moved_edge.node == child);
        assert(moved_edge.prefix@ == es);

        // the former child and the key's own rest, if any, go below the
        // intermediate node, in the order of their prefixes
        if key_suffix.len() > 0 {
            let new_edge = Edge::new(key_suffix, Some(value));
            if new_edge.prefix[0].less_than(&moved_edge.prefix[0]) {
                self.node.edges.push(new_edge);
                self.node.edges.push(moved_edge);
            } else {
                proof {
                    K::lemma_total(ks[0], es[0]);
                }
                self.node.edges.push(moved_edge);
                self.node.edges.push(new_edge);
            }
        } else {
            self.node.edges.push(moved_edge);
            self.node.value = Some(value);
        }
        proof {
            let m: int = if ks.len() > 0 && ks[0].precedes(es[0]) { 1 } else { 0 };
            lemma_split_node(*self.node, m, child, es, ks, value);
            assert forall|q: Seq<K>| #[trigger]
                self.node.reaches(q) == split_reaches(child, es, ks, q) by {
                lemma_split_places(*self.node, m, child, es, ks, q);
            }
        }
    }
}

impl<K: KeyComponent, V> Node<K, V> {
    /// Where an edge whose prefix starts with `c` belongs among the edges, by
    /// bisection: every edge before that place starts with a smaller
    /// component, every edge from there on with a greater one.
    pub(crate) fn insertion_point(&self, c: &K) -> (pos: usize)
        requires
            self.edges_ordered(),
            forall|i: int| !self.starts_with(i, *c),
        ensures
            pos <= self.edges@.len(),
            forall|i: int| 0 <= i < pos ==> (#[trigger] self.edges@[i]).prefix@[0].precedes(*c),
            forall|i: int|
                pos <= i < self.edges@.len() ==> c.precedes((#[trigger] self.edges@[i]).prefix@[0]),
    {
        let mut lo: usize = 0;
        let mut hi: usize = self.edges.len();
        while lo < hi
            invariant
                lo <= hi <= self.edges@.len(),
                self.edges_ordered(),
                forall|i: int| !self.starts_with(i, *c),
                forall|i: int| 0 <= i < lo ==> (#[trigger] self.edges@[i]).prefix@[0].precedes(*c),
                forall|i: int|
                    hi <= i < self.edges@.len() ==> c.precedes(
                        (#[trigger] self.edges@[i]).prefix@[0],
                    ),
            decreases hi - lo,
        {
            let mid = lo + (hi - lo) / 2;
            let ghost first = self.edges@[mid as int].prefix@[0];
            if self.edges[mid].prefix[0].less_than(c) {
                proof {
                    assert forall|i: int| 0 <= i < mid + 1 implies (#[trigger] self.edges@[
                        i
                    ]).prefix@[0].precedes(*c) by {
                        if i < mid {
                            K::lemma_transitive(self.edges@[i].prefix@[0], first, *c);
                        }
                    }
                }
                lo = mid + 1;
            } else {
                proof {
                    assert(!self.starts_with(mid as int, *c));
                    K::lemma_total(first, *c);
                    assert forall|i: int| mid <= i < self.edges@.len() implies c.precedes(
                        (#[trigger] self.edges@[i]).prefix@[0],
                    ) by {
                        if mid < i {
                            K::lemma_transitive(*c, first, self.edges@[i].prefix@[0]);
                        }
                    }
                }
                hi = mid;
            }
        }
        lo
    }

    /// Stores `value` under `key` and hands back what the key held before.
    pub fn insert(&mut self, key: &[K], value: V) -> (r: Option<V>)
        requires
            old(self).wf(),
        ensures
            final(self).wf(),
            final(self)@ == old(self)@.insert(key@, value),
            r == stored(old(self)@, key@),
            forall|q: Seq<K>| #[trigger]
                final(self).reaches(q) <==> {
                    ||| old(self).reaches(q)
                    ||| q == key@
                    ||| parts_at(old(self)@, key@, q)
                },
        decreases key@.len(),
    {
        let ghost before = *self;
        if key.len() == 0 {
            let old_value = self.value.take();
            self.value = Some(value);
            proof {
                assert forall|q: Seq<K>| #[trigger]
                    self.reaches(q) <==> before.reaches(q) || q == key@ || parts_at(
                        before@,
                        key@,
                        q,
                    ) by {
                    before.lemma_places_same_edges(*self, q);
                }
                assert forall|k: Seq<K>| #[trigger] self.lookup(k) == if k == key@ {
                    Some(value)
                } else {
                    before.lookup(k)
                } by {
                    if k.len() == 0 {
                        assert(k =~= key@);
                    } else {
                        before.lemma_same_edges(*self, k);
                    }
                }
                assert(self@ =~= before@.insert(key@, value));
            }
            old_value
        } else {
            match self.search_for_prefix(key) {
                // the whole prefix leads the key: insert in the child
                Some((i, PrefixCmp::Full(suffix))) => {
                    let r = self.edges[i].node.insert(suffix, value);
                    proof {
                        before.lemma_insert_below(*self, i as int, key@, value);
                        assert forall|q: Seq<K>| #[trigger]
                            self.reaches(q) <==> before.reaches(q) || q == key@ || parts_at(
                                before@,
                                key@,
                                q,
                            ) by {
                            before.lemma_places_insert_below(*self, i as int, key@, q);
                        }
                    }
                    r
                },
                // a part of the prefix leads the key: split the edge, whose
                // node then stands above the former child and the new entry
                Some((i, PrefixCmp::Partial(n))) => {
                    self.edges[i].split_insert(n, key, value);
                    proof {
                        before.lemma_insert_split(*self, i as int, n as int, key@, value);
                        assert forall|q: Seq<K>| #[trigger]
                            self.reaches(q) <==> before.reaches(q) || q == key@ || parts_at(
                                before@,
                                key@,
                                q,
                            ) by {
                            before.lemma_places_insert_split(*self, i as int, n as int, key@, q);
                        }
                    }
                    None
                },
                // no edge starts as the key does: add an edge for the key
                None => {
                    let new_edge = Edge::new(to_vec(key), Some(value));
                    let pos = self.insertion_point(&key[0]);
                    self.edges.insert(pos, new_edge);
                    proof {
                        before.lemma_insert_edge(*self, pos as int, key@, value);
                        assert forall|q: Seq<K>| #[trigger]
                            self.reaches(q) <==> before.reaches(q) || q == key@ || parts_at(
                                before@,
                                key@,
                                q,
                            ) by {
                            before.lemma_places_insert_edge(*self, pos as int, key@, q);
                        }
                    }
                    None
                },
            }
        }
    }

    /// Takes out what is stored under `key` and hands it back. An edge whose
    /// node this leaves vacant goes too, at every level on the way back up.
    pub fn remove(&mut self, key: &[K]) -> (r: Option<V>)
        requires
            old(self).wf(),
        ensures
            final(self).wf(),
            final(self)@ == old(self)@.remove(key@),
            r == stored(old(self)@, key@),
            forall|q: Seq<K>| #[trigger]
                final(self).reaches(q) <==> old(self).reaches(q) && leads(final(self)@, q),
        decreases key@.len(),
    {
        let ghost before = *self;
        if key.len() == 0 {
            let r = self.value.take();
            proof {
                assert forall|q: Seq<K>| #[trigger]
                    self.reaches(q) <==> before.reaches(q) && leads(
                        before@.remove(key@),
                        q,
                    ) by {
                    before.lemma_places_same_edges(*self, q);
                    if q.len() > 0 && before.reaches(q) {
                        before.lemma_node_leads(q);
                        let k = choose|k: Seq<K>| #[trigger]
                            before@.contains_key(k) && q.is_prefix_of(k);
                        assert(k.len() > 0);
                        assert(before@.remove(key@).contains_key(k));
                    }
                }
                assert forall|k: Seq<K>| #[trigger] self.lookup(k) == if k == key@ {
                    None
                } else {
                    before.lookup(k)
                } by {
                    if k.len() == 0 {
                        assert(k =~= key@);
                    } else {
                        before.lemma_same_edges(*self, k);
                    }
                }
                assert(self@ =~= before@.remove(key@));
            }
            r
        } else {
            match self.search_for_prefix(key) {
                Some((i, PrefixCmp::Full(suffix))) => {
                    let ret = self.edges[i].node.remove(suffix);
                    let ghost below = *self;
                    proof {
                        before.lemma_remove_below(below, i as int, key@);
                    }
                    if self.edges[i].node.is_empty() {
                        self.edges.remove(i);
                        proof {
                            before.lemma_remove_pruned(below, *self, i as int, key@);
                            assert forall|q: Seq<K>| #[trigger]
                                self.reaches(q) <==> before.reaches(q) && leads(self@, q) by {
                                before.lemma_places_remove_pruned(below, *self, i as int, key@, q);
                            }
                        }
                    } else {
                        proof {
                            if self.edges@[i as int].node.vacant() {
                                self.edges@[i as int].node.lemma_vacant_stores_nothing();
                            }
                            assert forall|q: Seq<K>| #[trigger]
                                self.reaches(q) <==> before.reaches(q) && leads(self@, q) by {
                                before.lemma_places_remove_below(*self, i as int, key@, q);
                            }
                        }
                    }
                    ret
                },
                Some((i, PrefixCmp::Partial(_))) => {
                    proof {
                        self.lemma_lookup_hit(key@, i as int);
                        lemma_agree_is_prefix(self.edges@[i as int].prefix@, key@);
                        assert(self@ =~= before@.remove(key@));
                        assert forall|q: Seq<K>| self.reaches(q) implies leads(self@, q) by {
                            self.lemma_node_leads(q);
                        }
                    }
                    None
                },
                None => {
                    proof {
                        self.lemma_lookup_miss(key@);
                        assert(self@ =~= before@.remove(key@));
                        assert forall|q: Seq<K>| self.reaches(q) implies leads(self@, q) by {
                            self.lemma_node_leads(q);
                        }
                    }
                    None
                },
            }
        }
    }
}

} // verus!
