//! How a change to a node changes what the tree stores: the facts behind
//! insertion and removal.

use vstd::prelude::*;
use crate::key::KeyComponent;
use crate::order::{
    is_common_len, lemma_agree_is_prefix, lemma_prefix_extend, lemma_prefix_first, stored,
};
use crate::tree::Node;

verus! {

/// What the intermediate node of a split edge stores under `k`: the new value
/// under the rest of the key, `ks`, and below the rest of the old prefix,
/// `es`, what the former child stored.
pub(crate) open spec fn split_lookup<K: KeyComponent, V>(
    child: Node<K, V>,
    es: Seq<K>,
    ks: Seq<K>,
    value: V,
    k: Seq<K>,
) -> Option<V> {
    if k == ks {
        Some(value)
    } else if es.is_prefix_of(k) {
        child.lookup(k.skip(es.len() as int))
    } else {
        None
    }
}

/// The node that a split leaves below the shortened edge is well-formed and
/// stores what `split_lookup` says. Edge `m` leads to the former child.
pub(crate) proof fn lemma_split_node<K: KeyComponent, V>(
    n: Node<K, V>,
    m: int,
    child: Node<K, V>,
    es: Seq<K>,
    ks: Seq<K>,
    value: V,
)
    requires
        es.len() > 0,
        ks.len() == 0 || ks[0] != es[0],
        child.wf(),
        !child.vacant(),
        n.value == if ks.len() == 0 {
            Some(value)
        } else {
            None
        },
        n.edges@.len() == if ks.len() == 0 {
            1int
        } else {
            2int
        },
        0 <= m < n.edges@.len(),
        m == 1 <==> ks.len() > 0 && ks[0].precedes(es[0]),
        ks.len() > 0 && m == 0 ==> es[0].precedes(ks[0]),
        n.edges@[m].prefix@ == es,
        *n.edges@[m].node == child,
        ks.len() > 0 ==> {
            &&& n.edges@[1 - m].prefix@ == ks
            &&& n.edges@[1 - m].node.value == Some(value)
            &&& n.edges@[1 - m].node.edges@.len() == 0
        },
    ensures
        n.wf(),
        !n.vacant(),
        forall|k: Seq<K>| #[trigger] n.lookup(k) == split_lookup(child, es, ks, value, k),
{
    assert(n.edges_ordered());
    assert forall|i: int| 0 <= i < n.edges@.len() implies {
        &&& (#[trigger] n.edges@[i]).node.wf()
        &&& !n.edges@[i].node.vacant()
    } by {
        if i != m {
            assert(n.edges@[i].node.edges_ordered());
        }
    }
    assert forall|k: Seq<K>| #[trigger] n.lookup(k) == split_lookup(child, es, ks, value, k) by {
        if k.len() == 0 {
            if ks.len() == 0 {
                assert(k =~= ks);
            }
        } else if k[0] == es[0] {
            assert(n.starts_with(m, k[0]));
            n.lemma_lookup_hit(k, m);
        } else if ks.len() > 0 && k[0] == ks[0] {
            assert(n.starts_with(1 - m, k[0]));
            n.lemma_lookup_hit(k, 1 - m);
            n.edges@[1 - m].node.lemma_leaf_lookup(k.skip(ks.len() as int));
            if ks.is_prefix_of(k) {
                lemma_prefix_extend(ks, Seq::<K>::empty(), k);
                if k.skip(ks.len() as int).len() == 0 {
                    assert(k =~= ks);
                } else {
                    assert(k != ks);
                }
            } else {
                assert(ks.is_prefix_of(ks)) by {
                    assert(ks =~= ks.subrange(0, ks.len() as int));
                }
            }
            if es.is_prefix_of(k) {
                lemma_prefix_first(es, k);
            }
        } else {
            assert forall|j: int| !n.starts_with(j, k[0]) by {
                if 0 <= j < n.edges@.len() && j != m {
                    assert(j == 1 - m);
                }
            }
            n.lemma_lookup_miss(k);
            if es.is_prefix_of(k) {
                lemma_prefix_first(es, k);
            }
        }
    }
}

impl<K: KeyComponent, V> Node<K, V> {
    /// `after` has the edges of `self` but for edge `i`.
    pub(crate) open spec fn same_but(self, after: Self, i: int) -> bool {
        &&& after.edges@.len() == self.edges@.len()
        &&& forall|j: int|
            0 <= j < self.edges@.len() && j != i ==> after.edges@[j] == self.edges@[j]
    }

    /// What a node without edges stores.
    pub(crate) proof fn lemma_leaf_lookup(self, k: Seq<K>)
        requires
            self.edges@.len() == 0,
        ensures
            self.lookup(k) == if k.len() == 0 {
                self.value
            } else {
                None
            },
    {
        if k.len() > 0 {
            self.lemma_lookup_miss(k);
        }
    }

    /// The map view stores what a lookup finds.
    pub(crate) proof fn lemma_view_lookup(self, k: Seq<K>)
        ensures
            self.lookup(k) == stored(self@, k),
    {
    }

    /// Two nodes with the same edges agree on every key but the empty one.
    pub(crate) proof fn lemma_same_edges(self, after: Self, k: Seq<K>)
        requires
            self.edges_ordered(),
            after.edges@ == self.edges@,
            k.len() > 0,
        ensures
            after.lookup(k) == self.lookup(k),
    {
        if exists|j: int| self.starts_with(j, k[0]) {
            let j = choose|j: int| self.starts_with(j, k[0]);
            assert(after.starts_with(j, k[0]));
            self.lemma_lookup_hit(k, j);
            after.lemma_lookup_hit(k, j);
        } else {
            assert forall|j: int| !after.starts_with(j, k[0]) by {
                assert(!self.starts_with(j, k[0]));
            }
            self.lemma_lookup_miss(k);
            after.lemma_lookup_miss(k);
        }
    }

    /// Two nodes that differ in one edge only, whose prefix starts alike in
    /// both, agree on every key that starts otherwise.
    pub(crate) proof fn lemma_replace_edge(self, after: Self, i: int)
        requires
            self.edges_ordered(),
            0 <= i < self.edges@.len(),
            after.value == self.value,
            self.same_but(after, i),
            after.edges@[i].prefix@.len() > 0,
            after.edges@[i].prefix@[0] == self.edges@[i].prefix@[0],
        ensures
            after.edges_ordered(),
            forall|k: Seq<K>|
                k.len() == 0 || k[0] != self.edges@[i].prefix@[0] ==> #[trigger] after.lookup(k)
                    == self.lookup(k),
    {
        assert forall|a: int| 0 <= a < after.edges@.len() implies (#[trigger] after.edges@[
            a
        ]).prefix@.len() > 0 by {
            if a != i {
                assert(self.edges@[a].prefix@.len() > 0);
            }
        }
        assert forall|a: int, b: int|
            0 <= a < b < after.edges@.len() implies (#[trigger] after.edges@[a]).prefix@[0].precedes(
            (#[trigger] after.edges@[b]).prefix@[0],
        ) by {
            assert(self.edges@[a].prefix@[0].precedes(self.edges@[b].prefix@[0]));
        }
        assert forall|k: Seq<K>|
            k.len() == 0 || k[0] != self.edges@[i].prefix@[0] implies #[trigger] after.lookup(k)
                == self.lookup(k) by {
            if k.len() > 0 {
                if exists|j: int| self.starts_with(j, k[0]) {
                    let j = choose|j: int| self.starts_with(j, k[0]);
                    assert(after.starts_with(j, k[0]));
                    self.lemma_lookup_hit(k, j);
                    after.lemma_lookup_hit(k, j);
                } else {
                    assert forall|j: int| !after.starts_with(j, k[0]) by {
                        if j != i {
                            assert(!self.starts_with(j, k[0]));
                        }
                    }
                    self.lemma_lookup_miss(k);
                    after.lemma_lookup_miss(k);
                }
            }
        }
    }

    /// A node and the same node with one more edge agree on every key that
    /// does not start as the additional edge's prefix does.
    pub(crate) proof fn lemma_extra_edge(self, more: Self, pos: int)
        requires
            more.edges_ordered(),
            0 <= pos <= self.edges@.len(),
            more.edges@ =~= self.edges@.insert(pos, more.edges@[pos]),
            more.value == self.value,
        ensures
            self.edges_ordered(),
            forall|j: int| !self.starts_with(j, more.edges@[pos].prefix@[0]),
            forall|k: Seq<K>|
                k.len() == 0 || k[0] != more.edges@[pos].prefix@[0] ==> #[trigger] more.lookup(k)
                    == self.lookup(k),
    {
        let up = |j: int| if j < pos { j } else { j + 1 };
        assert forall|a: int| 0 <= a < self.edges@.len() implies self.edges@[a] == more.edges@[up(
            a,
        )] by {}
        assert forall|a: int| 0 <= a < self.edges@.len() implies (#[trigger] self.edges@[
            a
        ]).prefix@.len() > 0 by {
            assert(more.edges@[up(a)].prefix@.len() > 0);
        }
        assert forall|a: int, b: int|
            0 <= a < b < self.edges@.len() implies (#[trigger] self.edges@[a]).prefix@[0].precedes(
            (#[trigger] self.edges@[b]).prefix@[0],
        ) by {
            assert(more.edges@[up(a)].prefix@[0].precedes(more.edges@[up(b)].prefix@[0]));
        }
        let c = more.edges@[pos].prefix@[0];
        K::lemma_irreflexive(c);
        assert forall|j: int| !self.starts_with(j, c) by {
            if 0 <= j < self.edges@.len() {
                if up(j) < pos {
                    assert(more.edges@[up(j)].prefix@[0].precedes(more.edges@[pos].prefix@[0]));
                } else {
                    assert(more.edges@[pos].prefix@[0].precedes(more.edges@[up(j)].prefix@[0]));
                }
            }
        }
        assert forall|k: Seq<K>| k.len() == 0 || k[0] != c implies #[trigger] more.lookup(k)
            == self.lookup(k) by {
            if k.len() > 0 {
                if exists|j: int| self.starts_with(j, k[0]) {
                    let j = choose|j: int| self.starts_with(j, k[0]);
                    assert(more.starts_with(up(j), k[0]));
                    self.lemma_lookup_hit(k, j);
                    more.lemma_lookup_hit(k, up(j));
                } else {
                    assert forall|j: int| !more.starts_with(j, k[0]) by {
                        if 0 <= j < more.edges@.len() && j != pos {
                            let d = if j < pos { j } else { j - 1 };
                            assert(more.edges@[j] == self.edges@[d]);
                            assert(!self.starts_with(d, k[0]));
                        }
                    }
                    self.lemma_lookup_miss(k);
                    more.lemma_lookup_miss(k);
                }
            }
        }
    }

    /// The effect of an insertion that went into the child below edge `i`.
    pub(crate) proof fn lemma_insert_below(self, after: Self, i: int, key: Seq<K>, value: V)
        requires
            self.wf(),
            key.len() > 0,
            self.starts_with(i, key[0]),
            self.edges@[i].prefix@.is_prefix_of(key),
            after.value == self.value,
            self.same_but(after, i),
            after.edges@[i].prefix == self.edges@[i].prefix,
            after.edges@[i].node.wf(),
            after.edges@[i].node@ == self.edges@[i].node@.insert(
                key.skip(self.edges@[i].prefix@.len() as int),
                value,
            ),
        ensures
            after.wf(),
            after@ == self@.insert(key, value),
            self.lookup(key) == stored(
                self.edges@[i].node@,
                key.skip(self.edges@[i].prefix@.len() as int),
            ),
    {
        let p = self.edges@[i].prefix@;
        let rest = key.skip(p.len() as int);
        let c0 = self.edges@[i].node;
        let c1 = after.edges@[i].node;
        self.lemma_replace_edge(after, i);
        assert(c1@.contains_key(rest));
        if c1.vacant() {
            c1.lemma_vacant_stores_nothing();
        }
        assert forall|j: int| 0 <= j < after.edges@.len() implies {
            &&& (#[trigger] after.edges@[j]).node.wf()
            &&& !after.edges@[j].node.vacant()
        } by {
            if j != i {
                assert(self.edges@[j].node.wf());
            }
        }
        self.lemma_lookup_hit(key, i);
        assert forall|k: Seq<K>| #[trigger] after.lookup(k) == if k == key {
            Some(value)
        } else {
            self.lookup(k)
        } by {
            if k.len() > 0 && k[0] == p[0] {
                assert(after.starts_with(i, k[0]));
                self.lemma_lookup_hit(k, i);
                after.lemma_lookup_hit(k, i);
                if p.is_prefix_of(k) {
                    let kr = k.skip(p.len() as int);
                    c0.lemma_view_lookup(kr);
                    c1.lemma_view_lookup(kr);
                    lemma_prefix_extend(p, Seq::<K>::empty(), k);
                    lemma_prefix_extend(p, Seq::<K>::empty(), key);
                }
            } else if k.len() > 0 {
                assert(k != key);
            } else {
                assert(k != key);
            }
        }
        assert(after@ =~= self@.insert(key, value));
    }

    /// The effect of an insertion that split edge `i` after `n` components.
    pub(crate) proof fn lemma_insert_split(self, after: Self, i: int, n: int, key: Seq<K>, value: V)
        requires
            self.wf(),
            key.len() > 0,
            self.starts_with(i, key[0]),
            0 < n < self.edges@[i].prefix@.len(),
            is_common_len(self.edges@[i].prefix@, key, n),
            after.value == self.value,
            self.same_but(after, i),
            after.edges@[i].prefix@ == key.take(n),
            after.edges@[i].node.wf(),
            !after.edges@[i].node.vacant(),
            forall|k: Seq<K>| #[trigger]
                after.edges@[i].node.lookup(k) == split_lookup(
                    *self.edges@[i].node,
                    self.edges@[i].prefix@.skip(n),
                    key.skip(n),
                    value,
                    k,
                ),
        ensures
            after.wf(),
            after@ == self@.insert(key, value),
            self.lookup(key).is_none(),
    {
        let p = self.edges@[i].prefix@;
        let c = key.take(n);
        let es = p.skip(n);
        let ks = key.skip(n);
        let c0 = self.edges@[i].node;
        let c1 = after.edges@[i].node;
        assert(c[0] == key[0]);
        self.lemma_replace_edge(after, i);
        assert forall|j: int| 0 <= j < after.edges@.len() implies {
            &&& (#[trigger] after.edges@[j]).node.wf()
            &&& !after.edges@[j].node.vacant()
        } by {
            if j != i {
                assert(self.edges@[j].node.wf());
            }
        }
        assert(c =~= p.take(n));
        assert(c + es =~= p);
        assert(c.is_prefix_of(key)) by {
            assert(c =~= key.subrange(0, c.len() as int));
        }
        assert forall|k: Seq<K>| #[trigger] after.lookup(k) == if k == key {
            Some(value)
        } else {
            self.lookup(k)
        } by {
            if k.len() > 0 && k[0] == p[0] {
                assert(after.starts_with(i, k[0]));
                self.lemma_lookup_hit(k, i);
                after.lemma_lookup_hit(k, i);
                if c.is_prefix_of(k) {
                    let kr = k.skip(n);
                    lemma_prefix_extend(c, es, k);
                    lemma_prefix_extend(c, ks, key);
                    assert(after.lookup(k) == split_lookup(*c0, es, ks, value, kr));
                    if kr == ks {
                        assert(k == key);
                        if es.is_prefix_of(ks) {
                            lemma_prefix_first(es, ks);
                            assert(es[0] == p[n]);
                            assert(ks[0] == key[n]);
                        }
                    } else {
                        assert(k != key);
                    }
                    if p.is_prefix_of(k) {
                        assert(kr.skip(es.len() as int) == k.skip(p.len() as int));
                    }
                } else {
                    if p.is_prefix_of(k) {
                        assert(c =~= k.subrange(0, c.len() as int)) by {
                            assert forall|a: int| 0 <= a < c.len() implies c[a] == k[a] by {
                                assert(p[a] == k.subrange(0, p.len() as int)[a]);
                            }
                        }
                    }
                    assert(k != key);
                }
            } else if k.len() > 0 {
                assert(k != key);
            } else {
                assert(k != key);
            }
        }
        assert(after@ =~= self@.insert(key, value));
        self.lemma_lookup_hit(key, i);
        lemma_agree_is_prefix(p, key);
    }

    /// The effect of an insertion that added an edge at `pos`.
    pub(crate) proof fn lemma_insert_edge(self, after: Self, pos: int, key: Seq<K>, value: V)
        requires
            self.wf(),
            key.len() > 0,
            forall|i: int| !self.starts_with(i, key[0]),
            0 <= pos <= self.edges@.len(),
            forall|i: int| 0 <= i < pos ==> (#[trigger] self.edges@[i]).prefix@[0].precedes(key[0]),
            forall|i: int|
                pos <= i < self.edges@.len() ==> key[0].precedes(
                    (#[trigger] self.edges@[i]).prefix@[0],
                ),
            after.value == self.value,
            after.edges@.len() == self.edges@.len() + 1,
            after.edges@ == self.edges@.insert(pos, after.edges@[pos]),
            after.edges@[pos].prefix@ == key,
            after.edges@[pos].node.value == Some(value),
            after.edges@[pos].node.edges@.len() == 0,
        ensures
            after.wf(),
            after@ == self@.insert(key, value),
            self.lookup(key).is_none(),
    {
        let leaf = after.edges@[pos].node;
        let down = |j: int| if j < pos { j } else { j - 1 };
        assert forall|a: int| 0 <= a < after.edges@.len() && a != pos implies after.edges@[a]
            == self.edges@[down(a)] by {}
        assert forall|a: int| 0 <= a < after.edges@.len() implies (#[trigger] after.edges@[
            a
        ]).prefix@.len() > 0 by {
            if a != pos {
                assert(self.edges@[down(a)].prefix@.len() > 0);
            }
        }
        assert forall|a: int, b: int|
            0 <= a < b < after.edges@.len() implies (#[trigger] after.edges@[a]).prefix@[0].precedes(
            (#[trigger] after.edges@[b]).prefix@[0],
        ) by {
            if a == pos {
                assert(key[0].precedes(self.edges@[down(b)].prefix@[0]));
            } else if b == pos {
                assert(self.edges@[down(a)].prefix@[0].precedes(key[0]));
            } else {
                assert(self.edges@[down(a)].prefix@[0].precedes(self.edges@[down(b)].prefix@[0]));
            }
        }
        assert(leaf.edges_ordered());
        assert forall|j: int| 0 <= j < after.edges@.len() implies {
            &&& (#[trigger] after.edges@[j]).node.wf()
            &&& !after.edges@[j].node.vacant()
        } by {
            if j != pos {
                assert(self.edges@[down(j)].node.wf());
            }
        }
        self.lemma_extra_edge(after, pos);
        self.lemma_lookup_miss(key);
        assert forall|k: Seq<K>| #[trigger] after.lookup(k) == if k == key {
            Some(value)
        } else {
            self.lookup(k)
        } by {
            if k.len() > 0 && k[0] == key[0] {
                assert(after.starts_with(pos, k[0]));
                after.lemma_lookup_hit(k, pos);
                self.lemma_lookup_miss(k);
                leaf.lemma_leaf_lookup(k.skip(key.len() as int));
                if key.is_prefix_of(k) {
                    lemma_prefix_extend(key, Seq::<K>::empty(), k);
                    if k.skip(key.len() as int).len() == 0 {
                        assert(k =~= key);
                    } else {
                        assert(k != key);
                    }
                } else {
                    assert(key.is_prefix_of(key)) by {
                        assert(key =~= key.subrange(0, key.len() as int));
                    }
                }
            } else {
                assert(k != key);
            }
        }
        assert(after@ =~= self@.insert(key, value));
    }

    /// The effect of a removal that went into the child below edge `i`, before
    /// the edge is looked at: all is in order but that the child may be vacant.
    pub(crate) proof fn lemma_remove_below(self, after: Self, i: int, key: Seq<K>)
        requires
            self.wf(),
            key.len() > 0,
            self.starts_with(i, key[0]),
            self.edges@[i].prefix@.is_prefix_of(key),
            after.value == self.value,
            self.same_but(after, i),
            after.edges@[i].prefix == self.edges@[i].prefix,
            after.edges@[i].node.wf(),
            after.edges@[i].node@ == self.edges@[i].node@.remove(
                key.skip(self.edges@[i].prefix@.len() as int),
            ),
        ensures
            after.edges_ordered(),
            forall|j: int|
                0 <= j < after.edges@.len() ==> (#[trigger] after.edges@[j]).node.wf() && (j != i
                    ==> !after.edges@[j].node.vacant()),
            after@ == self@.remove(key),
            self.lookup(key) == stored(
                self.edges@[i].node@,
                key.skip(self.edges@[i].prefix@.len() as int),
            ),
    {
        let p = self.edges@[i].prefix@;
        let c0 = self.edges@[i].node;
        let c1 = after.edges@[i].node;
        self.lemma_replace_edge(after, i);
        assert forall|j: int| 0 <= j < after.edges@.len() implies (#[trigger] after.edges@[
            j
        ]).node.wf() && (j != i ==> !after.edges@[j].node.vacant()) by {
            if j != i {
                assert(self.edges@[j].node.wf());
            }
        }
        self.lemma_lookup_hit(key, i);
        assert forall|k: Seq<K>| #[trigger] after.lookup(k) == if k == key {
            None
        } else {
            self.lookup(k)
        } by {
            if k.len() > 0 && k[0] == p[0] {
                assert(after.starts_with(i, k[0]));
                self.lemma_lookup_hit(k, i);
                after.lemma_lookup_hit(k, i);
                if p.is_prefix_of(k) {
                    let kr = k.skip(p.len() as int);
                    c0.lemma_view_lookup(kr);
                    c1.lemma_view_lookup(kr);
                    lemma_prefix_extend(p, Seq::<K>::empty(), k);
                    lemma_prefix_extend(p, Seq::<K>::empty(), key);
                }
            } else if k.len() > 0 {
                assert(k != key);
            } else {
                assert(k != key);
            }
        }
        assert(after@ =~= self@.remove(key));
    }

    /// Taking away edge `i`, whose node a removal has left vacant, changes
    /// nothing of what is stored.
    pub(crate) proof fn lemma_remove_pruned(self, below: Self, after: Self, i: int, key: Seq<K>)
        requires
            below.edges_ordered(),
            0 <= i < below.edges@.len(),
            forall|j: int|
                0 <= j < below.edges@.len() ==> (#[trigger] below.edges@[j]).node.wf() && (j != i
                    ==> !below.edges@[j].node.vacant()),
            below.edges@[i].node@ == Map::<Seq<K>, V>::empty(),
            after.value == below.value,
            after.edges@ == below.edges@.remove(i),
        ensures
            after.wf(),
            after@ == below@,
    {
        assert(below.edges@ =~= after.edges@.insert(i, below.edges@[i]));
        after.lemma_extra_edge(below, i);
        let up = |j: int| if j < i { j } else { j + 1 };
        assert forall|j: int| 0 <= j < after.edges@.len() implies {
            &&& (#[trigger] after.edges@[j]).node.wf()
            &&& !after.edges@[j].node.vacant()
        } by {
            assert(after.edges@[j] == below.edges@[up(j)]);
        }
        let p = below.edges@[i].prefix@;
        assert forall|k: Seq<K>| #[trigger] after.lookup(k) == below.lookup(k) by {
            if k.len() > 0 && k[0] == p[0] {
                assert(below.starts_with(i, k[0]));
                below.lemma_lookup_hit(k, i);
                after.lemma_lookup_miss(k);
                if p.is_prefix_of(k) {
                    below.edges@[i].node.lemma_view_lookup(k.skip(p.len() as int));
                }
            }
        }
        assert(after@ =~= below@);
    }
}

} // verus!
