//! Where the nodes of a tree stand, and how insertion and removal move them.

use vstd::prelude::*;
use crate::key::KeyComponent;
use crate::order::{
    is_common_len, leads, lemma_prefix_extend, lemma_prefix_first, lemma_prefix_of_add,
    lemma_prefix_of_prefix, lemma_prefixes_nest, parts_at,
};
use crate::tree::Node;

verus! {

impl<K: KeyComponent, V> Node<K, V> {
    /// One step of the way to a node through the edge that starts as the
    /// path does.
    pub(crate) proof fn lemma_reaches_hit(self, q: Seq<K>, i: int)
        requires
            self.edges_ordered(),
            q.len() > 0,
            self.starts_with(i, q[0]),
        ensures
            self.reaches(q) == {
                &&& self.edges@[i].prefix@.is_prefix_of(q)
                &&& self.edges@[i].node.reaches(q.skip(self.edges@[i].prefix@.len() as int))
            },
    {
        self.lemma_branch_hit(q[0], i);
    }

    /// No node stands where a path ends that no edge starts like.
    pub(crate) proof fn lemma_reaches_miss(self, q: Seq<K>)
        requires
            q.len() > 0,
            forall|i: int| !self.starts_with(i, q[0]),
        ensures
            !self.reaches(q),
    {
    }

    /// The keys that start with `q` lie below the edge that starts as `q`
    /// does: below its node where the edge's prefix leads `q`, and all of
    /// them where `q` ends within the prefix.
    pub(crate) proof fn lemma_leads_hit(self, q: Seq<K>, i: int)
        requires
            self.wf(),
            q.len() > 0,
            self.starts_with(i, q[0]),
        ensures
            leads(self@, q) == if self.edges@[i].prefix@.is_prefix_of(q) {
                leads(self.edges@[i].node@, q.skip(self.edges@[i].prefix@.len() as int))
            } else {
                q.is_prefix_of(self.edges@[i].prefix@)
            },
    {
        let e = self.edges@[i];
        let p = e.prefix@;
        if leads(self@, q) {
            let k = choose|k: Seq<K>| #[trigger] self@.contains_key(k) && q.is_prefix_of(k);
            lemma_prefix_first(q, k);
            self.lemma_lookup_hit(k, i);
            let below = k.skip(p.len() as int);
            assert(e.node@.contains_key(below));
            if p.is_prefix_of(q) {
                lemma_prefix_extend(p, q.skip(p.len() as int), k);
                lemma_prefix_extend(p, Seq::<K>::empty(), q);
            } else {
                lemma_prefixes_nest(q, p, k);
            }
        }
        let some = e.node.lemma_occupied_stores_some();
        if p.is_prefix_of(q) {
            let rest = q.skip(p.len() as int);
            if leads(e.node@, rest) {
                let below = if rest.len() == 0 {
                    some
                } else {
                    choose|k: Seq<K>| #[trigger] e.node@.contains_key(k) && rest.is_prefix_of(k)
                };
                if rest.len() == 0 {
                    assert(rest =~= below.subrange(0, 0));
                }
                let k = p + below;
                lemma_prefix_of_add(p, below);
                lemma_prefix_extend(p, rest, k);
                lemma_prefix_extend(p, Seq::<K>::empty(), q);
                self.lemma_lookup_hit(k, i);
                assert(self@.contains_key(k));
            }
        } else if q.is_prefix_of(p) {
            let k = p + some;
            lemma_prefix_of_add(p, some);
            lemma_prefix_of_prefix(q, p, k);
            self.lemma_lookup_hit(k, i);
            assert(self@.contains_key(k));
        }
    }

    /// No key starts like `q` where no edge does.
    pub(crate) proof fn lemma_leads_miss(self, q: Seq<K>)
        requires
            q.len() > 0,
            forall|i: int| !self.starts_with(i, q[0]),
        ensures
            !leads(self@, q),
    {
        if leads(self@, q) {
            let k = choose|k: Seq<K>| #[trigger] self@.contains_key(k) && q.is_prefix_of(k);
            lemma_prefix_first(q, k);
            self.lemma_lookup_miss(k);
        }
    }

    /// Two nodes with the same edges have the same nodes below them.
    pub(crate) proof fn lemma_places_same_edges(self, after: Self, q: Seq<K>)
        requires
            self.edges_ordered(),
            after.edges@ == self.edges@,
        ensures
            after.reaches(q) == self.reaches(q),
    {
        if q.len() > 0 {
            if exists|j: int| self.starts_with(j, q[0]) {
                let j = choose|j: int| self.starts_with(j, q[0]);
                assert(after.starts_with(j, q[0]));
                self.lemma_reaches_hit(q, j);
                after.lemma_reaches_hit(q, j);
            } else {
                assert forall|j: int| !after.starts_with(j, q[0]) by {
                    assert(!self.starts_with(j, q[0]));
                }
            }
        }
    }

    /// Two nodes that differ in one edge only, whose prefix starts alike in
    /// both, have the same nodes along every path that starts otherwise.
    pub(crate) proof fn lemma_places_replace_edge(self, after: Self, i: int, q: Seq<K>)
        requires
            self.edges_ordered(),
            after.edges_ordered(),
            0 <= i < self.edges@.len(),
            self.same_but(after, i),
            after.edges@[i].prefix@[0] == self.edges@[i].prefix@[0],
            q.len() == 0 || q[0] != self.edges@[i].prefix@[0],
        ensures
            after.reaches(q) == self.reaches(q),
    {
        if q.len() > 0 {
            if exists|j: int| self.starts_with(j, q[0]) {
                let j = choose|j: int| self.starts_with(j, q[0]);
                assert(after.starts_with(j, q[0]));
                self.lemma_reaches_hit(q, j);
                after.lemma_reaches_hit(q, j);
            } else {
                assert forall|j: int| !after.starts_with(j, q[0]) by {
                    if j != i {
                        assert(!self.starts_with(j, q[0]));
                    }
                }
            }
        }
    }

    /// A node and the same node with one more edge have the same nodes along
    /// every path that does not start as the additional edge's prefix does.
    pub(crate) proof fn lemma_places_extra_edge(self, more: Self, pos: int, q: Seq<K>)
        requires
            self.edges_ordered(),
            more.edges_ordered(),
            0 <= pos <= self.edges@.len(),
            more.edges@ =~= self.edges@.insert(pos, more.edges@[pos]),
            q.len() == 0 || q[0] != more.edges@[pos].prefix@[0],
        ensures
            more.reaches(q) == self.reaches(q),
    {
        if q.len() > 0 {
            if exists|j: int| self.starts_with(j, q[0]) {
                let j = choose|j: int| self.starts_with(j, q[0]);
                let up = if j < pos { j } else { j + 1 };
                assert(more.edges@[up] == self.edges@[j]);
                assert(more.starts_with(up, q[0]));
                self.lemma_reaches_hit(q, j);
                more.lemma_reaches_hit(q, up);
            } else {
                assert forall|j: int| !more.starts_with(j, q[0]) by {
                    if 0 <= j < more.edges@.len() && j != pos {
                        let down = if j < pos { j } else { j - 1 };
                        assert(more.edges@[j] == self.edges@[down]);
                        assert(!self.starts_with(down, q[0]));
                    }
                }
            }
        }
    }
}

/// Where nodes stand below the intermediate node of a split edge: at the
/// node itself, where the rest of the key, `ks`, ends, and below the rest of
/// the old prefix, `es`, where they stood below the former child.
pub(crate) open spec fn split_reaches<K: KeyComponent, V>(
    child: Node<K, V>,
    es: Seq<K>,
    ks: Seq<K>,
    q: Seq<K>,
) -> bool {
    ||| q.len() == 0
    ||| q == ks
    ||| (es.is_prefix_of(q) && child.reaches(q.skip(es.len() as int)))
}

/// The nodes below the node that a split leaves under the shortened edge.
/// Edge `m` leads to the former child.
pub(crate) proof fn lemma_split_places<K: KeyComponent, V>(
    n: Node<K, V>,
    m: int,
    child: Node<K, V>,
    es: Seq<K>,
    ks: Seq<K>,
    q: Seq<K>,
)
    requires
        n.edges_ordered(),
        es.len() > 0,
        ks.len() == 0 || ks[0] != es[0],
        n.edges@.len() == if ks.len() == 0 {
            1int
        } else {
            2int
        },
        0 <= m < n.edges@.len(),
        n.edges@[m].prefix@ == es,
        *n.edges@[m].node == child,
        ks.len() > 0 ==> {
            &&& n.edges@[1 - m].prefix@ == ks
            &&& n.edges@[1 - m].node.edges@.len() == 0
        },
    ensures
        n.reaches(q) == split_reaches(child, es, ks, q),
{
    if q.len() == 0 {
    } else if q[0] == es[0] {
        assert(n.starts_with(m, q[0]));
        n.lemma_reaches_hit(q, m);
    } else if ks.len() > 0 && q[0] == ks[0] {
        assert(n.starts_with(1 - m, q[0]));
        n.lemma_reaches_hit(q, 1 - m);
        let leaf = n.edges@[1 - m].node;
        if ks.is_prefix_of(q) {
            lemma_prefix_extend(ks, Seq::<K>::empty(), q);
            let rest = q.skip(ks.len() as int);
            if rest.len() == 0 {
                assert(q =~= ks);
            } else {
                leaf.lemma_reaches_miss(rest);
            }
        } else {
            assert(ks =~= ks.subrange(0, ks.len() as int));
        }
        if es.is_prefix_of(q) {
            lemma_prefix_first(es, q);
        }
    } else {
        assert forall|j: int| !n.starts_with(j, q[0]) by {
            if 0 <= j < n.edges@.len() && j != m {
                assert(j == 1 - m);
            }
        }
        if es.is_prefix_of(q) {
            lemma_prefix_first(es, q);
        }
    }
}

impl<K: KeyComponent, V> Node<K, V> {
    /// Where nodes stand after an insertion that went into the child below
    /// edge `i`, given where they stand below that child.
    pub(crate) proof fn lemma_places_insert_below(self, after: Self, i: int, key: Seq<K>, q: Seq<K>)
        requires
            self.wf(),
            after.edges_ordered(),
            key.len() > 0,
            self.starts_with(i, key[0]),
            self.edges@[i].prefix@.is_prefix_of(key),
            self.same_but(after, i),
            after.edges@[i].prefix == self.edges@[i].prefix,
            forall|x: Seq<K>| #[trigger]
                after.edges@[i].node.reaches(x) <==> {
                    ||| self.edges@[i].node.reaches(x)
                    ||| x == key.skip(self.edges@[i].prefix@.len() as int)
                    ||| parts_at(
                        self.edges@[i].node@,
                        key.skip(self.edges@[i].prefix@.len() as int),
                        x,
                    )
                },
        ensures
            after.reaches(q) <==> self.reaches(q) || q == key || parts_at(self@, key, q),
    {
        let p = self.edges@[i].prefix@;
        let rest = key.skip(p.len() as int);
        let c0 = self.edges@[i].node;
        let c1 = after.edges@[i].node;
        lemma_prefix_extend(p, Seq::<K>::empty(), key);
        if q.len() == 0 {
        } else if q[0] == p[0] {
            assert(after.starts_with(i, q[0]));
            self.lemma_reaches_hit(q, i);
            after.lemma_reaches_hit(q, i);
            if p.is_prefix_of(q) {
                let below = q.skip(p.len() as int);
                lemma_prefix_extend(p, Seq::<K>::empty(), q);
                lemma_prefix_extend(p, below, key);
                assert(c1.reaches(below) <==> c0.reaches(below) || below == rest || parts_at(
                    c0@,
                    rest,
                    below,
                ));
                self.lemma_leads_hit(q, i);
                if q.is_prefix_of(key) && q.len() < key.len() {
                    let t = key.take(q.len() as int + 1);
                    assert(t.is_prefix_of(key)) by {
                        assert(t =~= key.subrange(0, t.len() as int));
                    }
                    lemma_prefixes_nest(p, t, key);
                    assert(t.skip(p.len() as int) =~= rest.take(below.len() as int + 1));
                    self.lemma_leads_hit(t, i);
                }
            } else {
                if q.is_prefix_of(key) && q.len() < key.len() {
                    let t = key.take(q.len() as int + 1);
                    assert(t.is_prefix_of(key)) by {
                        assert(t =~= key.subrange(0, t.len() as int));
                    }
                    if q.len() >= p.len() {
                        lemma_prefixes_nest(p, q, key);
                    }
                    lemma_prefixes_nest(t, p, key);
                    self.lemma_leads_hit(t, i);
                    if p.is_prefix_of(t) {
                        assert(t.skip(p.len() as int).len() == 0);
                    }
                }
            }
        } else {
            self.lemma_places_replace_edge(after, i, q);
            if q.is_prefix_of(key) {
                lemma_prefix_first(q, key);
            }
        }
    }

    /// Where nodes stand after an insertion that split edge `i` after `n`
    /// components, given where they stand below the shortened edge.
    pub(crate) proof fn lemma_places_insert_split(
        self,
        after: Self,
        i: int,
        n: int,
        key: Seq<K>,
        q: Seq<K>,
    )
        requires
            self.wf(),
            after.edges_ordered(),
            key.len() > 0,
            self.starts_with(i, key[0]),
            0 < n < self.edges@[i].prefix@.len(),
            is_common_len(self.edges@[i].prefix@, key, n),
            self.same_but(after, i),
            after.edges@[i].prefix@ == key.take(n),
            forall|x: Seq<K>| #[trigger]
                after.edges@[i].node.reaches(x) == split_reaches(
                    *self.edges@[i].node,
                    self.edges@[i].prefix@.skip(n),
                    key.skip(n),
                    x,
                ),
        ensures
            after.reaches(q) <==> self.reaches(q) || q == key || parts_at(self@, key, q),
    {
        let p = self.edges@[i].prefix@;
        let c = key.take(n);
        let es = p.skip(n);
        let ks = key.skip(n);
        let c0 = self.edges@[i].node;
        let c1 = after.edges@[i].node;
        assert(c =~= p.take(n));
        assert(c + es =~= p);
        assert(c.is_prefix_of(key)) by {
            assert(c =~= key.subrange(0, n));
        }
        assert(c.is_prefix_of(p)) by {
            assert(c =~= p.subrange(0, n));
        }
        if q.len() == 0 {
        } else if q[0] == p[0] {
            assert(after.starts_with(i, q[0]));
            self.lemma_reaches_hit(q, i);
            after.lemma_reaches_hit(q, i);
            self.lemma_leads_hit(q, i);
            if c.is_prefix_of(q) {
                let below = q.skip(n);
                lemma_prefix_extend(c, es, q);
                lemma_prefix_extend(c, ks, key);
                lemma_prefix_extend(c, Seq::<K>::empty(), q);
                assert(c1.reaches(below) == split_reaches(*c0, es, ks, below));
                if p.is_prefix_of(q) {
                    assert(below.skip(es.len() as int) == q.skip(p.len() as int));
                }
                if below.len() == 0 {
                    assert(q =~= c);
                    if ks.len() > 0 {
                        let t = key.take(n + 1);
                        assert(t.is_prefix_of(key)) by {
                            assert(t =~= key.subrange(0, n + 1));
                        }
                        self.lemma_leads_hit(t, i);
                        if p.is_prefix_of(t) {
                            assert(p[n] == t.subrange(0, p.len() as int)[n]);
                        }
                        if t.is_prefix_of(p) {
                            assert(t[n] == p.subrange(0, t.len() as int)[n]);
                        }
                        assert(parts_at(self@, key, q));
                    } else {
                        assert(q =~= key);
                    }
                } else if q.is_prefix_of(key) && q != key {
                    // the path runs on with the key past the place of the split
                    assert(q[n] == key[n]) by {
                        assert(q[n] == key.subrange(0, q.len() as int)[n]);
                    }
                    if p.is_prefix_of(q) {
                        assert(p[n] == q.subrange(0, p.len() as int)[n]);
                    }
                    if q.is_prefix_of(p) {
                        assert(q[n] == p.subrange(0, q.len() as int)[n]);
                    }
                    assert(!leads(self@, q));
                    if es.is_prefix_of(below) {
                        lemma_prefix_first(es, below);
                    }
                    if below == ks {
                        assert(q == key);
                    }
                }
            } else {
                if p.is_prefix_of(q) {
                    lemma_prefix_of_prefix(c, p, q);
                }
                if q.is_prefix_of(key) && q.len() < key.len() {
                    if q.len() >= n {
                        lemma_prefixes_nest(c, q, key);
                    }
                    let t = key.take(q.len() as int + 1);
                    assert(t.is_prefix_of(key)) by {
                        assert(t =~= key.subrange(0, t.len() as int));
                    }
                    lemma_prefixes_nest(t, c, key);
                    lemma_prefix_of_prefix(t, c, p);
                    self.lemma_leads_hit(t, i);
                }
            }
        } else {
            self.lemma_places_replace_edge(after, i, q);
            if q.is_prefix_of(key) {
                lemma_prefix_first(q, key);
            }
        }
    }

    /// Where nodes stand after an insertion that added an edge at `pos`.
    pub(crate) proof fn lemma_places_insert_edge(
        self,
        after: Self,
        pos: int,
        key: Seq<K>,
        q: Seq<K>,
    )
        requires
            self.wf(),
            after.edges_ordered(),
            key.len() > 0,
            forall|i: int| !self.starts_with(i, key[0]),
            0 <= pos <= self.edges@.len(),
            after.edges@ == self.edges@.insert(pos, after.edges@[pos]),
            after.edges@[pos].prefix@ == key,
            after.edges@[pos].node.edges@.len() == 0,
        ensures
            after.reaches(q) <==> self.reaches(q) || q == key || parts_at(self@, key, q),
    {
        let leaf = after.edges@[pos].node;
        if q.len() == 0 {
        } else if q[0] == key[0] {
            assert(after.starts_with(pos, q[0]));
            after.lemma_reaches_hit(q, pos);
            self.lemma_reaches_miss(q);
            self.lemma_leads_miss(q);
            if key.is_prefix_of(q) {
                lemma_prefix_extend(key, Seq::<K>::empty(), q);
                let rest = q.skip(key.len() as int);
                if rest.len() == 0 {
                    assert(q =~= key);
                } else {
                    leaf.lemma_reaches_miss(rest);
                }
            } else {
                assert(key =~= key.subrange(0, key.len() as int));
            }
        } else {
            self.lemma_places_extra_edge(after, pos, q);
            if q.is_prefix_of(key) {
                lemma_prefix_first(q, key);
            }
        }
    }

    /// Where nodes stand after a removal that found nothing to prune: where
    /// they stood and a key is still below them.
    pub(crate) proof fn lemma_places_remove_below(self, after: Self, i: int, key: Seq<K>, q: Seq<K>)
        requires
            self.wf(),
            after.wf(),
            key.len() > 0,
            self.starts_with(i, key[0]),
            self.edges@[i].prefix@.is_prefix_of(key),
            self.same_but(after, i),
            after.edges@[i].prefix == self.edges@[i].prefix,
            after@ == self@.remove(key),
            forall|x: Seq<K>| #[trigger]
                after.edges@[i].node.reaches(x) <==> self.edges@[i].node.reaches(x) && leads(
                    after.edges@[i].node@,
                    x,
                ),
        ensures
            after.reaches(q) <==> self.reaches(q) && leads(after@, q),
    {
        let p = self.edges@[i].prefix@;
        if q.len() == 0 {
        } else if q[0] == p[0] {
            assert(after.starts_with(i, q[0]));
            self.lemma_reaches_hit(q, i);
            after.lemma_reaches_hit(q, i);
            after.lemma_leads_hit(q, i);
        } else {
            self.lemma_places_replace_edge(after, i, q);
            self.lemma_still_leads(after, key, q);
        }
    }

    /// Where nodes stand after a removal that pruned edge `i`.
    pub(crate) proof fn lemma_places_remove_pruned(
        self,
        below: Self,
        after: Self,
        i: int,
        key: Seq<K>,
        q: Seq<K>,
    )
        requires
            self.wf(),
            after.wf(),
            below.edges_ordered(),
            key.len() > 0,
            self.starts_with(i, key[0]),
            self.same_but(below, i),
            below.edges@[i].prefix == self.edges@[i].prefix,
            after.edges@ == below.edges@.remove(i),
            after@ == self@.remove(key),
        ensures
            after.reaches(q) <==> self.reaches(q) && leads(after@, q),
    {
        let p = self.edges@[i].prefix@;
        assert(below.edges@ =~= after.edges@.insert(i, below.edges@[i]));
        if q.len() == 0 {
        } else if q[0] == p[0] {
            assert forall|j: int| !after.starts_with(j, q[0]) by {
                if 0 <= j < after.edges@.len() {
                    let up = if j < i { j } else { j + 1 };
                    assert(after.edges@[j] == below.edges@[up]);
                    K::lemma_irreflexive(p[0]);
                    if up < i {
                        assert(below.edges@[up].prefix@[0].precedes(below.edges@[i].prefix@[0]));
                    } else {
                        assert(below.edges@[i].prefix@[0].precedes(below.edges@[up].prefix@[0]));
                    }
                }
            }
            after.lemma_reaches_miss(q);
            after.lemma_leads_miss(q);
        } else {
            after.lemma_places_extra_edge(below, i, q);
            self.lemma_places_replace_edge(below, i, q);
            self.lemma_still_leads(after, key, q);
        }
    }

    /// A path to a node that does not start as a removed key did still leads
    /// a stored key.
    pub(crate) proof fn lemma_still_leads(self, after: Self, key: Seq<K>, q: Seq<K>)
        requires
            self.wf(),
            after@ == self@.remove(key),
            q.len() > 0,
            key.len() == 0 || q[0] != key[0],
        ensures
            self.reaches(q) ==> leads(after@, q),
    {
        if self.reaches(q) {
            self.lemma_node_leads(q);
            let k = choose|k: Seq<K>| #[trigger] self@.contains_key(k) && q.is_prefix_of(k);
            lemma_prefix_first(q, k);
            assert(after@.contains_key(k));
        }
    }
}

} // verus!
