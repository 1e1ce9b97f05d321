//! Facts about the entries of a walk: which they are, how they are ordered,
//! and which of them a prefix picks.

use vstd::prelude::*;
use vstd::seq_lib::lemma_seq_concat_contains_all_elements;
use crate::key::KeyComponent;
use crate::order::{
    ascending, leads, lemma_lex_lt_by_first, lemma_lex_lt_prepend, lemma_prefix_extend,
    lemma_prefix_first, lex_lt, starts, with_prefix,
};
use crate::tree::Node;

verus! {

/// `with_prefix(p, s)` holds an entry exactly when its key starts with `p` and
/// `s` holds what is left of it.
pub(crate) proof fn lemma_with_prefix_contains<K, V>(
    p: Seq<K>,
    s: Seq<(Seq<K>, V)>,
    k: Seq<K>,
    v: V,
)
    ensures
        with_prefix(p, s).contains((k, v)) <==> p.is_prefix_of(k) && s.contains(
            (k.skip(p.len() as int), v),
        ),
{
    let t = with_prefix(p, s);
    if t.contains((k, v)) {
        let i = choose|i: int| 0 <= i < t.len() && t[i] == (k, v);
        assert(k == p + s[i].0);
        assert(p =~= k.subrange(0, p.len() as int));
        assert(k.skip(p.len() as int) =~= s[i].0);
        assert(s[i] == (k.skip(p.len() as int), v));
    }
    if p.is_prefix_of(k) && s.contains((k.skip(p.len() as int), v)) {
        let i = choose|i: int| 0 <= i < s.len() && s[i] == (k.skip(p.len() as int), v);
        lemma_prefix_extend(p, Seq::<K>::empty(), k);
        assert(t[i] == (k, v));
    }
}

/// Two ascending sequences in a row ascend where all of the first comes
/// before all of the second.
pub(crate) proof fn lemma_ascending_add<K: KeyComponent, V>(
    a: Seq<(Seq<K>, V)>,
    b: Seq<(Seq<K>, V)>,
)
    requires
        ascending(a),
        ascending(b),
        forall|i: int, j: int|
            0 <= i < a.len() && 0 <= j < b.len() ==> lex_lt(#[trigger] a[i].0, #[trigger] b[j].0),
    ensures
        ascending(a + b),
{
    let s = a + b;
    assert forall|i: int, j: int| 0 <= i < j < s.len() implies lex_lt(
        #[trigger] s[i].0,
        #[trigger] s[j].0,
    ) by {
        if j < a.len() {
            assert(lex_lt(a[i].0, a[j].0));
        } else if i < a.len() {
            assert(lex_lt(a[i].0, b[j - a.len()].0));
        } else {
            assert(lex_lt(b[i - a.len()].0, b[j - a.len()].0));
        }
    }
}

/// Putting `p` in front of each key keeps a sequence ascending.
pub(crate) proof fn lemma_ascending_with_prefix<K: KeyComponent, V>(p: Seq<K>, s: Seq<(Seq<K>, V)>)
    requires
        ascending(s),
    ensures
        ascending(with_prefix(p, s)),
{
    let t = with_prefix(p, s);
    assert forall|i: int, j: int| 0 <= i < j < t.len() implies lex_lt(
        #[trigger] t[i].0,
        #[trigger] t[j].0,
    ) by {
        assert(lex_lt(s[i].0, s[j].0));
        lemma_lex_lt_prepend(p, s[i].0, s[j].0);
    }
}

/// A test that no entry passes picks nothing.
pub(crate) proof fn lemma_filter_none<A>(s: Seq<A>, pred: spec_fn(A) -> bool)
    requires
        forall|i: int| 0 <= i < s.len() ==> !pred(#[trigger] s[i]),
    ensures
        s.filter(pred) == Seq::<A>::empty(),
    decreases s.len(),
{
    reveal(Seq::filter);
    if s.len() > 0 {
        assert forall|i: int| 0 <= i < s.drop_last().len() implies !pred(
            #[trigger] s.drop_last()[i],
        ) by {
            assert(s.drop_last()[i] == s[i]);
        }
        lemma_filter_none(s.drop_last(), pred);
        assert(!pred(s[s.len() - 1]));
    } else {
        assert(s.filter(pred) =~= Seq::<A>::empty());
    }
}

/// A test that every entry passes picks everything.
pub(crate) proof fn lemma_filter_all<A>(s: Seq<A>, pred: spec_fn(A) -> bool)
    requires
        forall|i: int| 0 <= i < s.len() ==> pred(#[trigger] s[i]),
    ensures
        s.filter(pred) == s,
    decreases s.len(),
{
    reveal(Seq::filter);
    if s.len() > 0 {
        assert forall|i: int| 0 <= i < s.drop_last().len() implies pred(
            #[trigger] s.drop_last()[i],
        ) by {
            assert(s.drop_last()[i] == s[i]);
        }
        lemma_filter_all(s.drop_last(), pred);
        assert(pred(s[s.len() - 1]));
        assert(s.drop_last().push(s.last()) =~= s);
    }
}

/// Among keys that all start with `q`, those that start with `q + p` are
/// those whose rest starts with `p`.
pub(crate) proof fn lemma_filter_with_prefix<K, V>(q: Seq<K>, p: Seq<K>, s: Seq<(Seq<K>, V)>)
    ensures
        with_prefix(q, s).filter(starts(q + p)) == with_prefix(q, s.filter(starts(p))),
    decreases s.len(),
{
    reveal(Seq::filter);
    let t = with_prefix(q, s);
    if s.len() == 0 {
        assert(t.filter(starts(q + p)) =~= with_prefix(q, s.filter(starts(p))));
    } else {
        let x = s.last();
        let key = q + x.0;
        assert(t.drop_last() =~= with_prefix(q, s.drop_last()));
        assert(t.last() == (key, x.1));
        lemma_filter_with_prefix(q, p, s.drop_last());
        assert(q.is_prefix_of(key)) by {
            assert(q =~= key.subrange(0, q.len() as int));
        }
        lemma_prefix_extend(q, p, key);
        assert(key.skip(q.len() as int) =~= x.0);
        let kept = s.drop_last().filter(starts(p));
        if p.is_prefix_of(x.0) {
            assert(with_prefix(q, kept.push(x)) =~= with_prefix(q, kept).push((key, x.1)));
        }
    }
}

/// What a test picks from an ascending sequence ascends.
pub(crate) proof fn lemma_filter_ascending<K: KeyComponent, V>(
    s: Seq<(Seq<K>, V)>,
    pred: spec_fn((Seq<K>, V)) -> bool,
)
    requires
        ascending(s),
    ensures
        ascending(s.filter(pred)),
    decreases s.len(),
{
    reveal(Seq::filter);
    if s.len() > 0 {
        let front = s.drop_last();
        assert forall|i: int, j: int| 0 <= i < j < front.len() implies lex_lt(
            #[trigger] front[i].0,
            #[trigger] front[j].0,
        ) by {
            assert(lex_lt(s[i].0, s[j].0));
        }
        lemma_filter_ascending(front, pred);
        let kept = front.filter(pred);
        if pred(s.last()) {
            let all = kept.push(s.last());
            assert forall|i: int, j: int| 0 <= i < j < all.len() implies lex_lt(
                #[trigger] all[i].0,
                #[trigger] all[j].0,
            ) by {
                if j < kept.len() {
                    assert(lex_lt(kept[i].0, kept[j].0));
                } else {
                    assert(kept.contains(kept[i]));
                    front.lemma_filter_contains_rev(pred, kept[i]);
                    let a = choose|a: int| 0 <= a < front.len() && front[a] == kept[i];
                    assert(lex_lt(s[a].0, s[s.len() - 1].0));
                }
            }
        }
    }
}

/// What a test picks from a sequence are the entries of the sequence that
/// pass it.
pub(crate) proof fn lemma_filter_holds<A>(s: Seq<A>, pred: spec_fn(A) -> bool, x: A)
    ensures
        s.filter(pred).contains(x) <==> s.contains(x) && pred(x),
{
    if s.filter(pred).contains(x) {
        s.lemma_filter_contains_rev(pred, x);
        let i = choose|i: int| 0 <= i < s.filter(pred).len() && s.filter(pred)[i] == x;
        s.lemma_filter_pred(pred, i);
    }
    if s.contains(x) && pred(x) {
        let i = choose|i: int| 0 <= i < s.len() && s[i] == x;
        s.lemma_filter_contains(pred, i);
    }
}

impl<K: KeyComponent, V> Node<K, V> {
    /// The entries below the edges from `j` on are those that some such edge
    /// leads to.
    pub(crate) proof fn lemma_entries_from_contains(self, j: int, k: Seq<K>, v: V)
        requires
            0 <= j <= self.edges@.len(),
        ensures
            self.entries_from(j).contains((k, v)) <==> exists|i: int|
                j <= i < self.edges@.len() && self.leads_to(i, k, v),
        decreases self.edges@.len() - j,
    {
        if j < self.edges@.len() {
            let e = self.edges@[j];
            let here = with_prefix(e.prefix@, e.node.entries());
            self.lemma_entries_from_contains(j + 1, k, v);
            lemma_seq_concat_contains_all_elements(here, self.entries_from(j + 1), (k, v));
            lemma_with_prefix_contains(e.prefix@, e.node.entries(), k, v);
            if self.entries_from(j).contains((k, v)) {
                if here.contains((k, v)) {
                    assert(self.leads_to(j, k, v));
                } else {
                    let i = choose|i: int| j + 1 <= i < self.edges@.len() && self.leads_to(i, k, v);
                    assert(self.leads_to(i, k, v));
                }
            }
            if exists|i: int| j <= i < self.edges@.len() && self.leads_to(i, k, v) {
                let i = choose|i: int| j <= i < self.edges@.len() && self.leads_to(i, k, v);
                if i > j {
                    assert(j + 1 <= i < self.edges@.len() && self.leads_to(i, k, v));
                }
            }
        }
    }

    /// The prefix of edge `i` leads `k`, and the entries of the edge's node
    /// hold `v` under the rest of `k`.
    pub(crate) open spec fn leads_to(self, i: int, k: Seq<K>, v: V) -> bool {
        &&& 0 <= i < self.edges@.len()
        &&& self.edges@[i].prefix@.is_prefix_of(k)
        &&& self.edges@[i].node.entries().contains((k.skip(self.edges@[i].prefix@.len() as int), v))
    }

    /// The entries hold a key with a value exactly when a lookup of the key
    /// finds the value.
    pub(crate) proof fn lemma_entries_lookup(self, k: Seq<K>, v: V)
        requires
            self.wf(),
        ensures
            self.entries().contains((k, v)) <==> self.lookup(k) == Some(v),
        decreases self,
    {
        let own = match self.value {
            Some(x) => seq![(Seq::<K>::empty(), x)],
            None => Seq::empty(),
        };
        lemma_seq_concat_contains_all_elements(own, self.entries_from(0), (k, v));
        self.lemma_entries_from_contains(0, k, v);
        if self.entries().contains((k, v)) {
            if own.contains((k, v)) {
                assert(own[0] == (k, v));
            } else {
                let i = choose|i: int| 0 <= i < self.edges@.len() && self.leads_to(i, k, v);
                let e = self.edges@[i];
                lemma_prefix_first(e.prefix@, k);
                self.lemma_lookup_hit(k, i);
                e.node.lemma_entries_lookup(k.skip(e.prefix@.len() as int), v);
            }
        }
        if self.lookup(k) == Some(v) {
            if k.len() == 0 {
                assert(k =~= Seq::<K>::empty());
                assert(own[0] == (k, v));
            } else {
                let i = self.branch(k[0]).unwrap();
                let e = self.edges@[i];
                e.node.lemma_entries_lookup(k.skip(e.prefix@.len() as int), v);
                assert(self.leads_to(i, k, v));
            }
        }
    }

    /// The entries below the edges from `j` on ascend, and each of their keys
    /// starts as the prefix of one of these edges does.
    pub(crate) proof fn lemma_entries_from_ascending(self, j: int)
        requires
            self.wf(),
            0 <= j <= self.edges@.len(),
        ensures
            ascending(self.entries_from(j)),
            forall|a: int|
                0 <= a < self.entries_from(j).len() ==> self.under(
                    j,
                    (#[trigger] self.entries_from(j)[a]).0,
                ),
        decreases self, self.fanout() - j,
    {
        if j < self.edges@.len() {
            let e = self.edges@[j];
            let here = with_prefix(e.prefix@, e.node.entries());
            let rest = self.entries_from(j + 1);
            e.node.lemma_entries_ascending();
            lemma_ascending_with_prefix(e.prefix@, e.node.entries());
            self.lemma_entries_from_ascending(j + 1);
            assert forall|a: int| 0 <= a < here.len() implies self.starts_with(
                j,
                (#[trigger] here[a]).0[0],
            ) && here[a].0.len() > 0 by {
                assert(here[a].0 == e.prefix@ + e.node.entries()[a].0);
            }
            assert forall|a: int, b: int| 0 <= a < here.len() && 0 <= b < rest.len() implies lex_lt(
                #[trigger] here[a].0,
                #[trigger] rest[b].0,
            ) by {
                assert(self.starts_with(j, here[a].0[0]));
                assert(self.under(j + 1, rest[b].0));
                let key = rest[b].0;
                let i = choose|i: int| j + 1 <= i && #[trigger] self.starts_with(i, key[0]);
                assert(self.edges@[j].prefix@[0].precedes(self.edges@[i].prefix@[0]));
                lemma_lex_lt_by_first(here[a].0, rest[b].0);
            }
            lemma_ascending_add(here, rest);
            let all = self.entries_from(j);
            assert forall|a: int| 0 <= a < all.len() implies self.under(
                j,
                (#[trigger] all[a]).0,
            ) by {
                if a < here.len() {
                    assert(self.starts_with(j, here[a].0[0]));
                } else {
                    let key = rest[a - here.len()].0;
                    assert(self.under(j + 1, key));
                    let i = choose|i: int| j + 1 <= i && #[trigger] self.starts_with(i, key[0]);
                    assert(j <= i && self.starts_with(i, all[a].0[0]));
                }
            }
        }
    }

    /// The key `k` is not empty and starts as the prefix of an edge from `j`
    /// on does.
    pub(crate) open spec fn under(self, j: int, k: Seq<K>) -> bool {
        k.len() > 0 && exists|i: int| j <= i && #[trigger] self.starts_with(i, k[0])
    }

    /// The prefix `p` ends within an edge: on the way down, what is left of
    /// `p` is a proper leading part of an edge's prefix. No node stands where
    /// `p` ends, though keys that start with `p` lie below that edge.
    pub(crate) open spec fn splits_edge(self, p: Seq<K>) -> bool
        decreases self,
    {
        if p.len() == 0 {
            false
        } else {
            match self.branch(p[0]) {
                Some(i) => {
                    let e = self.edges@[i];
                    if 0 <= i < self.edges@.len() && e.prefix@.is_prefix_of(p) {
                        e.node.splits_edge(p.skip(e.prefix@.len() as int))
                    } else {
                        p.is_prefix_of(e.prefix@)
                    }
                },
                None => false,
            }
        }
    }

    /// Of the entries below the edges from `j` on, those whose keys start
    /// with `p` are what the search for `p` yields, if the edge that starts as
    /// `p` does is among these edges.
    pub(crate) proof fn lemma_entries_from_filter(self, j: int, p: Seq<K>)
        requires
            self.wf(),
            0 <= j <= self.edges@.len(),
            p.len() > 0,
            !self.splits_edge(p),
        ensures
            self.entries_from(j).filter(starts(p)) == if self.branch(p[0]) is Some
                && self.branch(p[0]).unwrap() >= j {
                self.matches(p)
            } else {
                Seq::empty()
            },
        decreases self, self.fanout() - j,
    {
        if j < self.edges@.len() {
            let e = self.edges@[j];
            let here = with_prefix(e.prefix@, e.node.entries());
            let rest = self.entries_from(j + 1);
            Seq::filter_distributes_over_add(here, rest, starts(p));
            self.lemma_entries_from_filter(j + 1, p);
            if self.starts_with(j, p[0]) {
                self.lemma_branch_hit(p[0], j);
                if e.prefix@.is_prefix_of(p) {
                    let below = p.skip(e.prefix@.len() as int);
                    lemma_prefix_extend(e.prefix@, Seq::<K>::empty(), p);
                    assert(e.prefix@ + below == p);
                    lemma_filter_with_prefix(e.prefix@, below, e.node.entries());
                    e.node.lemma_matches_filter(below);
                } else {
                    assert forall|a: int| 0 <= a < here.len() implies !starts::<K, V>(p)(
                        #[trigger] here[a],
                    ) by {
                        let key = e.prefix@ + e.node.entries()[a].0;
                        assert(here[a].0 == key);
                        if p.is_prefix_of(key) {
                            if p.len() <= e.prefix@.len() {
                                assert(p =~= e.prefix@.subrange(0, p.len() as int)) by {
                                    assert forall|b: int| 0 <= b < p.len() implies p[b]
                                        == e.prefix@[b] by {
                                        assert(p[b] == key.subrange(0, p.len() as int)[b]);
                                    }
                                }
                            } else {
                                assert(e.prefix@ =~= p.subrange(0, e.prefix@.len() as int)) by {
                                    assert forall|b: int| 0 <= b < e.prefix@.len() implies p[b]
                                        == e.prefix@[b] by {
                                        assert(p[b] == key.subrange(0, p.len() as int)[b]);
                                    }
                                }
                            }
                        }
                    }
                    lemma_filter_none(here, starts(p));
                }
                assert(here.filter(starts(p)) + Seq::<(Seq<K>, V)>::empty() =~= here.filter(
                    starts(p),
                ));
            } else {
                assert forall|a: int| 0 <= a < here.len() implies !starts::<K, V>(p)(
                    #[trigger] here[a],
                ) by {
                    let key = e.prefix@ + e.node.entries()[a].0;
                    assert(here[a].0 == key);
                    if p.is_prefix_of(key) {
                        lemma_prefix_first(p, key);
                    }
                }
                lemma_filter_none(here, starts(p));
                assert(Seq::<(Seq<K>, V)>::empty() + rest.filter(starts(p)) =~= rest.filter(
                    starts(p),
                ));
                if self.branch(p[0]) is Some {
                    assert(self.starts_with(self.branch(p[0]).unwrap(), p[0]));
                }
            }
        } else {
            lemma_filter_none(self.entries_from(j), starts(p));
            if self.branch(p[0]) is Some {
                assert(self.starts_with(self.branch(p[0]).unwrap(), p[0]));
            }
        }
    }

    /// Going down along a prefix that does not end within an edge leads to
    /// the entries of the whole walk whose keys start with the prefix, in the
    /// order of the walk, and to no others.
    pub(crate) proof fn lemma_matches_filter(self, p: Seq<K>)
        requires
            self.wf(),
            !self.splits_edge(p),
        ensures
            self.matches(p) == self.entries().filter(starts(p)),
        decreases self, self.fanout() + 1,
    {
        if p.len() == 0 {
            assert forall|i: int| 0 <= i < self.entries().len() implies starts::<K, V>(p)(
                #[trigger] self.entries()[i],
            ) by {
                assert(p =~= self.entries()[i].0.subrange(0, 0));
            }
            lemma_filter_all(self.entries(), starts(p));
        } else {
            let own = match self.value {
                Some(x) => seq![(Seq::<K>::empty(), x)],
                None => Seq::empty(),
            };
            let rest = self.entries_from(0);
            Seq::filter_distributes_over_add(own, rest, starts(p));
            lemma_filter_none(own, starts(p));
            self.lemma_entries_from_filter(0, p);
            assert(Seq::<(Seq<K>, V)>::empty() + rest.filter(starts(p)) =~= rest.filter(
                starts(p),
            ));
            if self.branch(p[0]) is Some {
                assert(self.starts_with(self.branch(p[0]).unwrap(), p[0]));
            }
        }
    }

    /// Some stored key starts with a prefix that ends within an edge.
    pub(crate) proof fn lemma_key_below(self, p: Seq<K>) -> (k: Seq<K>)
        requires
            self.wf(),
            self.splits_edge(p),
        ensures
            self.lookup(k) is Some,
            p.is_prefix_of(k),
        decreases self,
    {
        let i = self.branch(p[0]).unwrap();
        let e = self.edges@[i];
        assert(self.starts_with(i, p[0]));
        if e.prefix@.is_prefix_of(p) {
            let below = p.skip(e.prefix@.len() as int);
            let rest = e.node.lemma_key_below(below);
            let k = e.prefix@ + rest;
            assert(e.prefix@.is_prefix_of(k)) by {
                assert(e.prefix@ =~= k.subrange(0, e.prefix@.len() as int));
            }
            assert(k.skip(e.prefix@.len() as int) =~= rest);
            lemma_prefix_extend(e.prefix@, Seq::<K>::empty(), p);
            lemma_prefix_extend(e.prefix@, below, k);
            self.lemma_lookup_hit(k, i);
            k
        } else {
            let rest = e.node.lemma_occupied_stores_some();
            let k = e.prefix@ + rest;
            assert(e.prefix@.is_prefix_of(k)) by {
                assert(e.prefix@ =~= k.subrange(0, e.prefix@.len() as int));
            }
            assert(k.skip(e.prefix@.len() as int) =~= rest);
            self.lemma_lookup_hit(k, i);
            assert(p =~= k.subrange(0, p.len() as int)) by {
                assert forall|a: int| 0 <= a < p.len() implies p[a] == k[a] by {
                    assert(p[a] == e.prefix@.subrange(0, p.len() as int)[a]);
                }
            }
            k
        }
    }

    /// Going down along a prefix that ends within an edge leads to nothing,
    /// though the tree stores keys that start with the prefix.
    pub(crate) proof fn lemma_matches_within_edge(self, p: Seq<K>)
        requires
            self.wf(),
            self.splits_edge(p),
        ensures
            self.matches(p).len() == 0,
            self.entries().filter(starts(p)).len() > 0,
        decreases self,
    {
        let i = self.branch(p[0]).unwrap();
        let e = self.edges@[i];
        if e.prefix@.is_prefix_of(p) {
            e.node.lemma_matches_within_edge(p.skip(e.prefix@.len() as int));
        }
        let k = self.lemma_key_below(p);
        let v = self.lookup(k).unwrap();
        self.lemma_entries_lookup(k, v);
        lemma_filter_holds(self.entries(), starts(p), (k, v));
        let kept = self.entries().filter(starts(p));
        let a = choose|a: int| 0 <= a < kept.len() && kept[a] == (k, v);
    }

    /// A prefix ends within an edge exactly when it leads some stored key
    /// and no node stands where it ends.
    pub(crate) proof fn lemma_splits_edge(self, p: Seq<K>)
        requires
            self.wf(),
        ensures
            self.splits_edge(p) == (leads(self@, p) && !self.reaches(p)),
        decreases self,
    {
        if p.len() > 0 {
            if self.branch(p[0]) is Some {
                let i = self.branch(p[0]).unwrap();
                let e = self.edges@[i];
                assert(self.starts_with(i, p[0]));
                self.lemma_leads_hit(p, i);
                self.lemma_reaches_hit(p, i);
                if e.prefix@.is_prefix_of(p) {
                    e.node.lemma_splits_edge(p.skip(e.prefix@.len() as int));
                }
            } else {
                self.lemma_leads_miss(p);
            }
        }
    }

    /// No entry of the walk has a key that starts with a prefix that leads
    /// no stored key.
    pub(crate) proof fn lemma_nothing_starts(self, p: Seq<K>)
        requires
            self.wf(),
            !leads(self@, p),
        ensures
            self.entries().filter(starts(p)) == Seq::<(Seq<K>, V)>::empty(),
    {
        self.lemma_entries_are_view();
        assert forall|i: int| 0 <= i < self.entries().len() implies !starts::<K, V>(p)(
            #[trigger] self.entries()[i],
        ) by {
            let e = self.entries()[i];
            assert(self.entries().contains((e.0, e.1)));
            assert(self@.contains_key(e.0));
        }
        lemma_filter_none(self.entries(), starts(p));
    }

    /// Going down along a prefix leads to what a search for it yields.
    pub(crate) proof fn lemma_matches_found(self, p: Seq<K>)
        requires
            self.wf(),
        ensures
            self.matches(p) == self.found(p),
    {
        self.lemma_splits_edge(p);
        if self.splits_edge(p) {
            self.lemma_matches_within_edge(p);
            assert(self.matches(p) =~= Seq::<(Seq<K>, V)>::empty());
        } else {
            self.lemma_matches_filter(p);
            if !self.reaches(p) {
                self.lemma_nothing_starts(p);
            }
        }
    }
}

} // verus!
