//! Walks over a tree: every entry in ascending key order, or those below the
//! node that a prefix leads to.

use vstd::prelude::*;
use crate::key::KeyComponent;
use crate::order::{
    lemma_agree_is_prefix, lemma_with_prefix_add, lemma_with_prefix_empty,
    lemma_with_prefix_twice, starts, with_prefix,
};
use crate::tree::{to_vec, Edge, Node, PrefixCmp};

verus! {

/// Growing a run of components at either end.
pub(crate) trait PrefixExt<K> {
    /// Puts the components of `other` in front.
    fn add_prefix(&mut self, other: &[K])
        ensures
            final(self).run() == other@ + old(self).run(),
    ;

    /// Puts the components of `other` behind.
    fn add_suffix(&mut self, other: &[K])
        ensures
            final(self).run() == old(self).run() + other@,
    ;

    /// The components held.
    spec fn run(&self) -> Seq<K>;
}

impl<K: KeyComponent> PrefixExt<K> for Vec<K> {
    open spec fn run(&self) -> Seq<K> {
        self@
    }

    fn add_prefix(&mut self, other: &[K]) {
        let mut old: Vec<K> = Vec::with_capacity(self.len());
        std::mem::swap(self, &mut old);
        self.add_suffix(other);
        self.add_suffix(old.as_slice());
    }

    fn add_suffix(&mut self, other: &[K]) {
        let mut i: usize = 0;
        while i < other.len()
            invariant
                i <= other@.len(),
                self@ == old(self)@ + other@.take(i as int),
            decreases other@.len() - i,
        {
            self.push(other[i].duplicate());
            i += 1;
            assert(self@ =~= old(self)@ + other@.take(i as int));
        }
        assert(other@.take(other@.len() as int) =~= other@);
    }
}

impl<K: KeyComponent, V> Node<K, V> {
    /// A measure of the walk that is left below the edges from `j` on.
    pub(crate) open spec fn weight_from(self, j: int) -> nat
        decreases self, self.fanout() - j,
    {
        if 0 <= j < self.edges@.len() {
            1 + self.edges@[j].node.weight() + self.weight_from(j + 1)
        } else {
            0
        }
    }

    /// A measure of the walk through the node and all below it.
    pub(crate) open spec fn weight(self) -> nat
        decreases self, self.fanout() + 1,
    {
        2 + self.weight_from(0)
    }
}

/// One level of a walk: a node on the way from the root to the place the walk
/// has reached, with how far the walk has got at this node.
pub(crate) struct IterPath<'a, K: KeyComponent, V> {
    pub(crate) node: &'a Node<K, V>,
    /// The edge to enter next; nothing while the node itself is still to be
    /// visited.
    pub(crate) next_edge: Option<usize>,
    /// The prefix of the edge that led to the node.
    pub(crate) prefix: &'a [K],
}

impl<'a, K: KeyComponent, V> IterPath<'a, K, V> {
    /// The position is within the node's edges.
    pub(crate) open spec fn wf(self) -> bool {
        match self.next_edge {
            Some(j) => j <= self.node.edges@.len(),
            None => true,
        }
    }

    /// The entries that the walk has still to yield at or below this node,
    /// keyed from the node.
    pub(crate) open spec fn pending(self) -> Seq<(Seq<K>, V)> {
        match self.next_edge {
            Some(j) => self.node.entries_from(j as int),
            None => self.node.entries(),
        }
    }

    /// A measure of the steps left at or below this node.
    pub(crate) open spec fn work(self) -> nat {
        match self.next_edge {
            Some(j) => 1 + self.node.weight_from(j as int),
            None => self.node.weight(),
        }
    }

    /// The level of a root: a node not yet visited, reached by no edge.
    pub(crate) fn from_node(node: &'a Node<K, V>) -> (r: IterPath<'a, K, V>)
        ensures
            r.node == node,
            r.next_edge is None,
            r.prefix@.len() == 0,
    {
        let empty: &'a [K] = &[];
        IterPath { node: node, prefix: empty, next_edge: None }
    }

    /// The level below an edge: the edge's node, not yet visited.
    pub(crate) fn from_edge(edge: &'a Edge<K, V>) -> (r: IterPath<'a, K, V>)
        ensures
            *r.node == *edge.node,
            r.next_edge is None,
            r.prefix@ == edge.prefix@,
    {
        IterPath { node: &edge.node, prefix: edge.prefix.as_slice(), next_edge: None }
    }

    /// One step at this level. Nothing if no entry is left at or below the
    /// node; the node's own value when the node is entered and has one;
    /// otherwise the level below the next edge.
    pub(crate) fn advance(&mut self) -> (r: Option<Result<&'a V, IterPath<'a, K, V>>>)
        requires
            old(self).wf(),
        ensures
            final(self).wf(),
            final(self).node == old(self).node,
            final(self).prefix == old(self).prefix,
            match r {
                Some(Ok(value)) => {
                    &&& old(self).pending() == seq![(Seq::<K>::empty(), *value)] + final(
                        self
                    ).pending()
                    &&& final(self).work() < old(self).work()
                },
                Some(Err(below)) => {
                    &&& below.wf()
                    &&& old(self).pending() == with_prefix(below.prefix@, below.pending())
                        + final(self).pending()
                    &&& final(self).work() + below.work() < old(self).work()
                },
                None => {
                    &&& old(self).pending().len() == 0
                    &&& final(self).pending().len() == 0
                    &&& final(self).work() <= old(self).work()
                },
            },
    {
        let node: &'a Node<K, V> = self.node;
        let j: usize = match self.next_edge {
            Some(j) => j,
            None => {
                self.next_edge = Some(0);
                match &node.value {
                    Some(value) => {
                        return Some(Ok(value));
                    },
                    None => {},
                }
                0
            },
        };
        if j < node.edges.len() {
            self.next_edge = Some(j + 1);
            Some(Err(IterPath::from_edge(&node.edges[j])))
        } else {
            None
        }
    }
}

/// The components that the edges on the way to the last of `frames` spell.
pub(crate) open spec fn frames_prefix<'a, K: KeyComponent, V>(
    frames: Seq<IterPath<'a, K, V>>,
) -> Seq<K>
    decreases frames.len(),
{
    if frames.len() == 0 {
        Seq::empty()
    } else {
        frames_prefix(frames.drop_last()) + frames.last().prefix@
    }
}

/// The entries that a walk with these levels has still to yield: what is
/// pending at the deepest level first, each key with its full path in front.
pub(crate) open spec fn frames_pending<'a, K: KeyComponent, V>(
    frames: Seq<IterPath<'a, K, V>>,
) -> Seq<(Seq<K>, V)>
    decreases frames.len(),
{
    if frames.len() == 0 {
        Seq::empty()
    } else {
        with_prefix(frames_prefix(frames), frames.last().pending()) + frames_pending(
            frames.drop_last(),
        )
    }
}

/// A measure of the steps that a walk with these levels has left.
pub(crate) open spec fn frames_work<'a, K: KeyComponent, V>(
    frames: Seq<IterPath<'a, K, V>>,
) -> nat
    decreases frames.len(),
{
    if frames.len() == 0 {
        0
    } else {
        frames.last().work() + frames_work(frames.drop_last())
    }
}

/// What one more level adds to the three measures of a walk.
pub(crate) proof fn lemma_frames_push<'a, K: KeyComponent, V>(
    frames: Seq<IterPath<'a, K, V>>,
    top: IterPath<'a, K, V>,
)
    ensures
        frames_prefix(frames.push(top)) == frames_prefix(frames) + top.prefix@,
        frames_pending(frames.push(top)) == with_prefix(
            frames_prefix(frames) + top.prefix@,
            top.pending(),
        ) + frames_pending(frames),
        frames_work(frames.push(top)) == top.work() + frames_work(frames),
{
    assert(frames.push(top).drop_last() =~= frames);
    assert(frames.push(top).last() == top);
}

/// A walk over the entries of a tree in ascending key order.
pub struct Iter<'a, K: KeyComponent, V> {
    pub(crate) path: Vec<IterPath<'a, K, V>>,
    pub(crate) prefix: Vec<K>,
}

impl<'a, K: KeyComponent, V> Iter<'a, K, V> {
    /// The invariant of a walk: the key built so far is what the edges on the
    /// way spell, and every level's position is within its node's edges.
    pub open(crate) spec fn wf(self) -> bool {
        &&& self.prefix@ == frames_prefix(self.path@)
        &&& forall|i: int| 0 <= i < self.path@.len() ==> (#[trigger] self.path@[i]).wf()
    }

    /// The entries that the walk has still to yield, in the order in which it
    /// yields them.
    pub open(crate) spec fn remaining(self) -> Seq<(Seq<K>, V)> {
        frames_pending(self.path@)
    }

    /// A walk that starts at `node`.
    pub(crate) fn new(node: &'a Node<K, V>) -> (r: Iter<'a, K, V>)
        ensures
            r.wf(),
            r.remaining() == node.entries(),
    {
        let mut path: Vec<IterPath<'a, K, V>> = Vec::new();
        path.push(IterPath::from_node(node));
        let r = Iter { path: path, prefix: Vec::new() };
        proof {
            let none = Seq::<IterPath<'a, K, V>>::empty();
            assert(r.path@ =~= none.push(r.path@[0]));
            lemma_frames_push(none, r.path@[0]);
            assert(frames_prefix(none) + r.path@[0].prefix@ =~= Seq::<K>::empty());
            lemma_with_prefix_empty(node.entries());
            assert(node.entries() + frames_pending(none) =~= node.entries());
        }
        r
    }

    /// A walk that is over.
    pub(crate) fn done() -> (r: Iter<'a, K, V>)
        ensures
            r.wf(),
            r.remaining().len() == 0,
    {
        Iter { path: Vec::new(), prefix: Vec::new() }
    }

    /// The next entry of the walk: the key, built anew, and the value in the
    /// tree; nothing when the walk is over.
    pub fn next(&mut self) -> (r: Option<(Vec<K>, &'a V)>)
        requires
            old(self).wf(),
        ensures
            final(self).wf(),
            match r {
                Some((key, value)) => {
                    &&& old(self).remaining().len() > 0
                    &&& (key@, *value) == old(self).remaining()[0]
                    &&& final(self).remaining() == old(self).remaining().drop_first()
                },
                None => {
                    &&& old(self).remaining().len() == 0
                    &&& final(self).remaining().len() == 0
                },
            },
    {
        while self.path.len() > 0
            invariant
                self.wf(),
                self.remaining() == old(self).remaining(),
            decreases frames_work(self.path@),
        {
            let ghost frames = self.path@;
            let ghost lower = frames.drop_last();
            let ghost p = frames_prefix(frames);
            proof {
                assert(frames =~= lower.push(frames.last()));
                lemma_frames_push(lower, frames.last());
            }
            let top = self.path.len() - 1;
            match self.path[top].advance() {
                Some(Ok(value)) => {
                    let key = to_vec(self.prefix.as_slice());
                    proof {
                        let top_after = self.path@.last();
                        assert(self.path@ =~= lower.push(top_after));
                        lemma_frames_push(lower, top_after);
                        let own = seq![(Seq::<K>::empty(), *value)];
                        lemma_with_prefix_add(p, own, top_after.pending());
                        assert(with_prefix(p, own)[0] == (p + Seq::<K>::empty(), *value));
                        assert(p + Seq::<K>::empty() =~= p);
                        assert(old(self).remaining() =~= seq![(p, *value)] + self.remaining());
                        assert(old(self).remaining().drop_first() =~= self.remaining());
                    }
                    return Some((key, value));
                },
                Some(Err(elem)) => {
                    let ghost top_after = self.path@.last();
                    let ghost middle = self.path@;
                    proof {
                        assert(middle =~= lower.push(top_after));
                        lemma_frames_push(lower, top_after);
                        lemma_frames_push(middle, elem);
                        lemma_with_prefix_add(
                            p,
                            with_prefix(elem.prefix@, elem.pending()),
                            top_after.pending(),
                        );
                        lemma_with_prefix_twice(p, elem.prefix@, elem.pending());
                        assert(frames_pending(middle.push(elem)) =~= frames_pending(frames));
                    }
                    self.prefix.add_suffix(elem.prefix);
                    self.path.push(elem);
                    proof {
                        assert(self.path@ =~= middle.push(elem));
                    }
                },
                None => {
                    proof {
                        let top_after = self.path@.last();
                        assert(self.path@ =~= lower.push(top_after));
                        lemma_frames_push(lower, top_after);
                        assert(with_prefix(p, frames.last().pending()) =~= Seq::empty());
                        assert(frames_pending(frames) =~= frames_pending(lower));
                    }
                    let last_prefix = self.path.pop().unwrap().prefix;
                    let i = self.prefix.len() - last_prefix.len();
                    self.prefix.truncate(i);
                    proof {
                        assert(self.path@ =~= lower);
                        assert(self.prefix@ =~= frames_prefix(lower));
                    }
                },
            }
        }
        proof {
            assert(self.path@ =~= Seq::empty());
        }
        None
    }
}

/// A walk over the entries whose keys start with a prefix that was looked for.
pub struct Matches<'a, K: KeyComponent, V> {
    /// The path to the node that the prefix led to, and a walk from there;
    /// nothing where the prefix led to no node.
    pub(crate) result: Option<(Vec<K>, Iter<'a, K, V>)>,
}

impl<'a, K: KeyComponent, V> Matches<'a, K, V> {
    /// The invariant of the inner walk, if there is one.
    pub open(crate) spec fn wf(self) -> bool {
        match self.result {
            Some((_, it)) => it.wf(),
            None => true,
        }
    }

    /// The entries that the walk has still to yield, in the order in which it
    /// yields them.
    pub open(crate) spec fn remaining(self) -> Seq<(Seq<K>, V)> {
        match self.result {
            Some((prefix, it)) => with_prefix(prefix@, it.remaining()),
            None => Seq::empty(),
        }
    }

    /// A walk from `node`, which the path `prefix` led to.
    pub(crate) fn found(prefix: Vec<K>, node: &'a Node<K, V>) -> (r: Matches<'a, K, V>)
        ensures
            r.wf(),
            r.remaining() == with_prefix(prefix@, node.entries()),
    {
        Matches { result: Some((prefix, node.iter())) }
    }

    /// A walk that yields nothing.
    pub(crate) fn none() -> (r: Matches<'a, K, V>)
        ensures
            r.wf(),
            r.remaining().len() == 0,
    {
        Matches { result: None }
    }

    /// The next entry of the walk, with its whole key; nothing when the walk
    /// is over.
    pub fn next(&mut self) -> (r: Option<(Vec<K>, &'a V)>)
        requires
            old(self).wf(),
        ensures
            final(self).wf(),
            match r {
                Some((key, value)) => {
                    &&& old(self).remaining().len() > 0
                    &&& (key@, *value) == old(self).remaining()[0]
                    &&& final(self).remaining() == old(self).remaining().drop_first()
                },
                None => {
                    &&& old(self).remaining().len() == 0
                    &&& final(self).remaining().len() == 0
                },
            },
    {
        match &mut self.result {
            Some((prefix, it)) => {
                let ghost before = it.remaining();
                match it.next() {
                    Some((mut s, v)) => {
                        s.add_prefix(prefix.as_slice());
                        proof {
                            assert(with_prefix(prefix@, before).drop_first() =~= with_prefix(
                                prefix@,
                                before.drop_first(),
                            ));
                        }
                        Some((s, v))
                    },
                    None => None,
                }
            },
            None => None,
        }
    }
}

impl<K: KeyComponent, V> Node<K, V> {
    /// What a search for the keys that start with `prefix` yields: where a
    /// node stands at the end of `prefix`, the entries of the walk whose keys
    /// start with `prefix`, in the order of the walk; nothing where no node
    /// stands there, be it that no key starts with `prefix` or that `prefix`
    /// ends within an edge.
    pub open spec fn found(self, prefix: Seq<K>) -> Seq<(Seq<K>, V)> {
        if self.reaches(prefix) {
            self.entries().filter(starts(prefix))
        } else {
            Seq::empty()
        }
    }

    /// What going down along `prefix` leads to: the entries of the node
    /// where `prefix` ends, each with `prefix` in front; nothing where an edge
    /// on the way does not fit.
    pub(crate) open spec fn matches(self, prefix: Seq<K>) -> Seq<(Seq<K>, V)>
        decreases self,
    {
        if prefix.len() == 0 {
            self.entries()
        } else {
            match self.branch(prefix[0]) {
                Some(i) => {
                    let e = self.edges@[i];
                    if 0 <= i < self.edges@.len() && e.prefix@.is_prefix_of(prefix) {
                        with_prefix(e.prefix@, e.node.matches(prefix.skip(e.prefix@.len() as int)))
                    } else {
                        Seq::empty()
                    }
                },
                None => Seq::empty(),
            }
        }
    }

    /// A walk over all entries, in ascending key order.
    pub fn iter(&self) -> (r: Iter<'_, K, V>)
        ensures
            r.wf(),
            r.remaining() == self.entries(),
    {
        Iter::new(self)
    }

    /// A walk over the entries whose keys start with `key`, in ascending key
    /// order. The search follows the edges of the tree and finds the entries
    /// where a node stands at the end of `key`, as it does where `key` is
    /// itself stored; a `key` that ends within an edge finds nothing.
    pub fn find<'a>(&'a self, key: &[K]) -> (r: Matches<'a, K, V>)
        requires
            self.wf(),
        ensures
            r.wf(),
            r.remaining() == self.found(key@),
    {
        let r = self.find_subtree(key, Vec::new());
        proof {
            lemma_with_prefix_empty(self.matches(key@));
            self.lemma_matches_found(key@);
        }
        r
    }

    /// The search below this node for the rest of a prefix, `key`, where
    /// `prefix` is the path that led here.
    pub(crate) fn find_subtree<'a>(&'a self, key: &[K], prefix: Vec<K>) -> (r: Matches<'a, K, V>)
        requires
            self.wf(),
        ensures
            r.wf(),
            r.remaining() == with_prefix(prefix@, self.matches(key@)),
        decreases key@.len(),
    {
        let mut prefix = prefix;
        if key.len() == 0 {
            Matches::found(prefix, self)
        } else {
            match self.search_for_prefix(key) {
                Some((i, PrefixCmp::Full(suffix))) => {
                    // the path so far grows by the prefix of the edge taken
                    let (new_prefix, _) = key.split_at(key.len() - suffix.len());
                    let ghost path = prefix@;
                    prefix.add_suffix(new_prefix);
                    proof {
                        let e = self.edges@[i as int];
                        self.lemma_branch_hit(key@[0], i as int);
                        assert(new_prefix@ =~= e.prefix@);
                        lemma_with_prefix_twice(path, e.prefix@, e.node.matches(suffix@));
                    }
                    self.edges[i].node.find_subtree(suffix, prefix)
                },
                Some((i, PrefixCmp::Partial(_))) => {
                    proof {
                        self.lemma_branch_hit(key@[0], i as int);
                        lemma_agree_is_prefix(self.edges@[i as int].prefix@, key@);
                    }
                    Matches::none()
                },
                None => {
                    Matches::none()
                },
            }
        }
    }
}

impl<K: KeyComponent, V> Node<K, V> {
    /// No more entries lie below the edges from `i` on than below all edges.
    pub(crate) proof fn lemma_entries_from_len(self, i: int)
        requires
            0 <= i <= self.edges@.len(),
        ensures
            self.entries_from(i).len() <= self.entries_from(0).len(),
            self.entries_from(0).len() <= self.entries().len(),
        decreases i,
    {
        if i > 0 {
            self.lemma_entries_from_len(i - 1);
        }
    }

    /// The number of entries.
    pub fn len(&self) -> (r: usize)
        requires
            self.wf(),
            self@.len() <= usize::MAX,
        ensures
            r == self@.len(),
    {
        proof {
            self.lemma_entries_count();
        }
        self.count()
    }

    /// The number of entries that a walk from this node yields.
    pub(crate) fn count(&self) -> (r: usize)
        requires
            self.entries().len() <= usize::MAX,
        ensures
            r == self.entries().len(),
        decreases self,
    {
        let mut n: usize = 0;
        let mut i: usize = self.edges.len();
        while i > 0
            invariant
                i <= self.edges@.len(),
                n == self.entries_from(i as int).len(),
                self.entries().len() <= usize::MAX,
            decreases i,
        {
            i -= 1;
            proof {
                self.lemma_entries_from_len(i as int);
            }
            let below = self.edges[i].node.count();
            n = n + below;
        }
        proof {
            self.lemma_entries_from_len(0);
        }
        if self.value.is_some() {
            n + 1
        } else {
            n
        }
    }
}

} // verus!
