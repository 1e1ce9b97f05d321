//! Sequences of key components: their leading parts, the lexicographic order,
//! and what maps and entry lists keyed by them hold.

use vstd::prelude::*;
use crate::key::KeyComponent;

verus! {

/// The first `n` components of `a` and of `b` exist and are the same.
pub open spec fn agree_upto<K>(a: Seq<K>, b: Seq<K>, n: int) -> bool {
    &&& 0 <= n <= a.len()
    &&& n <= b.len()
    &&& forall|i: int| 0 <= i < n ==> a[i] == b[i]
}

/// `n` is the length of the longest leading part that `a` and `b` share.
pub open spec fn is_common_len<K>(a: Seq<K>, b: Seq<K>, n: int) -> bool {
    &&& agree_upto(a, b, n)
    &&& (n == a.len() || n == b.len() || a[n] != b[n])
}

/// `a` and `b` agree on their first `n` components and `a` comes first at
/// position `n`: either `a` ends there and `b` does not, or the component of
/// `a` at `n` precedes that of `b`.
pub open spec fn lex_lt_at<K: KeyComponent>(a: Seq<K>, b: Seq<K>, n: int) -> bool {
    &&& agree_upto(a, b, n)
    &&& (n == a.len() && n < b.len()) || (n < a.len() && n < b.len() && a[n].precedes(b[n]))
}

/// Strict lexicographic order on component sequences: a proper leading part
/// comes before the whole, otherwise the first differing component decides.
pub open spec fn lex_lt<K: KeyComponent>(a: Seq<K>, b: Seq<K>) -> bool {
    exists|n: int| lex_lt_at(a, b, n)
}

/// A sequence of keyed entries whose keys strictly ascend.
pub open spec fn ascending<K: KeyComponent, V>(s: Seq<(Seq<K>, V)>) -> bool {
    forall|i: int, j: int| 0 <= i < j < s.len() ==> lex_lt(#[trigger] s[i].0, #[trigger] s[j].0)
}

/// The entries of `s` with `p` put in front of each key.
pub open spec fn with_prefix<K, V>(p: Seq<K>, s: Seq<(Seq<K>, V)>) -> Seq<(Seq<K>, V)> {
    Seq::new(s.len(), |i: int| (p + s[i].0, s[i].1))
}

/// Putting `p` in front of each key of two sequences in a row is putting it
/// in front of each key of either.
pub proof fn lemma_with_prefix_add<K, V>(p: Seq<K>, s: Seq<(Seq<K>, V)>, t: Seq<(Seq<K>, V)>)
    ensures
        with_prefix(p, s + t) == with_prefix(p, s) + with_prefix(p, t),
{
    assert(with_prefix(p, s + t) =~= with_prefix(p, s) + with_prefix(p, t));
}

/// Putting `q` and then `p` in front of each key is putting `p + q` there.
pub proof fn lemma_with_prefix_twice<K, V>(p: Seq<K>, q: Seq<K>, s: Seq<(Seq<K>, V)>)
    ensures
        with_prefix(p, with_prefix(q, s)) == with_prefix(p + q, s),
{
    assert forall|i: int| 0 <= i < s.len() implies with_prefix(p, with_prefix(q, s))[i]
        == with_prefix(p + q, s)[i] by {
        assert(p + (q + s[i].0) =~= (p + q) + s[i].0);
    }
    assert(with_prefix(p, with_prefix(q, s)) =~= with_prefix(p + q, s));
}

/// Putting nothing in front of each key changes nothing.
pub proof fn lemma_with_prefix_empty<K, V>(s: Seq<(Seq<K>, V)>)
    ensures
        with_prefix(Seq::<K>::empty(), s) == s,
{
    assert forall|i: int| 0 <= i < s.len() implies with_prefix(Seq::<K>::empty(), s)[i] == s[i] by {
        assert(Seq::<K>::empty() + s[i].0 =~= s[i].0);
    }
    assert(with_prefix(Seq::<K>::empty(), s) =~= s);
}

/// What the map `m` stores under `k`.
pub open spec fn stored<K, V>(m: Map<Seq<K>, V>, k: Seq<K>) -> Option<V> {
    if m.contains_key(k) {
        Some(m[k])
    } else {
        None
    }
}

/// The test that picks the entries whose keys start with `p`.
pub open spec fn starts<K, V>(p: Seq<K>) -> spec_fn((Seq<K>, V)) -> bool {
    |e: (Seq<K>, V)| p.is_prefix_of(e.0)
}

/// The test that picks the entries whose key is not `key`.
pub open spec fn other_than<K, V>(key: Seq<K>) -> spec_fn((Seq<K>, V)) -> bool {
    |e: (Seq<K>, V)| e.0 != key
}

/// Some key of `m` starts with `q`. The empty sequence counts as leading
/// even where `m` holds no key.
pub open spec fn leads<K, V>(m: Map<Seq<K>, V>, q: Seq<K>) -> bool {
    q.len() == 0 || exists|k: Seq<K>| #[trigger] m.contains_key(k) && q.is_prefix_of(k)
}

/// `q` is where `key` parts from the keys of `m`: a proper leading part of
/// `key` that leads on in `m`, but not with the component that follows it in
/// `key`.
pub open spec fn parts_at<K, V>(m: Map<Seq<K>, V>, key: Seq<K>, q: Seq<K>) -> bool {
    &&& q.is_prefix_of(key)
    &&& q.len() < key.len()
    &&& leads(m, q)
    &&& !leads(m, key.take(q.len() as int + 1))
}

/// A prefix of a key followed by more components leads the key exactly when
/// the additional components lead what the prefix leaves of the key.
pub proof fn lemma_prefix_extend<K>(p: Seq<K>, q: Seq<K>, k: Seq<K>)
    requires
        p.is_prefix_of(k),
    ensures
        (p + q).is_prefix_of(k) <==> q.is_prefix_of(k.skip(p.len() as int)),
        p.len() + q.len() <= k.len() ==> k.skip(p.len() as int).skip(q.len() as int) == k.skip(
            (p.len() + q.len()) as int,
        ),
        p + k.skip(p.len() as int) == k,
{
    let rest = k.skip(p.len() as int);
    assert(p + rest =~= k);
    if p.len() + q.len() <= k.len() {
        assert(rest.skip(q.len() as int) =~= k.skip((p.len() + q.len()) as int));
    }
    if (p + q).is_prefix_of(k) {
        assert(q =~= rest.subrange(0, q.len() as int)) by {
            assert forall|i: int| 0 <= i < q.len() implies q[i] == rest[i] by {
                assert((p + q)[p.len() + i] == k.subrange(0, (p + q).len() as int)[p.len() + i]);
            }
        }
    }
    if q.is_prefix_of(rest) {
        assert(p + q =~= k.subrange(0, (p + q).len() as int)) by {
            assert forall|i: int| 0 <= i < (p + q).len() implies (p + q)[i] == k[i] by {
                if i >= p.len() {
                    assert(q[i - p.len()] == rest.subrange(0, q.len() as int)[i - p.len()]);
                } else {
                    assert(p[i] == k.subrange(0, p.len() as int)[i]);
                }
            }
        }
    }
}

/// A non-empty prefix of a key gives the key its first component.
pub proof fn lemma_prefix_first<K>(p: Seq<K>, k: Seq<K>)
    requires
        p.len() > 0,
        p.is_prefix_of(k),
    ensures
        k.len() > 0,
        k[0] == p[0],
{
    assert(p[0] == k.subrange(0, p.len() as int)[0]);
}

/// Of two leading parts of one sequence the shorter leads the longer.
pub proof fn lemma_prefixes_nest<K>(a: Seq<K>, b: Seq<K>, k: Seq<K>)
    requires
        a.is_prefix_of(k),
        b.is_prefix_of(k),
        a.len() <= b.len(),
    ensures
        a.is_prefix_of(b),
{
    assert(a =~= b.subrange(0, a.len() as int)) by {
        assert forall|i: int| 0 <= i < a.len() implies a[i] == b[i] by {
            assert(a[i] == k.subrange(0, a.len() as int)[i]);
            assert(b[i] == k.subrange(0, b.len() as int)[i]);
        }
    }
}

/// Leading is handed down: what leads a leading part of a key leads the key.
pub proof fn lemma_prefix_of_prefix<K>(a: Seq<K>, b: Seq<K>, k: Seq<K>)
    requires
        a.is_prefix_of(b),
        b.is_prefix_of(k),
    ensures
        a.is_prefix_of(k),
{
    assert(a =~= k.subrange(0, a.len() as int)) by {
        assert forall|i: int| 0 <= i < a.len() implies a[i] == k[i] by {
            assert(a[i] == b.subrange(0, a.len() as int)[i]);
            assert(b[i] == k.subrange(0, b.len() as int)[i]);
        }
    }
}

/// A sequence leads itself with anything behind it.
pub proof fn lemma_prefix_of_add<K>(a: Seq<K>, b: Seq<K>)
    ensures
        a.is_prefix_of(a + b),
        (a + b).skip(a.len() as int) == b,
{
    assert(a =~= (a + b).subrange(0, a.len() as int));
    assert((a + b).skip(a.len() as int) =~= b);
}

/// The length of the longest leading part that `a` and `b` share.
pub open spec fn common_len<K>(a: Seq<K>, b: Seq<K>) -> int {
    choose|n: int| is_common_len(a, b, n)
}

/// `common_len` is what its name says.
pub proof fn lemma_common_len<K>(a: Seq<K>, b: Seq<K>)
    ensures
        is_common_len(a, b, common_len(a, b)),
{
    let n = choose_common_len(a, b);
}

/// The longest shared leading part has exactly one length.
pub proof fn lemma_common_len_unique<K>(a: Seq<K>, b: Seq<K>, n: int, m: int)
    requires
        is_common_len(a, b, n),
        is_common_len(a, b, m),
    ensures
        n == m,
{
    if n < m {
        assert(a[n] == b[n]);
    } else if m < n {
        assert(a[m] == b[m]);
    }
}

/// A leading part of `b` that is all of `a` makes `a` a prefix of `b`, and back.
pub proof fn lemma_agree_is_prefix<K>(a: Seq<K>, b: Seq<K>)
    ensures
        agree_upto(a, b, a.len() as int) <==> a.is_prefix_of(b),
{
    if a.is_prefix_of(b) {
        assert forall|i: int| 0 <= i < a.len() implies a[i] == b[i] by {
            assert(a[i] == b.subrange(0, a.len() as int)[i]);
        }
    }
    if agree_upto(a, b, a.len() as int) {
        assert(a =~= b.subrange(0, a.len() as int));
    }
}

/// No sequence comes before itself.
pub proof fn lemma_lex_lt_irreflexive<K: KeyComponent>(a: Seq<K>)
    ensures
        !lex_lt(a, a),
{
    if lex_lt(a, a) {
        let n = choose|n: int| lex_lt_at(a, a, n);
        K::lemma_irreflexive(a[n]);
    }
}

/// The lexicographic order is transitive.
pub proof fn lemma_lex_lt_transitive<K: KeyComponent>(a: Seq<K>, b: Seq<K>, c: Seq<K>)
    requires
        lex_lt(a, b),
        lex_lt(b, c),
    ensures
        lex_lt(a, c),
{
    let n = choose|n: int| lex_lt_at(a, b, n);
    let m = choose|m: int| lex_lt_at(b, c, m);
    if n < m {
        assert(b[n] == c[n]);
        assert(lex_lt_at(a, c, n));
    } else if m < n {
        assert(a[m] == b[m]);
        assert(lex_lt_at(a, c, m));
    } else {
        if n < a.len() {
            K::lemma_transitive(a[n], b[n], c[n]);
        }
        assert(lex_lt_at(a, c, n));
    }
}

/// Of two different sequences one comes before the other.
pub proof fn lemma_lex_lt_total<K: KeyComponent>(a: Seq<K>, b: Seq<K>)
    ensures
        lex_lt(a, b) || a == b || lex_lt(b, a),
{
    let n = choose_common_len(a, b);
    if n == a.len() && n == b.len() {
        assert(a =~= b);
    } else if n == a.len() {
        assert(lex_lt_at(a, b, n));
    } else if n == b.len() {
        assert(lex_lt_at(b, a, n));
    } else {
        K::lemma_total(a[n], b[n]);
        if a[n].precedes(b[n]) {
            assert(lex_lt_at(a, b, n));
        } else {
            assert(lex_lt_at(b, a, n));
        }
    }
}

/// A length of the longest shared leading part exists.
pub proof fn choose_common_len<K>(a: Seq<K>, b: Seq<K>) -> (n: int)
    ensures
        is_common_len(a, b, n),
    decreases a.len(),
{
    if a.len() == 0 || b.len() == 0 || a[0] != b[0] {
        0
    } else {
        let m = choose_common_len(a.skip(1), b.skip(1));
        assert forall|i: int| 0 <= i < m + 1 implies a[i] == b[i] by {
            if i > 0 {
                assert(a.skip(1)[i - 1] == b.skip(1)[i - 1]);
            }
        }
        if m + 1 < a.len() && m + 1 < b.len() {
            assert(a.skip(1)[m] != b.skip(1)[m]);
        }
        m + 1
    }
}

/// Putting the same sequence in front of both sides keeps the order.
pub proof fn lemma_lex_lt_prepend<K: KeyComponent>(p: Seq<K>, a: Seq<K>, b: Seq<K>)
    requires
        lex_lt(a, b),
    ensures
        lex_lt(p + a, p + b),
{
    let n = choose|n: int| lex_lt_at(a, b, n);
    let m = n + p.len();
    assert forall|i: int| 0 <= i < m implies (p + a)[i] == (p + b)[i] by {
        if i >= p.len() {
            assert(a[i - p.len()] == b[i - p.len()]);
        }
    }
    if n < a.len() {
        assert((p + a)[m] == a[n]);
        assert((p + b)[m] == b[n]);
    }
    assert(lex_lt_at(p + a, p + b, m));
}

/// Two non-empty sequences are ordered as their first components are, where
/// these differ.
pub proof fn lemma_lex_lt_by_first<K: KeyComponent>(a: Seq<K>, b: Seq<K>)
    requires
        a.len() > 0,
        b.len() > 0,
        a[0].precedes(b[0]),
    ensures
        lex_lt(a, b),
{
    assert(lex_lt_at(a, b, 0));
}

/// The empty sequence comes before every other.
pub proof fn lemma_lex_lt_empty<K: KeyComponent>(b: Seq<K>)
    requires
        b.len() > 0,
    ensures
        lex_lt(Seq::<K>::empty(), b),
{
    assert(lex_lt_at(Seq::<K>::empty(), b, 0));
}

/// Two ascending sequences that hold the same entries are the same sequence.
pub proof fn lemma_ascending_unique<K: KeyComponent, V>(s: Seq<(Seq<K>, V)>, t: Seq<(Seq<K>, V)>)
    requires
        ascending(s),
        ascending(t),
        forall|e: (Seq<K>, V)| s.contains(e) <==> t.contains(e),
    ensures
        s == t,
    decreases s.len(),
{
    if s.len() == 0 {
        if t.len() > 0 {
            assert(t.contains(t[0]));
        }
        assert(s =~= t);
    } else {
        assert(s.contains(s[0]));
        assert(t.contains(s[0]));
        let j = choose|j: int| 0 <= j < t.len() && t[j] == s[0];
        assert(t.contains(t[0]));
        let i = choose|i: int| 0 <= i < s.len() && s[i] == t[0];
        if j > 0 {
            assert(lex_lt(t[0].0, t[j].0));
            if i > 0 {
                assert(lex_lt(s[0].0, s[i].0));
                lemma_lex_lt_transitive(s[0].0, t[0].0, s[0].0);
            }
            lemma_lex_lt_irreflexive(s[0].0);
        }
        assert(s[0] == t[0]);
        let s1 = s.drop_first();
        let t1 = t.drop_first();
        assert forall|e: (Seq<K>, V)| s1.contains(e) <==> t1.contains(e) by {
            if s1.contains(e) {
                let a = choose|a: int| 0 <= a < s1.len() && s1[a] == e;
                assert(s[a + 1] == e);
                assert(lex_lt(s[0].0, s[a + 1].0));
                assert(s.contains(e));
                let b = choose|b: int| 0 <= b < t.len() && t[b] == e;
                if b == 0 {
                    lemma_lex_lt_irreflexive(s[0].0);
                }
                assert(t1[b - 1] == e);
            }
            if t1.contains(e) {
                let b = choose|b: int| 0 <= b < t1.len() && t1[b] == e;
                assert(t[b + 1] == e);
                assert(lex_lt(t[0].0, t[b + 1].0));
                assert(t.contains(e));
                let a = choose|a: int| 0 <= a < s.len() && s[a] == e;
                if a == 0 {
                    lemma_lex_lt_irreflexive(t[0].0);
                }
                assert(s1[a - 1] == e);
            }
        }
        assert forall|a: int, b: int| 0 <= a < b < s1.len() implies lex_lt(
            #[trigger] s1[a].0,
            #[trigger] s1[b].0,
        ) by {
            assert(lex_lt(s[a + 1].0, s[b + 1].0));
        }
        assert forall|a: int, b: int| 0 <= a < b < t1.len() implies lex_lt(
            #[trigger] t1[a].0,
            #[trigger] t1[b].0,
        ) by {
            assert(lex_lt(t[a + 1].0, t[b + 1].0));
        }
        lemma_ascending_unique(s1, t1);
        assert(s.len() == s1.len() + 1);
        assert(t.len() == t1.len() + 1);
        assert forall|a: int| 0 <= a < s.len() implies s[a] == t[a] by {
            if a > 0 {
                assert(s1[a - 1] == t1[a - 1]);
            }
        }
        assert(s =~= t);
    }
}

} // verus!
