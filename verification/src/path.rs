//! Paths: values that can be split into the leading part that two of them
//! share and what follows it.

use vstd::prelude::*;
use vstd::string::*;
use crate::order::{common_len, lemma_common_len, lemma_common_len_unique};

verus! {

/// What two sequences share at their start.
pub open spec fn shared_part<A>(a: Seq<A>, b: Seq<A>) -> Seq<A> {
    a.take(common_len(a, b))
}

/// What follows the shared start: all of `b` where nothing is shared,
/// otherwise the rest of `a`, or that of `b` where `a` has no rest.
pub open spec fn unshared_part<A>(a: Seq<A>, b: Seq<A>) -> Seq<A> {
    let n = common_len(a, b);
    if n == 0 {
        b
    } else if n < a.len() {
        a.skip(n)
    } else {
        b.skip(n)
    }
}

/// A value with a leading part that it may share with another.
pub trait Path: Default + Eq + Ord + Clone {
    /// The value has no content.
    spec fn blank(&self) -> bool;

    /// `prefix` is what `self` and `other` share at their start.
    spec fn is_prefix_with(&self, other: &Self, prefix: &Self) -> bool;

    /// `suffix` is what follows the start that `self` and `other` share.
    spec fn is_suffix_with(&self, other: &Self, suffix: &Self) -> bool;

    /// `self` and `other` share something at their start.
    spec fn shares_prefix(&self, other: &Self) -> bool;

    /// Something follows the start that `self` and `other` share.
    spec fn leaves_suffix(&self, other: &Self) -> bool;

    /// Whether the value has no content.
    fn is_empty(&self) -> (r: bool)
        ensures
            r == self.blank(),
    ;

    /// The start that `self` and `other` share, and what follows it: all of
    /// `other` where nothing is shared, otherwise the rest of `self`, or that
    /// of `other` where `self` has no rest.
    fn get_prefix_and_suffix(&self, other: &Self) -> (r: (Self, Self))
        ensures
            self.is_prefix_with(other, &r.0),
            self.is_suffix_with(other, &r.1),
            r.0.blank() == !self.shares_prefix(other),
            r.1.blank() == !self.leaves_suffix(other),
    ;

    /// Whether `self` and `other` share something at their start.
    fn has_common_prefix(&self, other: &Self) -> (r: bool)
        ensures
            r == self.shares_prefix(other),
    {
        let (prefix, _) = self.get_prefix_and_suffix(other);
        !prefix.is_empty()
    }

    /// The start that `self` and `other` share.
    fn prefix_with(&self, other: &Self) -> (r: Self)
        ensures
            self.is_prefix_with(other, &r),
    {
        let (prefix, _) = self.get_prefix_and_suffix(other);
        prefix
    }

    /// Whether something follows the start that `self` and `other` share.
    fn has_common_suffix(&self, other: &Self) -> (r: bool)
        ensures
            r == self.leaves_suffix(other),
    {
        let (_, suffix) = self.get_prefix_and_suffix(other);
        !suffix.is_empty()
    }

    /// What follows the start that `self` and `other` share.
    fn suffix_with(&self, other: &Self) -> (r: Self)
        ensures
            self.is_suffix_with(other, &r),
    {
        let (_, suffix) = self.get_prefix_and_suffix(other);
        suffix
    }
}

impl Path for String {
    open spec fn blank(&self) -> bool {
        self@.len() == 0
    }

    open spec fn is_prefix_with(&self, other: &Self, prefix: &Self) -> bool {
        prefix@ == shared_part(self@, other@)
    }

    open spec fn is_suffix_with(&self, other: &Self, suffix: &Self) -> bool {
        suffix@ == unshared_part(self@, other@)
    }

    open spec fn shares_prefix(&self, other: &Self) -> bool {
        shared_part(self@, other@).len() > 0
    }

    open spec fn leaves_suffix(&self, other: &Self) -> bool {
        unshared_part(self@, other@).len() > 0
    }

    fn is_empty(&self) -> (r: bool) {
        let n = self.as_str().unicode_len();
        assert(n == self@.len());
        n == 0
    }

    fn get_prefix_and_suffix(&self, other: &String) -> (r: (String, String)) {
        let a = self.as_str();
        let b = other.as_str();
        let a_len = a.unicode_len();
        let b_len = b.unicode_len();
        let mut nb: usize = 0;
        while nb < a_len && nb < b_len && a.get_char(nb) == b.get_char(nb)
            invariant
                a@ == self@,
                b@ == other@,
                a_len == a@.len(),
                b_len == b@.len(),
                nb <= a_len,
                nb <= b_len,
                forall|i: int| 0 <= i < nb ==> a@[i] == b@[i],
            decreases a_len - nb,
        {
            nb += 1;
        }
        proof {
            lemma_common_len(self@, other@);
            lemma_common_len_unique(self@, other@, nb as int, common_len(self@, other@));
        }
        let ghost n = nb as int;
        let prefix: String;
        let suffix: String;
        if nb == 0 {
            prefix = String::new();
            suffix = other.clone();
        } else if nb < a_len {
            prefix = a.substring_char(0, nb).to_owned();
            suffix = a.substring_char(nb, a_len).to_owned();
        } else if nb < b_len {
            prefix = b.substring_char(0, nb).to_owned();
            suffix = b.substring_char(nb, b_len).to_owned();
        } else {
            prefix = self.clone();
            suffix = String::new();
        }
        proof {
            assert(common_len(self@, other@) == n);
            assert(prefix@ =~= self@.take(n));
            assert(suffix@ =~= unshared_part(self@, other@));
            assert(self.is_prefix_with(other, &prefix));
            assert(self.is_suffix_with(other, &suffix));
            assert(prefix.blank() == !self.shares_prefix(other));
            assert(suffix.blank() == !self.leaves_suffix(other));
        }
        (prefix, suffix)
    }
}

} // verus!
