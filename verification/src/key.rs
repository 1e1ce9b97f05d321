//! What a key is made of: components that can be compared and copied, and
//! keys that show themselves as a slice of components.

use vstd::prelude::*;
use vstd::utf8::*;
use vstd::string::*;

verus! {

/// One element of a key: a value that can be tested for equality, compared
/// under a strict total order, and copied.
pub trait KeyComponent: Sized {
    /// The strict order of the components: `self` comes before `other`.
    spec fn precedes(self, other: Self) -> bool;

    /// No component comes before itself.
    proof fn lemma_irreflexive(a: Self)
        ensures
            !a.precedes(a),
    ;

    /// What comes before a component comes before all that this one comes
    /// before.
    proof fn lemma_transitive(a: Self, b: Self, c: Self)
        ensures
            a.precedes(b) && b.precedes(c) ==> a.precedes(c),
    ;

    /// Of two different components one comes before the other.
    proof fn lemma_total(a: Self, b: Self)
        ensures
            a.precedes(b) || a == b || b.precedes(a),
    ;

    /// Whether the two components are the same.
    fn equals(&self, other: &Self) -> (r: bool)
        ensures
            r == (*self == *other),
    ;

    /// Whether `self` comes before `other`.
    fn less_than(&self, other: &Self) -> (r: bool)
        ensures
            r == self.precedes(*other),
    ;

    /// A copy of the component.
    fn duplicate(&self) -> (r: Self)
        ensures
            r == *self,
    ;
}

/// A key in its borrowed form, `str` or `[T]`: it shows its components as a
/// slice, and an owned key can be made of components again.
pub trait Key: ToOwned {
    /// What the key is a sequence of.
    type Component: KeyComponent;

    /// The components of the key.
    spec fn components(&self) -> Seq<Self::Component>;

    /// The sequence is the components of some key. Where keys are text, not
    /// every sequence of bytes is.
    spec fn is_key(s: Seq<Self::Component>) -> bool;

    /// The components of a key in its owned form.
    spec fn owned_components(o: &Self::Owned) -> Seq<Self::Component>;

    /// The components of the key as a slice.
    fn as_slice<'a>(&'a self) -> (r: &'a [Self::Component])
        ensures
            r@ == self.components(),
            Self::is_key(r@),
    ;

    /// The owned key with the given components.
    fn from_vec(v: Vec<Self::Component>) -> (r: Self::Owned)
        requires
            Self::is_key(v@),
        ensures
            Self::owned_components(&r) == v@,
    ;
}

/// Text is a key of bytes, those of its UTF-8 encoding.
impl Key for str {
    type Component = u8;

    open spec fn components(&self) -> Seq<u8> {
        self.spec_bytes()
    }

    open spec fn is_key(s: Seq<u8>) -> bool {
        valid_utf8(s)
    }

    open spec fn owned_components(o: &String) -> Seq<u8> {
        encode_utf8(o@)
    }

    fn as_slice<'a>(&'a self) -> (r: &'a [u8]) {
        proof {
            encode_utf8_valid_utf8(self@);
        }
        self.as_bytes()
    }

    fn from_vec(v: Vec<u8>) -> (r: String) {
        match string_from_utf8(v) {
            Some(s) => s,
            None => unreached(),
        }
    }
}

/// Calls `String::from_utf8` of the standard library, which is believed to
/// hand back the text that the bytes encode if they are valid UTF-8, and to
/// refuse them otherwise.
#[verifier::external_body]
fn string_from_utf8(v: Vec<u8>) -> (r: Option<String>)
    ensures
        match r {
            Some(s) => valid_utf8(v@) && encode_utf8(s@) == v@,
            None => !valid_utf8(v@),
        },
{
    String::from_utf8(v).ok()
}

/// A slice of components is a key of these components.
impl<T: KeyComponent + Clone> Key for [T] {
    type Component = T;

    open spec fn components(&self) -> Seq<T> {
        self@
    }

    open spec fn is_key(s: Seq<T>) -> bool {
        true
    }

    open spec fn owned_components(o: &Vec<T>) -> Seq<T> {
        o@
    }

    fn as_slice<'a>(&'a self) -> (r: &'a [T]) {
        self
    }

    fn from_vec(v: Vec<T>) -> (r: Vec<T>) {
        v
    }
}

/// A key type of one's own, for `RadixMap` and `RadixSet`: a type that can
/// show itself as a slice of components and be made of components again.
///
/// An implementation says what its components are by the three `spec`
/// functions and is then held to them. Code outside `verus!` cannot say it;
/// for its sake they have bodies here that leave the components open, so that
/// nothing is known of the keys of such a type but that the containers hand
/// its slices on.
pub trait ExtensibleKey: ToOwned {
    /// A single component of the key.
    type Component: KeyComponent;

    /// The components of the key.
    open spec fn components(&self) -> Seq<Self::Component> {
        arbitrary()
    }

    /// The sequence is the components of some key.
    open spec fn is_key(s: Seq<Self::Component>) -> bool {
        true
    }

    /// The components of a key in its owned form.
    open spec fn owned_components(o: &Self::Owned) -> Seq<Self::Component> {
        arbitrary()
    }

    /// The components of the key as a slice, by which the key finds its
    /// place in a radix tree.
    fn as_slice<'a>(&'a self) -> (r: &'a [Self::Component])
        ensures
            r@ == self.components(),
            Self::is_key(r@),
    ;

    /// The owned key with the given components.
    fn from_vec(v: Vec<Self::Component>) -> (r: Self::Owned)
        requires
            Self::is_key(v@),
        ensures
            Self::owned_components(&r) == v@,
    ;
}

/// Every key type of one's own is a key.
impl<T: ExtensibleKey> Key for T {
    type Component = T::Component;

    open spec fn components(&self) -> Seq<Self::Component> {
        ExtensibleKey::components(self)
    }

    open spec fn is_key(s: Seq<Self::Component>) -> bool {
        <T as ExtensibleKey>::is_key(s)
    }

    open spec fn owned_components(o: &Self::Owned) -> Seq<Self::Component> {
        <T as ExtensibleKey>::owned_components(o)
    }

    fn as_slice<'a>(&'a self) -> (r: &'a [Self::Component]) {
        ExtensibleKey::as_slice(self)
    }

    fn from_vec(v: Vec<Self::Component>) -> (r: Self::Owned) {
        <T as ExtensibleKey>::from_vec(v)
    }
}

} // verus!
