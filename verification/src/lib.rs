//! Ordered containers on a radix tree: keys are sequences of components, and
//! keys that start alike share the edges that spell their common part. The
//! tree offers lookup, insertion, removal, a walk in key order and a search by
//! prefix; `RadixMap` and `RadixSet` dress it as a map and a set.

mod changes;
mod components;
mod entries;
pub mod iter;
pub mod key;
pub mod laws;
pub mod map;
pub mod order;
pub mod path;
mod places;
pub mod set;
pub mod tree;

pub use map::RadixMap;
pub use set::RadixSet;
