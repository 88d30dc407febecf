//! Incremental inference of the structure of a stream of JSON documents.
//!
//! A [`type_set::TypeSet`] records, for every path of the documents seen so
//! far, which kinds of value occurred there, whether a known field was ever
//! missing, and what the elements of arrays there looked like. Each document
//! is merged into the root node, which reports whether anything changed; the
//! [`policy`] decides from that when the snapshot is to be rewritten, and
//! [`codec`] maps a node to and from its snapshot.

pub mod codec;
pub mod growth;
pub mod json;
pub mod keys;
pub mod policy;
pub mod shape;
pub mod type_set;

use vstd::prelude::*;

verus! {

/// The identity function.
pub fn id<T>(t: T) -> (r: T)
    ensures
        r == t,
{
    t
}

} // verus!
