//! Dispatch-resolution order for single dispatch: the C3 linearization of a
//! query type, with the abstract types of a registry spliced in where the
//! query type's declared conformance puts them.
//!
//! Types are named by handles: indices into a `graph::TypeGraph` snapshot.
use vstd::prelude::*;

pub mod compose;
pub mod graph;
pub mod laws;
pub mod linearize;
pub mod merge;

verus! {

} // verus!
