//! Verified core of RDF Glance: the data structures, orderings, graph
//! algorithms and the binary project format that the viewer builds on.

pub mod layoutalg;
pub mod meta_graph;
pub mod nobject;
pub mod persistency;
pub mod prefix_manager;
pub mod rdfwrap;
pub mod string_indexer;
pub mod support;
pub mod table_view;
pub mod ui;

pub use support::sorted_vec::SortedVec;

use vstd::prelude::*;

verus! {

/// Index of an interned IRI (node, type or predicate).
pub type IriIndex = usize;

} // verus!
