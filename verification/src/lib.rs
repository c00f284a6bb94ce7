//! Call-graph layering analysis over a language-server-fed project.
//!
//! The library turns raw caller/callee edges, obtained from a language
//! server's call-hierarchy queries, into a per-item set of root-to-item
//! call paths and the items that entry points reach at
//! inconsistent depths via distinct chains.

use vstd::prelude::*;

pub mod analyze;
pub mod bootstrap;
pub mod graph;
pub mod indexer;
pub mod item;
pub mod names;

verus! {

} // verus!
