//! Transitive closure of bibliographic reference graphs.
//!
//! A collection of bibliographic entries is linked by two independent
//! directed relations, "further references" and "depends on".  This crate
//! computes, for each entry, the set of keys transitively reachable under
//! each relation, tolerating cycles, tracking the breadth-first depth that
//! the traversal explored, and detecting duplicate keys in the input.

pub mod graph;
pub mod laws;
pub mod models;
pub mod store;
pub mod text;
pub mod transitive_closure;

pub use models::Bibkey;
pub use models::BibView;
pub use models::ClosedView;
pub use models::Relation;
pub use models::RustedBibEntry;
pub use models::TransitivelyClosedBibEntry;
