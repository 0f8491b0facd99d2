//! Local search library.
//!
//! Provides a generic tabu-search minimization engine together with one
//! derived application: k-way clustering of items into groups, driven by a
//! caller-supplied cost over partitions.

pub mod clustering;
pub mod search;
pub use clustering::cluster_tabu;
pub use search::tabu_search;
