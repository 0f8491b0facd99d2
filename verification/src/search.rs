//! Local-search algorithms: the tabu-search engine and example search spaces.

pub mod spaces;
pub mod tabu;

pub use tabu::tabu_search;
pub use tabu::SearchSpace;
