//! Clustering built on the tabu-search engine, with its distance helpers.

pub mod cluster_tabu;
pub mod diameter;
pub mod metrics;

pub use cluster_tabu::cluster_tabu;
pub use cluster_tabu::ClusterSpace;
pub use cluster_tabu::Element;
pub use cluster_tabu::MaxDiameterCost;
pub use cluster_tabu::PartitionCost;

pub use diameter::diameter;
pub use diameter::AbsDistance;
pub use diameter::Distance;
