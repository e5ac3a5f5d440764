//! Combinatorial core of a spectral graph toolkit: weighted adjacency
//! lists built from recorded edges, standard graph families, degrees,
//! connectivity and articulation points.

pub mod articulation;
pub mod builders;
pub mod cluster;
pub mod cut;
pub mod dfs;
pub mod directed;
pub mod error;
pub mod forest;
pub mod graph;
pub mod laws;
pub mod properties;
pub mod reach;

pub use error::SgError;
pub use graph::{GraphModel, SpectralGraph};
