//! Approximate nearest-neighbour search over a layered small-world graph.

pub mod buckets;
pub mod candidates;
pub mod connect;
pub mod distance;
pub mod graph;
pub mod hnsw;
pub mod nearest_queue;
pub mod ranking;
pub mod sampler;
pub mod search;
pub mod searcher;
pub mod seen;
pub mod select;

pub use crate::distance::{Distance, Euclidean, Hamming};
pub use crate::hnsw::HNSW;
pub use crate::nearest_queue::NearestQueue;
pub use crate::searcher::Searcher;
