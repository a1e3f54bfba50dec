//! Hierarchical navigable small world graphs for approximate nearest neighbor search.
//!
//! [`Hnsw`] and [`HnswRuntime`] are the two types of index. What they hold, what their
//! searches find and what their insertions leave behind is said in [`model`], and what
//! follows from it in [`laws`].

pub mod feature_store;
pub mod growth;
pub mod heap;
pub mod hnsw_const;
pub mod hnsw_runtime;
pub mod index;
pub mod join;
pub mod laws;
pub mod metric;
pub mod model;
pub mod nodes;
pub mod operations;
pub mod params;
pub mod parts;
pub mod ranking;
pub mod search;
pub mod seen;
pub mod select;
pub mod sound;
pub mod thorough;
pub mod tombstones;
pub mod traverse;
pub mod unit;
pub mod wire;

pub use feature_store::FeatureStore;
pub use hnsw_const::Hnsw;
pub use hnsw_runtime::HnswRuntime;
pub use metric::{Metric, Neighbor};
pub use params::{LevelSource, Params};
pub use search::Searcher;
