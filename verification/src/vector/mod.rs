//! Vector attributes and nearest-neighbour search.
//!
//! Components and distances are single-precision numbers, held by their bits.
//! The distance between two vectors is what a caller's function answers.

pub mod byte_reader;
pub mod cursor;
pub mod distance;
pub mod hnsw;
pub mod hnsw_build;
pub mod hnsw_cursor;
pub mod hnsw_once;
pub mod hnsw_memory;
pub mod hnsw_search;
pub mod hnsw_select;
pub mod load_laws;
pub mod metric;
pub mod nearest_laws;
pub mod ranking;
pub mod sidecar;
pub mod store;
