//! FLASH: an approximate nearest-neighbor index for sparse vectors.
//!
//! Densified one-permutation min-hashes (DOPH) map a sparse vector to one
//! bucket identifier per table; a reservoir-sampled inverted index stores
//! bounded buckets of IDs and answers top-k candidate queries by tallying
//! bucket co-occurrences across tables.

pub mod batch;
pub mod config;
pub mod doph;
pub mod entropy;
pub mod heap_array;
pub mod lsh;
