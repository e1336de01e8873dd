//! Top-k dot-product search over sparse vectors through an inverted index.
//!
//! Weights are signed 32-bit integers; a score is the exact sum of the products
//! of weights, held in 128 bits, so no score is rounded or overflows.

pub mod types;
pub mod vector;
pub mod posting;
pub mod scored_candidate;
pub mod fixed_length_pq;
pub mod inverted_index;
pub mod search_context;
pub mod mutable_index;
pub mod storage;
pub mod persistence;
pub mod inverted_index_mmap;
