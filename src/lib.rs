//! A sparse-vector inverted index with verified contracts.
//!
//! - `sparse_vector`: the vector type, its well-formedness and the dot product.
//! - `inverted_index`: growable posting lists, one per dimension; bulk build
//!   and point-by-point upsert, both proved to index exactly the stored vectors.
//! - `immutable_index`: the same lists laid end to end, and their persisted
//!   byte form with a round-trip law.
//! - `search`: full-scan and posting-list scoring, top-k selection, and the
//!   laws that tie the two scans together.
//! - `vector_index`: storage plus index, choosing between the two scans.
//! - `fixtures`: ready-made indexes over given or random vectors.

pub mod sparse_vector;
pub mod inverted_index;
pub mod immutable_index;
pub mod search;
pub mod vector_index;
pub mod fixtures;
