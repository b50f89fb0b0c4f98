//! A Vamana-style approximate nearest-neighbour index.
//!
//! Vectors are stored as rows of raw 32-bit words; how a row is ranked
//! against a query is decided by a caller-chosen distance strategy that
//! maps a pair of rows to a totally ordered `u64` key.  Everything the
//! engine decides — graph construction, pruning, search order, the file
//! format, compaction, the registry — is verified here; the strategy
//! alone interprets the stored words.

pub mod errors;
pub mod metric;
pub mod model;
pub mod graph;
pub mod engine;
pub mod quantize;
pub mod index;
pub mod codec;
pub mod registry;
pub mod streaming;
