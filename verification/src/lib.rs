//! MST-based clustering of fixed-length hex-digit records.
//!
//! The pipeline parses textual hex records into digit sequences, builds the
//! complete weighted graph over them (Manhattan distance), extracts a
//! spanning tree by a greedy minimum-edge rule, removes the `k - 1` heaviest
//! tree edges, and reads the resulting connected components back as clusters,
//! each with a rounded per-position midpoint record.

use vstd::prelude::*;

pub mod centroid;
pub mod codec;
pub mod components;
pub mod graph;
pub mod lookup;
pub mod metric;
pub mod mst;
pub mod pipeline;
pub mod prune;

verus! {

/// A record: one small integer per hex digit of the input line.
pub type Number = Vec<u8>;

/// The error taxonomy of the pipeline. Every failure is reported as a value;
/// no verified function panics.
#[derive(Debug)]
pub enum Error {
    /// A line held a character that is not a hex digit, or its length
    /// differed from the other records'. Carries the offending line.
    ParseError { line: String },
    /// The requested cluster count lies outside `[1, n]` for `n` records.
    InvalidClusterCount { k: usize, n: usize },
    /// A record was not found in any cluster of a partition.
    RecordNotFound,
}

} // verus!
