//! Bicluster discovery in weighted bipartite graphs.
//!
//! The crate models a weighted bipartite graph over two node sets, plants
//! synthetic ground-truth blocks into generated graphs, extracts dense
//! sub-blocks with a worklist-driven partitioning engine, and scores one
//! collection of biclusters against another. Weights and ratio parameters
//! are fixed-point integers: a ratio of one is `SCALE`.

use vstd::prelude::*;

pub mod biclust;
pub mod codec;
pub mod adapter;
pub mod errors;
pub mod graph;
pub mod algo;
pub mod score;
pub mod synth;

verus! {

/// Fixed-point unit: the ratio 1.0 is represented by this value.
pub const SCALE: u64 = 1000;

/// Largest node-set size (rows or columns) a well-formed graph may have;
/// keeps every weight sum of this crate inside its integer type.
pub const MAX_DIM: usize = 10000;

/// Largest edge weight a well-formed graph may carry.
pub const MAX_WEIGHT: u64 = 1000000000;

/// Largest scaled value accepted for the engine's ratio parameters.
pub const MAX_PARAM: u64 = 1000000000;

/// Default size sensitivity: 1.0 in fixed point.
pub const DEFAULT_SIZE_SENSITIVITY: u64 = 1000;

/// Default split threshold: 1.0 in fixed point.
pub const DEFAULT_SPLIT_THRESHOLD: u64 = 1000;

/// Default power-iteration count.
pub const DEFAULT_POWER_ITERATIONS: usize = 3;

} // verus!
