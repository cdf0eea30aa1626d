//! Error taxonomy: invalid engine parameters, malformed textual input, and
//! label-resolution failures between a graph and an external cluster listing.

use vstd::prelude::*;

verus! {

/// Invalid algorithm parameters, rejected before any graph mutation.
#[derive(PartialEq, Eq, Structural, Clone, Copy, Debug)]
pub enum ConfigError {
    /// The split threshold is below one (below `SCALE` in fixed point).
    SplitThresholdTooLow,
    /// The power-iteration count is zero.
    NoPowerIterations,
}

/// Malformed textual graph or cluster-listing input.
#[derive(PartialEq, Eq, Structural, Clone, Copy, Debug)]
pub enum ParseError {
    /// A line could not be split into two endpoints and a decimal weight.
    BadLine,
    /// A weight exceeds the cap on edge weights.
    WeightTooLarge,
    /// More distinct node labels than the dimension cap allows.
    TooManyNodes,
}

/// A label of an external cluster listing that the graph's label table
/// cannot resolve: the two sides are desynchronized.
#[derive(PartialEq, Eq, Structural, Clone, Copy, Debug)]
pub enum MappingError {
    /// A row label of the listing is absent from the row-label table.
    UnknownRowLabel,
    /// A column label of the listing is absent from the column-label table.
    UnknownColLabel,
}

impl ConfigError {
    /// A short human-readable description.
    pub fn describe(&self) -> (r: &'static str)
    {
        match self {
            ConfigError::SplitThresholdTooLow => "split threshold must be at least one",
            ConfigError::NoPowerIterations => "power iteration count must be at least one",
        }
    }
}

} // verus!
