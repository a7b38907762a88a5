//! Wave Function Collapse map generation.
//!
//! The crate learns per-tile-type adjacency rules and occurrence
//! frequencies from a sample grid, then collapses a fresh grid of
//! superpositions into a fully concrete grid consistent with those
//! rules, by minimum-entropy selection, frequency-weighted candidate
//! sampling, one-hop constraint propagation, and chronological
//! backtracking.

use vstd::prelude::*;

pub mod board;
pub mod driver;
pub mod learn;
pub mod parse;
pub mod rng;
pub mod sampler;
pub mod rules;
pub mod solver;

verus! {

/// Ways a generation request can fail.
///
/// I/O belongs to the caller; the library starts from the sample text
/// already in memory, so only these two failures remain.
#[derive(Clone, Copy, PartialEq, Eq, Structural, Debug)]
pub enum WfcError {
    /// The sample text holds a token that is not a decimal integer
    /// fitting in `usize`.
    Parse,
    /// The search exhausted every candidate at the root without
    /// finding a fully concrete, rule-consistent grid.
    Unsolvable,
}

} // verus!
