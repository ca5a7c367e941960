//! The outcome of typing one marker.
//!
//! A `TypingResult` carries the genotype call (the sketches that survived
//! both filter stages, in ascending order), the coverage statistics of the
//! marker's span, the number of partial sketches that were discarded, the
//! resolved thresholds, and the full raw tally, so that every call is fully
//! auditable.

use vstd::prelude::*;

use crate::counter::ReadHapCounter;
use crate::read::ReadHaplotype;
use crate::thresholds::TypingThresholds;

verus! {

/// Per-position depth statistics over a marker's span.  The mean depth is
/// the ratio of `total_depth` to `num_positions`, left to the presentation
/// layer, which must also pick a convention for an empty span.
#[derive(Clone, Copy, Debug, PartialEq, Eq, Structural)]
pub struct TypingCoverage {
    pub max: u32,
    pub total_depth: u128,
    pub num_positions: usize,
    pub min: u32,
}

/// Typing result for a single microhap marker.
#[derive(Debug)]
pub struct TypingResult {
    pub genotype: Vec<ReadHaplotype>,
    pub coverage: TypingCoverage,
    pub num_discarded: usize,
    pub thresholds: TypingThresholds,
    pub counts: ReadHapCounter,
}

} // verus!
