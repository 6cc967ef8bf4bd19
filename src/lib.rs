//! Quality-control building blocks for short-read sequencing data.
//!
//! The heart of the library is a duplicate-read engine: reads carry a
//! fingerprint (a set of minimizer hashes, or a position on the flowcell),
//! fingerprints are grouped by greedy anchor clustering, one representative
//! survives per group and the rest are filtered out of the stream.

use vstd::prelude::*;

pub mod clustering;
pub mod dedup;
pub mod fingerprint;
pub mod quality;
pub mod rrna;
pub mod samples;
pub mod selection;
pub mod similarity;
pub mod trimming;

verus! {

/// Marker for the statistics records that the tools report.
pub trait QcStatsMarker {

}

/// Whether the biometal primitives are linked in; they always are.
pub fn check_biometal_availability() -> (r: bool)
    ensures
        r,
{
    true
}

} // verus!
