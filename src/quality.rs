//! Per-read quality summaries.

use vstd::prelude::*;

verus! {

/// Settings for whole-file quality statistics.
#[derive(Clone, Copy, Debug, PartialEq, Eq, Structural)]
pub struct QualityAnalyzer {
    pub min_quality: u8,
    pub min_length: usize,
}

impl Default for QualityAnalyzer {
    fn default() -> (r: Self)
        ensures
            r.min_quality == 20,
            r.min_length == 50,
    {
        QualityAnalyzer { min_quality: 20, min_length: 50 }
    }
}

/// Phred+33 character of quality 30.
pub const Q30_CHAR: u8 = 63;

/// Phred+33 character of quality 20.
pub const Q20_CHAR: u8 = 53;

/// How many quality characters of `q` are at least `c`.
pub open spec fn count_at_least(q: Seq<u8>, c: u8) -> nat
    decreases q.len(),
{
    if q.len() == 0 {
        0
    } else {
        count_at_least(q.drop_last(), c) + if q.last() >= c {
            1nat
        } else {
            0nat
        }
    }
}

/// Counts of high-quality bases in one quality string.
#[derive(Clone, Copy, Debug, PartialEq, Eq, Structural)]
pub struct QualityCounts {
    pub total: usize,
    pub q30: usize,
    pub q20: usize,
}

impl QualityAnalyzer {
    /// An analyzer with the given settings.
    pub fn new(min_quality: u8, min_length: usize) -> (r: Self)
        ensures
            r == (QualityAnalyzer { min_quality, min_length }),
    {
        QualityAnalyzer { min_quality, min_length }
    }

    /// Counts the bases of quality 30 or more and of quality 20 or more.
    pub fn quality_counts(&self, qualities: &[u8]) -> (r: QualityCounts)
        ensures
            r.total == qualities@.len(),
            r.q30 == count_at_least(qualities@, Q30_CHAR),
            r.q20 == count_at_least(qualities@, Q20_CHAR),
    {
        let mut q30: usize = 0;
        let mut q20: usize = 0;
        let mut i: usize = 0;
        while i < qualities.len()
            invariant
                0 <= i <= qualities@.len(),
                q30 == count_at_least(qualities@.take(i as int), Q30_CHAR),
                q20 == count_at_least(qualities@.take(i as int), Q20_CHAR),
                q30 <= i,
                q20 <= i,
            decreases qualities@.len() - i,
        {
            assert(qualities@.take(i + 1).drop_last() =~= qualities@.take(i as int));
            if qualities[i] >= Q30_CHAR {
                q30 += 1;
            }
            if qualities[i] >= Q20_CHAR {
                q20 += 1;
            }
            i += 1;
        }
        assert(qualities@.take(qualities@.len() as int) =~= qualities@);
        QualityCounts { total: qualities.len(), q30, q20 }
    }
}

} // verus!
