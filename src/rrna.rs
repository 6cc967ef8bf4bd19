//! Helpers for rRNA screening.

use std::collections::HashMap;
use vstd::prelude::*;

verus! {

/// The DNA base used for an RNA or IUPAC code when matching against reads:
/// U becomes T, ambiguity codes become one base they admit, case is kept,
/// and everything else passes through.
pub open spec fn dna_base(c: u8) -> u8 {
    if c == 85u8 {
        84u8
    } else if c == 117u8 {
        116u8
    } else if c == 78u8 || c == 110u8 || c == 82u8 || c == 114u8 || c == 87u8 || c == 119u8
        || c == 77u8 || c == 109u8 || c == 68u8 || c == 100u8 || c == 72u8 || c == 104u8 || c
        == 86u8 || c == 118u8 {
        65u8
    } else if c == 89u8 || c == 121u8 {
        84u8
    } else if c == 83u8 || c == 115u8 || c == 75u8 || c == 107u8 || c == 66u8 || c == 98u8 {
        71u8
    } else {
        c
    }
}

fn dna_byte(c: u8) -> (r: u8)
    ensures
        r == dna_base(c),
{
    if c == 85u8 {
        84u8
    } else if c == 117u8 {
        116u8
    } else if c == 78u8 || c == 110u8 || c == 82u8 || c == 114u8 || c == 87u8 || c == 119u8
        || c == 77u8 || c == 109u8 || c == 68u8 || c == 100u8 || c == 72u8 || c == 104u8 || c
        == 86u8 || c == 118u8 {
        65u8
    } else if c == 89u8 || c == 121u8 {
        84u8
    } else if c == 83u8 || c == 115u8 || c == 75u8 || c == 107u8 || c == 66u8 || c == 98u8 {
        71u8
    } else {
        c
    }
}

/// Converts an RNA sequence, given as UTF-8 bytes, to DNA for matching
/// against reads. Bytes outside ASCII pass through, so valid UTF-8 stays valid.
pub fn rna_to_dna(rna_sequence: &[u8]) -> (r: Vec<u8>)
    ensures
        r@ == rna_sequence@.map_values(|c: u8| dna_base(c)),
{
    let mut out: Vec<u8> = Vec::new();
    let mut i: usize = 0;
    while i < rna_sequence.len()
        invariant
            0 <= i <= rna_sequence@.len(),
            out@ == rna_sequence@.take(i as int).map_values(|c: u8| dna_base(c)),
        decreases rna_sequence@.len() - i,
    {
        out.push(dna_byte(rna_sequence[i]));
        proof {
            assert(rna_sequence@.take(i + 1).map_values(|c: u8| dna_base(c)) =~= rna_sequence@.take(
                i as int,
            ).map_values(|c: u8| dna_base(c)).push(dna_base(rna_sequence@[i as int])));
        }
        i += 1;
    }
    assert(rna_sequence@.take(rna_sequence@.len() as int) =~= rna_sequence@);
    out
}

/// An index of rRNA reference sequences by their minimizer k-mers.
#[derive(Clone, Debug)]
pub struct RrnaDatabase {
    /// Minimizer k-mer to the identifiers of the sequences that hold it.
    pub minimizer_index: HashMap<String, Vec<String>>,
    pub sequence_names: Vec<String>,
    pub total_sequences: usize,
}

impl RrnaDatabase {
    /// An empty database.
    pub fn new() -> (r: Self)
        ensures
            r.minimizer_index@ == Map::<String, Vec<String>>::empty(),
            r.sequence_names@.len() == 0,
            r.total_sequences == 0,
    {
        RrnaDatabase { minimizer_index: HashMap::new(), sequence_names: Vec::new(), total_sequences: 0 }
    }
}

} // verus!
