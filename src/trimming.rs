//! Read trimming: adapter trim positions and polyG tails.

use vstd::prelude::*;

verus! {

/// Settings for trimming adapters found in reads.
#[derive(Clone, Copy, Debug, PartialEq, Eq, Structural)]
pub struct AdapterTrimmer {
    pub min_adapter_length: usize,
    pub min_overlap: usize,
    pub trim_both_ends: bool,
}

impl Default for AdapterTrimmer {
    fn default() -> (r: Self)
        ensures
            r.min_adapter_length == 8,
            r.min_overlap == 5,
            r.trim_both_ends,
    {
        AdapterTrimmer { min_adapter_length: 8, min_overlap: 5, trim_both_ends: true }
    }
}

/// Bases to cut from the 5' and 3' ends for an adapter match at `position`
/// of `length` bases in a read of `sequence_length` bases; `None` when the
/// match calls for no trimming.
pub open spec fn trim_position_spec(
    tr: AdapterTrimmer,
    position: int,
    length: int,
    sequence_length: int,
) -> Option<(int, int)> {
    let start = if position <= tr.min_overlap {
        position + length
    } else {
        0
    };
    let end = if tr.trim_both_ends && position + length >= sequence_length - tr.min_overlap {
        sequence_length - position
    } else {
        0
    };
    if start > 0 || end > 0 {
        Some((start, end))
    } else {
        None
    }
}

impl AdapterTrimmer {
    /// A trimmer with the given settings.
    pub fn new(min_adapter_length: usize, min_overlap: usize, trim_both_ends: bool) -> (r: Self)
        ensures
            r == (AdapterTrimmer { min_adapter_length, min_overlap, trim_both_ends }),
    {
        AdapterTrimmer { min_adapter_length, min_overlap, trim_both_ends }
    }

    /// Trim lengths for an adapter match lying within the read. A match that
    /// starts within `min_overlap` of the 5' end cuts through its end; with
    /// `trim_both_ends`, one that ends within `min_overlap` of the 3' end cuts
    /// from its start.
    pub fn calculate_trim_position(
        &self,
        position: usize,
        length: usize,
        sequence_length: usize,
    ) -> (r: Option<(usize, usize)>)
        requires
            position + length <= sequence_length,
            self.trim_both_ends ==> self.min_overlap <= sequence_length,
        ensures
            r matches Some((s, e)) ==> trim_position_spec(
                *self,
                position as int,
                length as int,
                sequence_length as int,
            ) == Some((s as int, e as int)),
            r is None <==> trim_position_spec(
                *self,
                position as int,
                length as int,
                sequence_length as int,
            ) is None,
    {
        let mut trim_start: usize = 0;
        let mut trim_end: usize = 0;
        if position <= self.min_overlap {
            trim_start = position + length;
        }
        if self.trim_both_ends && position + length >= sequence_length - self.min_overlap {
            trim_end = sequence_length - position;
        }
        if trim_start > 0 || trim_end > 0 {
            Some((trim_start, trim_end))
        } else {
            None
        }
    }
}

/// Settings for cutting polyG runs, the artefact of two-colour chemistry.
#[derive(Clone, Copy, Debug, PartialEq, Eq, Structural)]
pub struct PolyGTrimmer {
    pub min_polyg_length: usize,
    pub min_read_length: usize,
}

/// `G` or `g`.
pub open spec fn is_g(b: u8) -> bool {
    b == 71u8 || b == 103u8
}

/// Length of the run of G bases at the 3' end of `seq`.
pub open spec fn trailing_g(seq: Seq<u8>) -> nat
    decreases seq.len(),
{
    if seq.len() == 0 || !is_g(seq.last()) {
        0
    } else {
        1 + trailing_g(seq.drop_last())
    }
}

/// Bases cut from the 3' end: the whole trailing G run when it has at least
/// `min_len` bases, none otherwise.
pub open spec fn polyg_cut_len(seq: Seq<u8>, min_len: usize) -> nat {
    if trailing_g(seq) >= min_len {
        trailing_g(seq)
    } else {
        0
    }
}

proof fn lemma_trailing_g_bound(seq: Seq<u8>)
    ensures
        trailing_g(seq) <= seq.len(),
    decreases seq.len(),
{
    if seq.len() > 0 {
        lemma_trailing_g_bound(seq.drop_last());
    }
}

fn copy_prefix(v: &[u8], p: usize) -> (r: Vec<u8>)
    requires
        p <= v@.len(),
    ensures
        r@ == v@.subrange(0, p as int),
{
    let mut out: Vec<u8> = Vec::new();
    let mut i: usize = 0;
    while i < p
        invariant
            0 <= i <= p <= v@.len(),
            out@ == v@.subrange(0, i as int),
        decreases p - i,
    {
        out.push(v[i]);
        proof {
            assert(v@.subrange(0, i + 1) =~= v@.subrange(0, i as int).push(v@[i as int]));
        }
        i += 1;
    }
    out
}

impl PolyGTrimmer {
    /// A trimmer with the given settings.
    pub fn new(min_polyg_length: usize, min_read_length: usize) -> (r: Self)
        ensures
            r == (PolyGTrimmer { min_polyg_length, min_read_length }),
    {
        PolyGTrimmer { min_polyg_length, min_read_length }
    }

    /// Cuts the polyG tail of a read, and its quality string alike: the run
    /// of G bases at the 3' end goes when it has at least `min_polyg_length`
    /// bases. Returns the kept bases, the kept qualities and the number of
    /// bases removed.
    pub fn trim_polyg_tail(&self, sequence: &[u8], quality: &[u8]) -> (r: (
        Vec<u8>,
        Vec<u8>,
        usize,
    ))
        requires
            quality@.len() == sequence@.len(),
        ensures
            r.2 == polyg_cut_len(sequence@, self.min_polyg_length),
            r.0@ == sequence@.subrange(0, sequence@.len() - r.2),
            r.1@ == quality@.subrange(0, sequence@.len() - r.2),
    {
        let seq_len = sequence.len();
        let mut i: usize = seq_len;
        proof {
            assert(sequence@.subrange(0, seq_len as int) =~= sequence@);
        }
        while i > 0 && (sequence[i - 1] == 71u8 || sequence[i - 1] == 103u8)
            invariant
                0 <= i <= seq_len == sequence@.len(),
                trailing_g(sequence@) == (seq_len - i) + trailing_g(sequence@.subrange(0, i as int)),
            decreases i,
        {
            proof {
                assert(sequence@.subrange(0, i as int).drop_last() =~= sequence@.subrange(0, i - 1));
            }
            i -= 1;
        }
        proof {
            if i > 0 {
                assert(sequence@.subrange(0, i as int).last() == sequence@[i - 1]);
            }
            lemma_trailing_g_bound(sequence@);
        }
        let run = seq_len - i;
        let cut: usize = if run >= self.min_polyg_length {
            run
        } else {
            0
        };
        let trimmed_seq = copy_prefix(sequence, seq_len - cut);
        let trimmed_qual = copy_prefix(quality, seq_len - cut);
        (trimmed_seq, trimmed_qual, cut)
    }

    /// Whether a trimmed read is long enough to be written out.
    pub fn keeps(&self, trimmed_len: usize) -> (r: bool)
        ensures
            r == (trimmed_len >= self.min_read_length),
    {
        trimmed_len >= self.min_read_length
    }
}

/// Running counts of a polyG trimming pass.
#[derive(Clone, Copy, Debug, PartialEq, Eq, Structural)]
pub struct PolyGTally {
    pub total_reads: u64,
    pub reads_trimmed: u64,
    pub reads_discarded: u64,
    pub total_bases_removed: u64,
}

impl PolyGTally {
    /// No read trimmed or discarded can outnumber the reads seen.
    pub open spec fn wf(&self) -> bool {
        self.reads_trimmed <= self.total_reads && self.reads_discarded <= self.total_reads
    }

    /// Counts before any read.
    pub fn new() -> (r: Self)
        ensures
            r == (PolyGTally {
                total_reads: 0,
                reads_trimmed: 0,
                reads_discarded: 0,
                total_bases_removed: 0,
            }),
            r.wf(),
    {
        PolyGTally { total_reads: 0, reads_trimmed: 0, reads_discarded: 0, total_bases_removed: 0 }
    }

    /// Counts one read from which `removed` bases were cut and which is
    /// written out when `kept`.
    pub fn record(&mut self, removed: usize, kept: bool)
        requires
            old(self).wf(),
            old(self).total_reads < u64::MAX,
            old(self).total_bases_removed + removed <= u64::MAX,
        ensures
            final(self).wf(),
            final(self).total_reads == old(self).total_reads + 1,
            final(self).reads_trimmed == old(self).reads_trimmed + if removed > 0 {
                1int
            } else {
                0int
            },
            final(self).reads_discarded == old(self).reads_discarded + if kept {
                0int
            } else {
                1int
            },
            final(self).total_bases_removed == old(self).total_bases_removed + removed,
    {
        self.total_reads = self.total_reads + 1;
        if removed > 0 {
            self.reads_trimmed = self.reads_trimmed + 1;
        }
        if !kept {
            self.reads_discarded = self.reads_discarded + 1;
        }
        self.total_bases_removed = self.total_bases_removed + removed as u64;
    }
}

} // verus!
