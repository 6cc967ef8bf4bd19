//! Read fingerprints: minimizer hash sets for content duplicates, flowcell
//! positions for optical duplicates.

use crate::similarity::{calculate_jaccard_similarity, jaccard_at_least, Ratio};
use vstd::prelude::*;

verus! {

/// What every fingerprint offers to the clustering engine: a similarity test
/// against a threshold, and a notion of being blank (no usable fingerprint).
pub trait Fingerprint {
    /// Whether `other` is similar enough to `self` to count as its duplicate.
    spec fn similar_spec(&self, other: &Self, t: Ratio) -> bool;

    /// The fingerprint could not be derived; it never meets a positive threshold.
    spec fn blank(&self) -> bool;

    fn similar(&self, other: &Self, t: &Ratio) -> (r: bool)
        requires
            t.wf(),
        ensures
            r == self.similar_spec(other, *t),
    ;

    /// A blank fingerprint is similar to nothing, at every threshold.
    proof fn lemma_blank_isolated(&self, other: &Self, t: Ratio)
        requires
            self.blank() || other.blank(),
        ensures
            !self.similar_spec(other, t),
    ;
}

/// The bases that ntHash accepts.
pub open spec fn is_nucleotide(b: u8) -> bool {
    b == 65u8 || b == 67u8 || b == 71u8 || b == 84u8 || b == 78u8
}

/// The minimizer hashes that biometal computes for `seq` with k-mer size `k`
/// and window `w`.
pub uninterp spec fn minimizer_hashes_of(seq: Seq<u8>, k: usize, w: usize) -> Seq<u64>;

/// Parameters outside the range where minimizers are computed at all; biometal
/// then returns no minimizer.
pub open spec fn minimizers_trivial(seq: Seq<u8>, k: usize, w: usize) -> bool {
    k == 0 || w == 0 || k > seq.len()
}

/// Relies on biometal::operations::kmer::extract_minimizers_fast: the hash of
/// each minimizer it returns. The call returns an empty list when `k` or `w`
/// is 0 or `k` exceeds the length, fails when `k` exceeds `u32::MAX` or one of
/// the first `k` bases is not A, C, G, T or N, and panics on such a base later
/// in the sequence (its rolling update unwraps), which `requires` excludes.
#[verifier::external_body]
fn minimizer_hashes(seq: &[u8], k: usize, w: usize) -> (r: Option<Vec<u64>>)
    requires
        minimizers_trivial(seq@, k, w) || forall|i: int|
            k <= i < seq@.len() ==> #[trigger] is_nucleotide(seq@[i]),
    ensures
        r is Some ==> r->Some_0@ == minimizer_hashes_of(seq@, k, w),
        minimizers_trivial(seq@, k, w) ==> r is Some && r->Some_0@.len() == 0,
        !minimizers_trivial(seq@, k, w) ==> (r is None <==> (k > u32::MAX || exists|i: int|
            0 <= i < k && !#[trigger] is_nucleotide(seq@[i]))),
{
    biometal::operations::kmer::extract_minimizers_fast(seq, k, w).ok().map(
        |v| v.iter().map(|m| m.hash).collect(),
    )
}

/// Whether `extract_minimizers` yields biometal's minimizers for the read;
/// otherwise the read gets an empty fingerprint.
pub open spec fn minimizers_defined(seq: Seq<u8>, k: usize, w: usize) -> bool {
    minimizers_trivial(seq, k, w) || (k <= u32::MAX && forall|i: int|
        0 <= i < seq.len() ==> #[trigger] is_nucleotide(seq[i]))
}

/// A content fingerprint: the minimizer hashes of a read, read as a set.
#[derive(Clone, Debug)]
pub struct MinimizerSet {
    pub hashes: Vec<u64>,
}

impl View for MinimizerSet {
    type V = Set<u64>;

    open spec fn view(&self) -> Set<u64> {
        self.hashes@.to_set()
    }
}

impl MinimizerSet {
    /// The fingerprint of a read: its minimizer hashes, or the empty set when
    /// they cannot be computed (a base other than A, C, G, T or N, or an
    /// oversized k-mer).
    pub fn extract_minimizers(seq: &Vec<u8>, k: usize, w: usize) -> (r: MinimizerSet)
        ensures
            r.hashes@ == (if minimizers_defined(seq@, k, w) {
                minimizer_hashes_of(seq@, k, w)
            } else {
                Seq::empty()
            }),
    {
        if !(k == 0 || w == 0 || k > seq.len()) {
            let mut i: usize = 0;
            while i < seq.len()
                invariant
                    0 <= i <= seq.len(),
                    !minimizers_trivial(seq@, k, w),
                    forall|j: int| 0 <= j < i ==> #[trigger] is_nucleotide(seq@[j]),
                decreases seq.len() - i,
            {
                let b = seq[i];
                if !(b == 65u8 || b == 67u8 || b == 71u8 || b == 84u8 || b == 78u8) {
                    assert(!is_nucleotide(seq@[i as int]));
                    return MinimizerSet { hashes: Vec::new() };
                }
                i += 1;
            }
        }
        match minimizer_hashes(seq.as_slice(), k, w) {
            Some(hashes) => MinimizerSet { hashes },
            None => MinimizerSet { hashes: Vec::new() },
        }
    }
}

impl Fingerprint for MinimizerSet {
    /// An empty set is a failed extraction and matches nothing, whatever the
    /// threshold; otherwise the Jaccard index must reach the threshold.
    open spec fn similar_spec(&self, other: &Self, t: Ratio) -> bool {
        self.hashes@.len() > 0 && other.hashes@.len() > 0 && jaccard_at_least(self@, other@, t)
    }

    open spec fn blank(&self) -> bool {
        self.hashes@.len() == 0
    }

    fn similar(&self, other: &Self, t: &Ratio) -> (r: bool) {
        if self.hashes.len() == 0 || other.hashes.len() == 0 {
            false
        } else {
            calculate_jaccard_similarity(&self.hashes, &other.hashes).at_least(t)
        }
    }

    proof fn lemma_blank_isolated(&self, other: &Self, t: Ratio) {
    }
}

/// Two minimizer sets with the same hashes are similar at every threshold in
/// `[0, 1]`, provided the set is not empty.
pub proof fn lemma_same_hashes_similar(a: MinimizerSet, b: MinimizerSet, t: Ratio)
    requires
        a@ == b@,
        a.hashes@.len() > 0,
        t.is_unit(),
    ensures
        a.similar_spec(&b, t),
{
    broadcast use vstd::seq_lib::seq_to_set_is_finite;

    a.hashes@.lemma_cardinality_of_set();
    assert(a@.contains(a.hashes@[0]));
    if b.hashes@.len() == 0 {
        assert(b@ =~= Set::empty());
    }
    crate::similarity::lemma_jaccard_self(a@, t);
}

/// Where a read was imaged, as given by an Illumina read header
/// (`instrument:run:flowcell:lane:tile:x:y read:filtered:control:index`).
#[derive(Clone, Debug)]
pub struct IlluminaCoordinate {
    pub instrument: String,
    pub run_id: u32,
    pub flowcell: String,
    pub lane: u32,
    pub tile: u32,
    pub x: u32,
    pub y: u32,
    pub read: u8,
    pub filtered: bool,
    pub control: u32,
    pub index: String,
}

/// A positional fingerprint: a known position on the flowcell, or the
/// sentinel for a read whose header could not be parsed.
#[derive(Clone, Debug)]
pub enum TilePosition {
    Unknown,
    Known(IlluminaCoordinate),
}

/// Squared Euclidean distance between two imaged positions, in pixels squared.
pub open spec fn distance_sq(a: IlluminaCoordinate, b: IlluminaCoordinate) -> int {
    (a.x - b.x) * (a.x - b.x) + (a.y - b.y) * (a.y - b.y)
}

/// Two positions lie on the same tile of the same lane of the same flowcell,
/// no further apart than `t` pixels.
pub open spec fn within_distance(a: IlluminaCoordinate, b: IlluminaCoordinate, t: Ratio) -> bool {
    &&& a.flowcell@ == b.flowcell@
    &&& a.lane == b.lane
    &&& a.tile == b.tile
    &&& distance_sq(a, b) * (t.den * t.den) <= t.num * t.num
}

fn abs_diff(a: u32, b: u32) -> (r: u64)
    ensures
        r <= u32::MAX,
        r * r == (a - b) * (a - b),
{
    if a >= b {
        let r = (a - b) as u64;
        assert(r * r == (a - b) * (a - b)) by (nonlinear_arith)
            requires
                r == a - b,
        ;
        r
    } else {
        let r = (b - a) as u64;
        assert(r * r == (a - b) * (a - b)) by (nonlinear_arith)
            requires
                r == b - a,
        ;
        r
    }
}

impl IlluminaCoordinate {
    /// Whether `other` is an optical duplicate of `self` at distance bound `t`.
    pub fn within(&self, other: &IlluminaCoordinate, t: &Ratio) -> (r: bool)
        ensures
            r == within_distance(*self, *other, *t),
    {
        if !(self.flowcell == other.flowcell && self.lane == other.lane && self.tile == other.tile) {
            return false;
        }
        let dx = abs_diff(self.x, other.x);
        let dy = abs_diff(self.y, other.y);
        proof {
            let m: int = 0xffff_ffff;
            assert(dx * dx <= m * m) by (nonlinear_arith)
                requires
                    0 <= dx <= m,
            ;
            assert(dy * dy <= m * m) by (nonlinear_arith)
                requires
                    0 <= dy <= m,
            ;
            let n: int = 0xffff_ffff_ffff_ffff;
            assert(t.den * t.den <= n * n) by (nonlinear_arith)
                requires
                    0 <= t.den <= n,
            ;
            assert(t.num * t.num <= n * n) by (nonlinear_arith)
                requires
                    0 <= t.num <= n,
            ;
        }
        let sq: u128 = (dx * dx) as u128 + (dy * dy) as u128;
        let den_sq: u128 = t.den as u128 * t.den as u128;
        let num_sq: u128 = t.num as u128 * t.num as u128;
        match sq.checked_mul(den_sq) {
            Some(lhs) => lhs <= num_sq,
            None => false,
        }
    }
}

impl Fingerprint for TilePosition {
    open spec fn similar_spec(&self, other: &Self, t: Ratio) -> bool {
        match (*self, *other) {
            (TilePosition::Known(a), TilePosition::Known(b)) => within_distance(a, b, t),
            _ => false,
        }
    }

    open spec fn blank(&self) -> bool {
        self is Unknown
    }

    fn similar(&self, other: &Self, t: &Ratio) -> (r: bool) {
        match (self, other) {
            (TilePosition::Known(a), TilePosition::Known(b)) => a.within(b, t),
            _ => false,
        }
    }

    proof fn lemma_blank_isolated(&self, other: &Self, t: Ratio) {
    }
}

/// A known position is within every distance bound of itself.
pub proof fn lemma_position_self(a: IlluminaCoordinate, t: Ratio)
    ensures
        within_distance(a, a, t),
{
    assert(distance_sq(a, a) == 0);
    assert(t.num * t.num >= 0) by (nonlinear_arith);
}

} // verus!
