//! Choosing the surviving read of each duplicate group.

use vstd::prelude::*;

verus! {

/// The Phred+33 offset of FASTQ quality characters.
pub const PHRED_OFFSET: u8 = 33;

/// Which member of a duplicate group survives.
#[derive(Clone, Copy, Debug, PartialEq, Eq, Structural)]
pub enum SelectionPolicy {
    /// The group's anchor, its lowest index.
    FirstOccurrence,
    /// The member with the highest mean quality; among equal means, the
    /// lowest index.
    BestQuality,
}

/// Every character of a quality string is at least the Phred+33 offset, and
/// the string is short enough for exact sums.
pub open spec fn valid_quality(q: Seq<u8>) -> bool {
    q.len() <= u32::MAX && forall|i: int| 0 <= i < q.len() ==> #[trigger] q[i] >= PHRED_OFFSET
}

/// Whether every character of `q` decodes and `q` is short enough for exact sums.
pub fn is_valid_quality(q: &Vec<u8>) -> (r: bool)
    ensures
        r == valid_quality(q@),
{
    if q.len() > u32::MAX as usize {
        return false;
    }
    let mut i: usize = 0;
    while i < q.len()
        invariant
            0 <= i <= q@.len(),
            forall|j: int| 0 <= j < i ==> #[trigger] q@[j] >= PHRED_OFFSET,
        decreases q@.len() - i,
    {
        if q[i] < PHRED_OFFSET {
            return false;
        }
        i += 1;
    }
    true
}

/// Sum of the decoded quality scores of `q`.
pub open spec fn phred_sum(q: Seq<u8>) -> int
    decreases q.len(),
{
    if q.len() == 0 {
        0
    } else {
        phred_sum(q.drop_last()) + (q.last() - PHRED_OFFSET)
    }
}

/// The mean decoded quality of `q` as a fraction; an empty string has mean 0.
pub open spec fn mean_parts(q: Seq<u8>) -> (int, int) {
    if q.len() == 0 {
        (0, 1)
    } else {
        (phred_sum(q), q.len() as int)
    }
}

/// Whether the mean quality of `a` is strictly above that of `b`.
pub open spec fn mean_above(a: Seq<u8>, b: Seq<u8>) -> bool {
    mean_parts(a).0 * mean_parts(b).1 > mean_parts(b).0 * mean_parts(a).1
}

/// A mean quality held exactly as `total / count`, with `count > 0`.
#[derive(Clone, Copy, Debug, PartialEq, Eq, Structural)]
pub struct MeanQuality {
    pub total: u64,
    pub count: u64,
}

pub proof fn lemma_phred_sum_bound(q: Seq<u8>)
    requires
        forall|i: int| 0 <= i < q.len() ==> #[trigger] q[i] >= PHRED_OFFSET,
    ensures
        0 <= phred_sum(q) <= 222 * q.len(),
    decreases q.len(),
{
    if q.len() > 0 {
        let p = q.drop_last();
        assert forall|i: int| 0 <= i < p.len() implies #[trigger] p[i] >= PHRED_OFFSET by {
            assert(p[i] == q[i]);
        }
        lemma_phred_sum_bound(p);
    }
}

/// Mean decoded quality of one read: the arithmetic mean of its Phred+33
/// scores after removing the offset; 0 for an empty read.
pub fn calculate_mean_quality(q: &Vec<u8>) -> (r: MeanQuality)
    requires
        valid_quality(q@),
    ensures
        (r.total as int, r.count as int) == mean_parts(q@),
        r.count > 0,
{
    if q.len() == 0 {
        return MeanQuality { total: 0, count: 1 };
    }
    let mut total: u64 = 0;
    let mut i: usize = 0;
    while i < q.len()
        invariant
            0 <= i <= q.len(),
            valid_quality(q@),
            total == phred_sum(q@.subrange(0, i as int)),
        decreases q.len() - i,
    {
        proof {
            let s = q@.subrange(0, i as int);
            assert(q@.subrange(0, i + 1).drop_last() =~= s);
            assert forall|u: int| 0 <= u < s.len() implies #[trigger] s[u] >= PHRED_OFFSET by {
                assert(s[u] == q@[u]);
            }
            lemma_phred_sum_bound(s);
        }
        total = total + (q[i] - PHRED_OFFSET) as u64;
        i += 1;
    }
    assert(q@.subrange(0, q@.len() as int) =~= q@);
    MeanQuality { total, count: q.len() as u64 }
}

impl MeanQuality {
    /// Whether this mean is strictly above `other`.
    pub fn above(&self, other: &MeanQuality) -> (r: bool)
        requires
            self.total <= 222 * (u32::MAX as int),
            other.total <= 222 * (u32::MAX as int),
            self.count <= u32::MAX,
            other.count <= u32::MAX,
        ensures
            r == (self.total * other.count > other.total * self.count),
    {
        proof {
            let m: int = 222 * (u32::MAX as int);
            let c: int = u32::MAX as int;
            assert(self.total * other.count <= m * c) by (nonlinear_arith)
                requires
                    0 <= self.total <= m,
                    0 <= other.count <= c,
            ;
            assert(other.total * self.count <= m * c) by (nonlinear_arith)
                requires
                    0 <= other.total <= m,
                    0 <= self.count <= c,
            ;
        }
        (self.total as u128) * (other.count as u128) > (other.total as u128) * (self.count as u128)
    }
}

/// Whether read `x` beats the current pick `cur`: a strictly higher mean
/// quality, or the same mean and a lower index.
pub open spec fn beats(qs: Seq<Seq<u8>>, x: int, cur: int) -> bool {
    mean_above(qs[x], qs[cur]) || (!mean_above(qs[cur], qs[x]) && x < cur)
}

/// The best-quality member among the first `m` members of group `g`.
pub open spec fn best_upto(g: Seq<int>, qs: Seq<Seq<u8>>, m: int) -> int
    decreases m,
{
    if m <= 1 {
        g[0]
    } else {
        let prev = best_upto(g, qs, m - 1);
        if beats(qs, g[m - 1], prev) {
            g[m - 1]
        } else {
            prev
        }
    }
}

/// `r` is the best-quality member of `g`: a member, no member has a
/// strictly higher mean, and no member with the same mean has a lower index.
pub open spec fn is_best_pick(g: Seq<int>, qs: Seq<Seq<u8>>, r: int) -> bool {
    &&& g.contains(r)
    &&& forall|u: int| 0 <= u < g.len() ==> !mean_above(qs[#[trigger] g[u]], qs[r])
    &&& forall|u: int|
        0 <= u < g.len() && !mean_above(qs[r], qs[#[trigger] g[u]]) ==> r <= g[u]
}

proof fn lemma_cancel(x: int, y: int, b: int)
    requires
        b > 0,
        x * b <= y * b,
    ensures
        x <= y,
{
    if x > y {
        assert(x * b > y * b) by (nonlinear_arith)
            requires
                x > y,
                b > 0,
        ;
    }
}

proof fn lemma_cancel_strict(x: int, y: int, b: int)
    requires
        b > 0,
        x * b < y * b,
    ensures
        x < y,
{
    if x >= y {
        assert(x * b >= y * b) by (nonlinear_arith)
            requires
                x >= y,
                b > 0,
        ;
    }
}

/// Fractions with positive denominators: `a <= b` and `b <= c` give `a <= c`,
/// and `a <= b < c` gives `a < c`.
proof fn lemma_fraction_order(a0: int, a1: int, b0: int, b1: int, c0: int, c1: int)
    requires
        a1 > 0,
        b1 > 0,
        c1 > 0,
        a0 * b1 <= b0 * a1,
    ensures
        b0 * c1 <= c0 * b1 ==> a0 * c1 <= c0 * a1,
        b0 * c1 < c0 * b1 ==> a0 * c1 < c0 * a1,
{
    assert(a0 * b1 * c1 <= b0 * a1 * c1) by (nonlinear_arith)
        requires
            a0 * b1 <= b0 * a1,
            c1 > 0,
    ;
    if b0 * c1 <= c0 * b1 {
        assert(b0 * c1 * a1 <= c0 * b1 * a1) by (nonlinear_arith)
            requires
                b0 * c1 <= c0 * b1,
                a1 > 0,
        ;
        assert((a0 * c1) * b1 <= (c0 * a1) * b1) by (nonlinear_arith)
            requires
                a0 * b1 * c1 <= b0 * a1 * c1,
                b0 * c1 * a1 <= c0 * b1 * a1,
        ;
        lemma_cancel(a0 * c1, c0 * a1, b1);
    }
    if b0 * c1 < c0 * b1 {
        assert(b0 * c1 * a1 < c0 * b1 * a1) by (nonlinear_arith)
            requires
                b0 * c1 < c0 * b1,
                a1 > 0,
        ;
        assert((a0 * c1) * b1 < (c0 * a1) * b1) by (nonlinear_arith)
            requires
                a0 * b1 * c1 <= b0 * a1 * c1,
                b0 * c1 * a1 < c0 * b1 * a1,
        ;
        lemma_cancel_strict(a0 * c1, c0 * a1, b1);
    }
}

/// Mean qualities are totally preordered: `a <= b` and `b <= c` give
/// `a <= c`, and `a <= b < c` gives `a < c`.
proof fn lemma_mean_order(a: Seq<u8>, b: Seq<u8>, c: Seq<u8>)
    requires
        !mean_above(a, b),
    ensures
        !mean_above(b, c) ==> !mean_above(a, c),
        mean_above(c, b) ==> mean_above(c, a),
{
    lemma_fraction_order(
        mean_parts(a).0,
        mean_parts(a).1,
        mean_parts(b).0,
        mean_parts(b).1,
        mean_parts(c).0,
        mean_parts(c).1,
    );
}

/// The pick among the first `m` members is best among them.
pub proof fn lemma_best_upto_best(g: Seq<int>, qs: Seq<Seq<u8>>, m: int)
    requires
        1 <= m <= g.len(),
    ensures
        forall|u: int| 0 <= u < m ==> !mean_above(qs[#[trigger] g[u]], qs[best_upto(g, qs, m)]),
        forall|u: int|
            0 <= u < m && !mean_above(qs[best_upto(g, qs, m)], qs[#[trigger] g[u]])
                ==> best_upto(g, qs, m) <= g[u],
    decreases m,
{
    if m > 1 {
        lemma_best_upto_best(g, qs, m - 1);
        let prev = best_upto(g, qs, m - 1);
        let x = g[m - 1];
        let cur = best_upto(g, qs, m);
        assert forall|u: int| 0 <= u < m implies !mean_above(qs[#[trigger] g[u]], qs[cur]) && (
        !mean_above(qs[cur], qs[g[u]]) ==> cur <= g[u]) by {
            if u < m - 1 {
                lemma_mean_order(qs[g[u]], qs[prev], qs[x]);
                if beats(qs, x, prev) && !mean_above(qs[x], qs[g[u]]) {
                    lemma_mean_order(qs[prev], qs[x], qs[g[u]]);
                }
            }
        }
    }
}

/// The representative of group `g` under `policy`.
pub open spec fn representative(policy: SelectionPolicy, g: Seq<int>, qs: Seq<Seq<u8>>) -> int {
    match policy {
        SelectionPolicy::FirstOccurrence => g[0],
        SelectionPolicy::BestQuality => best_upto(g, qs, g.len() as int),
    }
}

/// The best-quality pick among the first `m` members is one of them.
pub proof fn lemma_best_upto_member(g: Seq<int>, qs: Seq<Seq<u8>>, m: int) -> (u: int)
    requires
        1 <= m <= g.len(),
    ensures
        0 <= u < m,
        g[u] == best_upto(g, qs, m),
    decreases m,
{
    if m <= 1 {
        0
    } else {
        let u = lemma_best_upto_member(g, qs, m - 1);
        if beats(qs, g[m - 1], best_upto(g, qs, m - 1)) {
            m - 1
        } else {
            u
        }
    }
}

/// Representative membership: whatever the policy, the representative of a
/// non-empty group is one of its members.
pub proof fn lemma_representative_in_group(
    policy: SelectionPolicy,
    g: Seq<int>,
    qs: Seq<Seq<u8>>,
)
    requires
        g.len() >= 1,
    ensures
        g.contains(representative(policy, g, qs)),
{
    match policy {
        SelectionPolicy::FirstOccurrence => {
            assert(g[0] == representative(policy, g, qs));
        },
        SelectionPolicy::BestQuality => {
            let u = lemma_best_upto_member(g, qs, g.len() as int);
            assert(g[u] == representative(policy, g, qs));
        },
    }
}

/// The group is non-empty, its indices address `qs`, and, where the policy
/// reads qualities, each of their quality strings is valid.
pub open spec fn group_ok(policy: SelectionPolicy, g: Seq<int>, qs: Seq<Seq<u8>>) -> bool {
    &&& g.len() >= 1
    &&& forall|u: int| 0 <= u < g.len() ==> 0 <= #[trigger] g[u] < qs.len()
    &&& policy is BestQuality ==> forall|u: int|
        0 <= u < g.len() ==> valid_quality(#[trigger] qs[g[u]])
}

/// Picks the survivor of a duplicate group under the best-quality policy.
pub fn select_best_quality_read(group: &Vec<usize>, qualities: &Vec<Vec<u8>>) -> (r: usize)
    requires
        group_ok(
            SelectionPolicy::BestQuality,
            group@.map_values(|x: usize| x as int),
            qualities@.map_values(|q: Vec<u8>| q@),
        ),
    ensures
        r as int == best_upto(
            group@.map_values(|x: usize| x as int),
            qualities@.map_values(|q: Vec<u8>| q@),
            group@.len() as int,
        ),
        is_best_pick(
            group@.map_values(|x: usize| x as int),
            qualities@.map_values(|q: Vec<u8>| q@),
            r as int,
        ),
{
    let ghost g = group@.map_values(|x: usize| x as int);
    let ghost qs = qualities@.map_values(|q: Vec<u8>| q@);
    assert(valid_quality(qs[g[0]]));
    let mut best_idx = group[0];
    let mut best_quality = calculate_mean_quality(&qualities[best_idx]);
    proof {
        lemma_phred_sum_bound(qs[g[0]]);
    }
    let mut i: usize = 1;
    while i < group.len()
        invariant
            1 <= i <= group.len(),
            g == group@.map_values(|x: usize| x as int),
            qs == qualities@.map_values(|q: Vec<u8>| q@),
            group_ok(SelectionPolicy::BestQuality, g, qs),
            best_idx as int == best_upto(g, qs, i as int),
            0 <= best_idx < qualities.len(),
            (best_quality.total as int, best_quality.count as int) == mean_parts(qs[best_idx as int]),
            best_quality.total <= 222 * (u32::MAX as int),
            best_quality.count <= u32::MAX,
            best_quality.count > 0,
        decreases group.len() - i,
    {
        let idx = group[i];
        assert(valid_quality(qs[g[i as int]]));
        let quality = calculate_mean_quality(&qualities[idx]);
        proof {
            lemma_phred_sum_bound(qs[g[i as int]]);
        }
        if quality.above(&best_quality) || (!best_quality.above(&quality) && idx < best_idx) {
            best_quality = quality;
            best_idx = idx;
        }
        i += 1;
    }
    proof {
        lemma_best_upto_best(g, qs, g.len() as int);
        let u = lemma_best_upto_member(g, qs, g.len() as int);
        assert(g[u] == best_idx as int);
    }
    best_idx
}

/// Picks the survivor of a duplicate group under `policy`.
pub fn select_representative(
    policy: SelectionPolicy,
    group: &Vec<usize>,
    qualities: &Vec<Vec<u8>>,
) -> (r: usize)
    requires
        group_ok(
            policy,
            group@.map_values(|x: usize| x as int),
            qualities@.map_values(|q: Vec<u8>| q@),
        ),
    ensures
        r as int == representative(
            policy,
            group@.map_values(|x: usize| x as int),
            qualities@.map_values(|q: Vec<u8>| q@),
        ),
{
    match policy {
        SelectionPolicy::FirstOccurrence => group[0],
        SelectionPolicy::BestQuality => select_best_quality_read(group, qualities),
    }
}

} // verus!
