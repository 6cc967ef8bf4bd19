//! The duplicate-removal pipeline: cluster, pick survivors, mark the rest
//! for removal, replay the survivors in order and summarise.

use crate::clustering::{
    duplicate_groups, find_duplicate_groups, groups_view, is_anchor,
    lemma_anchors_dissimilar, lemma_blank_ungrouped, lemma_claimed_by, lemma_claimed_by_complete,
    lemma_dissimilar_no_groups, lemma_group_listed, lemma_groups_partition, lemma_owner_is_anchor,
    lemma_owners_bound, members, owners,
};
use crate::fingerprint::Fingerprint;
use crate::selection::{
    group_ok, is_valid_quality, lemma_representative_in_group, representative,
    select_representative, valid_quality, SelectionPolicy,
};
use crate::similarity::Ratio;
use vstd::prelude::*;

verus! {

/// Whether index `x` is dropped: it belongs to one of `groups` without being
/// that group's representative.
pub open spec fn is_removed(
    groups: Seq<Seq<int>>,
    policy: SelectionPolicy,
    qs: Seq<Seq<u8>>,
    x: int,
) -> bool {
    exists|p: int|
        0 <= p < groups.len() && (#[trigger] groups[p]).contains(x) && x != representative(
            policy,
            groups[p],
            qs,
        )
}

/// The quality strings of a batch, read as sequences.
pub open spec fn qualities_view(qualities: Seq<Vec<u8>>) -> Seq<Seq<u8>> {
    qualities.map_values(|q: Vec<u8>| q@)
}

/// Every group is non-empty and addresses valid quality strings in `qs`.
pub open spec fn groups_ok(
    policy: SelectionPolicy,
    groups: Seq<Seq<int>>,
    qs: Seq<Seq<u8>>,
) -> bool {
    forall|p: int| 0 <= p < groups.len() ==> group_ok(policy, #[trigger] groups[p], qs)
}

/// Marks for removal every member of every group except its representative.
pub fn mark_duplicates(
    n: usize,
    groups: &Vec<Vec<usize>>,
    policy: SelectionPolicy,
    qualities: &Vec<Vec<u8>>,
) -> (r: Vec<bool>)
    requires
        groups_ok(policy, groups_view(groups@), qualities_view(qualities@)),
        forall|p: int, u: int|
            0 <= p < groups@.len() && 0 <= u < groups@[p]@.len() ==> #[trigger] groups@[p]@[u] < n,
    ensures
        r@.len() == n,
        forall|x: int|
            0 <= x < n ==> #[trigger] r@[x] == is_removed(
                groups_view(groups@),
                policy,
                qualities_view(qualities@),
                x,
            ),
{
    let ghost gs = groups_view(groups@);
    let ghost qs = qualities_view(qualities@);
    let mut removed: Vec<bool> = Vec::new();
    let mut m: usize = 0;
    while m < n
        invariant
            0 <= m <= n,
            removed@.len() == m,
            forall|x: int| 0 <= x < m ==> !#[trigger] removed@[x],
        decreases n - m,
    {
        removed.push(false);
        m += 1;
    }
    let mut p: usize = 0;
    while p < groups.len()
        invariant
            0 <= p <= groups.len(),
            gs == groups_view(groups@),
            qs == qualities_view(qualities@),
            groups_ok(policy, gs, qs),
            forall|p: int, u: int|
                0 <= p < groups@.len() && 0 <= u < groups@[p]@.len() ==> #[trigger] groups@[p]@[u]
                    < n,
            removed@.len() == n,
            forall|x: int|
                0 <= x < n ==> #[trigger] removed@[x] == is_removed(gs.take(p as int), policy, qs, x),
        decreases groups.len() - p,
    {
        let group = &groups[p];
        assert(gs[p as int] == group@.map_values(|x: usize| x as int));
        assert(group_ok(policy, gs[p as int], qs));
        assert(qs == qualities@.map_values(|q: Vec<u8>| q@));
        let rep = select_representative(policy, group, qualities);
        let ghost before = removed@;
        let mut u: usize = 0;
        while u < group.len()
            invariant
                0 <= u <= group.len(),
                gs[p as int] == group@.map_values(|x: usize| x as int),
                rep as int == representative(policy, gs[p as int], qs),
                forall|u: int| 0 <= u < group@.len() ==> #[trigger] group@[u] < n,
                removed@.len() == n,
                before.len() == n,
                forall|x: int|
                    0 <= x < n ==> #[trigger] removed@[x] == (before[x] || (
                    group@.take(u as int).map_values(|y: usize| y as int).contains(x) && x
                        != rep)),
            decreases group.len() - u,
        {
            let idx = group[u];
            let ghost prev = removed@;
            if idx != rep {
                removed.set(idx, true);
            }
            proof {
                let s0 = group@.take(u as int).map_values(|y: usize| y as int);
                let s1 = group@.take(u + 1).map_values(|y: usize| y as int);
                assert(s1 =~= s0.push(idx as int));
                assert forall|x: int| 0 <= x < n implies #[trigger] removed@[x] == (before[x] || (
                s1.contains(x) && x != rep)) by {
                    assert(s1.contains(x) <==> (s0.contains(x) || x == idx)) by {
                        if s1.contains(x) {
                            let w = choose|w: int| 0 <= w < s1.len() && s1[w] == x;
                            if w < s0.len() {
                                assert(s0[w] == x);
                            }
                        }
                        if s0.contains(x) {
                            let w = choose|w: int| 0 <= w < s0.len() && s0[w] == x;
                            assert(s1[w] == x);
                        }
                        if x == idx {
                            assert(s1[s0.len() as int] == x);
                        }
                    }
                }
            }
            u += 1;
        }
        proof {
            assert(group@.take(group@.len() as int) =~= group@);
            assert(gs.take(p + 1) =~= gs.take(p as int).push(gs[p as int]));
            assert forall|x: int| 0 <= x < n implies #[trigger] removed@[x] == is_removed(
                gs.take(p + 1),
                policy,
                qs,
                x,
            ) by {
                let g1 = gs.take(p + 1);
                if removed@[x] {
                    if before[x] {
                        let w = choose|w: int|
                            0 <= w < gs.take(p as int).len() && (#[trigger] gs.take(
                                p as int,
                            )[w]).contains(x) && x != representative(
                                policy,
                                gs.take(p as int)[w],
                                qs,
                            );
                        assert(g1[w] == gs.take(p as int)[w]);
                    } else {
                        assert(g1[p as int] == gs[p as int]);
                    }
                }
                if is_removed(g1, policy, qs, x) {
                    let w = choose|w: int|
                        0 <= w < g1.len() && (#[trigger] g1[w]).contains(x) && x
                            != representative(policy, g1[w], qs);
                    if w < p {
                        assert(g1[w] == gs.take(p as int)[w]);
                    }
                }
            }
        }
        p += 1;
    }
    proof {
        assert(gs.take(groups@.len() as int) =~= gs);
    }
    removed
}

/// The indices of the reads that are not removed, in input order.
pub fn kept_indices(removed: &Vec<bool>) -> (r: Vec<usize>)
    ensures
        r@.map_values(|x: usize| x as int) == Seq::new(removed@.len(), |x: int| x).filter(
            |x: int| !removed@[x],
        ),
        forall|u: int, v: int| 0 <= u < v < r@.len() ==> #[trigger] r@[u] < #[trigger] r@[v],
        forall|u: int| 0 <= u < r@.len() ==> !removed@[#[trigger] r@[u] as int],
        forall|u: int| 0 <= u < r@.len() ==> #[trigger] r@[u] < removed@.len(),
{
    let mut kept: Vec<usize> = Vec::new();
    let mut i: usize = 0;
    while i < removed.len()
        invariant
            0 <= i <= removed.len(),
            kept@.map_values(|x: usize| x as int) == Seq::new(i as nat, |x: int| x).filter(
                |x: int| !removed@[x],
            ),
            forall|u: int, v: int| 0 <= u < v < kept@.len() ==> #[trigger] kept@[u] < #[trigger] kept@[v],
            forall|u: int| 0 <= u < kept@.len() ==> !removed@[#[trigger] kept@[u] as int],
            forall|u: int| 0 <= u < kept@.len() ==> #[trigger] kept@[u] < i,
        decreases removed.len() - i,
    {
        proof {
            let f = |x: int| !removed@[x];
            assert(Seq::new((i + 1) as nat, |x: int| x) =~= Seq::new(i as nat, |x: int| x).push(
                i as int,
            ));
            Seq::new(i as nat, |x: int| x).lemma_filter_push(i as int, f);
        }
        if !removed[i] {
            kept.push(i);
        }
        proof {
            assert(kept@.map_values(|x: usize| x as int) =~= Seq::new((i + 1) as nat, |x: int| x).filter(
                |x: int| !removed@[x],
            ));
        }
        i += 1;
    }
    kept
}

/// Under first-occurrence, a read that survives is an anchor.
pub proof fn lemma_survivor_is_anchor<F: Fingerprint>(
    fps: Seq<F>,
    t: Ratio,
    qs: Seq<Seq<u8>>,
    x: int,
)
    requires
        0 <= x < fps.len(),
        !is_removed(duplicate_groups(fps, t), SelectionPolicy::FirstOccurrence, qs, x),
    ensures
        is_anchor(fps, t, x),
{
    lemma_owners_bound(fps, t, x as nat);
    if owners(fps, t, x as nat)[x] != -1 {
        let a = owners(fps, t, x as nat)[x];
        lemma_owner_is_anchor(fps, t, x as nat, x);
        let n = fps.len() as int;
        lemma_claimed_by(fps, t, a, n);
        lemma_claimed_by_complete(fps, t, a, n, x);
        let m = members(fps, t, a);
        let w = choose|w: int| 0 <= w < m.len() && m[w] == x;
        assert(m[0] == a);
        assert(w != 0);
        lemma_group_listed(fps, t, a, fps.len());
        let gs = duplicate_groups(fps, t);
        let p = choose|p: int| 0 <= p < gs.len() && gs[p] == m;
        assert(gs[p].contains(x));
        assert(representative(SelectionPolicy::FirstOccurrence, gs[p], qs) == a);
    }
}

/// Idempotence: under first-occurrence, the surviving reads hold no further
/// duplicates. Any run of survivors, taken in input order, forms no group,
/// so clustering them again at the same threshold removes nothing.
pub proof fn lemma_rerun_removes_nothing<F: Fingerprint>(
    fps: Seq<F>,
    t: Ratio,
    qs: Seq<Seq<u8>>,
    idx: Seq<int>,
)
    requires
        forall|u: int, v: int| 0 <= u < v < idx.len() ==> #[trigger] idx[u] < #[trigger] idx[v],
        forall|u: int|
            0 <= u < idx.len() ==> 0 <= #[trigger] idx[u] < fps.len() && !is_removed(
                duplicate_groups(fps, t),
                SelectionPolicy::FirstOccurrence,
                qs,
                idx[u],
            ),
    ensures
        duplicate_groups(idx.map_values(|x: int| fps[x]), t).len() == 0,
{
    let sub = idx.map_values(|x: int| fps[x]);
    assert forall|u: int, v: int| 0 <= u < v < sub.len() implies !#[trigger] sub[u].similar_spec(
        &#[trigger] sub[v],
        t,
    ) by {
        lemma_survivor_is_anchor(fps, t, qs, idx[u]);
        lemma_survivor_is_anchor(fps, t, qs, idx[v]);
        lemma_anchors_dissimilar(fps, t, idx[u], idx[v]);
    }
    lemma_dissimilar_no_groups(sub, t, sub.len());
}

/// Empty-fingerprint isolation: a read with a blank fingerprint is never
/// removed, whatever the threshold and the policy.
pub proof fn lemma_blank_never_removed<F: Fingerprint>(
    fps: Seq<F>,
    t: Ratio,
    policy: SelectionPolicy,
    qs: Seq<Seq<u8>>,
    x: int,
)
    requires
        0 <= x < fps.len(),
        fps[x].blank(),
    ensures
        !is_removed(duplicate_groups(fps, t), policy, qs, x),
{
    lemma_blank_ungrouped(fps, t, x);
}

/// One survivor per group: every member of a duplicate group is removed
/// except its representative, which is a member and stays.
pub proof fn lemma_one_survivor_per_group<F: Fingerprint>(
    fps: Seq<F>,
    t: Ratio,
    policy: SelectionPolicy,
    qs: Seq<Seq<u8>>,
    p: int,
)
    requires
        0 <= p < duplicate_groups(fps, t).len(),
    ensures
        duplicate_groups(fps, t)[p].contains(representative(policy, duplicate_groups(fps, t)[p], qs)),
        forall|u: int|
            0 <= u < duplicate_groups(fps, t)[p].len() ==> (is_removed(
                duplicate_groups(fps, t),
                policy,
                qs,
                #[trigger] duplicate_groups(fps, t)[p][u],
            ) <==> duplicate_groups(fps, t)[p][u] != representative(
                policy,
                duplicate_groups(fps, t)[p],
                qs,
            )),
{
    let gs = duplicate_groups(fps, t);
    lemma_groups_partition(fps, t);
    lemma_representative_in_group(policy, gs[p], qs);
    assert forall|u: int| 0 <= u < gs[p].len() implies (is_removed(
        gs,
        policy,
        qs,
        #[trigger] gs[p][u],
    ) <==> gs[p][u] != representative(policy, gs[p], qs)) by {
        let x = gs[p][u];
        if is_removed(gs, policy, qs, x) {
            let q = choose|q: int|
                0 <= q < gs.len() && (#[trigger] gs[q]).contains(x) && x != representative(
                    policy,
                    gs[q],
                    qs,
                );
            let v = choose|v: int| 0 <= v < gs[q].len() && gs[q][v] == x;
            if q < p {
                assert(gs[q][v] != gs[p][u]);
            } else if p < q {
                assert(gs[p][u] != gs[q][v]);
            }
        }
        if x != representative(policy, gs[p], qs) {
            assert(gs[p].contains(x));
        }
    }
}

/// How many entries of `s` are `true`.
pub open spec fn count_true(s: Seq<bool>) -> nat
    decreases s.len(),
{
    if s.len() == 0 {
        0
    } else {
        count_true(s.drop_last()) + if s.last() {
            1nat
        } else {
            0nat
        }
    }
}

/// The sum of the sizes of `groups`.
pub open spec fn total_size(groups: Seq<Seq<int>>) -> nat
    decreases groups.len(),
{
    if groups.len() == 0 {
        0
    } else {
        total_size(groups.drop_last()) + groups.last().len()
    }
}

/// Counts of one deduplication run. The mean group size is
/// `grouped_reads / duplicate_groups`, or 0 when there is no group.
#[derive(Clone, Copy, Debug, PartialEq, Eq, Structural)]
pub struct DedupSummary {
    pub total_reads: u64,
    pub duplicates_removed: u64,
    pub unique_reads_kept: u64,
    pub duplicate_groups: u64,
    pub grouped_reads: u128,
}

/// Counts the reads, the removed reads, the groups and their total size.
pub fn summarize(groups: &Vec<Vec<usize>>, removed: &Vec<bool>, kept: &Vec<usize>) -> (r:
    DedupSummary)
    ensures
        r.total_reads == removed@.len(),
        r.duplicates_removed == count_true(removed@),
        r.unique_reads_kept == kept@.len(),
        r.duplicate_groups == groups@.len(),
        r.grouped_reads == total_size(groups_view(groups@)),
{
    let mut removed_count: u64 = 0;
    let mut i: usize = 0;
    while i < removed.len()
        invariant
            0 <= i <= removed.len(),
            removed_count == count_true(removed@.take(i as int)),
            removed_count <= i,
        decreases removed.len() - i,
    {
        assert(removed@.take(i + 1).drop_last() =~= removed@.take(i as int));
        if removed[i] {
            removed_count = removed_count + 1;
        }
        i += 1;
    }
    assert(removed@.take(removed@.len() as int) =~= removed@);
    let ghost gs = groups_view(groups@);
    let mut grouped: u128 = 0;
    let mut p: usize = 0;
    while p < groups.len()
        invariant
            0 <= p <= groups.len(),
            gs == groups_view(groups@),
            grouped == total_size(gs.take(p as int)),
            grouped <= p * (usize::MAX as int),
        decreases groups.len() - p,
    {
        assert(gs.take(p + 1).drop_last() =~= gs.take(p as int));
        assert(gs[p as int].len() == groups@[p as int]@.len());
        let len = groups[p].len();
        proof {
            let m: int = usize::MAX as int;
            assert(grouped + len <= (p + 1) * m) by (nonlinear_arith)
                requires
                    grouped <= p * m,
                    len <= m,
            ;
            assert((p + 1) * m <= m * m) by (nonlinear_arith)
                requires
                    p + 1 <= m,
                    0 <= m,
            ;
            assert(m * m < u128::MAX) by (nonlinear_arith)
                requires
                    m <= u64::MAX,
                    0 <= m,
            ;
        }
        grouped = grouped + len as u128;
        p += 1;
    }
    assert(gs.take(groups@.len() as int) =~= gs);
    DedupSummary {
        total_reads: removed.len() as u64,
        duplicates_removed: removed_count,
        unique_reads_kept: kept.len() as u64,
        duplicate_groups: groups.len() as u64,
        grouped_reads: grouped,
    }
}

impl crate::QcStatsMarker for DedupSummary {

}

/// Everything one deduplication run decides.
pub struct DedupOutcome {
    /// The duplicate groups, in order of their anchors.
    pub groups: Vec<Vec<usize>>,
    /// For each read, whether it is dropped.
    pub removed: Vec<bool>,
    /// The reads that survive, in input order.
    pub kept: Vec<usize>,
    pub summary: DedupSummary,
}

/// Every read that belongs to a group has a decodable quality string.
pub open spec fn grouped_qualities_valid(groups: Seq<Seq<int>>, qs: Seq<Seq<u8>>) -> bool {
    forall|p: int, u: int|
        0 <= p < groups.len() && 0 <= u < groups[p].len() ==> valid_quality(
            #[trigger] qs[groups[p][u]],
        )
}

/// Whether the quality strings of every grouped read decode.
fn grouped_qualities_decode(groups: &Vec<Vec<usize>>, qualities: &Vec<Vec<u8>>) -> (r: bool)
    requires
        forall|p: int, u: int|
            0 <= p < groups@.len() && 0 <= u < groups@[p]@.len() ==> #[trigger] groups@[p]@[u]
                < qualities@.len(),
    ensures
        r == grouped_qualities_valid(groups_view(groups@), qualities_view(qualities@)),
{
    let ghost gs = groups_view(groups@);
    let ghost qs = qualities_view(qualities@);
    let mut p: usize = 0;
    while p < groups.len()
        invariant
            0 <= p <= groups@.len(),
            gs == groups_view(groups@),
            qs == qualities_view(qualities@),
            forall|p: int, u: int|
                0 <= p < groups@.len() && 0 <= u < groups@[p]@.len() ==> #[trigger] groups@[p]@[u]
                    < qualities@.len(),
            forall|p2: int, u: int|
                0 <= p2 < p && 0 <= u < gs[p2].len() ==> valid_quality(#[trigger] qs[gs[p2][u]]),
        decreases groups@.len() - p,
    {
        let group = &groups[p];
        assert(gs[p as int] == group@.map_values(|x: usize| x as int));
        let mut u: usize = 0;
        while u < group.len()
            invariant
                0 <= u <= group@.len(),
                p < groups@.len(),
                gs == groups_view(groups@),
                qs == qualities_view(qualities@),
                group@ == groups@[p as int]@,
                gs[p as int] == group@.map_values(|x: usize| x as int),
                forall|u: int| 0 <= u < group@.len() ==> #[trigger] group@[u] < qualities@.len(),
                forall|p2: int, u: int|
                    0 <= p2 < p && 0 <= u < gs[p2].len() ==> valid_quality(#[trigger] qs[gs[p2][u]]),
                forall|v: int| 0 <= v < u ==> valid_quality(#[trigger] qs[gs[p as int][v]]),
            decreases group@.len() - u,
        {
            assert(gs[p as int][u as int] == group@[u as int] as int);
            assert(qs[gs[p as int][u as int]] == qualities@[group@[u as int] as int]@);
            if !is_valid_quality(&qualities[group[u]]) {
                assert(!valid_quality(qs[gs[p as int][u as int]]));
                return false;
            }
            u += 1;
        }
        p += 1;
    }
    true
}

/// What a completed run decides: the exact groups, the exact removal flags,
/// the survivors in input order, and the counts.
pub open spec fn outcome_ok<F: Fingerprint>(
    o: DedupOutcome,
    fps: Seq<F>,
    qs: Seq<Seq<u8>>,
    t: Ratio,
    policy: SelectionPolicy,
) -> bool {
    &&& groups_view(o.groups@) == duplicate_groups(fps, t)
    &&& o.removed@.len() == fps.len()
    &&& forall|x: int|
        0 <= x < fps.len() ==> #[trigger] o.removed@[x] == is_removed(
            duplicate_groups(fps, t),
            policy,
            qs,
            x,
        )
    &&& o.kept@.map_values(|x: usize| x as int) == Seq::new(o.removed@.len(), |x: int| x).filter(
        |x: int| !o.removed@[x],
    )
    &&& forall|u: int, v: int|
        0 <= u < v < o.kept@.len() ==> #[trigger] o.kept@[u] < #[trigger] o.kept@[v]
    &&& forall|u: int|
        0 <= u < o.kept@.len() ==> #[trigger] o.kept@[u] < fps.len() && !o.removed@[o.kept@[u] as int]
    &&& o.summary.total_reads == fps.len()
    &&& o.summary.duplicates_removed == count_true(o.removed@)
    &&& o.summary.unique_reads_kept == o.kept@.len()
    &&& o.summary.duplicate_groups == o.groups@.len()
    &&& o.summary.grouped_reads == total_size(duplicate_groups(fps, t))
}

/// Removes duplicate reads: groups the fingerprints at threshold `t`, keeps
/// one representative per group under `policy` and drops the other members.
/// `fingerprints[i]` and `qualities[i]` describe read `i`. Under the
/// best-quality policy the run fails, with `None`, exactly when a grouped
/// read has a quality string that does not decode; qualities of other reads
/// are never read.
pub fn deduplicate<F: Fingerprint>(
    fingerprints: &Vec<F>,
    qualities: &Vec<Vec<u8>>,
    t: &Ratio,
    policy: SelectionPolicy,
) -> (r: Option<DedupOutcome>)
    requires
        t.wf(),
        fingerprints@.len() == qualities@.len(),
    ensures
        r is None <==> (policy is BestQuality && !grouped_qualities_valid(
            duplicate_groups(fingerprints@, *t),
            qualities_view(qualities@),
        )),
        r matches Some(o) ==> outcome_ok(o, fingerprints@, qualities_view(qualities@), *t, policy),
{
    let groups = find_duplicate_groups(fingerprints, t);
    let ghost gs = duplicate_groups(fingerprints@, *t);
    let ghost qs = qualities_view(qualities@);
    proof {
        lemma_groups_partition(fingerprints@, *t);
        assert forall|p: int, u: int|
            0 <= p < groups@.len() && 0 <= u < groups@[p]@.len() implies #[trigger] groups@[p]@[u]
            < fingerprints@.len() by {
            assert(gs[p][u] == groups@[p]@[u] as int);
        }
    }
    if policy == SelectionPolicy::BestQuality && !grouped_qualities_decode(&groups, qualities) {
        return None;
    }
    proof {
        assert forall|p: int| 0 <= p < gs.len() implies group_ok(policy, #[trigger] gs[p], qs) by {
            assert(gs[p].len() >= 2);
            if policy is BestQuality {
                assert forall|u: int| 0 <= u < gs[p].len() implies valid_quality(
                    #[trigger] qs[gs[p][u]],
                ) by {
                    assert(0 <= gs[p][u] < fingerprints@.len());
                }
            }
        }
    }
    let removed = mark_duplicates(fingerprints.len(), &groups, policy, qualities);
    let kept = kept_indices(&removed);
    let summary = summarize(&groups, &removed, &kept);
    Some(DedupOutcome { groups, removed, kept, summary })
}

} // verus!
