//! Greedy anchor clustering of fingerprints into duplicate groups.
//!
//! Indices are visited in order. An index that no earlier group has taken
//! opens a group as its anchor and takes every later free index that is
//! similar to the anchor itself; members are never compared with each other.

use crate::fingerprint::{lemma_same_hashes_similar, Fingerprint, MinimizerSet};
use crate::similarity::Ratio;
use vstd::prelude::*;

verus! {

/// The owner of each index once indices `0..k` have had their turn as
/// anchors: `-1` for an index still free, otherwise the index of its anchor.
pub open spec fn owners<F: Fingerprint>(fps: Seq<F>, t: Ratio, k: nat) -> Seq<int>
    decreases k,
{
    if k == 0 {
        Seq::new(fps.len(), |j: int| -1int)
    } else {
        let prev = owners(fps, t, (k - 1) as nat);
        let a = k - 1;
        if a >= fps.len() || prev[a] != -1 {
            prev
        } else {
            Seq::new(
                fps.len(),
                |j: int|
                    if j == a {
                        a
                    } else if j > a && prev[j] == -1 && fps[a].similar_spec(&fps[j], t) {
                        a
                    } else {
                        prev[j]
                    },
            )
        }
    }
}

/// Whether index `a` is free when its turn comes, and so opens a group.
pub open spec fn is_anchor<F: Fingerprint>(fps: Seq<F>, t: Ratio, a: int) -> bool {
    0 <= a < fps.len() && owners(fps, t, a as nat)[a] == -1
}

/// The indices in `a..j` that anchor `a` takes, in increasing order.
pub open spec fn claimed_by<F: Fingerprint>(fps: Seq<F>, t: Ratio, a: int, j: int) -> Seq<int>
    decreases j - a,
{
    if j <= a {
        Seq::empty()
    } else {
        let s = claimed_by(fps, t, a, j - 1);
        if owners(fps, t, (a + 1) as nat)[j - 1] == a {
            s.push(j - 1)
        } else {
            s
        }
    }
}

/// The group that anchor `a` opens: the anchor and every index it takes.
pub open spec fn members<F: Fingerprint>(fps: Seq<F>, t: Ratio, a: int) -> Seq<int> {
    claimed_by(fps, t, a, fps.len() as int)
}

/// The groups of size at least two opened by the anchors among `0..k`, in
/// order of their anchors.
pub open spec fn groups_upto<F: Fingerprint>(fps: Seq<F>, t: Ratio, k: nat) -> Seq<Seq<int>>
    decreases k,
{
    if k == 0 {
        Seq::empty()
    } else {
        let prev = groups_upto(fps, t, (k - 1) as nat);
        let a = k - 1;
        if is_anchor(fps, t, a) && members(fps, t, a).len() >= 2 {
            prev.push(members(fps, t, a))
        } else {
            prev
        }
    }
}

/// The duplicate groups of a whole fingerprint list.
pub open spec fn duplicate_groups<F: Fingerprint>(fps: Seq<F>, t: Ratio) -> Seq<Seq<int>> {
    groups_upto(fps, t, fps.len())
}

/// A list of index groups, read as integers.
pub open spec fn groups_view(v: Seq<Vec<usize>>) -> Seq<Seq<int>> {
    v.map_values(|g: Vec<usize>| g@.map_values(|x: usize| x as int))
}

pub proof fn lemma_owners_len<F: Fingerprint>(fps: Seq<F>, t: Ratio, k: nat)
    ensures
        owners(fps, t, k).len() == fps.len(),
    decreases k,
{
    if k > 0 {
        lemma_owners_len(fps, t, (k - 1) as nat);
    }
}

/// Every owner recorded after the turns `0..k` is one of those turns.
pub proof fn lemma_owners_bound<F: Fingerprint>(fps: Seq<F>, t: Ratio, k: nat)
    ensures
        owners(fps, t, k).len() == fps.len(),
        forall|x: int|
            0 <= x < fps.len() ==> #[trigger] owners(fps, t, k)[x] == -1 || 0 <= owners(
                fps,
                t,
                k,
            )[x] < k,
    decreases k,
{
    lemma_owners_len(fps, t, k);
    if k > 0 {
        lemma_owners_bound(fps, t, (k - 1) as nat);
    }
}

/// The turn of a free index `a`: it takes itself and every later free index
/// similar to it; the rest keep their owner.
pub proof fn lemma_owners_step<F: Fingerprint>(fps: Seq<F>, t: Ratio, a: nat)
    requires
        a < fps.len(),
        owners(fps, t, a)[a as int] == -1,
    ensures
        forall|j: int|
            0 <= j < fps.len() ==> #[trigger] owners(fps, t, a + 1)[j] == if j == a {
                a as int
            } else if j > a && owners(fps, t, a)[j] == -1 && fps[a as int].similar_spec(
                &fps[j],
                t,
            ) {
                a as int
            } else {
                owners(fps, t, a)[j]
            },
{
    lemma_owners_len(fps, t, a);
    assert(((a + 1) as nat - 1) as nat == a);
}

/// Once an index has an owner, later turns leave it alone.
pub proof fn lemma_owners_stable<F: Fingerprint>(fps: Seq<F>, t: Ratio, k: nat, m: nat, x: int)
    requires
        k <= m,
        0 <= x < fps.len(),
        owners(fps, t, k)[x] != -1,
    ensures
        owners(fps, t, m)[x] == owners(fps, t, k)[x],
    decreases m - k,
{
    if k < m {
        lemma_owners_stable(fps, t, k, (m - 1) as nat, x);
        lemma_owners_len(fps, t, (m - 1) as nat);
        let a = (m - 1) as nat;
        if a < fps.len() && owners(fps, t, a)[a as int] == -1 {
            lemma_owners_step(fps, t, a);
        }
    }
}

/// What anchor `a` takes among `a..j`: indices owned by `a`, in strictly
/// increasing order, the anchor first.
pub proof fn lemma_claimed_by<F: Fingerprint>(fps: Seq<F>, t: Ratio, a: int, j: int)
    requires
        is_anchor(fps, t, a),
        j <= fps.len(),
    ensures
        forall|u: int|
            0 <= u < claimed_by(fps, t, a, j).len() ==> a <= #[trigger] claimed_by(
                fps,
                t,
                a,
                j,
            )[u] < j && owners(fps, t, fps.len())[claimed_by(fps, t, a, j)[u]] == a,
        forall|u: int, v: int|
            0 <= u < v < claimed_by(fps, t, a, j).len() ==> #[trigger] claimed_by(
                fps,
                t,
                a,
                j,
            )[u] < #[trigger] claimed_by(fps, t, a, j)[v],
        j > a ==> claimed_by(fps, t, a, j).len() >= 1 && claimed_by(fps, t, a, j)[0] == a,
    decreases j - a,
{
    if j > a {
        lemma_claimed_by(fps, t, a, j - 1);
        lemma_owners_step(fps, t, a as nat);
        lemma_owners_len(fps, t, a as nat);
        let x = j - 1;
        if owners(fps, t, (a + 1) as nat)[x] == a {
            lemma_owners_stable(fps, t, (a + 1) as nat, fps.len(), x);
        }
        if j - 1 == a {
            assert(claimed_by(fps, t, a, j - 1) =~= Seq::<int>::empty());
        }
    }
}

/// The groups opened among `0..k` are the full member lists of anchors,
/// with anchors in increasing order.
pub proof fn lemma_groups_upto<F: Fingerprint>(fps: Seq<F>, t: Ratio, k: nat)
    requires
        k <= fps.len(),
    ensures
        forall|p: int|
            0 <= p < groups_upto(fps, t, k).len() ==> {
                let g = #[trigger] groups_upto(fps, t, k)[p];
                &&& g.len() >= 2
                &&& g[0] < k
                &&& is_anchor(fps, t, g[0])
                &&& g == members(fps, t, g[0])
            },
        forall|p: int, q: int|
            0 <= p < q < groups_upto(fps, t, k).len() ==> #[trigger] groups_upto(
                fps,
                t,
                k,
            )[p][0] < #[trigger] groups_upto(fps, t, k)[q][0],
    decreases k,
{
    if k > 0 {
        let a = k - 1;
        lemma_groups_upto(fps, t, (k - 1) as nat);
        let prev = groups_upto(fps, t, (k - 1) as nat);
        let cur = groups_upto(fps, t, k);
        if is_anchor(fps, t, a) && members(fps, t, a).len() >= 2 {
            lemma_claimed_by(fps, t, a, fps.len() as int);
            assert(cur == prev.push(members(fps, t, a)));
            assert(cur[prev.len() as int] == members(fps, t, a));
            assert(members(fps, t, a)[0] == a);
            assert forall|p: int| 0 <= p < prev.len() implies #[trigger] cur[p] == prev[p] by {}
        } else {
            assert(cur == prev);
        }
    }
}

/// Partition validity: every group has at least two indices, all in range
/// and listed in increasing order, and no index belongs to two groups.
pub proof fn lemma_groups_partition<F: Fingerprint>(fps: Seq<F>, t: Ratio)
    ensures
        forall|p: int|
            0 <= p < duplicate_groups(fps, t).len() ==> #[trigger] duplicate_groups(
                fps,
                t,
            )[p].len() >= 2,
        forall|p: int, u: int|
            0 <= p < duplicate_groups(fps, t).len() && 0 <= u < duplicate_groups(fps, t)[p].len()
                ==> 0 <= #[trigger] duplicate_groups(fps, t)[p][u] < fps.len(),
        forall|p: int, u: int, v: int|
            0 <= p < duplicate_groups(fps, t).len() && 0 <= u < v < duplicate_groups(
                fps,
                t,
            )[p].len() ==> #[trigger] duplicate_groups(fps, t)[p][u] < #[trigger] duplicate_groups(
                fps,
                t,
            )[p][v],
        forall|p: int, q: int, u: int, v: int|
            0 <= p < q < duplicate_groups(fps, t).len() && 0 <= u < duplicate_groups(
                fps,
                t,
            )[p].len() && 0 <= v < duplicate_groups(fps, t)[q].len() ==> #[trigger] duplicate_groups(
                fps,
                t,
            )[p][u] != #[trigger] duplicate_groups(fps, t)[q][v],
{
    let gs = duplicate_groups(fps, t);
    lemma_groups_upto(fps, t, fps.len());
    assert forall|p: int| 0 <= p < gs.len() implies {
        let g = #[trigger] gs[p];
        &&& forall|u: int|
            0 <= u < g.len() ==> 0 <= #[trigger] g[u] < fps.len() && owners(fps, t, fps.len())[g[u]]
                == g[0]
        &&& forall|u: int, v: int| 0 <= u < v < g.len() ==> #[trigger] g[u] < #[trigger] g[v]
    } by {
        lemma_claimed_by(fps, t, gs[p][0], fps.len() as int);
    }
    assert forall|p: int, q: int, u: int, v: int|
        0 <= p < q < gs.len() && 0 <= u < gs[p].len() && 0 <= v < gs[q].len() implies #[trigger] gs[p][u]
        != #[trigger] gs[q][v] by {
        assert(gs[p][0] < gs[q][0]);
        assert(owners(fps, t, fps.len())[gs[p][u]] == gs[p][0]);
        assert(owners(fps, t, fps.len())[gs[q][v]] == gs[q][0]);
    }
}

/// Indices `i < j` that every earlier index treats alike, with `j` similar
/// to `i`, share an owner after each turn up to `i`.
proof fn lemma_alike_same_owner<F: Fingerprint>(fps: Seq<F>, t: Ratio, i: int, j: int, k: nat)
    requires
        0 <= i < j < fps.len(),
        k <= i,
        forall|a: int|
            0 <= a < i ==> #[trigger] fps[a].similar_spec(&fps[i], t) == fps[a].similar_spec(
                &fps[j],
                t,
            ),
    ensures
        owners(fps, t, k)[i] == owners(fps, t, k)[j],
    decreases k,
{
    lemma_owners_len(fps, t, k);
    if k > 0 {
        let a = (k - 1) as nat;
        lemma_alike_same_owner(fps, t, i, j, a);
        if owners(fps, t, a)[a as int] == -1 {
            lemma_owners_step(fps, t, a);
        }
    }
}

/// Identical fingerprints cluster together: when index `j` is similar to an
/// earlier index `i` and every index before `i` treats the two alike, both
/// end up in the group of the same anchor.
pub proof fn lemma_alike_cluster_together<F: Fingerprint>(fps: Seq<F>, t: Ratio, i: int, j: int)
    requires
        0 <= i < j < fps.len(),
        fps[i].similar_spec(&fps[j], t),
        forall|a: int|
            0 <= a < i ==> #[trigger] fps[a].similar_spec(&fps[i], t) == fps[a].similar_spec(
                &fps[j],
                t,
            ),
    ensures
        owners(fps, t, fps.len())[i] != -1,
        owners(fps, t, fps.len())[i] == owners(fps, t, fps.len())[j],
{
    lemma_alike_same_owner(fps, t, i, j, i as nat);
    lemma_owners_len(fps, t, i as nat);
    lemma_owners_len(fps, t, (i + 1) as nat);
    if owners(fps, t, i as nat)[i] == -1 {
        lemma_owners_step(fps, t, i as nat);
    } else {
        lemma_owners_stable(fps, t, i as nat, (i + 1) as nat, i);
        lemma_owners_stable(fps, t, i as nat, (i + 1) as nat, j);
    }
    lemma_owners_stable(fps, t, (i + 1) as nat, fps.len(), i);
    lemma_owners_stable(fps, t, (i + 1) as nat, fps.len(), j);
}

/// A blank fingerprint is never taken by an earlier anchor.
proof fn lemma_blank_free<F: Fingerprint>(fps: Seq<F>, t: Ratio, x: int, k: nat)
    requires
        0 <= x < fps.len(),
        fps[x].blank(),
        k <= x,
    ensures
        owners(fps, t, k)[x] == -1,
    decreases k,
{
    lemma_owners_len(fps, t, k);
    if k > 0 {
        let a = (k - 1) as nat;
        lemma_blank_free(fps, t, x, a);
        if owners(fps, t, a)[a as int] == -1 {
            lemma_owners_step(fps, t, a);
            fps[a as int].lemma_blank_isolated(&fps[x], t);
        }
    }
}

/// A blank anchor takes nothing but itself.
proof fn lemma_blank_alone<F: Fingerprint>(fps: Seq<F>, t: Ratio, x: int, j: int)
    requires
        0 <= x < j <= fps.len(),
        fps[x].blank(),
        is_anchor(fps, t, x),
    ensures
        claimed_by(fps, t, x, j) == seq![x],
    decreases j - x,
{
    lemma_owners_step(fps, t, x as nat);
    lemma_owners_bound(fps, t, x as nat);
    if j - 1 > x {
        lemma_blank_alone(fps, t, x, j - 1);
        fps[x].lemma_blank_isolated(&fps[j - 1], t);
    } else {
        assert(claimed_by(fps, t, x, j - 1) =~= Seq::<int>::empty());
        assert(claimed_by(fps, t, x, j) =~= seq![x]);
    }
}

/// Empty-fingerprint isolation: at every threshold, a read with a blank
/// fingerprint belongs to no duplicate group.
pub proof fn lemma_blank_ungrouped<F: Fingerprint>(fps: Seq<F>, t: Ratio, x: int)
    requires
        0 <= x < fps.len(),
        fps[x].blank(),
    ensures
        forall|p: int|
            0 <= p < duplicate_groups(fps, t).len() ==> !(#[trigger] duplicate_groups(
                fps,
                t,
            )[p]).contains(x),
{
    let gs = duplicate_groups(fps, t);
    lemma_blank_free(fps, t, x, x as nat);
    lemma_blank_alone(fps, t, x, fps.len() as int);
    lemma_owners_step(fps, t, x as nat);
    lemma_owners_len(fps, t, x as nat);
    lemma_owners_stable(fps, t, (x + 1) as nat, fps.len(), x);
    lemma_groups_upto(fps, t, fps.len());
    assert forall|p: int| 0 <= p < gs.len() implies !(#[trigger] gs[p]).contains(x) by {
        let g = gs[p];
        lemma_claimed_by(fps, t, g[0], fps.len() as int);
        if g.contains(x) {
            let u = choose|u: int| 0 <= u < g.len() && g[u] == x;
            assert(owners(fps, t, fps.len())[g[u]] == g[0]);
            assert(g[0] == x);
            assert(g == seq![x]);
        }
    }
}

/// Every index that anchor `a` owns after its turn is among those it takes.
pub proof fn lemma_claimed_by_complete<F: Fingerprint>(
    fps: Seq<F>,
    t: Ratio,
    a: int,
    j: int,
    y: int,
)
    requires
        is_anchor(fps, t, a),
        a <= y < j <= fps.len(),
        owners(fps, t, (a + 1) as nat)[y] == a,
    ensures
        claimed_by(fps, t, a, j).contains(y),
    decreases j - a,
{
    if y < j - 1 {
        lemma_claimed_by_complete(fps, t, a, j - 1, y);
        let s = claimed_by(fps, t, a, j - 1);
        let w = choose|w: int| 0 <= w < s.len() && s[w] == y;
        assert(claimed_by(fps, t, a, j)[w] == y);
    } else {
        let s = claimed_by(fps, t, a, j - 1);
        assert(claimed_by(fps, t, a, j)[s.len() as int] == y);
    }
}

/// An anchor that takes at least one other index has its group listed.
pub proof fn lemma_group_listed<F: Fingerprint>(fps: Seq<F>, t: Ratio, a: int, k: nat)
    requires
        is_anchor(fps, t, a),
        members(fps, t, a).len() >= 2,
        a < k <= fps.len(),
    ensures
        groups_upto(fps, t, k).contains(members(fps, t, a)),
    decreases k,
{
    let prev = groups_upto(fps, t, (k - 1) as nat);
    if k - 1 == a {
        assert(groups_upto(fps, t, k)[prev.len() as int] == members(fps, t, a));
    } else {
        lemma_group_listed(fps, t, a, (k - 1) as nat);
        let w = choose|w: int| 0 <= w < prev.len() && prev[w] == members(fps, t, a);
        assert(groups_upto(fps, t, k)[w] == members(fps, t, a));
    }
}

/// Two anchors are never similar: the later one was free when the earlier
/// one had its turn.
pub proof fn lemma_anchors_dissimilar<F: Fingerprint>(fps: Seq<F>, t: Ratio, a: int, b: int)
    requires
        0 <= a < b,
        is_anchor(fps, t, a),
        is_anchor(fps, t, b),
    ensures
        !fps[a].similar_spec(&fps[b], t),
{
    lemma_owners_len(fps, t, a as nat);
    lemma_owners_step(fps, t, a as nat);
    if owners(fps, t, a as nat)[b] != -1 {
        lemma_owners_stable(fps, t, a as nat, b as nat, b);
    }
    if owners(fps, t, (a + 1) as nat)[b] != -1 {
        lemma_owners_stable(fps, t, (a + 1) as nat, b as nat, b);
    }
}

/// Without any similar pair `i < j`, every index is free at its turn.
proof fn lemma_dissimilar_owners<F: Fingerprint>(fps: Seq<F>, t: Ratio, k: nat)
    requires
        k <= fps.len(),
        forall|i: int, j: int|
            0 <= i < j < fps.len() ==> !#[trigger] fps[i].similar_spec(&#[trigger] fps[j], t),
    ensures
        owners(fps, t, k).len() == fps.len(),
        forall|x: int|
            0 <= x < fps.len() ==> #[trigger] owners(fps, t, k)[x] == if x < k {
                x
            } else {
                -1
            },
    decreases k,
{
    lemma_owners_len(fps, t, k);
    if k > 0 {
        lemma_dissimilar_owners(fps, t, (k - 1) as nat);
        lemma_owners_step(fps, t, (k - 1) as nat);
    }
}

/// Without any similar pair `i < j`, anchors take only themselves.
proof fn lemma_dissimilar_alone<F: Fingerprint>(fps: Seq<F>, t: Ratio, a: int, j: int)
    requires
        0 <= a < j <= fps.len(),
        forall|i: int, j: int|
            0 <= i < j < fps.len() ==> !#[trigger] fps[i].similar_spec(&#[trigger] fps[j], t),
    ensures
        claimed_by(fps, t, a, j) == seq![a],
    decreases j - a,
{
    lemma_dissimilar_owners(fps, t, (a + 1) as nat);
    if j - 1 > a {
        lemma_dissimilar_alone(fps, t, a, j - 1);
    } else {
        assert(claimed_by(fps, t, a, j - 1) =~= Seq::<int>::empty());
        assert(claimed_by(fps, t, a, j) =~= seq![a]);
    }
}

/// Without any similar pair `i < j` there is no duplicate group.
pub proof fn lemma_dissimilar_no_groups<F: Fingerprint>(fps: Seq<F>, t: Ratio, k: nat)
    requires
        k <= fps.len(),
        forall|i: int, j: int|
            0 <= i < j < fps.len() ==> !#[trigger] fps[i].similar_spec(&#[trigger] fps[j], t),
    ensures
        groups_upto(fps, t, k).len() == 0,
    decreases k,
{
    if k > 0 {
        lemma_dissimilar_no_groups(fps, t, (k - 1) as nat);
        lemma_dissimilar_alone(fps, t, k - 1, fps.len() as int);
    }
}

/// An owner is an anchor, and it took the index at its own turn.
pub proof fn lemma_owner_is_anchor<F: Fingerprint>(fps: Seq<F>, t: Ratio, k: nat, y: int)
    requires
        0 <= y < fps.len(),
        owners(fps, t, k)[y] != -1,
    ensures
        is_anchor(fps, t, owners(fps, t, k)[y]),
        owners(fps, t, (owners(fps, t, k)[y] + 1) as nat)[y] == owners(fps, t, k)[y],
        owners(fps, t, k)[y] < k,
    decreases k,
{
    lemma_owners_len(fps, t, k);
    lemma_owners_bound(fps, t, k);
    if k > 0 {
        let a = (k - 1) as nat;
        lemma_owners_len(fps, t, a);
        if a < fps.len() && owners(fps, t, a)[a as int] == -1 {
            lemma_owners_step(fps, t, a);
            if owners(fps, t, a)[y] != -1 {
                lemma_owner_is_anchor(fps, t, a, y);
            }
        } else {
            lemma_owner_is_anchor(fps, t, a, y);
        }
    }
}

/// Reads whose minimizer sets are equal and non-empty always cluster
/// together, at every threshold in `[0, 1]`.
pub proof fn lemma_identical_sets_cluster(fps: Seq<MinimizerSet>, t: Ratio, i: int, j: int)
    requires
        0 <= i < j < fps.len(),
        fps[i]@ == fps[j]@,
        fps[i].hashes@.len() > 0,
        t.is_unit(),
    ensures
        owners(fps, t, fps.len())[i] != -1,
        owners(fps, t, fps.len())[i] == owners(fps, t, fps.len())[j],
{
    lemma_same_hashes_similar(fps[i], fps[j], t);
    lemma_alike_cluster_together(fps, t, i, j);
}

/// Groups `fps` by greedy anchor clustering at threshold `t`; only groups of
/// two or more indices are returned, in order of their anchors.
pub fn find_duplicate_groups<F: Fingerprint>(fps: &Vec<F>, t: &Ratio) -> (r: Vec<Vec<usize>>)
    requires
        t.wf(),
    ensures
        groups_view(r@) == duplicate_groups(fps@, *t),
{
    let n = fps.len();
    let mut assigned: Vec<bool> = Vec::new();
    let mut m: usize = 0;
    while m < n
        invariant
            0 <= m <= n,
            assigned@.len() == m,
            forall|x: int| 0 <= x < m ==> !#[trigger] assigned@[x],
        decreases n - m,
    {
        assigned.push(false);
        m += 1;
    }
    proof {
        assert(owners(fps@, *t, 0) == Seq::new(n as nat, |j: int| -1int));
    }
    let mut groups: Vec<Vec<usize>> = Vec::new();
    let mut i: usize = 0;
    while i < n
        invariant
            0 <= i <= n,
            n == fps@.len(),
            t.wf(),
            assigned@.len() == n,
            owners(fps@, *t, i as nat).len() == n,
            forall|x: int|
                0 <= x < n ==> #[trigger] assigned@[x] == (owners(fps@, *t, i as nat)[x] != -1),
            groups_view(groups@) == groups_upto(fps@, *t, i as nat),
        decreases n - i,
    {
        let ghost before = owners(fps@, *t, i as nat);
        proof {
            lemma_owners_len(fps@, *t, (i + 1) as nat);
        }
        if !assigned[i] {
            let ghost after = owners(fps@, *t, (i + 1) as nat);
            proof {
                lemma_owners_step(fps@, *t, i as nat);
                lemma_owners_bound(fps@, *t, i as nat);
            }
            let mut group: Vec<usize> = Vec::new();
            group.push(i);
            assigned.set(i, true);
            proof {
                assert(claimed_by(fps@, *t, i as int, i as int) == Seq::<int>::empty());
                assert(after[i as int] == i);
                assert(group@.map_values(|x: usize| x as int) =~= claimed_by(
                    fps@,
                    *t,
                    i as int,
                    i + 1,
                ));
            }
            let mut j: usize = i + 1;
            while j < n
                invariant
                    i < j <= n,
                    n == fps@.len(),
                    t.wf(),
                    assigned@.len() == n,
                    before == owners(fps@, *t, i as nat),
                    after == owners(fps@, *t, (i + 1) as nat),
                    before.len() == n,
                    after.len() == n,
                    before[i as int] == -1,
                    forall|x: int|
                        0 <= x < n ==> #[trigger] before[x] == -1 || 0 <= before[x] < i,
                    forall|x: int|
                        0 <= x < n ==> #[trigger] after[x] == if x == i {
                            i as int
                        } else if x > i && before[x] == -1 && fps@[i as int].similar_spec(
                            &fps@[x],
                            *t,
                        ) {
                            i as int
                        } else {
                            before[x]
                        },
                    forall|x: int|
                        0 <= x < j ==> #[trigger] assigned@[x] == (after[x] != -1),
                    forall|x: int|
                        j <= x < n ==> #[trigger] assigned@[x] == (before[x] != -1),
                    group@.map_values(|x: usize| x as int) == claimed_by(
                        fps@,
                        *t,
                        i as int,
                        j as int,
                    ),
                    group@.len() <= j - i,
                decreases n - j,
            {
                let ghost g0 = group@.map_values(|x: usize| x as int);
                if !assigned[j] && fps[i].similar(&fps[j], t) {
                    group.push(j);
                    assigned.set(j, true);
                    proof {
                        assert(group@.map_values(|x: usize| x as int) =~= g0.push(j as int));
                    }
                }
                proof {
                    assert(group@.map_values(|x: usize| x as int) =~= claimed_by(
                        fps@,
                        *t,
                        i as int,
                        j + 1,
                    ));
                }
                j += 1;
            }
            if group.len() > 1 {
                groups.push(group);
                proof {
                    assert(groups_view(groups@) =~= groups_upto(fps@, *t, (i + 1) as nat));
                }
            }
        }
        proof {
            assert forall|x: int| 0 <= x < n implies #[trigger] assigned@[x] == (owners(
                fps@,
                *t,
                (i + 1) as nat,
            )[x] != -1) by {}
        }
        i += 1;
    }
    groups
}

} // verus!
