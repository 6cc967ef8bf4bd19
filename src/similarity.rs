//! Similarity metrics over read fingerprints.

use std::collections::HashSet;
use vstd::prelude::*;

verus! {

broadcast use vstd::std_specs::hash::group_hash_axioms;

/// A non-negative fraction `num / den`, used for similarity and distance thresholds.
#[derive(Clone, Copy, Debug, PartialEq, Eq, Structural)]
pub struct Ratio {
    pub num: u64,
    pub den: u64,
}

impl Ratio {
    /// The denominator is positive.
    pub open spec fn wf(&self) -> bool {
        self.den > 0
    }

    /// The fraction lies in `[0, 1]`, the range of the Jaccard index.
    pub open spec fn is_unit(&self) -> bool {
        self.den > 0 && self.num <= self.den
    }

    /// A threshold for the Jaccard index: `None` unless `0 <= num / den <= 1`.
    pub fn unit(num: u64, den: u64) -> (r: Option<Ratio>)
        ensures
            r is Some <==> (den > 0 && num <= den),
            r is Some ==> r->Some_0 == (Ratio { num, den }),
    {
        if den > 0 && num <= den {
            Some(Ratio { num, den })
        } else {
            None
        }
    }

    /// A distance bound in pixels: `None` when the denominator is zero.
    pub fn distance(num: u64, den: u64) -> (r: Option<Ratio>)
        ensures
            r is Some <==> den > 0,
            r is Some ==> r->Some_0 == (Ratio { num, den }),
    {
        if den > 0 {
            Some(Ratio { num, den })
        } else {
            None
        }
    }
}

/// Whether the fraction `shared / total` (read as 0 when `total` is 0) is at least `t`.
pub open spec fn fraction_at_least(shared: nat, total: nat, t: Ratio) -> bool {
    if total == 0 {
        t.num == 0
    } else {
        shared * t.den >= t.num * total
    }
}

/// The Jaccard index of two hash sets, as `|A ∩ B| / |A ∪ B|`; it is 0 when
/// either set is empty.
pub open spec fn jaccard_parts(a: Set<u64>, b: Set<u64>) -> (nat, nat) {
    if a.len() == 0 || b.len() == 0 {
        (0, 0)
    } else {
        (a.intersect(b).len(), a.union(b).len())
    }
}

/// Whether the Jaccard index of `a` and `b` reaches the threshold `t`.
pub open spec fn jaccard_at_least(a: Set<u64>, b: Set<u64>, t: Ratio) -> bool {
    fraction_at_least(jaccard_parts(a, b).0, jaccard_parts(a, b).1, t)
}

/// Self-similarity: a non-empty hash set has Jaccard index 1 with itself, so
/// it meets every threshold in `[0, 1]`.
pub proof fn lemma_jaccard_self(a: Set<u64>, t: Ratio)
    requires
        a.len() > 0,
        t.is_unit(),
    ensures
        jaccard_parts(a, a) == (a.len(), a.len()),
        jaccard_at_least(a, a, t),
{
    assert(a.intersect(a) =~= a);
    assert(a.union(a) =~= a);
    assert(a.len() * t.den >= t.num * a.len()) by (nonlinear_arith)
        requires
            t.num <= t.den,
    ;
}

/// Empty-fingerprint isolation: against an empty hash set the Jaccard index
/// is 0, the metric's minimum, so no positive threshold is met.
pub proof fn lemma_jaccard_empty(a: Set<u64>, b: Set<u64>, t: Ratio)
    requires
        a.len() == 0 || b.len() == 0,
        t.num > 0,
    ensures
        jaccard_parts(a, b) == (0nat, 0nat),
        !jaccard_at_least(a, b, t),
{
}

/// A Jaccard index held exactly as a fraction `shared / total`; `total == 0`
/// stands for the value 0.
#[derive(Clone, Copy, Debug, PartialEq, Eq, Structural)]
pub struct Jaccard {
    pub shared: usize,
    pub total: u128,
}

impl Jaccard {
    /// Whether this index is at least `t`.
    pub fn at_least(&self, t: &Ratio) -> (r: bool)
        ensures
            r == fraction_at_least(self.shared as nat, self.total as nat, *t),
    {
        if self.total == 0 {
            t.num == 0
        } else {
            proof {
                let m: int = 0xffff_ffff_ffff_ffff;
                assert((self.shared as int) * (t.den as int) <= m * m) by (nonlinear_arith)
                    requires
                        0 <= self.shared <= m,
                        0 <= t.den <= m,
                ;
            }
            let lhs: u128 = self.shared as u128 * t.den as u128;
            match (t.num as u128).checked_mul(self.total) {
                Some(rhs) => lhs >= rhs,
                None => false,
            }
        }
    }
}

/// Collects the distinct values of `v` into a hash set.
fn collect_set(v: &Vec<u64>) -> (r: HashSet<u64>)
    ensures
        r@ == v@.to_set(),
{
    let mut s: HashSet<u64> = HashSet::new();
    let mut i: usize = 0;
    while i < v.len()
        invariant
            0 <= i <= v.len(),
            s@ == v@.subrange(0, i as int).to_set(),
        decreases v.len() - i,
    {
        s.insert(v[i]);
        proof {
            assert(v@.subrange(0, i + 1) =~= v@.subrange(0, i as int) + seq![v@[i as int]]);
            Seq::lemma_to_set_insert_commutes(v@.subrange(0, i as int), v@[i as int]);
        }
        i += 1;
    }
    assert(v@.subrange(0, v@.len() as int) == v@);
    s
}

/// Jaccard index of two minimizer hash lists, each read as a set (repeated
/// hashes count once). Either list empty gives the value 0.
pub fn calculate_jaccard_similarity(a: &Vec<u64>, b: &Vec<u64>) -> (r: Jaccard)
    ensures
        (r.shared as nat, r.total as nat) == jaccard_parts(a@.to_set(), b@.to_set()),
{
    broadcast use vstd::seq_lib::seq_to_set_is_finite;
    proof {
        a@.lemma_cardinality_of_set();
        b@.lemma_cardinality_of_set();
    }
    if a.len() == 0 || b.len() == 0 {
        proof {
            if a@.len() == 0 {
                assert(a@.to_set() =~= Set::empty());
            }
            if b@.len() == 0 {
                assert(b@.to_set() =~= Set::empty());
            }
        }
        return Jaccard { shared: 0, total: 0 };
    }
    let ga = Ghost(a@.to_set());
    let set_a = collect_set(a);
    let mut seen: HashSet<u64> = HashSet::new();
    let mut shared: usize = 0;
    let mut i: usize = 0;
    proof {
        assert(b@.subrange(0, 0) =~= Seq::<u64>::empty());
        assert(seen@.intersect(ga@) =~= Set::empty());
    }
    while i < b.len()
        invariant
            0 <= i <= b.len(),
            set_a@ == ga@,
            ga@ == a@.to_set(),
            ga@.finite(),
            seen@ == b@.subrange(0, i as int).to_set(),
            seen@.finite(),
            shared as nat == seen@.intersect(ga@).len(),
            shared <= seen@.len(),
            seen@.len() <= i,
        decreases b.len() - i,
    {
        let x = b[i];
        proof {
            assert(b@.subrange(0, i + 1) =~= b@.subrange(0, i as int) + seq![x]);
            Seq::lemma_to_set_insert_commutes(b@.subrange(0, i as int), x);
        }
        if !seen.contains(&x) {
            proof {
                if set_a@.contains(x) {
                    assert(seen@.insert(x).intersect(ga@) =~= seen@.intersect(ga@).insert(x));
                } else {
                    assert(seen@.insert(x).intersect(ga@) =~= seen@.intersect(ga@));
                }
                vstd::set_lib::lemma_len_intersect(seen@, ga@);
            }
            let fresh = set_a.contains(&x);
            seen.insert(x);
            if fresh {
                shared = shared + 1;
            }
        } else {
            assert(seen@.insert(x) =~= seen@);
        }
        i += 1;
    }
    assert(b@.subrange(0, b@.len() as int) == b@);
    let gb = Ghost(b@.to_set());
    proof {
        assert(ga@.len() > 0) by {
            assert(a@.to_set().contains(a@[0]));
        }
        assert(gb@.len() > 0) by {
            assert(b@.to_set().contains(b@[0]));
        }
        assert(seen@.intersect(ga@) =~= ga@.intersect(gb@));
        vstd::set_lib::lemma_set_intersect_union_lens(ga@, gb@);
        assert(ga@ + gb@ == ga@.union(gb@));
    }
    let total: u128 = set_a.len() as u128 + seen.len() as u128 - shared as u128;
    Jaccard { shared, total }
}

} // verus!
