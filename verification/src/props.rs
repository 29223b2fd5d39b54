//! What merging a set of scanned pairs guarantees, whatever order the
//! findings arrive in.
//!
//! `merged_from` relates a set of emitted pairs to the merger's two tables:
//! every pair's two matches are recorded and share a cluster, every recorded
//! match stems from some pair, and any two matches sharing a cluster are
//! joined by a chain of pairs. From these three facts alone the cluster
//! partition is determined: two table states merged from the same findings
//! agree cluster for cluster, which is why neither the worker count nor the
//! arrival order can change the result.

use vstd::prelude::*;

use crate::merge::{cluster_of, clusters_wf};
use crate::types::MatchV;

verus! {

/// Whether the pair set joins `x` and `y` directly, in either orientation.
pub open spec fn pair_joins(s: Set<(MatchV, MatchV)>, x: MatchV, y: MatchV) -> bool {
    s.contains((x, y)) || s.contains((y, x))
}

/// A walk through the pair set: consecutive entries are joined.
pub open spec fn is_walk(s: Set<(MatchV, MatchV)>, p: Seq<MatchV>) -> bool {
    forall|t: int| 0 <= t < p.len() - 1 ==> #[trigger] pair_joins(s, p[t], p[t + 1])
}

/// Two matches are connected when some walk leads from one to the other.
pub open spec fn connected(s: Set<(MatchV, MatchV)>, x: MatchV, y: MatchV) -> bool {
    exists|p: Seq<MatchV>| p.len() >= 1 && p.first() == x && p.last() == y && is_walk(s, p)
}

/// Connectedness is reflexive.
pub proof fn lemma_connected_refl(s: Set<(MatchV, MatchV)>, x: MatchV)
    ensures
        connected(s, x, x),
{
    let p = seq![x];
    assert(p.len() >= 1 && p.first() == x && p.last() == x && is_walk(s, p));
}

/// A single pair connects its two matches.
pub proof fn lemma_connected_edge(s: Set<(MatchV, MatchV)>, x: MatchV, y: MatchV)
    requires
        pair_joins(s, x, y),
    ensures
        connected(s, x, y),
{
    let p = seq![x, y];
    assert(p[0int + 1] == y);
    assert(p.len() >= 1 && p.first() == x && p.last() == y && is_walk(s, p));
}

/// Connectedness is symmetric: walk the same pairs backwards.
pub proof fn lemma_connected_sym(s: Set<(MatchV, MatchV)>, x: MatchV, y: MatchV)
    requires
        connected(s, x, y),
    ensures
        connected(s, y, x),
{
    let p = choose|p: Seq<MatchV>|
        p.len() >= 1 && p.first() == x && p.last() == y && is_walk(s, p);
    let q = p.reverse();
    assert(q.len() >= 1 && q.first() == y && q.last() == x);
    assert forall|t: int| 0 <= t < q.len() - 1 implies #[trigger] pair_joins(s, q[t], q[t + 1]) by {
        let u = p.len() - 2 - t;
        assert(q[t] == p[u + 1]);
        assert(q[t + 1] == p[u]);
        assert(pair_joins(s, p[u], p[u + 1]));
    }
}

/// Connectedness is transitive: join the walks.
pub proof fn lemma_connected_trans(s: Set<(MatchV, MatchV)>, x: MatchV, y: MatchV, z: MatchV)
    requires
        connected(s, x, y),
        connected(s, y, z),
    ensures
        connected(s, x, z),
{
    let p = choose|p: Seq<MatchV>|
        p.len() >= 1 && p.first() == x && p.last() == y && is_walk(s, p);
    let q = choose|q: Seq<MatchV>|
        q.len() >= 1 && q.first() == y && q.last() == z && is_walk(s, q);
    let r = p + q.drop_first();
    assert(r.len() >= 1);
    assert(r.first() == x);
    assert(r.last() == z) by {
        if q.len() == 1 {
            assert(r =~= p);
        } else {
            assert(r[r.len() - 1] == q.drop_first()[q.len() - 2]);
        }
    }
    assert forall|t: int| 0 <= t < r.len() - 1 implies #[trigger] pair_joins(s, r[t], r[t + 1]) by {
        if t + 1 < p.len() {
            assert(r[t] == p[t] && r[t + 1] == p[t + 1]);
        } else if t + 1 == p.len() {
            // the seam: last of the first walk to second entry of the other
            assert(r[t] == p[t]);
            assert(p[t] == y);
            if q.len() >= 2 {
                assert(r[t + 1] == q.drop_first()[0]);
                assert(q.drop_first()[0] == q[1]);
                assert(pair_joins(s, q[0], q[0int + 1]));
            }
        } else {
            assert(r[t] == q.drop_first()[t - p.len()]);
            assert(r[t + 1] == q.drop_first()[t + 1 - p.len()]);
            assert(q[(t - p.len() + 1) + 1] == q.drop_first()[t + 1 - p.len()]);
            assert(pair_joins(s, q[t - p.len() + 1], q[(t - p.len() + 1) + 1]));
        }
    }
}

/// Connectedness only grows with the pair set.
pub proof fn lemma_connected_mono(
    s1: Set<(MatchV, MatchV)>,
    s2: Set<(MatchV, MatchV)>,
    x: MatchV,
    y: MatchV,
)
    requires
        connected(s1, x, y),
        s1.subset_of(s2),
    ensures
        connected(s2, x, y),
{
    let p = choose|p: Seq<MatchV>|
        p.len() >= 1 && p.first() == x && p.last() == y && is_walk(s1, p);
    assert forall|t: int| 0 <= t < p.len() - 1 implies #[trigger] pair_joins(s2, p[t], p[t + 1]) by {
        assert(pair_joins(s1, p[t], p[t + 1]));
    }
    assert(is_walk(s2, p));
}

/// Whether `m` occurs in some pair of `s`, on either side.
#[verifier::opaque]
pub open spec fn touched(s: Set<(MatchV, MatchV)>, m: MatchV) -> bool {
    exists|x: MatchV, y: MatchV| #[trigger] s.contains((x, y)) && (m == x || m == y)
}

/// A pair of the set touches both of its matches.
pub proof fn lemma_touched_intro(s: Set<(MatchV, MatchV)>, x: MatchV, y: MatchV, m: MatchV)
    requires
        s.contains((x, y)),
        m == x || m == y,
    ensures
        touched(s, m),
{
    reveal(touched);
}

/// A touched match names one pair it occurs in.
pub proof fn lemma_touched_unfold(s: Set<(MatchV, MatchV)>, m: MatchV)
    requires
        touched(s, m),
    ensures
        exists|x: MatchV, y: MatchV| #[trigger] s.contains((x, y)) && (m == x || m == y),
{
    reveal(touched);
}

/// The tables that stand after merging exactly the pairs of `s`, in
/// whatever order: every pair's matches are recorded in one cluster, every
/// recorded match came from some pair, and matches sharing a cluster are
/// joined by a chain of pairs.
pub open spec fn merged_from(
    s: Set<(MatchV, MatchV)>,
    lk: Map<MatchV, MatchV>,
    cl: Map<MatchV, Seq<MatchV>>,
) -> bool {
    &&& forall|x: MatchV, y: MatchV|
        #[trigger] s.contains((x, y)) ==> lk.contains_key(x) && lk.contains_key(y) && cluster_of(
            lk,
            cl,
            x,
        ) == cluster_of(lk, cl, y)
    &&& forall|m: MatchV| #[trigger] lk.contains_key(m) ==> touched(s, m)
    &&& forall|m: MatchV, m2: MatchV|
        lk.contains_key(m) && #[trigger] cluster_of(lk, cl, m).contains(m2) ==> connected(s, m, m2)
}

/// Nothing has been merged into empty tables.
pub proof fn lemma_merged_from_empty()
    ensures
        merged_from(
            Set::<(MatchV, MatchV)>::empty(),
            Map::<MatchV, MatchV>::empty(),
            Map::<MatchV, Seq<MatchV>>::empty(),
        ),
{
}

/// One merge step keeps the tables an exact merge of the grown pair set:
/// the hypotheses are what `update_matches` guarantees.
#[verifier::rlimit(50)]
#[verifier::spinoff_prover]
pub proof fn lemma_merge_step(
    s: Set<(MatchV, MatchV)>,
    lk0: Map<MatchV, MatchV>,
    cl0: Map<MatchV, Seq<MatchV>>,
    lk1: Map<MatchV, MatchV>,
    cl1: Map<MatchV, Seq<MatchV>>,
    av: MatchV,
    bv: MatchV,
)
    requires
        clusters_wf(lk0, cl0),
        clusters_wf(lk1, cl1),
        merged_from(s, lk0, cl0),
        lk1.dom() == lk0.dom().insert(av).insert(bv),
        forall|m: MatchV|
            #![trigger cluster_of(lk1, cl1, m)]
            cluster_of(lk1, cl1, m) == (if cluster_of(lk0, cl0, av).contains(m) || cluster_of(
                lk0,
                cl0,
                bv,
            ).contains(m) {
                cluster_of(lk0, cl0, av).union(cluster_of(lk0, cl0, bv))
            } else {
                cluster_of(lk0, cl0, m)
            }),
    ensures
        merged_from(s.insert((av, bv)), lk1, cl1),
{
    let s1 = s.insert((av, bv));
    let ca = cluster_of(lk0, cl0, av);
    let cb = cluster_of(lk0, cl0, bv);
    crate::merge::lemma_cluster_of_bounds(lk0, cl0, av);
    crate::merge::lemma_cluster_of_bounds(lk0, cl0, bv);

    // every match of either old cluster is connected, in the new pair set,
    // to the pair's own match on that side
    assert forall|z: MatchV| ca.contains(z) implies connected(s1, z, av) by {
        if z == av {
            lemma_connected_refl(s1, z);
        } else {
            assert(lk0.contains_key(av));
            assert(connected(s, av, z));
            lemma_connected_sym(s, av, z);
            lemma_connected_mono(s, s1, z, av);
        }
    }
    assert forall|z: MatchV| cb.contains(z) implies connected(s1, z, bv) by {
        if z == bv {
            lemma_connected_refl(s1, z);
        } else {
            assert(lk0.contains_key(bv));
            assert(connected(s, bv, z));
            lemma_connected_sym(s, bv, z);
            lemma_connected_mono(s, s1, z, bv);
        }
    }
    assert(pair_joins(s1, av, bv));

    assert forall|x: MatchV, y: MatchV| #[trigger] s1.contains((x, y)) implies lk1.contains_key(x)
        && lk1.contains_key(y) && cluster_of(lk1, cl1, x) == cluster_of(lk1, cl1, y) by {
        if x == av && y == bv {
            assert(ca.contains(av));
            assert(cb.contains(bv));
            assert(cluster_of(lk1, cl1, av) == ca.union(cb));
            assert(cluster_of(lk1, cl1, bv) == ca.union(cb));
            assert(lk1.dom().contains(av) && lk1.dom().contains(bv));
        } else {
            assert(s.contains((x, y)));
            assert(lk0.contains_key(x) && lk0.contains_key(y));
            assert(lk1.dom().contains(x) && lk1.dom().contains(y));
            let cx = cluster_of(lk0, cl0, x);
            crate::merge::lemma_cluster_of_bounds(lk0, cl0, x);
            crate::merge::lemma_cluster_of_bounds(lk0, cl0, y);
            if ca.contains(x) || cb.contains(x) {
                if ca.contains(x) {
                    crate::merge::lemma_cluster_of_member(lk0, cl0, av, x);
                    assert(cx == ca);
                    assert(ca.contains(y));
                } else {
                    crate::merge::lemma_cluster_of_member(lk0, cl0, bv, x);
                    assert(cx == cb);
                    assert(cb.contains(y));
                }
            } else {
                assert(!(ca.contains(y) || cb.contains(y))) by {
                    if ca.contains(y) {
                        crate::merge::lemma_cluster_of_member(lk0, cl0, av, y);
                        assert(cluster_of(lk0, cl0, y).contains(x));
                        crate::merge::lemma_cluster_of_member(lk0, cl0, y, x);
                        assert(ca.contains(x));
                    } else if cb.contains(y) {
                        crate::merge::lemma_cluster_of_member(lk0, cl0, bv, y);
                        assert(cluster_of(lk0, cl0, y).contains(x));
                        crate::merge::lemma_cluster_of_member(lk0, cl0, y, x);
                        assert(cb.contains(x));
                    }
                }
            }
        }
    }

    assert forall|m: MatchV| #[trigger] lk1.contains_key(m) implies touched(s1, m) by {
        if m == av || m == bv {
            lemma_touched_intro(s1, av, bv, m);
        } else {
            assert(lk0.contains_key(m));
            lemma_touched_unfold(s, m);
            let (x, y) = choose|x: MatchV, y: MatchV|
                #[trigger] s.contains((x, y)) && (m == x || m == y);
            lemma_touched_intro(s1, x, y, m);
        }
    }

    assert forall|m: MatchV, m2: MatchV|
        lk1.contains_key(m) && #[trigger] cluster_of(lk1, cl1, m).contains(m2) implies connected(
        s1,
        m,
        m2,
    ) by {
        if ca.contains(m) || cb.contains(m) {
            assert(cluster_of(lk1, cl1, m) == ca.union(cb));
            let me_side = if ca.contains(m) {
                av
            } else {
                bv
            };
            assert(connected(s1, m, me_side));
            let other_side = if ca.contains(m2) {
                av
            } else {
                bv
            };
            assert(connected(s1, m2, other_side));
            lemma_connected_sym(s1, m2, other_side);
            lemma_connected_edge(s1, av, bv);
            if me_side == other_side {
                lemma_connected_trans(s1, m, me_side, m2);
            } else if me_side == av {
                lemma_connected_trans(s1, m, av, bv);
                lemma_connected_trans(s1, m, bv, m2);
            } else {
                lemma_connected_sym(s1, av, bv);
                lemma_connected_trans(s1, m, bv, av);
                lemma_connected_trans(s1, m, av, m2);
            }
        } else {
            assert(cluster_of(lk1, cl1, m) == cluster_of(lk0, cl0, m));
            assert(lk0.contains_key(m)) by {
                if m == av {
                    assert(ca.contains(av));
                } else if m == bv {
                    assert(cb.contains(bv));
                }
            }
            assert(connected(s, m, m2));
            lemma_connected_mono(s, s1, m, m2);
        }
    }
}

/// Along any walk whose pairs have all been merged, the cluster does not
/// change.
#[verifier::rlimit(50)]
#[verifier::spinoff_prover]
proof fn lemma_walk_same_cluster(
    s: Set<(MatchV, MatchV)>,
    lk: Map<MatchV, MatchV>,
    cl: Map<MatchV, Seq<MatchV>>,
    p: Seq<MatchV>,
)
    requires
        merged_from(s, lk, cl),
        is_walk(s, p),
        p.len() >= 1,
    ensures
        cluster_of(lk, cl, p.first()) == cluster_of(lk, cl, p.last()),
    decreases p.len(),
{
    if p.len() >= 2 {
        assert(pair_joins(s, p[0], p[0int + 1]));
        assert(cluster_of(lk, cl, p[0]) == cluster_of(lk, cl, p[1]));
        let q = p.drop_first();
        assert forall|t: int| 0 <= t < q.len() - 1 implies #[trigger] pair_joins(s, q[t], q[t + 1]) by {
            assert(q[t] == p[t + 1]);
            assert(q[t + 1] == p[(t + 1) + 1]);
            assert(pair_joins(s, p[t + 1], p[(t + 1) + 1]));
        }
        lemma_walk_same_cluster(s, lk, cl, q);
        assert(q.first() == p[1]);
        assert(q.last() == p.last());
    }
}

/// The findings alone determine the clusters: two table states merged from
/// pair sets that join the same matches agree, cluster for cluster. In
/// particular the worker count and the order in which the workers' findings
/// were merged cannot change the outcome.
#[verifier::rlimit(50)]
#[verifier::spinoff_prover]
pub proof fn lemma_merged_partition_unique(
    s1: Set<(MatchV, MatchV)>,
    s2: Set<(MatchV, MatchV)>,
    lk1: Map<MatchV, MatchV>,
    cl1: Map<MatchV, Seq<MatchV>>,
    lk2: Map<MatchV, MatchV>,
    cl2: Map<MatchV, Seq<MatchV>>,
)
    requires
        clusters_wf(lk1, cl1),
        clusters_wf(lk2, cl2),
        merged_from(s1, lk1, cl1),
        merged_from(s2, lk2, cl2),
        forall|x: MatchV, y: MatchV| pair_joins(s1, x, y) <==> pair_joins(s2, x, y),
    ensures
        forall|m: MatchV| lk1.contains_key(m) <==> lk2.contains_key(m),
        forall|m: MatchV|
            #![trigger cluster_of(lk1, cl1, m)]
            lk1.contains_key(m) ==> cluster_of(lk1, cl1, m) == cluster_of(lk2, cl2, m),
{
    assert forall|m: MatchV| lk1.contains_key(m) implies lk2.contains_key(m) by {
        lemma_touched_unfold(s1, m);
        let (x, y) = choose|x: MatchV, y: MatchV|
            #[trigger] s1.contains((x, y)) && (m == x || m == y);
        assert(pair_joins(s1, x, y));
        assert(pair_joins(s2, x, y));
        assert(lk2.contains_key(x) && lk2.contains_key(y));
    }
    assert forall|m: MatchV| lk2.contains_key(m) implies lk1.contains_key(m) by {
        lemma_touched_unfold(s2, m);
        let (x, y) = choose|x: MatchV, y: MatchV|
            #[trigger] s2.contains((x, y)) && (m == x || m == y);
        assert(pair_joins(s2, x, y));
        assert(pair_joins(s1, x, y));
        assert(lk1.contains_key(x) && lk1.contains_key(y));
    }
    assert forall|m: MatchV|
        #![trigger cluster_of(lk1, cl1, m)]
        lk1.contains_key(m) implies cluster_of(lk1, cl1, m) == cluster_of(lk2, cl2, m) by {
        assert forall|m2: MatchV| cluster_of(lk1, cl1, m).contains(m2) implies cluster_of(
            lk2,
            cl2,
            m,
        ).contains(m2) by {
            assert(connected(s1, m, m2));
            let p = choose|p: Seq<MatchV>|
                p.len() >= 1 && p.first() == m && p.last() == m2 && is_walk(s1, p);
            assert forall|t: int| 0 <= t < p.len() - 1 implies #[trigger] pair_joins(s2, p[t], p[t + 1]) by {
                assert(pair_joins(s1, p[t], p[t + 1]));
            }
            lemma_walk_same_cluster(s2, lk2, cl2, p);
            crate::merge::lemma_cluster_of_bounds(lk2, cl2, m2);
        }
        assert forall|m2: MatchV| cluster_of(lk2, cl2, m).contains(m2) implies cluster_of(
            lk1,
            cl1,
            m,
        ).contains(m2) by {
            assert(connected(s2, m, m2));
            let p = choose|p: Seq<MatchV>|
                p.len() >= 1 && p.first() == m && p.last() == m2 && is_walk(s2, p);
            assert forall|t: int| 0 <= t < p.len() - 1 implies #[trigger] pair_joins(s1, p[t], p[t + 1]) by {
                assert(pair_joins(s2, p[t], p[t + 1]));
            }
            lemma_walk_same_cluster(s1, lk1, cl1, p);
            crate::merge::lemma_cluster_of_bounds(lk1, cl1, m2);
        }
        assert(cluster_of(lk1, cl1, m) =~= cluster_of(lk2, cl2, m));
    }
}

} // verus!
