//! Closeness centrality: for each node, the number of other reachable nodes
//! over the sum of their distances, as an exact rational. An isolated node
//! scores zero.

use vstd::prelude::*;

use crate::bfs::bfs_distances;
use crate::graph::Graph;
use crate::graph::row_has_index;
use crate::ratio::Ratio;
use crate::reach::connected;
use crate::reach::dist_is;
use crate::reach::dist_of;
use crate::reach::lemma_dist_bound;
use crate::reach::lemma_dist_exists;
use crate::reach::lemma_dist_unique;
use crate::reach::reach;

verus! {

/// How many of the first `m` nodes are reachable from `v` (itself included).
pub open spec fn reached_upto(g: Graph, v: int, m: int) -> nat
    decreases m,
{
    if m <= 0 {
        0
    } else {
        reached_upto(g, v, m - 1) + if connected(g, v, m - 1) {
            1nat
        } else {
            0nat
        }
    }
}

/// Sum over the first `m` nodes of their distance from `v`; an unreachable
/// node contributes nothing.
pub open spec fn dist_sum_upto(g: Graph, v: int, m: int) -> nat
    decreases m,
{
    if m <= 0 {
        0
    } else {
        dist_sum_upto(g, v, m - 1) + if connected(g, v, m - 1) {
            dist_of(g, v, m - 1)
        } else {
            0nat
        }
    }
}

/// The closeness score of node `v`: with `R` nodes reached at total distance
/// `S`, the score is `(R - 1) / S` when `S` is positive and zero otherwise
/// (isolated nodes and single-node graphs).
pub open spec fn closeness_spec(g: Graph, v: int) -> Ratio {
    let s = dist_sum_upto(g, v, g.n() as int);
    if s > 0 {
        Ratio { num: (reached_upto(g, v, g.n() as int) - 1) as u64, den: s as u64 }
    } else {
        Ratio { num: 0, den: 1 }
    }
}

/// A connected node has a well-defined exact distance, below the node count.
pub proof fn lemma_dist_of_works(g: Graph, v: int, w: int)
    requires
        g.wf(),
        0 <= v < g.n(),
        connected(g, v, w),
    ensures
        dist_is(g, v, w, dist_of(g, v, w)),
        dist_of(g, v, w) < g.n(),
{
    let k = choose|k: nat| reach(g, v, k).contains(w);
    lemma_dist_exists(g, v, w, k);
    let d = choose|d: nat| d <= k && #[trigger] dist_is(g, v, w, d);
    assert(dist_is(g, v, w, d));
    assert(dist_is(g, v, w, dist_of(g, v, w))) by {
        assert(exists|e: nat| dist_is(g, v, w, e));
    }
    lemma_dist_bound(g, v, w, dist_of(g, v, w));
}

/// The partial counts and sums are bounded by the prefix length and by the
/// largest possible total distance.
pub proof fn lemma_sums_bound(g: Graph, v: int, m: int)
    requires
        g.wf(),
        0 <= v < g.n(),
        0 <= m <= g.n(),
    ensures
        reached_upto(g, v, m) <= m,
        dist_sum_upto(g, v, m) <= m * (g.n() - 1),
    decreases m,
{
    if m > 0 {
        lemma_sums_bound(g, v, m - 1);
        if connected(g, v, m - 1) {
            lemma_dist_of_works(g, v, m - 1);
        }
        assert((m - 1) * (g.n() - 1) + (g.n() - 1) == m * (g.n() - 1)) by (nonlinear_arith);
    } else {
        assert(m * (g.n() - 1) == 0) by (nonlinear_arith)
            requires
                m == 0,
        ;
    }
}

/// The total distance is at least any one node's distance.
proof fn lemma_sum_term(g: Graph, v: int, m: int, w: int)
    requires
        0 <= w < m,
        connected(g, v, w),
    ensures
        dist_sum_upto(g, v, m) >= dist_of(g, v, w),
    decreases m,
{
    if w < m - 1 {
        lemma_sum_term(g, v, m - 1, w);
    }
}

/// Two distinct reachable nodes make the reached count at least two.
proof fn lemma_reached_two(g: Graph, v: int, m: int, w1: int, w2: int)
    requires
        0 <= w1 < w2 < m,
        connected(g, v, w1),
        connected(g, v, w2),
    ensures
        reached_upto(g, v, m) >= 2,
    decreases m,
{
    if w2 < m - 1 {
        lemma_reached_two(g, v, m - 1, w1, w2);
    } else {
        lemma_reached_one(g, v, m - 1, w1);
    }
}

/// A reachable node makes the reached count at least one.
proof fn lemma_reached_one(g: Graph, v: int, m: int, w: int)
    requires
        0 <= w < m,
        connected(g, v, w),
    ensures
        reached_upto(g, v, m) >= 1,
    decreases m,
{
    if w < m - 1 {
        lemma_reached_one(g, v, m - 1, w);
    }
}

/// Closeness centrality of every node, as exact rational scores keyed by
/// actor id in node order.
#[verifier::loop_isolation(false)]
#[verifier::rlimit(100)]
pub fn closeness_centrality(g: &Graph) -> (r: Vec<(String, Ratio)>)
    requires
        g.wf(),
        g.n() <= 0xFFFF_FFFF,
    ensures
        r@.len() == g.n(),
        forall|k: int|
            0 <= k < g.n() ==> (#[trigger] r@[k]).0@ == g.ids@[k]@ && r@[k].1 == closeness_spec(
                *g,
                k,
            ),
{
    let n = g.node_count();
    let mut r: Vec<(String, Ratio)> = Vec::new();
    for v in 0..n
        invariant
            r@.len() == v,
            forall|k: int|
                0 <= k < v ==> (#[trigger] r@[k]).0@ == g.ids@[k]@ && r@[k].1 == closeness_spec(
                    *g,
                    k,
                ),
    {
        let dist = bfs_distances(g, v);
        let mut sum: u64 = 0;
        let mut cnt: u64 = 0;
        for w in 0..n
            invariant
                dist@.len() == n,
                cnt == reached_upto(*g, v as int, w as int),
                sum == dist_sum_upto(*g, v as int, w as int),
        {
            proof {
                lemma_sums_bound(*g, v as int, w as int);
                assert((w as int) * (g.n() - 1) + (g.n() - 1) == (w as int + 1) * (g.n() - 1))
                    by (nonlinear_arith);
                assert((g.n() as int) * (g.n() - 1) < 0xFFFF_FFFF_FFFF_FFFF) by (nonlinear_arith)
                    requires
                        0 < g.n() <= 0xFFFF_FFFF,
                ;
                assert((w as int + 1) * (g.n() - 1) <= (g.n() as int) * (g.n() - 1))
                    by (nonlinear_arith)
                    requires
                        0 <= w as int + 1 <= g.n() as int,
                        g.n() >= 1,
                ;
            }
            match dist[w] {
                Some(d) => {
                    proof {
                        assert(dist_is(*g, v as int, w as int, d as nat));
                        assert(connected(*g, v as int, w as int)) by {
                            assert(reach(*g, v as int, d as nat).contains(w as int));
                        }
                        lemma_dist_of_works(*g, v as int, w as int);
                        lemma_dist_unique(
                            *g,
                            v as int,
                            w as int,
                            d as nat,
                            dist_of(*g, v as int, w as int),
                        );
                    }
                    sum = sum + (d as u64);
                    cnt = cnt + 1;
                },
                None => {
                    proof {
                        assert(!connected(*g, v as int, w as int));
                    }
                },
            }
        }
        let score = if sum > 0 {
            proof {
                assert(connected(*g, v as int, v as int)) by {
                    assert(reach(*g, v as int, 0).contains(v as int));
                }
                lemma_reached_one(*g, v as int, n as int, v as int);
            }
            Ratio { num: cnt - 1, den: sum }
        } else {
            Ratio { num: 0, den: 1 }
        };
        let id = g.id_of(v).clone();
        r.push((id, score));
    }
    r
}

/// An isolated node reaches nothing, so its closeness score is zero.
pub proof fn lemma_closeness_isolated(g: Graph, v: int)
    requires
        g.wf(),
        0 <= v < g.n(),
        g.adj@[v]@.len() == 0,
    ensures
        closeness_spec(g, v).num == 0,
        closeness_spec(g, v).den == 1,
{
    assert forall|k: nat| reach(g, v, k) =~= set![v] by {
        lemma_reach_singleton(g, v, k);
    }
    assert forall|w: int| #[trigger] connected(g, v, w) implies w == v by {
        let k = choose|k: nat| reach(g, v, k).contains(w);
        lemma_reach_singleton(g, v, k);
        assert(set![v].contains(w));
    }
    assert(dist_of(g, v, v) == 0) by {
        assert(dist_is(g, v, v, 0)) by {
            assert(reach(g, v, 0).contains(v));
        }
        lemma_dist_unique(g, v, v, dist_of(g, v, v), 0);
        assert(dist_is(g, v, v, dist_of(g, v, v))) by {
            assert(exists|e: nat| dist_is(g, v, v, e));
        }
    }
    lemma_sum_zero(g, v, g.n() as int);
}

/// Without edges at `v`, every reach set from `v` is the singleton of `v`.
proof fn lemma_reach_singleton(g: Graph, v: int, k: nat)
    requires
        g.wf(),
        0 <= v < g.n(),
        g.adj@[v]@.len() == 0,
    ensures
        reach(g, v, k) =~= set![v],
    decreases k,
{
    if k > 0 {
        lemma_reach_singleton(g, v, (k - 1) as nat);
        assert forall|w: int| reach(g, v, k).contains(w) implies w == v by {
            if !reach(g, v, (k - 1) as nat).contains(w) {
                let u = choose|u: int| reach(g, v, (k - 1) as nat).contains(u) && g.edge(u, w);
                assert(u == v);
                assert(row_has_index(g.adj@[v]@, w));
                assert(false);
            } else {
                assert(set![v].contains(w));
            }
        }
        assert(reach(g, v, k).contains(v)) by {
            assert(reach(g, v, (k - 1) as nat).contains(v));
        }
    }
}

/// When every reachable node is at distance zero, the total distance is zero.
proof fn lemma_sum_zero(g: Graph, v: int, m: int)
    requires
        forall|w: int| #[trigger] connected(g, v, w) ==> w == v,
        dist_of(g, v, v) == 0,
    ensures
        dist_sum_upto(g, v, m) == 0,
    decreases m,
{
    if m > 0 {
        lemma_sum_zero(g, v, m - 1);
    }
}

/// A node with a neighbor has a strictly positive closeness score.
pub proof fn lemma_closeness_positive(g: Graph, v: int)
    requires
        g.wf(),
        0 <= v < g.n(),
        g.n() <= 0xFFFF_FFFF,
        g.adj@[v]@.len() > 0,
    ensures
        closeness_spec(g, v).num > 0,
        closeness_spec(g, v).valid(),
{
    let w = g.adj@[v]@[0] as int;
    assert(g.edge(v, w)) by {
        assert(row_has_index(g.adj@[v]@, w));
    }
    assert(w != v && 0 <= w < g.n());
    assert(connected(g, v, w)) by {
        assert(reach(g, v, 0).contains(v));
        assert(reach(g, v, 1).contains(w));
    }
    assert(connected(g, v, v)) by {
        assert(reach(g, v, 0).contains(v));
    }
    lemma_dist_of_works(g, v, w);
    assert(dist_of(g, v, w) >= 1) by {
        if dist_of(g, v, w) == 0 {
            assert(reach(g, v, 0).contains(w));
            assert(set![v].contains(w)) by {
                assert(reach(g, v, 0) =~= set![v]);
            }
        }
    }
    lemma_sum_term(g, v, g.n() as int, w);
    if v < w {
        lemma_reached_two(g, v, g.n() as int, v, w);
    } else {
        lemma_reached_two(g, v, g.n() as int, w, v);
    }
    lemma_sums_bound(g, v, g.n() as int);
    assert((g.n() as int) * (g.n() - 1) < 0xFFFF_FFFF_FFFF_FFFF) by (nonlinear_arith)
        requires
            0 < g.n() <= 0xFFFF_FFFF,
    ;
    assert(dist_sum_upto(g, v, g.n() as int) < 0xFFFF_FFFF_FFFF_FFFF);
    assert(reached_upto(g, v, g.n() as int) >= 2);
}

} // verus!
