//! Single-source breadth-first traversal with exact distances. Every
//! analytic that needs shortest paths or component membership builds on this
//! one verified function.

use vstd::prelude::*;
use vstd::set_lib::lemma_int_range;
use vstd::set_lib::lemma_len_subset;
use vstd::set_lib::set_int_range;

use crate::graph::Graph;
use crate::reach::connected;
use crate::reach::dist_is;
use crate::reach::lemma_dist_bound;
use crate::reach::lemma_reach_mono;
use crate::reach::lemma_reach_stable;
use crate::reach::reach;

verus! {

/// The node indices already given a distance.
pub open spec fn assigned(dist: Seq<Option<usize>>) -> Set<int> {
    Set::new(|v: int| 0 <= v < dist.len() && dist[v] is Some)
}

/// Breadth-first traversal from `s`. For every node the result holds `Some`
/// of its exact distance from `s` when it is reachable, `None` otherwise.
#[verifier::loop_isolation(false)]
#[verifier::rlimit(80)]
pub fn bfs_distances(g: &Graph, s: usize) -> (dist: Vec<Option<usize>>)
    requires
        g.wf(),
        s < g.n(),
    ensures
        dist@.len() == g.n(),
        forall|v: int|
            0 <= v < g.n() ==> ((#[trigger] dist@[v]) matches Some(d) ==> dist_is(
                *g,
                s as int,
                v,
                d as nat,
            ) && d < g.n()),
        forall|v: int|
            0 <= v < g.n() ==> (dist@[v] is None ==> !connected(*g, s as int, v)),
{
    let n = g.node_count();
    let mut dist: Vec<Option<usize>> = Vec::new();
    for i in 0..n
        invariant
            dist@.len() == i,
            forall|j: int| 0 <= j < i ==> dist@[j] is None,
    {
        dist.push(None);
    }
    dist[s] = Some(0);
    let mut frontier: Vec<usize> = Vec::new();
    frontier.push(s);
    let mut level: usize = 0;
    proof {
        assert(reach(*g, s as int, 0) =~= Set::empty().insert(s as int));
        assert(assigned(dist@) =~= Set::empty().insert(s as int));
        lemma_int_range(0, n as int);
        lemma_len_subset(assigned(dist@), set_int_range(0, n as int));
        assert(assigned(dist@).len() == 1);
        assert(frontier@ =~= Seq::<usize>::empty().push(s));
        assert forall|v: int|
            0 <= v < n implies (frontier@.contains(v as usize) <==> dist@[v] == Some(0usize)) by {
            if frontier@.contains(v as usize) {
                let k = choose|k: int| 0 <= k < frontier@.len() && frontier@[k] == v as usize;
                assert(k == 0);
                assert(v == s as int);
            }
            if v == s as int {
                assert(frontier@[0] == v as usize);
            }
        }
    }
    while frontier.len() > 0
        invariant
            level <= n,
            dist@.len() == n,
            forall|v: int|
                0 <= v < n ==> ((#[trigger] dist@[v]) matches Some(d) ==> dist_is(
                    *g,
                    s as int,
                    v,
                    d as nat,
                ) && d <= level),
            forall|v: int| reach(*g, s as int, level as nat).contains(v) ==> 0 <= v < n
                && dist@[v] is Some,
            forall|k: int| 0 <= k < frontier@.len() ==> (#[trigger] frontier@[k] as int) < n,
            forall|v: int|
                0 <= v < n ==> (frontier@.contains(v as usize) <==> dist@[v] == Some(level)),
            frontier@.len() > 0 ==> assigned(dist@).len() >= level + 1,
            assigned(dist@).len() <= n,
            assigned(dist@).finite(),
            level > 0 || frontier@.len() > 0,
        decreases n - level,
    {
        let ghost dist0 = dist@;
        let ghost frontier0 = frontier@;
        proof {
            // the frontier is nonempty, so the level is still below `n`
            assert(assigned(dist@).len() >= level + 1);
        }
        let mut next: Vec<usize> = Vec::new();
        let fl = frontier.len();
        for fi in 0..fl
            invariant
                dist@.len() == n,
                // entries change only from None to Some(level + 1)
                forall|v: int|
                    0 <= v < n ==> (dist0[v] is Some ==> (#[trigger] dist@[v]) == dist0[v]),
                forall|v: int|
                    0 <= v < n ==> (dist0[v] is None ==> (#[trigger] dist@[v]) is None || dist@[v]
                        == Some((level + 1) as usize)),
                // every entry is an exact distance
                forall|v: int|
                    0 <= v < n ==> ((#[trigger] dist@[v]) matches Some(d) ==> dist_is(
                        *g,
                        s as int,
                        v,
                        d as nat,
                    ) && d <= level + 1),
                // `next` holds exactly the newly assigned nodes
                forall|k: int| 0 <= k < next@.len() ==> (#[trigger] next@[k] as int) < n,
                forall|v: int|
                    0 <= v < n ==> (next@.contains(v as usize) <==> (dist@[v] == Some(
                        (level + 1) as usize,
                    ) && dist0[v] is None)),
                // neighbors of already processed frontier nodes are assigned
                forall|fidx: int, k: int|
                    0 <= fidx < fi && 0 <= k < g.adj@[frontier0[fidx] as int]@.len() ==> dist@[(
                    #[trigger] g.adj@[frontier0[fidx] as int]@[k]) as int] is Some,
        {
            let u = frontier[fi];
            proof {
                assert(frontier0.contains(u));
                assert(dist0[u as int] == Some(level));
                assert(dist@[u as int] == Some(level));
                assert(dist_is(*g, s as int, u as int, level as nat));
            }
            let row_len = g.degree(u);
            for wi in 0..row_len
                invariant
                    dist@.len() == n,
                    forall|v: int|
                        0 <= v < n ==> (dist0[v] is Some ==> (#[trigger] dist@[v]) == dist0[v]),
                    forall|v: int|
                        0 <= v < n ==> (dist0[v] is None ==> (#[trigger] dist@[v]) is None
                            || dist@[v] == Some((level + 1) as usize)),
                    forall|v: int|
                        0 <= v < n ==> ((#[trigger] dist@[v]) matches Some(d) ==> dist_is(
                            *g,
                            s as int,
                            v,
                            d as nat,
                        ) && d <= level + 1),
                    forall|k: int| 0 <= k < next@.len() ==> (#[trigger] next@[k] as int) < n,
                    forall|v: int|
                        0 <= v < n ==> (next@.contains(v as usize) <==> (dist@[v] == Some(
                            (level + 1) as usize,
                        ) && dist0[v] is None)),
                    forall|fidx: int, k: int|
                        0 <= fidx < fi && 0 <= k < g.adj@[frontier0[fidx] as int]@.len() ==> dist@[(
                        #[trigger] g.adj@[frontier0[fidx] as int]@[k]) as int] is Some,
                    // neighbors of `u` seen so far are assigned
                    forall|k: int|
                        0 <= k < wi ==> dist@[(#[trigger] g.adj@[u as int]@[k]) as int] is Some,
            {
                let w = g.neighbors(u)[wi];
                proof {
                    assert(g.edge(u as int, w as int));
                }
                if dist[w].is_none() {
                    proof {
                        // `w` enters exactly at distance `level + 1`
                        assert(reach(*g, s as int, level as nat).contains(u as int));
                        assert(reach(*g, s as int, (level + 1) as nat).contains(w as int));
                        assert(!reach(*g, s as int, level as nat).contains(w as int)) by {
                            if reach(*g, s as int, level as nat).contains(w as int) {
                                assert(dist0[w as int] is Some);
                            }
                        }
                        assert(dist_is(*g, s as int, w as int, (level + 1) as nat));
                    }
                    let ghost dist_pre = dist@;
                    let ghost next0 = next@;
                    dist[w] = Some(level + 1);
                    next.push(w);
                    proof {
                        assert(next@ =~= next0.push(w));
                        assert forall|v: int|
                            0 <= v < n implies (next@.contains(v as usize) <==> (dist@[v] == Some(
                            (level + 1) as usize,
                        ) && dist0[v] is None)) by {
                            if next@.contains(v as usize) {
                                let k = choose|k: int|
                                    0 <= k < next@.len() && next@[k] == v as usize;
                                if k < next0.len() {
                                    assert(next0[k] == v as usize);
                                    assert(next0.contains(v as usize));
                                } else {
                                    assert(v == w as int);
                                }
                            }
                            if dist@[v] == Some((level + 1) as usize) && dist0[v] is None {
                                if v != w as int {
                                    assert(dist_pre[v] == dist@[v]);
                                    assert(next0.contains(v as usize));
                                    let k = choose|k: int|
                                        0 <= k < next0.len() && next0[k] == v as usize;
                                    assert(next@[k] == v as usize);
                                } else {
                                    assert(next@[next0.len() as int] == v as usize);
                                }
                            }
                        }
                    }
                }
            }
        }
        frontier = next;
        level = level + 1;
        proof {
            // everything within `level` steps is now assigned
            assert forall|v: int|
                reach(*g, s as int, level as nat).contains(v) implies 0 <= v < n
                && dist@[v] is Some by {
                let lm1 = (level - 1) as nat;
                if reach(*g, s as int, lm1).contains(v) {
                    assert(dist0[v] is Some);
                } else {
                    let u = choose|u: int|
                        reach(*g, s as int, lm1).contains(u) && g.edge(u, v);
                    assert(dist0[u] is Some);
                    let d = dist0[u]->Some_0;
                    assert(dist_is(*g, s as int, u, d as nat));
                    if (d as int) < lm1 {
                        // then `v` was already within `level - 1` steps
                        lemma_reach_mono(*g, s as int, (d + 1) as nat, lm1);
                        assert(reach(*g, s as int, (d + 1) as nat).contains(v));
                        assert(dist0[v] is Some);
                    } else {
                        assert(d == lm1);
                        assert(frontier0.contains(u as usize));
                        let fidx = choose|fidx: int|
                            0 <= fidx < frontier0.len() && frontier0[fidx] == u as usize;
                        assert(g.edge(u, v));
                        let k = choose|k: int|
                            0 <= k < g.adj@[u]@.len() && g.adj@[u]@[k] as int == v;
                        assert(dist@[(g.adj@[frontier0[fidx] as int]@[k]) as int] is Some);
                    }
                }
            }
            // the invariant on the frontier at the new level
            assert forall|v: int|
                0 <= v < n implies (frontier@.contains(v as usize) <==> dist@[v] == Some(
                level,
            )) by {}
            // cardinality bookkeeping
            lemma_int_range(0, n as int);
            assert(assigned(dist@).subset_of(set_int_range(0, n as int)));
            lemma_len_subset(assigned(dist@), set_int_range(0, n as int));
            if frontier@.len() > 0 {
                let w0 = frontier@[0] as int;
                assert(dist@[w0] == Some(level) && dist0[w0] is None);
                assert(!assigned(dist0).contains(w0));
                assert(assigned(dist0).insert(w0).subset_of(assigned(dist@))) by {
                    assert forall|v: int|
                        assigned(dist0).contains(v) implies assigned(dist@).contains(v) by {}
                }
                lemma_len_subset(assigned(dist0).insert(w0), assigned(dist@));
            }
        }
    }
    proof {
        // the reach sets have stabilized one level below the final one
        let lm1 = (level - 1) as nat;
        assert forall|v: int|
            reach(*g, s as int, level as nat).contains(v) implies reach(
            *g,
            s as int,
            lm1,
        ).contains(v) by {
            assert(dist@[v] is Some);
            let d = dist@[v]->Some_0;
            assert(dist_is(*g, s as int, v, d as nat));
            if d == level {
                assert(frontier@.contains(v as usize));
                assert(false);
            }
            lemma_reach_mono(*g, s as int, d as nat, lm1);
        }
        lemma_reach_mono(*g, s as int, lm1, level as nat);
        assert(reach(*g, s as int, lm1) =~= reach(*g, s as int, level as nat));
        assert forall|v: int|
            0 <= v < g.n() && dist@[v] is None implies !connected(*g, s as int, v) by {
            if connected(*g, s as int, v) {
                let k = choose|k: nat| reach(*g, s as int, k).contains(v);
                if k <= lm1 {
                    lemma_reach_mono(*g, s as int, k, lm1);
                } else {
                    lemma_reach_stable(*g, s as int, lm1, k);
                }
                assert(reach(*g, s as int, lm1).contains(v));
            }
        }
        assert forall|v: int|
            0 <= v < g.n() && dist@[v] is Some implies dist_is(
            *g,
            s as int,
            v,
            dist@[v]->Some_0 as nat,
        ) && (dist@[v]->Some_0 as int) < g.n() by {
            let d = dist@[v]->Some_0;
            lemma_dist_bound(*g, s as int, v, d as nat);
        }
    }
    dist
}

} // verus!
