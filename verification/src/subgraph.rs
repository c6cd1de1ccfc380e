//! Bounded-radius neighborhood extraction: the subgraph induced on all nodes
//! within a given number of hops of a center node.

use vstd::prelude::*;
use vstd::set_lib::lemma_len_subset;

use crate::bfs::bfs_distances;
use crate::graph::Graph;
use crate::graph::lemma_id_set_size;
use crate::reach::connected;
use crate::reach::dist_is;
use crate::reach::lemma_reach_complete;
use crate::reach::lemma_reach_finite;
use crate::reach::lemma_reach_in_range;
use crate::reach::lemma_reach_mono;
use crate::reach::reach;

verus! {

/// `a` names a node of `g` within `r` hops of node `c`.
pub open spec fn in_radius(g: Graph, c: int, r: nat, a: Seq<char>) -> bool {
    exists|w: int|
        0 <= w < g.n() && reach(g, c, r).contains(w) && (#[trigger] g.ids@[w])@ == a
}

/// The node picked up by the collecting loop for id `a`, among the first
/// `bound` nodes.
spec fn picked(g: Graph, dist: Seq<Option<usize>>, r: usize, bound: int, a: Seq<char>) -> bool {
    exists|w: int|
        0 <= w < bound && (#[trigger] dist[w]) is Some && dist[w]->Some_0 <= r && g.ids@[w]@ == a
}

/// The pair of ids joined by the `j`-th listed edge of `g`.
spec fn listed_pair(g: Graph, j: int, a: Seq<char>, b: Seq<char>) -> bool {
    0 <= j < g.edge_list@.len() && {
        let e = g.edge_list@[j];
        (g.ids@[e.0 as int]@ == a && g.ids@[e.1 as int]@ == b) || (g.ids@[e.0 as int]@ == b
            && g.ids@[e.1 as int]@ == a)
    }
}

/// An edge of `sub`, both of whose endpoints stand in `sub`, copied from one
/// of the first `k` listed edges of `g`.
spec fn edges_copied(g: Graph, sub: Graph, k: int, a: Seq<char>, b: Seq<char>) -> bool {
    sub.has_id(a) && sub.has_id(b) && exists|j: int| 0 <= j < k && #[trigger] listed_pair(g, j, a, b)
}

/// Breadth-first neighborhood extraction around the actor `center_id`, up to
/// `max_depth` hops inclusive. The result is a fresh graph holding exactly
/// the nodes within that radius and the edges of `g` between them; an
/// unknown center yields the empty graph.
#[verifier::loop_isolation(false)]
#[verifier::rlimit(100)]
pub fn extract_subgraph_around_actor(g: &Graph, center_id: &str, max_depth: usize) -> (sub: Graph)
    requires
        g.wf(),
    ensures
        sub.wf(),
        !g.has_id(center_id@) ==> sub.n() == 0 && sub.edge_list@.len() == 0,
        g.has_id(center_id@) ==> {
            let c = g.index_of(center_id@);
            &&& forall|a: Seq<char>|
                #[trigger] sub.has_id(a) <==> in_radius(*g, c, max_depth as nat, a)
            &&& forall|a: Seq<char>, b: Seq<char>|
                #[trigger] sub.edge_ids(a, b) <==> (sub.has_id(a) && sub.has_id(b) && g.edge_ids(
                    a,
                    b,
                ))
            &&& sub.n() == reach(*g, c, max_depth as nat).len()
        },
{
    let mut sub = Graph::new();
    let c = match g.find_index(center_id) {
        Some(i) => i,
        None => {
            return sub;
        },
    };
    let dist = bfs_distances(g, c);
    let n = g.node_count();
    for v in 0..n
        invariant
            sub.wf(),
            sub.edge_list@.len() == 0,
            forall|a: Seq<char>, b: Seq<char>| !sub.edge_ids(a, b),
            forall|a: Seq<char>|
                #[trigger] sub.has_id(a) <==> picked(*g, dist@, max_depth, v as int, a),
    {
        let keep = match dist[v] {
            Some(d) => d <= max_depth,
            None => false,
        };
        let ghost sub0 = sub;
        if keep {
            sub.add_node(g.id_of(v).clone());
        }
        proof {
            assert forall|a: Seq<char>| #[trigger] sub.has_id(a) implies picked(
                *g,
                dist@,
                max_depth,
                v as int + 1,
                a,
            ) by {
                if sub0.has_id(a) {
                    let w = choose|w: int|
                        0 <= w < v as int && (#[trigger] dist@[w]) is Some && dist@[w]->Some_0
                            <= max_depth && g.ids@[w]@ == a;
                    assert(picked(*g, dist@, max_depth, v as int + 1, a));
                } else {
                    assert(keep && a == g.ids@[v as int]@);
                    assert(picked(*g, dist@, max_depth, v as int + 1, a));
                }
            }
            assert forall|a: Seq<char>| picked(*g, dist@, max_depth, v as int + 1, a) implies
                sub.has_id(a) by {
                let w = choose|w: int|
                    0 <= w < v as int + 1 && (#[trigger] dist@[w]) is Some && dist@[w]->Some_0
                        <= max_depth && g.ids@[w]@ == a;
                if w < v as int {
                    assert(picked(*g, dist@, max_depth, v as int, a));
                    assert(sub0.has_id(a));
                }
            }
        }
    }
    proof {
        // picked up exactly the ids of the reach set
        assert forall|a: Seq<char>| picked(*g, dist@, max_depth, n as int, a) <==> in_radius(
            *g,
            c as int,
            max_depth as nat,
            a,
        ) by {
            if picked(*g, dist@, max_depth, n as int, a) {
                let w = choose|w: int|
                    0 <= w < n as int && (#[trigger] dist@[w]) is Some && dist@[w]->Some_0
                        <= max_depth && g.ids@[w]@ == a;
                let d = dist@[w]->Some_0;
                assert(dist_is(*g, c as int, w, d as nat));
                lemma_reach_mono(*g, c as int, d as nat, max_depth as nat);
                assert(reach(*g, c as int, max_depth as nat).contains(w));
                assert(in_radius(*g, c as int, max_depth as nat, a));
            }
            if in_radius(*g, c as int, max_depth as nat, a) {
                let w = choose|w: int|
                    0 <= w < g.n() && reach(*g, c as int, max_depth as nat).contains(w) && (
                    #[trigger] g.ids@[w])@ == a;
                assert(connected(*g, c as int, w));
                assert(dist@[w] is Some);
                let d = dist@[w]->Some_0;
                assert(d <= max_depth) by {
                    if d > max_depth {
                        lemma_reach_mono(*g, c as int, max_depth as nat, (d - 1) as nat);
                        assert(reach(*g, c as int, (d - 1) as nat).contains(w));
                    }
                }
                assert(picked(*g, dist@, max_depth, n as int, a));
            }
        }
    }
    // copy each edge of `g` whose endpoints both made it in
    let ghost sub_nodes = sub;
    copy_induced_edges(g, &mut sub);
    proof {
        let r = max_depth as nat;
        let ci = c as int;
        // the node count is the size of the reach set
        lemma_reach_in_range(*g, ci, r);
        lemma_reach_finite(*g, ci, r);
        lemma_id_set_size(sub);
        let rset = reach(*g, ci, r);
        let f = |w: int| g.ids@[w]@;
        assert(vstd::relations::injective_on(f, rset)) by {
            assert forall|w1: int, w2: int|
                rset.contains(w1) && rset.contains(w2) && #[trigger] f(w1) == #[trigger] f(
                w2,
            ) implies w1 == w2 by {
                if w1 < w2 {
                    assert(g.ids@[w1]@ != g.ids@[w2]@);
                } else if w2 < w1 {
                    assert(g.ids@[w2]@ != g.ids@[w1]@);
                }
            }
        }
        assert(rset.map(f) =~= Set::new(|a: Seq<char>| sub.has_id(a))) by {
            assert forall|a: Seq<char>| rset.map(f).contains(a) implies sub.has_id(a) by {
                let w = choose|w: int| rset.contains(w) && a == #[trigger] f(w);
                assert(in_radius(*g, ci, r, a)) by {
                    assert(g.ids@[w]@ == a);
                }
            }
            assert forall|a: Seq<char>| sub.has_id(a) implies rset.map(f).contains(a) by {
                assert(picked(*g, dist@, max_depth, n as int, a));
                assert(in_radius(*g, ci, r, a));
                let w = choose|w: int|
                    0 <= w < g.n() && reach(*g, ci, r).contains(w) && (#[trigger] g.ids@[w])@ == a;
                assert(rset.contains(w) && f(w) == a);
                assert(rset.map(f).contains(f(w)));
            }
        }
        vstd::set_lib::lemma_map_size(rset, Set::new(|a: Seq<char>| sub.has_id(a)), f);
        assert(g.index_of(center_id@) == c as int) by {
            let i = g.index_of(center_id@);
            assert(0 <= i < g.n() && g.ids@[i]@ == center_id@);
        }
    }
    sub
}

/// Adds to `sub` every edge of `g` both of whose endpoint ids name nodes of
/// `sub`. The node list is untouched; afterwards the edges of `sub` are
/// exactly the ones induced by `g` on its nodes.
#[verifier::loop_isolation(false)]
#[verifier::rlimit(100)]
pub(crate) fn copy_induced_edges(g: &Graph, sub: &mut Graph)
    requires
        g.wf(),
        old(sub).wf(),
        forall|a: Seq<char>, b: Seq<char>| !old(sub).edge_ids(a, b),
    ensures
        final(sub).wf(),
        final(sub).ids@ == old(sub).ids@,
        forall|a: Seq<char>| #[trigger] final(sub).has_id(a) <==> old(sub).has_id(a),
        forall|a: Seq<char>, b: Seq<char>|
            #[trigger] final(sub).edge_ids(a, b) <==> (old(sub).has_id(a) && old(sub).has_id(b)
                && g.edge_ids(a, b)),
{
    let m = g.edge_count();
    for k in 0..m
        invariant
            sub.wf(),
            m == g.edge_list@.len(),
            sub.ids@ == old(sub).ids@,
            forall|a: Seq<char>| #[trigger] sub.has_id(a) <==> old(sub).has_id(a),
            forall|a: Seq<char>, b: Seq<char>|
                #[trigger] sub.edge_ids(a, b) <==> edges_copied(*g, *sub, k as int, a, b),
    {
        let e = g.edge_list[k];
        let ghost sub0 = *sub;
        proof {
            assert(e.0 < e.1 && (e.1 as int) < g.n());
        }
        let ia = sub.find_index(g.id_of(e.0).as_str());
        let ib = sub.find_index(g.id_of(e.1).as_str());
        match (ia, ib) {
            (Some(ia), Some(ib)) => {
                proof {
                    assert(sub.ids@[ia as int]@ == g.ids@[e.0 as int]@);
                    assert(sub.ids@[ib as int]@ == g.ids@[e.1 as int]@);
                    assert(g.ids@[e.0 as int]@ != g.ids@[e.1 as int]@);
                }
                sub.add_edge(ia, ib);
                proof {
                    assert forall|a: Seq<char>| #[trigger] sub.has_id(a) <==> sub0.has_id(a) by {
                        assert(sub.ids@ == sub0.ids@);
                        if sub.has_id(a) {
                            let i = choose|i: int| 0 <= i < sub.n() && sub.ids@[i]@ == a;
                            assert(sub0.ids@[i]@ == a);
                        }
                        if sub0.has_id(a) {
                            let i = choose|i: int| 0 <= i < sub0.n() && sub0.ids@[i]@ == a;
                            assert(sub.ids@[i]@ == a);
                        }
                    }
                    let pa = g.ids@[e.0 as int]@;
                    let pb = g.ids@[e.1 as int]@;
                    assert(listed_pair(*g, k as int, pa, pb));
                    assert(listed_pair(*g, k as int, pb, pa));
                    assert forall|a: Seq<char>, b: Seq<char>| #[trigger] sub.edge_ids(a, b)
                        <==> edges_copied(*g, *sub, k as int + 1, a, b) by {
                        assert(sub.edge_ids(a, b) <==> (sub0.edge_ids(a, b) || (a == pa && b == pb)
                            || (a == pb && b == pa)));
                        if sub0.edge_ids(a, b) {
                            let j = choose|j: int|
                                0 <= j < k as int && #[trigger] listed_pair(*g, j, a, b);
                            assert(listed_pair(*g, j, a, b));
                            assert(edges_copied(*g, *sub, k as int + 1, a, b));
                        }
                        if a == pa && b == pb {
                            assert(edges_copied(*g, *sub, k as int + 1, a, b));
                        }
                        if a == pb && b == pa {
                            assert(edges_copied(*g, *sub, k as int + 1, a, b));
                        }
                        if edges_copied(*g, *sub, k as int + 1, a, b) && !sub.edge_ids(a, b) {
                            let j = choose|j: int|
                                0 <= j < k as int + 1 && #[trigger] listed_pair(*g, j, a, b);
                            if j < k as int {
                                assert(edges_copied(*g, sub0, k as int, a, b));
                            }
                            assert(false);
                        }
                    }
                }
            },
            _ => {
                proof {
                    let pa = g.ids@[e.0 as int]@;
                    let pb = g.ids@[e.1 as int]@;
                    assert forall|a: Seq<char>, b: Seq<char>| #[trigger] sub.edge_ids(a, b)
                        <==> edges_copied(*g, *sub, k as int + 1, a, b) by {
                        if edges_copied(*g, *sub, k as int + 1, a, b) && !sub.edge_ids(a, b) {
                            let j = choose|j: int|
                                0 <= j < k as int + 1 && #[trigger] listed_pair(*g, j, a, b);
                            if j < k as int {
                                assert(edges_copied(*g, *sub, k as int, a, b));
                            } else {
                                // one endpoint of this pair is outside `sub`
                                assert((a == pa && b == pb) || (a == pb && b == pa));
                                assert(!sub.has_id(pa) || !sub.has_id(pb));
                            }
                            assert(false);
                        }
                    }
                }
            },
        }
    }
    proof {
        // the copied edges are exactly the induced ones
        assert forall|a: Seq<char>, b: Seq<char>| #[trigger] sub.edge_ids(a, b) <==> (old(
            sub,
        ).has_id(a) && old(sub).has_id(b) && g.edge_ids(a, b)) by {
            if sub.edge_ids(a, b) {
                let j = choose|j: int|
                    0 <= j < m as int && #[trigger] listed_pair(*g, j, a, b);
                let e = g.edge_list@[j];
                assert(g.edge(e.0 as int, e.1 as int));
                assert(g.edge(e.1 as int, e.0 as int));
                assert(g.edge_ids(a, b));
            }
            if old(sub).has_id(a) && old(sub).has_id(b) && g.edge_ids(a, b) {
                let (p, q) = choose|p: int, q: int|
                    0 <= p < g.n() && 0 <= q < g.n() && g.ids@[p]@ == a && g.ids@[q]@ == b
                        && g.edge(p, q);
                if p < q {
                    assert(g.edge_list@.contains((p as usize, q as usize)));
                    let j = choose|j: int|
                        0 <= j < g.edge_list@.len() && g.edge_list@[j] == (p as usize, q as usize);
                    assert(listed_pair(*g, j, a, b));
                } else {
                    assert(g.edge(q, p));
                    assert(g.edge_list@.contains((q as usize, p as usize)));
                    let j = choose|j: int|
                        0 <= j < g.edge_list@.len() && g.edge_list@[j] == (q as usize, p as usize);
                    assert(listed_pair(*g, j, a, b));
                }
                assert(edges_copied(*g, *sub, m as int, a, b));
            }
        }
    }
}

/// A neighborhood of radius zero is the center alone, with no edges: this
/// holds of any well-formed graph meeting the extraction contract at depth
/// zero around a known center.
pub proof fn lemma_radius_zero(g: Graph, sub: Graph, cid: Seq<char>)
    requires
        g.wf(),
        sub.wf(),
        g.has_id(cid),
        forall|a: Seq<char>| #[trigger] sub.has_id(a) <==> in_radius(g, g.index_of(cid), 0, a),
        sub.n() == reach(g, g.index_of(cid), 0).len(),
    ensures
        sub.n() == 1,
        sub.edge_list@.len() == 0,
        sub.has_id(cid),
{
    let c = g.index_of(cid);
    assert(0 <= c < g.n() && g.ids@[c]@ == cid);
    assert(reach(g, c, 0) =~= Set::<int>::empty().insert(c));
    assert(reach(g, c, 0).len() == 1);
    if sub.edge_list@.len() > 0 {
        let e = sub.edge_list@[0];
        assert(e.0 < e.1 && (e.1 as int) < sub.n());
        assert(false);
    }
    assert(in_radius(g, c, 0, cid)) by {
        assert(reach(g, c, 0).contains(c));
        assert(g.ids@[c]@ == cid);
    }
}

/// The neighborhood never shrinks as the radius grows, and from radius
/// `n - 1` on it has stabilized at the whole connected component of the
/// center.
pub proof fn lemma_neighborhood_growth(g: Graph, c: int, r1: nat, r2: nat)
    requires
        g.wf(),
        0 <= c < g.n(),
        r1 <= r2,
    ensures
        reach(g, c, r1).len() <= reach(g, c, r2).len(),
        r1 + 1 >= g.n() ==> (forall|v: int|
            reach(g, c, r1).contains(v) <==> #[trigger] connected(g, c, v)),
{
    lemma_reach_mono(g, c, r1, r2);
    lemma_reach_finite(g, c, r2);
    lemma_len_subset(reach(g, c, r1), reach(g, c, r2));
    if r1 + 1 >= g.n() {
        lemma_reach_complete(g, c, r1);
    }
}

} // verus!
