//! Betweenness centrality by Brandes' algorithm: per source, a breadth-first
//! pass counting shortest paths and recording predecessors, then a reverse
//! dependency accumulation, with the final scores normalized by the number
//! of node pairs excluding the endpoints.
//!
//! Scores are exact rationals and hence nonnegative by construction. The
//! intermediate counts can outgrow the machine words on dense graphs; the
//! function then reports absence instead of a rounded answer.

use vstd::prelude::*;

use crate::bfs::bfs_distances;
use crate::graph::Graph;
use crate::graph::row_has_index;
use crate::ratio::Ratio;
use crate::ratio::ratio_add;
use crate::ratio::ratio_mul;
use crate::ratio::ratio_zero;
use crate::reach::dist_is;
use crate::reach::lemma_reach_mono;
use crate::reach::reach;

verus! {

/// Betweenness centrality of every node, as exact rational scores keyed by
/// actor id in node order. Scores are nonnegative by construction; on a
/// graph of at most two nodes every score is zero, and a node with at most
/// one neighbor lies strictly between no pair, so its score is zero. Absent
/// only when an intermediate count overflows the machine words.
#[verifier::loop_isolation(false)]
#[verifier::rlimit(100)]
pub fn betweenness_centrality(g: &Graph) -> (r: Option<Vec<(String, Ratio)>>)
    requires
        g.wf(),
    ensures
        g.n() <= 2 ==> r is Some,
        (r matches Some(t) ==> t@.len() == g.n() && (forall|k: int|
            0 <= k < g.n() ==> (#[trigger] t@[k]).0@ == g.ids@[k]@ && t@[k].1.valid()) && (g.n()
            <= 2 ==> forall|k: int| 0 <= k < g.n() ==> (#[trigger] t@[k]).1.num == 0)),
        // no shortest path passes strictly through a node of degree at most one
        (r matches Some(t) ==> forall|k: int|
            0 <= k < g.n() && g.adj@[k]@.len() <= 1 ==> (#[trigger] t@[k]).1.num == 0),
{
    let n = g.node_count();
    if n <= 2 {
        // with at most two nodes, no node lies strictly between a pair
        let mut out: Vec<(String, Ratio)> = Vec::new();
        for i in 0..n
            invariant
                out@.len() == i,
                forall|k: int|
                    0 <= k < i ==> (#[trigger] out@[k]).0@ == g.ids@[k]@ && out@[k].1.valid()
                        && out@[k].1.num == 0,
        {
            let id = g.id_of(i).clone();
            out.push((id, ratio_zero()));
        }
        return Some(out);
    }
    let mut bc: Vec<Ratio> = Vec::new();
    for i in 0..n
        invariant
            bc@.len() == i,
            forall|k: int| 0 <= k < i ==> (#[trigger] bc@[k]).valid() && bc@[k].num == 0,
    {
        bc.push(ratio_zero());
    }
    let mut s: usize = 0;
    while s < n
        invariant
            s <= n,
            n == g.n(),
            n > 2,
            g.wf(),
            bc@.len() == n,
            forall|k: int| 0 <= k < n ==> (#[trigger] bc@[k]).valid(),
            forall|k: int|
                0 <= k < n && g.adj@[k]@.len() <= 1 ==> (#[trigger] bc@[k]).num == 0,
        decreases n - s,
    {
        // forward pass: exact distances, breadth-first level order, path
        // counts and predecessors
        let dist = bfs_distances(g, s);
        let mut order: Vec<usize> = Vec::new();
        let mut d: usize = 0;
        while d < n
            invariant
                d <= n,
                dist@.len() == n,
                forall|p: int| 0 <= p < order@.len() ==> ((#[trigger] order@[p]) as int) < n,
                forall|p: int|
                    0 <= p < order@.len() ==> (#[trigger] dist@[order@[p] as int]) is Some
                        && (dist@[order@[p] as int]->Some_0 as int) < d,
                forall|v: int|
                    0 <= v < n && (#[trigger] dist@[v]) is Some && (dist@[v]->Some_0 as int) < d
                        ==> order@.contains(v as usize),
                order@.no_duplicates(),
            decreases n - d,
        {
            let mut v: usize = 0;
            while v < n
                invariant
                    v <= n,
                    d < n,
                    dist@.len() == n,
                    forall|p: int| 0 <= p < order@.len() ==> ((#[trigger] order@[p]) as int) < n,
                    forall|p: int|
                        0 <= p < order@.len() ==> (#[trigger] dist@[order@[p] as int]) is Some && (
                        (dist@[order@[p] as int]->Some_0 as int) < d || (
                        dist@[order@[p] as int]->Some_0 as int == d && (order@[p] as int)
                            < v)),
                    forall|w: int|
                        0 <= w < n && (#[trigger] dist@[w]) is Some && ((dist@[w]->Some_0 as int)
                            < d || (dist@[w]->Some_0 as int == d && w < v)) ==> order@.contains(
                            w as usize,
                        ),
                    order@.no_duplicates(),
                decreases n - v,
            {
                let keep = match dist[v] {
                    Some(dd) => dd == d,
                    None => false,
                };
                let ghost order0 = order@;
                if keep {
                    order.push(v);
                    proof {
                        assert(order@ =~= order0.push(v));
                        assert(order@.no_duplicates()) by {
                            assert forall|p: int, q: int|
                                0 <= p < q < order@.len() implies order@[p] != order@[q] by {
                                if q == order@.len() - 1 {
                                    assert(order@[p] == order0[p]);
                                }
                            }
                        }
                        assert forall|w: int|
                            0 <= w < n && (#[trigger] dist@[w]) is Some && ((
                            dist@[w]->Some_0 as int) < d || (dist@[w]->Some_0 as int == d && w < v
                                + 1)) implies order@.contains(w as usize) by {
                            if w == v as int {
                                assert(order@[order@.len() - 1] == v);
                            } else {
                                assert(order0.contains(w as usize));
                                let p = choose|p: int|
                                    0 <= p < order0.len() && order0[p] == w as usize;
                                assert(order@[p] == w as usize);
                            }
                        }
                    }
                } else {
                    proof {
                        assert forall|w: int|
                            0 <= w < n && (#[trigger] dist@[w]) is Some && ((
                            dist@[w]->Some_0 as int) < d || (dist@[w]->Some_0 as int == d && w < v
                                + 1)) implies order@.contains(w as usize) by {
                            if w == v as int {
                                // not at this level, so enumerated earlier
                                assert((dist@[w]->Some_0 as int) < d);
                                assert(order@.contains(w as usize));
                            }
                        }
                    }
                }
                v = v + 1;
            }
            d = d + 1;
        }
        let mut sigma: Vec<u64> = Vec::new();
        let mut preds: Vec<Vec<usize>> = Vec::new();
        for i in 0..n
            invariant
                sigma@.len() == i,
                preds@.len() == i,
                forall|k: int| 0 <= k < i ==> (#[trigger] preds@[k])@.len() == 0,
        {
            sigma.push(0);
            preds.push(Vec::new());
        }
        sigma[s] = 1;
        let ol = order.len();
        let mut h: usize = 0;
        while h < ol
            invariant
                h <= ol,
                ol == order@.len(),
                n == g.n(),
                g.wf(),
                s < n,
                sigma@.len() == n,
                preds@.len() == n,
                forall|ww: int, kk: int|
                    0 <= ww < n && 0 <= kk < preds@[ww]@.len() ==> ((
                    #[trigger] preds@[ww]@[kk]) as int) < n,
                forall|ww: int, kk: int|
                    0 <= ww < n && 0 <= kk < preds@[ww]@.len() ==> g.edge(
                        (#[trigger] preds@[ww]@[kk]) as int,
                        ww,
                    ),
                forall|ww: int, kk: int|
                    0 <= ww < n && 0 <= kk < preds@[ww]@.len() ==> ((#[trigger] preds@[ww]@[kk])
                        as int == s || g.adj@[preds@[ww]@[kk] as int]@.len() >= 2),
            decreases ol - h,
        {
            let vv = order[h];
            h = h + 1;
            let dv = match dist[vv] {
                Some(x) => x,
                None => {
                    proof {
                        assert(false);
                    }
                    0
                },
            };
            proof {
                assert(dist_is(*g, s as int, vv as int, dv as nat));
                assert(dv < n);
            }
            let deg = g.degree(vv);
            let mut wi: usize = 0;
            while wi < deg
                invariant
                    wi <= deg,
                    n == g.n(),
                    g.wf(),
                    s < n,
                    vv < n,
                    dv < n,
                    deg == g.adj@[vv as int]@.len(),
                    dist@.len() == n,
                    dist@[vv as int] == Some(dv),
                    sigma@.len() == n,
                    preds@.len() == n,
                    forall|ww: int, kk: int|
                        0 <= ww < n && 0 <= kk < preds@[ww]@.len() ==> ((
                        #[trigger] preds@[ww]@[kk]) as int) < n,
                    forall|ww: int, kk: int|
                        0 <= ww < n && 0 <= kk < preds@[ww]@.len() ==> g.edge(
                            (#[trigger] preds@[ww]@[kk]) as int,
                            ww,
                        ),
                    forall|ww: int, kk: int|
                        0 <= ww < n && 0 <= kk < preds@[ww]@.len() ==> ((
                        #[trigger] preds@[ww]@[kk]) as int == s || g.adj@[preds@[ww]@[kk] as int]@.len()
                            >= 2),
                decreases deg - wi,
            {
                let w = g.neighbors(vv)[wi];
                proof {
                    assert(g.edge(vv as int, w as int));
                }
                let on_path = match dist[w] {
                    Some(dw) => dw == dv + 1,
                    None => false,
                };
                if on_path {
                    let sw = match sigma[w].checked_add(sigma[vv]) {
                        Some(x) => x,
                        None => {
                            return None;
                        },
                    };
                    sigma[w] = sw;
                    let ghost preds0 = preds@;
                    preds[w].push(vv);
                    proof {
                        assert(preds@ =~= preds0.update(w as int, preds@[w as int]));
                        assert(preds@[w as int]@ =~= preds0[w as int]@.push(vv));
                        // the pushed predecessor is the source or has at
                        // least two neighbors: a non-source node of degree
                        // one was reached through its only neighbor, whose
                        // level sits below its own, while `w` sits one above
                        assert(vv as int == s || g.adj@[vv as int]@.len() >= 2) by {
                            if vv as int != s as int && g.adj@[vv as int]@.len() < 2 {
                                let dvn = dv as nat;
                                assert(dvn > 0) by {
                                    if dvn == 0 {
                                        assert(reach(*g, s as int, 0).contains(vv as int));
                                        assert(vv as int == s);
                                    }
                                }
                                assert(reach(*g, s as int, dvn).contains(vv as int));
                                assert(!reach(*g, s as int, (dvn - 1) as nat).contains(vv as int));
                                let x = choose|x: int|
                                    reach(*g, s as int, (dvn - 1) as nat).contains(x) && g.edge(
                                        x,
                                        vv as int,
                                    );
                                assert(g.edge(vv as int, x));
                                // both `x` and `w` lie in the one-entry row of `vv`
                                assert(x == w as int) by {
                                    assert(row_has_index(g.adj@[vv as int]@, x));
                                    assert(row_has_index(g.adj@[vv as int]@, w as int));
                                    let k1 = choose|k1: int|
                                        0 <= k1 < g.adj@[vv as int]@.len() && g.adj@[vv as int]@[k1]
                                            as int == x;
                                    let k2 = choose|k2: int|
                                        0 <= k2 < g.adj@[vv as int]@.len() && g.adj@[vv as int]@[k2]
                                            as int == w as int;
                                    assert(k1 == 0 && k2 == 0);
                                }
                                // so `w` sits a level below `vv`, yet was
                                // taken as sitting one level above it
                                let dw = dist@[w as int]->Some_0;
                                assert(dist_is(*g, s as int, w as int, dw as nat));
                                assert(dw == dv + 1);
                                assert(reach(*g, s as int, (dvn - 1) as nat).contains(w as int));
                                assert((dw as nat) > 0);
                                assert(!reach(*g, s as int, (dw - 1) as nat).contains(w as int));
                                lemma_reach_mono(*g, s as int, (dvn - 1) as nat, (dw - 1) as nat);
                                assert(false);
                            }
                        }
                    }
                }
                wi = wi + 1;
            }
        }
        // reverse pass: dependency accumulation in decreasing level order
        let mut delta: Vec<Ratio> = Vec::new();
        for i in 0..n
            invariant
                delta@.len() == i,
                forall|k: int| 0 <= k < i ==> (#[trigger] delta@[k]).valid() && delta@[k].num
                    == 0,
        {
            delta.push(ratio_zero());
        }
        let mut t = order.len();
        while t > 0
            invariant
                t <= order@.len(),
                n == g.n(),
                g.wf(),
                s < n,
                sigma@.len() == n,
                preds@.len() == n,
                delta@.len() == n,
                bc@.len() == n,
                forall|p: int| 0 <= p < order@.len() ==> ((#[trigger] order@[p]) as int) < n,
                forall|ww: int, kk: int|
                    0 <= ww < n && 0 <= kk < preds@[ww]@.len() ==> ((
                    #[trigger] preds@[ww]@[kk]) as int) < n,
                forall|k: int| 0 <= k < n ==> (#[trigger] delta@[k]).valid(),
                forall|k: int| 0 <= k < n ==> (#[trigger] bc@[k]).valid(),
                forall|kk: int|
                    0 <= kk < n && kk != s as int && g.adj@[kk]@.len() <= 1 ==> (
                    #[trigger] delta@[kk]).num == 0,
                forall|kk: int|
                    0 <= kk < n && g.adj@[kk]@.len() <= 1 ==> (#[trigger] bc@[kk]).num == 0,
            decreases t,
        {
            t = t - 1;
            let w = order[t];
            let sw = sigma[w];
            if sw == 0 {
                return None;
            }
            let dw = delta[w];
            let lift = match dw.den.checked_add(dw.num) {
                Some(x) => x,
                None => {
                    return None;
                },
            };
            let np = preds[w].len();
            let mut pi: usize = 0;
            while pi < np
                invariant
                    pi <= np,
                    n == g.n(),
                    g.wf(),
                    s < n,
                    w < n,
                    sw > 0,
                    lift as int == dw.den + dw.num,
                    dw.valid(),
                    np == preds@[w as int]@.len(),
                    sigma@.len() == n,
                    preds@.len() == n,
                    delta@.len() == n,
                    forall|ww: int, kk: int|
                        0 <= ww < n && 0 <= kk < preds@[ww]@.len() ==> ((
                        #[trigger] preds@[ww]@[kk]) as int) < n,
                    forall|k: int| 0 <= k < n ==> (#[trigger] delta@[k]).valid(),
                    forall|kk: int|
                        0 <= kk < n && kk != s as int && g.adj@[kk]@.len() <= 1 ==> (
                        #[trigger] delta@[kk]).num == 0,
                decreases np - pi,
            {
                let v = preds[w][pi];
                proof {
                    // a recorded predecessor is the source or has two
                    // neighbors, so its zero entry is never disturbed
                    assert(v as int == s || g.adj@[v as int]@.len() >= 2);
                }
                let c = match ratio_mul(
                    Ratio { num: sigma[v], den: sw },
                    Ratio { num: lift, den: dw.den },
                ) {
                    Some(x) => x,
                    None => {
                        return None;
                    },
                };
                let dv = match ratio_add(delta[v], c) {
                    Some(x) => x,
                    None => {
                        return None;
                    },
                };
                delta[v] = dv;
                pi = pi + 1;
            }
            if w != s {
                let nb = match ratio_add(bc[w], delta[w]) {
                    Some(x) => x,
                    None => {
                        return None;
                    },
                };
                bc[w] = nb;
            }
        }
        s = s + 1;
    }
    // normalize by the number of unordered pairs excluding the node itself
    let p1 = (n - 1) as u64;
    let p2 = (n - 2) as u64;
    let prod = match p1.checked_mul(p2) {
        Some(x) => x,
        None => {
            return None;
        },
    };
    proof {
        assert(prod > 0) by (nonlinear_arith)
            requires
                prod == p1 * p2,
                p1 > 0,
                p2 > 0,
        ;
    }
    let mut out: Vec<(String, Ratio)> = Vec::new();
    for i in 0..n
        invariant
            n == g.n(),
            n > 2,
            g.wf(),
            bc@.len() == n,
            prod > 0,
            forall|k: int| 0 <= k < n ==> (#[trigger] bc@[k]).valid(),
            forall|k: int|
                0 <= k < n && g.adj@[k]@.len() <= 1 ==> (#[trigger] bc@[k]).num == 0,
            out@.len() == i,
            forall|k: int|
                0 <= k < i ==> (#[trigger] out@[k]).0@ == g.ids@[k]@ && out@[k].1.valid(),
            forall|k: int|
                0 <= k < i && g.adj@[k]@.len() <= 1 ==> (#[trigger] out@[k]).1.num == 0,
    {
        // dividing by (n - 1)(n - 2) / 2 is multiplying by 2 / ((n - 1)(n - 2))
        let sc = match ratio_mul(bc[i], Ratio { num: 2, den: prod }) {
            Some(x) => x,
            None => {
                return None;
            },
        };
        let id = g.id_of(i).clone();
        out.push((id, sc));
    }
    Some(out)
}

} // verus!
