//! Shortest-path queries between two actor ids, and the symmetry law of the
//! shortest-path length.

use vstd::prelude::*;

use crate::bfs::bfs_distances;
use crate::graph::Graph;
use crate::reach::connected;
use crate::reach::dist_is;
use crate::reach::dist_of;
use crate::reach::lemma_connected_sym;
use crate::reach::lemma_dist_exists;
use crate::reach::lemma_dist_sym;
use crate::reach::lemma_dist_unique;

verus! {

/// The shortest-path length between the nodes named `a` and `b`: absent when
/// either id is unknown, and absent when both are known but disconnected.
pub open spec fn sp_spec(g: Graph, a: Seq<char>, b: Seq<char>) -> Option<nat> {
    if g.has_id(a) && g.has_id(b) && connected(g, g.index_of(a), g.index_of(b)) {
        Some(dist_of(g, g.index_of(a), g.index_of(b)))
    } else {
        None
    }
}

/// Length of the shortest path between two actor ids, with unit edge
/// weights. Absence is a normal outcome, not an error: it covers both an
/// unknown id and two known but mutually unreachable nodes.
pub fn shortest_path_length(g: &Graph, from: &str, to: &str) -> (r: Option<usize>)
    requires
        g.wf(),
    ensures
        match r {
            Some(d) => sp_spec(*g, from@, to@) == Some(d as nat),
            None => sp_spec(*g, from@, to@) is None,
        },
{
    let a = match g.find_index(from) {
        Some(i) => i,
        None => {
            return None;
        },
    };
    let b = match g.find_index(to) {
        Some(i) => i,
        None => {
            return None;
        },
    };
    let dist = bfs_distances(g, a);
    let r = dist[b];
    proof {
        match r {
            Some(d) => {
                assert(dist_is(*g, a as int, b as int, d as nat));
                assert(connected(*g, a as int, b as int)) by {
                    assert(crate::reach::reach(*g, a as int, d as nat).contains(b as int));
                }
                let dd = dist_of(*g, a as int, b as int);
                assert(dist_is(*g, a as int, b as int, dd)) by {
                    assert(exists|e: nat| dist_is(*g, a as int, b as int, e));
                }
                lemma_dist_unique(*g, a as int, b as int, d as nat, dd);
            },
            None => {
                assert(!connected(*g, a as int, b as int));
            },
        }
    }
    r
}

/// The shortest-path length is symmetric in its two ids.
pub proof fn lemma_shortest_path_symmetric(g: Graph, a: Seq<char>, b: Seq<char>)
    requires
        g.wf(),
    ensures
        sp_spec(g, a, b) == sp_spec(g, b, a),
{
    if g.has_id(a) && g.has_id(b) {
        let ia = g.index_of(a);
        let ib = g.index_of(b);
        lemma_connected_sym(g, ia, ib);
        if connected(g, ia, ib) {
            let k = choose|k: nat| crate::reach::reach(g, ia, k).contains(ib);
            lemma_dist_exists(g, ia, ib, k);
            let d = choose|d: nat| d <= k && #[trigger] dist_is(g, ia, ib, d);
            lemma_dist_sym(g, ia, ib, d);
            let d1 = dist_of(g, ia, ib);
            let d2 = dist_of(g, ib, ia);
            assert(dist_is(g, ia, ib, d1)) by {
                assert(dist_is(g, ia, ib, d));
            }
            assert(dist_is(g, ib, ia, d2)) by {
                assert(dist_is(g, ib, ia, d));
            }
            lemma_dist_unique(g, ia, ib, d1, d);
            lemma_dist_unique(g, ib, ia, d2, d);
        }
    }
}

} // verus!
