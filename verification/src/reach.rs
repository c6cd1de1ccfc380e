//! Reachability in the graph, as a level-indexed family of node sets: the
//! nodes reachable from a start node in at most `k` steps. All distance and
//! connectivity contracts of the analytics are stated over these sets.

use vstd::prelude::*;
use vstd::set_lib::lemma_int_range;
use vstd::set_lib::lemma_len_subset;
use vstd::set_lib::lemma_subset_equality;
use vstd::set_lib::set_int_range;

use crate::graph::Graph;

verus! {

/// The set of nodes reachable from `s` along at most `k` edges.
pub open spec fn reach(g: Graph, s: int, k: nat) -> Set<int>
    decreases k,
{
    if k == 0 {
        set![s]
    } else {
        let prev = reach(g, s, (k - 1) as nat);
        prev.union(Set::new(|v: int| exists|u: int| prev.contains(u) && g.edge(u, v)))
    }
}

/// Nodes `a` and `b` are joined by a path of some length.
pub open spec fn connected(g: Graph, a: int, b: int) -> bool {
    exists|k: nat| reach(g, a, k).contains(b)
}

/// `d` is the exact distance from `s` to `v`: reachable in `d` steps but, for
/// positive `d`, not in fewer.
pub open spec fn dist_is(g: Graph, s: int, v: int, d: nat) -> bool {
    reach(g, s, d).contains(v) && (d > 0 ==> !reach(g, s, (d - 1) as nat).contains(v))
}

/// The distance from `s` to `v` (meaningful when `connected(g, s, v)`).
pub open spec fn dist_of(g: Graph, s: int, v: int) -> nat {
    choose|d: nat| dist_is(g, s, v, d)
}

/// Reach sets only grow with the step bound.
pub proof fn lemma_reach_mono(g: Graph, s: int, j: nat, k: nat)
    requires
        j <= k,
    ensures
        reach(g, s, j).subset_of(reach(g, s, k)),
    decreases k,
{
    if j < k {
        lemma_reach_mono(g, s, j, (k - 1) as nat);
        assert forall|v: int| reach(g, s, (k - 1) as nat).contains(v) implies reach(
            g,
            s,
            k,
        ).contains(v) by {}
    }
}

/// Exact distances are unique.
pub proof fn lemma_dist_unique(g: Graph, s: int, v: int, d1: nat, d2: nat)
    requires
        dist_is(g, s, v, d1),
        dist_is(g, s, v, d2),
    ensures
        d1 == d2,
{
    if d1 < d2 {
        lemma_reach_mono(g, s, d1, (d2 - 1) as nat);
    }
    if d2 < d1 {
        lemma_reach_mono(g, s, d2, (d1 - 1) as nat);
    }
}

/// Every reachable node is a node index (when the start is one).
pub proof fn lemma_reach_in_range(g: Graph, s: int, k: nat)
    requires
        0 <= s < g.n(),
    ensures
        reach(g, s, k).subset_of(set_int_range(0, g.n() as int)),
    decreases k,
{
    if k == 0 {
    } else {
        lemma_reach_in_range(g, s, (k - 1) as nat);
        assert forall|v: int| reach(g, s, k).contains(v) implies 0 <= v < g.n() by {
            if !reach(g, s, (k - 1) as nat).contains(v) {
                let u = choose|u: int| reach(g, s, (k - 1) as nat).contains(u) && g.edge(u, v);
                assert(g.edge(u, v));
            }
        }
    }
}

/// Reach sets are finite, with at most `n` elements.
pub proof fn lemma_reach_finite(g: Graph, s: int, k: nat)
    requires
        0 <= s < g.n(),
    ensures
        reach(g, s, k).finite(),
        reach(g, s, k).len() <= g.n(),
    decreases k,
{
    lemma_reach_in_range(g, s, k);
    lemma_int_range(0, g.n() as int);
    lemma_len_subset(reach(g, s, k), set_int_range(0, g.n() as int));
}

/// Once one step adds nothing, no later step does.
pub proof fn lemma_reach_stable(g: Graph, s: int, k: nat, m: nat)
    requires
        reach(g, s, k) == reach(g, s, (k + 1) as nat),
        k <= m,
    ensures
        reach(g, s, m) == reach(g, s, k),
    decreases m,
{
    if m > k {
        lemma_reach_stable(g, s, k, (m - 1) as nat);
        assert(reach(g, s, (m - 1) as nat) == reach(g, s, k));
        assert(reach(g, s, m) == reach(g, s, (k + 1) as nat));
    }
}

/// Walks compose: whatever is within `k` steps of a node within `j` steps of
/// `a` is within `j + k` steps of `a`.
pub proof fn lemma_reach_compose(g: Graph, a: int, b: int, j: nat, k: nat)
    requires
        reach(g, a, j).contains(b),
    ensures
        reach(g, b, k).subset_of(reach(g, a, (j + k) as nat)),
    decreases k,
{
    if k == 0 {
        assert forall|v: int| reach(g, b, 0).contains(v) implies reach(g, a, j).contains(v) by {
            assert(v == b);
        }
    } else {
        lemma_reach_compose(g, a, b, j, (k - 1) as nat);
        assert forall|v: int| reach(g, b, k).contains(v) implies reach(
            g,
            a,
            (j + k) as nat,
        ).contains(v) by {
            if reach(g, b, (k - 1) as nat).contains(v) {
                lemma_reach_mono(g, a, (j + k - 1) as nat, (j + k) as nat);
            } else {
                let u = choose|u: int|
                    reach(g, b, (k - 1) as nat).contains(u) && g.edge(u, v);
                assert(reach(g, a, (j + k - 1) as nat).contains(u));
            }
        }
    }
}

/// In an undirected graph, reachability is symmetric level by level.
pub proof fn lemma_reach_sym(g: Graph, s: int, v: int, k: nat)
    requires
        g.wf(),
        reach(g, s, k).contains(v),
    ensures
        reach(g, v, k).contains(s),
    decreases k,
{
    if k == 0 {
        assert(v == s);
    } else {
        let km1 = (k - 1) as nat;
        if reach(g, s, km1).contains(v) {
            lemma_reach_sym(g, s, v, km1);
            lemma_reach_mono(g, v, km1, k);
        } else {
            let u = choose|u: int| reach(g, s, km1).contains(u) && g.edge(u, v);
            lemma_reach_sym(g, s, u, km1);
            assert(g.edge(v, u));
            assert(reach(g, v, 1).contains(u)) by {
                assert(reach(g, v, 0).contains(v));
            }
            lemma_reach_compose(g, v, u, 1, km1);
            assert(reach(g, u, km1).contains(s));
        }
    }
}

/// Connectivity is symmetric.
pub proof fn lemma_connected_sym(g: Graph, a: int, b: int)
    requires
        g.wf(),
    ensures
        connected(g, a, b) <==> connected(g, b, a),
{
    if connected(g, a, b) {
        let k = choose|k: nat| reach(g, a, k).contains(b);
        lemma_reach_sym(g, a, b, k);
    }
    if connected(g, b, a) {
        let k = choose|k: nat| reach(g, b, k).contains(a);
        lemma_reach_sym(g, b, a, k);
    }
}

/// Connectivity composes.
pub proof fn lemma_connected_trans(g: Graph, a: int, b: int, c: int)
    requires
        connected(g, a, b),
        connected(g, b, c),
    ensures
        connected(g, a, c),
{
    let j = choose|j: nat| reach(g, a, j).contains(b);
    let k = choose|k: nat| reach(g, b, k).contains(c);
    lemma_reach_compose(g, a, b, j, k);
    assert(reach(g, a, (j + k) as nat).contains(c));
}

/// At every level, the reach set has either stabilized or grown past the
/// level's size.
pub proof fn lemma_reach_grows(g: Graph, s: int, k: nat)
    requires
        g.wf(),
        0 <= s < g.n(),
    ensures
        reach(g, s, k) == reach(g, s, (k + 1) as nat) || reach(g, s, k).len() >= k + 1,
    decreases k,
{
    lemma_reach_finite(g, s, k);
    if k == 0 {
        if reach(g, s, 0) != reach(g, s, 1) {
            assert(reach(g, s, 0).contains(s));
            assert(reach(g, s, 0).len() >= 1) by {
                assert(reach(g, s, 0) =~= Set::empty().insert(s));
            }
        }
    } else {
        let km1 = (k - 1) as nat;
        lemma_reach_grows(g, s, km1);
        lemma_reach_finite(g, s, km1);
        if reach(g, s, km1) == reach(g, s, k) {
            lemma_reach_stable(g, s, km1, (k + 1) as nat);
        } else {
            lemma_reach_mono(g, s, km1, k);
            if forall|x: int| #[trigger] reach(g, s, k).contains(x) ==> reach(g, s, km1).contains(
                x,
            ) {
                assert(reach(g, s, km1) =~= reach(g, s, k));
                assert(false);
            }
            let x = choose|x: int|
                reach(g, s, k).contains(x) && !reach(g, s, km1).contains(x);
            assert(reach(g, s, km1).insert(x).subset_of(reach(g, s, k)));
            lemma_len_subset(reach(g, s, km1).insert(x), reach(g, s, k));
            assert(reach(g, s, km1).insert(x).len() == reach(g, s, km1).len() + 1);
            assert(reach(g, s, k).len() >= km1 + 1 + 1);
        }
    }
}

/// A node reachable within `k` steps has an exact distance, at most `k`.
pub proof fn lemma_dist_exists(g: Graph, a: int, b: int, k: nat)
    requires
        reach(g, a, k).contains(b),
    ensures
        exists|d: nat| d <= k && #[trigger] dist_is(g, a, b, d),
    decreases k,
{
    if k == 0 {
        assert(dist_is(g, a, b, 0));
    } else if reach(g, a, (k - 1) as nat).contains(b) {
        lemma_dist_exists(g, a, b, (k - 1) as nat);
        let d = choose|d: nat| d <= k - 1 && #[trigger] dist_is(g, a, b, d);
        assert(dist_is(g, a, b, d));
    } else {
        assert(dist_is(g, a, b, k));
    }
}

/// Exact distances are symmetric in an undirected graph.
pub proof fn lemma_dist_sym(g: Graph, a: int, b: int, d: nat)
    requires
        g.wf(),
        dist_is(g, a, b, d),
    ensures
        dist_is(g, b, a, d),
{
    lemma_reach_sym(g, a, b, d);
    if d > 0 {
        if reach(g, b, (d - 1) as nat).contains(a) {
            lemma_reach_sym(g, b, a, (d - 1) as nat);
        }
    }
}

/// Exact distances are bounded by the node count.
pub proof fn lemma_dist_bound(g: Graph, s: int, v: int, d: nat)
    requires
        g.wf(),
        0 <= s < g.n(),
        dist_is(g, s, v, d),
    ensures
        d < g.n(),
{
    if d > 0 {
        let dm1 = (d - 1) as nat;
        lemma_reach_grows(g, s, dm1);
        lemma_reach_finite(g, s, dm1);
        lemma_reach_finite(g, s, d);
        if reach(g, s, dm1) == reach(g, s, d) {
            assert(false);
        } else {
            assert(reach(g, s, dm1).insert(v).subset_of(reach(g, s, d)));
            lemma_len_subset(reach(g, s, dm1).insert(v), reach(g, s, d));
            assert(reach(g, s, d).len() >= d + 1);
        }
    }
}

/// From level `n - 1` on (node count `n`), the reach set no longer changes:
/// it is exactly the connected component of the start node.
pub proof fn lemma_reach_complete(g: Graph, s: int, k: nat)
    requires
        g.wf(),
        0 <= s < g.n(),
        k + 1 >= g.n(),
    ensures
        forall|v: int| reach(g, s, k).contains(v) <==> connected(g, s, v),
{
    let n = g.n();
    lemma_reach_grows(g, s, k);
    lemma_reach_finite(g, s, k);
    lemma_reach_finite(g, s, (k + 1) as nat);
    if reach(g, s, k) != reach(g, s, (k + 1) as nat) {
        // impossible: the set would then exceed the node count
        lemma_reach_mono(g, s, k, (k + 1) as nat);
        if forall|x: int| #[trigger] reach(g, s, (k + 1) as nat).contains(x) ==> reach(
            g,
            s,
            k,
        ).contains(x) {
            assert(reach(g, s, k) =~= reach(g, s, (k + 1) as nat));
            assert(false);
        }
        let x = choose|x: int|
            reach(g, s, (k + 1) as nat).contains(x) && !reach(g, s, k).contains(x);
        assert(reach(g, s, k).insert(x).subset_of(reach(g, s, (k + 1) as nat)));
        lemma_len_subset(reach(g, s, k).insert(x), reach(g, s, (k + 1) as nat));
        assert(reach(g, s, (k + 1) as nat).len() >= k + 2);
        assert(false);
    }
    assert forall|v: int| reach(g, s, k).contains(v) implies connected(g, s, v) by {}
    assert forall|v: int| connected(g, s, v) implies reach(g, s, k).contains(v) by {
        let j = choose|j: nat| reach(g, s, j).contains(v);
        if j <= k {
            lemma_reach_mono(g, s, j, k);
        } else {
            lemma_reach_stable(g, s, k, j);
        }
    }
}

} // verus!
