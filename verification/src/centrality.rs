//! Degree centrality, and the handshake identity over its result table.

use vstd::prelude::*;

use crate::graph::Graph;
use crate::graph::degree_total;
use crate::graph::row_has_index;

verus! {

/// The set of neighbors of node `u`.
pub open spec fn neighbor_set(g: Graph, u: int) -> Set<int> {
    Set::new(|v: int| g.edge(u, v))
}

/// Sum of the scores of a degree table.
pub open spec fn degree_sum(r: Seq<(String, usize)>) -> nat
    decreases r.len(),
{
    if r.len() == 0 {
        0
    } else {
        degree_sum(r.drop_last()) + r.last().1 as nat
    }
}

/// Degree centrality: every node's id, in node order, with its number of
/// distinct neighbors.
pub fn degree_centrality(g: &Graph) -> (r: Vec<(String, usize)>)
    requires
        g.wf(),
    ensures
        r@.len() == g.n(),
        forall|k: int|
            0 <= k < g.n() ==> (#[trigger] r@[k]).0@ == g.ids@[k]@ && r@[k].1
                == g.adj@[k]@.len(),
{
    let n = g.node_count();
    let mut r: Vec<(String, usize)> = Vec::new();
    for i in 0..n
        invariant
            n == g.n(),
            g.wf(),
            r@.len() == i,
            forall|k: int|
                0 <= k < i ==> (#[trigger] r@[k]).0@ == g.ids@[k]@ && r@[k].1
                    == g.adj@[k]@.len(),
    {
        let id = g.id_of(i).clone();
        let d = g.degree(i);
        r.push((id, d));
    }
    r
}

/// A node's adjacency row length counts exactly its distinct neighbors.
pub proof fn lemma_degree_counts_neighbors(g: Graph, u: int)
    requires
        g.wf(),
        0 <= u < g.n(),
    ensures
        g.adj@[u]@.len() == neighbor_set(g, u).len(),
{
    let row = g.adj@[u]@;
    let mapped = row.map_values(|x: usize| x as int);
    assert(mapped.no_duplicates()) by {
        assert forall|k1: int, k2: int|
            0 <= k1 < mapped.len() && 0 <= k2 < mapped.len() && k1 != k2 implies mapped[k1]
            != mapped[k2] by {
            assert(row[k1] != row[k2]);
        }
    }
    mapped.unique_seq_to_set();
    assert(mapped.to_set() =~= neighbor_set(g, u)) by {
        assert forall|x: int| mapped.to_set().contains(x) implies neighbor_set(g, u).contains(
            x,
        ) by {
            let k = choose|k: int| 0 <= k < mapped.len() && mapped[k] == x;
            assert(row[k] as int == x);
            assert(row_has_index(row, x));
            assert(g.edge(u, x));
        }
        assert forall|x: int| neighbor_set(g, u).contains(x) implies mapped.to_set().contains(
            x,
        ) by {
            assert(g.edge(u, x));
            let k = choose|k: int| 0 <= k < row.len() && row[k] as int == x;
            assert(mapped[k] == x);
            assert(mapped.to_set().contains(mapped[k]));
        }
    }
}

/// Pointwise equal lengths give equal totals.
proof fn lemma_degree_sum_eq(rows: Seq<Vec<usize>>, r: Seq<(String, usize)>)
    requires
        r.len() == rows.len(),
        forall|k: int| 0 <= k < rows.len() ==> (#[trigger] r[k]).1 == rows[k]@.len(),
    ensures
        degree_sum(r) == degree_total(rows),
    decreases r.len(),
{
    if r.len() > 0 {
        assert forall|k: int|
            0 <= k < rows.drop_last().len() implies (#[trigger] r.drop_last()[k]).1
            == rows.drop_last()[k]@.len() by {
            assert(r.drop_last()[k] == r[k]);
            assert(rows.drop_last()[k] == rows[k]);
        }
        lemma_degree_sum_eq(rows.drop_last(), r.drop_last());
        assert(r.last().1 == rows.last()@.len());
    }
}

/// Handshake identity: over any table that lists every node's degree, the
/// scores sum to twice the edge count, and in particular to an even number.
pub proof fn lemma_degree_handshake(g: Graph, r: Seq<(String, usize)>)
    requires
        g.wf(),
        r.len() == g.n(),
        forall|k: int| 0 <= k < g.n() ==> (#[trigger] r[k]).1 == g.adj@[k]@.len(),
    ensures
        degree_sum(r) == 2 * g.edge_list@.len(),
{
    lemma_degree_sum_eq(g.adj@, r);
}

} // verus!
