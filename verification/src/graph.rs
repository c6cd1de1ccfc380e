//! The co-appearance graph: an undirected simple graph whose nodes carry
//! actor ids. Nodes are indexed `0..n`; adjacency is stored per node and the
//! edge list holds each undirected edge exactly once in canonical order.

use vstd::prelude::*;

verus! {

/// An undirected simple graph over actor ids. `ids[i]` is the actor id of
/// node `i`, `adj[i]` lists the neighbors of node `i`, and `edge_list` holds
/// each undirected edge once as `(u, v)` with `u < v`.
pub struct Graph {
    pub ids: Vec<String>,
    pub adj: Vec<Vec<usize>>,
    pub edge_list: Vec<(usize, usize)>,
}

/// The row `s` holds the node index `v`.
pub open spec fn row_has_index(s: Seq<usize>, v: int) -> bool {
    exists|k: int| 0 <= k < s.len() && s[k] as int == v
}

/// Extending a row by one entry extends the set of indices it holds by
/// exactly that entry.
pub proof fn lemma_row_push(s: Seq<usize>, x: usize, v: int)
    ensures
        row_has_index(s.push(x), v) <==> (row_has_index(s, v) || x as int == v),
{
    if row_has_index(s.push(x), v) {
        let k = choose|k: int| 0 <= k < s.push(x).len() && s.push(x)[k] as int == v;
        if k < s.len() {
            assert(s[k] as int == v);
        }
    }
    if row_has_index(s, v) {
        let k = choose|k: int| 0 <= k < s.len() && s[k] as int == v;
        assert(s.push(x)[k] as int == v);
    }
    if x as int == v {
        assert(s.push(x)[s.len() as int] as int == v);
    }
}

/// Sum of the lengths of all adjacency rows; in a well-formed graph this is
/// twice the number of edges (every edge contributes two row entries).
pub open spec fn degree_total(rows: Seq<Vec<usize>>) -> nat
    decreases rows.len(),
{
    if rows.len() == 0 {
        0
    } else {
        degree_total(rows.drop_last()) + rows.last()@.len()
    }
}

/// Replacing one adjacency row changes the total degree by the difference of
/// the row lengths.
pub proof fn lemma_degree_total_update(rows: Seq<Vec<usize>>, i: int, r: Vec<usize>)
    requires
        0 <= i < rows.len(),
    ensures
        degree_total(rows.update(i, r)) + rows[i]@.len() == degree_total(rows) + r@.len(),
    decreases rows.len(),
{
    if i == rows.len() - 1 {
        assert(rows.update(i, r).drop_last() =~= rows.drop_last());
        assert(rows.update(i, r).last() == r);
    } else {
        lemma_degree_total_update(rows.drop_last(), i, r);
        assert(rows.update(i, r).drop_last() =~= rows.drop_last().update(i, r));
        assert(rows.update(i, r).last() == rows.last());
    }
}

/// Scans a row for a node index.
fn row_contains(row: &Vec<usize>, v: usize) -> (r: bool)
    ensures
        r == row_has_index(row@, v as int),
{
    let m = row.len();
    for k in 0..m
        invariant
            m == row@.len(),
            forall|j: int| 0 <= j < k ==> row@[j] != v,
    {
        if row[k] == v {
            return true;
        }
    }
    false
}

/// The set of actor ids carried by a well-formed graph has exactly one
/// element per node.
pub proof fn lemma_id_set_size(g: Graph)
    requires
        g.wf(),
    ensures
        Set::new(|a: Seq<char>| g.has_id(a)).finite(),
        Set::new(|a: Seq<char>| g.has_id(a)).len() == g.n(),
{
    let views = g.ids@.map_values(|s: String| s@);
    assert(views.no_duplicates()) by {
        assert forall|i: int, j: int|
            0 <= i < views.len() && 0 <= j < views.len() && i != j implies views[i]
            != views[j] by {
            if i < j {
                assert(g.ids@[i]@ != g.ids@[j]@);
            } else {
                assert(g.ids@[j]@ != g.ids@[i]@);
            }
        }
    }
    views.unique_seq_to_set();
    assert(views.to_set() =~= Set::new(|a: Seq<char>| g.has_id(a))) by {
        assert forall|a: Seq<char>| views.to_set().contains(a) implies g.has_id(a) by {
            let k = choose|k: int| 0 <= k < views.len() && views[k] == a;
            assert(g.ids@[k]@ == a);
        }
        assert forall|a: Seq<char>| g.has_id(a) implies views.to_set().contains(a) by {
            let k = choose|k: int| 0 <= k < g.n() && g.ids@[k]@ == a;
            assert(views[k] == a);
            assert(views.to_set().contains(views[k]));
        }
    }
}

impl Graph {
    /// Number of nodes.
    pub open spec fn n(self) -> nat {
        self.ids@.len()
    }

    /// Nodes `u` and `v` are joined by an edge.
    pub open spec fn edge(self, u: int, v: int) -> bool {
        &&& 0 <= u < self.n()
        &&& 0 <= v < self.n()
        &&& row_has_index(self.adj@[u]@, v)
    }

    /// Some node carries the actor id `a`.
    pub open spec fn has_id(self, a: Seq<char>) -> bool {
        exists|i: int| 0 <= i < self.n() && self.ids@[i]@ == a
    }

    /// The index of the node whose actor id is `a` (meaningful when
    /// `has_id(a)` holds; ids are distinct in a well-formed graph).
    pub open spec fn index_of(self, a: Seq<char>) -> int {
        choose|i: int| 0 <= i < self.n() && self.ids@[i]@ == a
    }

    /// The ids `a` and `b` name two adjacent nodes.
    pub open spec fn edge_ids(self, a: Seq<char>, b: Seq<char>) -> bool {
        exists|i: int, j: int|
            0 <= i < self.n() && 0 <= j < self.n() && self.ids@[i]@ == a && self.ids@[j]@ == b
                && self.edge(i, j)
    }

    /// Well-formedness: adjacency square with the node list, distinct ids,
    /// in-bounds entries, no self-loops, no duplicate adjacency entries,
    /// symmetric adjacency, an edge list holding each undirected edge exactly
    /// once in canonical order, and the handshake identity.
    pub open spec fn wf(self) -> bool {
        &&& self.adj@.len() == self.n()
        &&& forall|i: int, j: int| 0 <= i < j < self.n() ==> self.ids@[i]@ != self.ids@[j]@
        &&& forall|u: int, k: int|
            0 <= u < self.n() && 0 <= k < self.adj@[u]@.len() ==> (#[trigger] self.adj@[u]@[k])
                < self.n() && self.adj@[u]@[k] as int != u
        &&& forall|u: int| 0 <= u < self.n() ==> (#[trigger] self.adj@[u]@).no_duplicates()
        &&& forall|u: int, v: int| #[trigger] self.edge(u, v) ==> self.edge(v, u)
        &&& forall|k: int|
            0 <= k < self.edge_list@.len() ==> {
                let e = #[trigger] self.edge_list@[k];
                e.0 < e.1 && (e.1 as int) < self.n() && self.edge(e.0 as int, e.1 as int)
            }
        &&& forall|u: int, v: int|
            0 <= u < v < self.n() && #[trigger] self.edge(u, v) ==> self.edge_list@.contains(
                (u as usize, v as usize),
            )
        &&& self.edge_list@.no_duplicates()
        &&& degree_total(self.adj@) == 2 * self.edge_list@.len()
    }

    /// The empty graph.
    pub fn new() -> (g: Graph)
        ensures
            g.wf(),
            g.n() == 0,
            g.edge_list@.len() == 0,
    {
        let g = Graph { ids: Vec::new(), adj: Vec::new(), edge_list: Vec::new() };
        proof {
            assert(g.adj@ =~= Seq::<Vec<usize>>::empty());
            assert(degree_total(g.adj@) == 0);
        }
        g
    }

    /// Number of nodes.
    pub fn node_count(&self) -> (c: usize)
        ensures
            c == self.n(),
    {
        self.ids.len()
    }

    /// Number of edges.
    pub fn edge_count(&self) -> (c: usize)
        ensures
            c == self.edge_list@.len(),
    {
        self.edge_list.len()
    }

    /// The actor id of node `i`.
    pub fn id_of(&self, i: usize) -> (r: &String)
        requires
            i < self.n(),
        ensures
            r@ == self.ids@[i as int]@,
    {
        &self.ids[i]
    }

    /// Looks an actor id up among the nodes.
    pub fn find_index(&self, id: &str) -> (r: Option<usize>)
        requires
            self.wf(),
        ensures
            match r {
                Some(i) => i < self.n() && self.ids@[i as int]@ == id@ && i == self.index_of(id@),
                None => !self.has_id(id@),
            },
    {
        let key: String = id.to_owned();
        let n = self.ids.len();
        for i in 0..n
            invariant
                n == self.n(),
                key@ == id@,
                self.wf(),
                forall|j: int| 0 <= j < i ==> self.ids@[j]@ != id@,
        {
            if self.ids[i] == key {
                proof {
                    assert(self.ids@[i as int]@ == id@);
                    assert(self.index_of(id@) == i as int) by {
                        let w = self.index_of(id@);
                        assert(0 <= w < self.n() && self.ids@[w]@ == id@);
                    }
                }
                return Some(i);
            }
        }
        None
    }

    /// Adds a node for `id` unless one exists; either way returns the index
    /// of the node carrying `id`. Node creation is idempotent per actor id.
    pub fn add_node(&mut self, id: String) -> (i: usize)
        requires
            old(self).wf(),
        ensures
            final(self).wf(),
            i < final(self).n(),
            final(self).ids@[i as int]@ == id@,
            final(self).edge_list@ == old(self).edge_list@,
            forall|u: int, v: int| final(self).edge(u, v) <==> old(self).edge(u, v),
            forall|a: Seq<char>| final(self).has_id(a) <==> (old(self).has_id(a) || a == id@),
            forall|a: Seq<char>, b: Seq<char>|
                final(self).edge_ids(a, b) <==> old(self).edge_ids(a, b),
            old(self).has_id(id@) ==> *final(self) == *old(self),
            !old(self).has_id(id@) ==> final(self).ids@ == old(self).ids@.push(id) && i == old(
                self,
            ).ids@.len(),
    {
        match self.find_index(id.as_str()) {
            Some(i) => {
                proof {
                    assert(forall|a: Seq<char>|
                        self.has_id(a) <==> (old(self).has_id(a) || a == id@));
                }
                i
            },
            None => {
                let i = self.ids.len();
                let ghost old_adj = self.adj@;
                self.ids.push(id);
                self.adj.push(Vec::new());
                proof {
                    assert(self.adj@.drop_last() =~= old_adj);
                    assert(degree_total(self.adj@) == degree_total(old_adj));
                    assert forall|u: int, v: int| #[trigger] self.edge(u, v) implies old(
                        self,
                    ).edge(u, v) by {
                        if u < i {
                            assert(self.adj@[u] == old(self).adj@[u]);
                            assert(old(self).edge(u, v) || v == i);
                            if v == i {
                                let k = choose|k: int|
                                    0 <= k < old(self).adj@[u]@.len() && old(
                                        self,
                                    ).adj@[u]@[k] as int == v;
                                assert(old(self).adj@[u]@[k] < old(self).n());
                            }
                        } else {
                            assert(self.adj@[u]@.len() == 0);
                        }
                    }
                    assert forall|u: int, v: int| old(self).edge(u, v) implies self.edge(
                        u,
                        v,
                    ) by {
                        if old(self).edge(u, v) {
                            assert(self.adj@[u] == old(self).adj@[u]);
                        }
                    }
                    assert forall|a: Seq<char>| old(self).has_id(a) || a == id@ implies self.has_id(
                        a,
                    ) by {
                        if a == id@ {
                            assert(self.ids@[i as int]@ == a);
                        } else {
                            let j = choose|j: int|
                                0 <= j < old(self).n() && old(self).ids@[j]@ == a;
                            assert(self.ids@[j]@ == a);
                        }
                    }
                    assert forall|ii: int, jj: int|
                        0 <= ii < jj < self.n() implies self.ids@[ii]@ != self.ids@[jj]@ by {
                        if jj == i as int {
                            assert(!old(self).has_id(id@));
                            assert(old(self).ids@[ii]@ != id@);
                        }
                    }
                    assert forall|a: Seq<char>, b: Seq<char>|
                        self.edge_ids(a, b) <==> old(self).edge_ids(a, b) by {
                        if self.edge_ids(a, b) {
                            let (p, q) = choose|p: int, q: int|
                                0 <= p < self.n() && 0 <= q < self.n() && self.ids@[p]@ == a
                                    && self.ids@[q]@ == b && self.edge(p, q);
                            assert(old(self).edge(p, q));
                            assert(old(self).ids@[p]@ == a && old(self).ids@[q]@ == b);
                            assert(old(self).edge_ids(a, b));
                        }
                        if old(self).edge_ids(a, b) {
                            let (p, q) = choose|p: int, q: int|
                                0 <= p < old(self).n() && 0 <= q < old(self).n() && old(
                                    self,
                                ).ids@[p]@ == a && old(self).ids@[q]@ == b && old(self).edge(p, q);
                            assert(self.ids@[p]@ == a && self.ids@[q]@ == b && self.edge(p, q));
                        }
                    }
                }
                i
            },
        }
    }

    /// Whether nodes `a` and `b` are adjacent.
    pub fn has_edge(&self, a: usize, b: usize) -> (r: bool)
        requires
            a < self.n(),
            b < self.n(),
            self.wf(),
        ensures
            r == self.edge(a as int, b as int),
    {
        row_contains(&self.adj[a], b)
    }

    /// The number of neighbors of node `i`.
    pub fn degree(&self, i: usize) -> (d: usize)
        requires
            i < self.n(),
            self.wf(),
        ensures
            d == self.adj@[i as int]@.len(),
    {
        self.adj[i].len()
    }

    /// The neighbor row of node `i`.
    pub fn neighbors(&self, i: usize) -> (r: &Vec<usize>)
        requires
            i < self.n(),
            self.wf(),
        ensures
            r@ == self.adj@[i as int]@,
            forall|k: int| 0 <= k < r@.len() ==> self.edge(i as int, r@[k] as int),
    {
        proof {
            assert forall|k: int| 0 <= k < self.adj@[i as int]@.len() implies self.edge(
                i as int,
                self.adj@[i as int]@[k] as int,
            ) by {
                assert(row_has_index(self.adj@[i as int]@, self.adj@[i as int]@[k] as int));
            }
        }
        &self.adj[i]
    }

    /// Joins nodes `a` and `b` by an edge unless one exists. Edge creation is
    /// idempotent per unordered pair, and never creates a self-loop.
    pub fn add_edge(&mut self, a: usize, b: usize)
        requires
            old(self).wf(),
            a < old(self).n(),
            b < old(self).n(),
            a != b,
        ensures
            final(self).wf(),
            final(self).ids@ == old(self).ids@,
            final(self).edge(a as int, b as int),
            forall|u: int, v: int|
                final(self).edge(u, v) <==> (old(self).edge(u, v) || (u == a && v == b) || (u == b
                    && v == a)),
            old(self).edge(a as int, b as int) ==> *final(self) == *old(self),
            !old(self).edge(a as int, b as int) ==> final(self).edge_list@.len() == old(
                self,
            ).edge_list@.len() + 1,
            old(self).edge_list@.len() <= final(self).edge_list@.len() <= old(
                self,
            ).edge_list@.len() + 1,
            forall|x: Seq<char>, y: Seq<char>|
                final(self).edge_ids(x, y) <==> (old(self).edge_ids(x, y) || (x == old(
                    self,
                ).ids@[a as int]@ && y == old(self).ids@[b as int]@) || (x == old(
                    self,
                ).ids@[b as int]@ && y == old(self).ids@[a as int]@)),
    {
        if row_contains(&self.adj[a], b) {
            proof {
                assert(self.edge(a as int, b as int));
                assert(self.edge(b as int, a as int));
                assert forall|x: Seq<char>, y: Seq<char>|
                    self.edge_ids(x, y) <==> (self.edge_ids(x, y) || (x == self.ids@[a as int]@ && y
                        == self.ids@[b as int]@) || (x == self.ids@[b as int]@ && y
                        == self.ids@[a as int]@)) by {
                    if x == self.ids@[a as int]@ && y == self.ids@[b as int]@ {
                        assert(self.edge_ids(x, y));
                    }
                    if x == self.ids@[b as int]@ && y == self.ids@[a as int]@ {
                        assert(self.edge_ids(x, y));
                    }
                }
            }
            return ;
        }
        let lo: usize = if a < b {
            a
        } else {
            b
        };
        let hi: usize = if a < b {
            b
        } else {
            a
        };
        let ghost g0 = *self;
        self.adj[a].push(b);
        let ghost g1 = *self;
        self.adj[b].push(a);
        self.edge_list.push((lo, hi));
        proof {
            let n = g0.n() as int;
            let ai = a as int;
            let bi = b as int;
            assert(g1.adj@ =~= g0.adj@.update(ai, g1.adj@[ai]));
            assert(self.adj@ =~= g1.adj@.update(bi, self.adj@[bi]));
            assert(g1.adj@[ai]@ =~= g0.adj@[ai]@.push(b));
            assert(self.adj@[bi]@ =~= g0.adj@[bi]@.push(a));
            assert(self.adj@[ai] == g1.adj@[ai]);

            // the old edge (a, b) was absent in both directions
            assert(!g0.edge(ai, bi));
            assert(!g0.edge(bi, ai));

            // how every row reads after the two pushes
            assert(forall|u: int|
                0 <= u < n && u != ai && u != bi ==> self.adj@[u] == g0.adj@[u]);
            assert forall|u: int, v: int| #[trigger] self.edge(u, v) implies (g0.edge(u, v) || (u
                == ai && v == bi) || (u == bi && v == ai)) by {
                if u == ai {
                    lemma_row_push(g0.adj@[ai]@, b, v);
                } else if u == bi {
                    lemma_row_push(g0.adj@[bi]@, a, v);
                }
            }
            assert forall|u: int, v: int|
                (g0.edge(u, v) || (u == ai && v == bi) || (u == bi && v == ai)) implies self.edge(
                u,
                v,
            ) by {
                if u == ai {
                    lemma_row_push(g0.adj@[ai]@, b, v);
                } else if u == bi {
                    lemma_row_push(g0.adj@[bi]@, a, v);
                } else if g0.edge(u, v) {
                    assert(self.adj@[u] == g0.adj@[u]);
                }
            }

            // the two extended rows stay duplicate-free
            assert(self.adj@[ai]@.no_duplicates()) by {
                let s = g0.adj@[ai]@;
                assert forall|p: int, q: int|
                    0 <= p < q < s.push(b).len() implies s.push(b)[p] != s.push(b)[q] by {
                    if q == s.len() {
                        assert(s[p] != b) by {
                            if s[p] == b {
                                assert(row_has_index(s, bi));
                            }
                        }
                    }
                }
            }
            assert(self.adj@[bi]@.no_duplicates()) by {
                let s = g0.adj@[bi]@;
                assert forall|p: int, q: int|
                    0 <= p < q < s.push(a).len() implies s.push(a)[p] != s.push(a)[q] by {
                    if q == s.len() {
                        assert(s[p] != a) by {
                            if s[p] == a {
                                assert(row_has_index(s, ai));
                            }
                        }
                    }
                }
            }

            // the new canonical pair was not in the old edge list
            let e = (lo, hi);
            assert(!g0.edge_list@.contains(e)) by {
                if g0.edge_list@.contains(e) {
                    let k = choose|k: int|
                        0 <= k < g0.edge_list@.len() && g0.edge_list@[k] == e;
                    assert(g0.edge(lo as int, hi as int));
                }
            }
            assert(self.edge_list@ =~= g0.edge_list@.push(e));
            assert(self.edge_list@.no_duplicates()) by {
                let s = g0.edge_list@;
                assert forall|p: int, q: int|
                    0 <= p < q < s.push(e).len() implies s.push(e)[p] != s.push(e)[q] by {
                    if q == s.len() {
                        if s[p] == e {
                            assert(s.contains(e));
                        }
                    }
                }
            }

            // edge-list completeness for the new state
            assert forall|u: int, v: int|
                0 <= u < v < n && #[trigger] self.edge(u, v) implies self.edge_list@.contains(
                (u as usize, v as usize),
            ) by {
                if g0.edge(u, v) {
                    assert(g0.edge_list@.contains((u as usize, v as usize)));
                    let k = choose|k: int|
                        0 <= k < g0.edge_list@.len() && g0.edge_list@[k] == (
                        u as usize,
                        v as usize,
                    );
                    assert(self.edge_list@[k] == (u as usize, v as usize));
                } else {
                    assert((u as usize, v as usize) == e);
                    assert(self.edge_list@[g0.edge_list@.len() as int] == e);
                }
            }

            // every listed edge is still an edge
            assert forall|k: int| 0 <= k < self.edge_list@.len() implies {
                let ee = #[trigger] self.edge_list@[k];
                ee.0 < ee.1 && (ee.1 as int) < self.n() && self.edge(ee.0 as int, ee.1 as int)
            } by {
                if k < g0.edge_list@.len() {
                    assert(self.edge_list@[k] == g0.edge_list@[k]);
                    assert(g0.edge(g0.edge_list@[k].0 as int, g0.edge_list@[k].1 as int));
                }
            }

            // handshake: both rows grew by one, the edge list by one
            lemma_degree_total_update(g0.adj@, ai, g1.adj@[ai]);
            lemma_degree_total_update(g1.adj@, bi, self.adj@[bi]);

            // the same edge change read at the level of actor ids
            assert forall|x: Seq<char>, y: Seq<char>|
                self.edge_ids(x, y) <==> (g0.edge_ids(x, y) || (x == g0.ids@[ai]@ && y
                    == g0.ids@[bi]@) || (x == g0.ids@[bi]@ && y == g0.ids@[ai]@)) by {
                if self.edge_ids(x, y) {
                    let (p, q) = choose|p: int, q: int|
                        0 <= p < self.n() && 0 <= q < self.n() && self.ids@[p]@ == x
                            && self.ids@[q]@ == y && self.edge(p, q);
                    if g0.edge(p, q) {
                        assert(g0.edge_ids(x, y));
                    }
                }
                if g0.edge_ids(x, y) {
                    let (p, q) = choose|p: int, q: int|
                        0 <= p < g0.n() && 0 <= q < g0.n() && g0.ids@[p]@ == x && g0.ids@[q]@ == y
                            && g0.edge(p, q);
                    assert(self.edge(p, q));
                    assert(self.edge_ids(x, y));
                }
                if x == g0.ids@[ai]@ && y == g0.ids@[bi]@ {
                    assert(self.edge(ai, bi));
                    assert(self.edge_ids(x, y));
                }
                if x == g0.ids@[bi]@ && y == g0.ids@[ai]@ {
                    assert(self.edge(bi, ai));
                    assert(self.edge_ids(x, y));
                }
            }
        }
    }
}

} // verus!
