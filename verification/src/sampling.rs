//! Uniform random node sampling: a subgraph induced on a random subset of
//! nodes, driven by a caller-supplied seedable generator so that runs are
//! reproducible.

use vstd::prelude::*;

use crate::graph::Graph;
use crate::subgraph::copy_induced_edges;

verus! {

/// Declares rand's `StdRng` so that a caller-held generator can be passed
/// through; the library sees it as opaque state.
#[verifier::external_type_specification]
#[verifier::external_body]
pub struct ExStdRng(rand::rngs::StdRng);

/// Relies on rand's `Rng::gen_range` over `0..bound`: the draw lies below
/// the bound. Which value comes back depends on the generator's state, so
/// nothing more is promised.
#[verifier::external_body]
fn rng_below(rng: &mut rand::rngs::StdRng, bound: usize) -> (r: usize)
    requires
        bound > 0,
    ensures
        r < bound,
{
    rand::Rng::gen_range(rng, 0..bound)
}

/// Selects `min(sample_size, n)` distinct nodes without replacement and
/// returns the subgraph they induce: every sampled id is an id of `g`, and
/// two sampled ids are joined exactly when they are joined in `g`.
#[verifier::loop_isolation(false)]
#[verifier::rlimit(60)]
pub fn random_actor_subgraph(g: &Graph, sample_size: usize, rng: &mut rand::rngs::StdRng) -> (sub:
    Graph)
    requires
        g.wf(),
    ensures
        sub.wf(),
        sub.n() == if sample_size < g.n() {
            sample_size as nat
        } else {
            g.n()
        },
        forall|a: Seq<char>| #[trigger] sub.has_id(a) ==> g.has_id(a),
        forall|a: Seq<char>, b: Seq<char>|
            #[trigger] sub.edge_ids(a, b) <==> (sub.has_id(a) && sub.has_id(b) && g.edge_ids(
                a,
                b,
            )),
{
    let n = g.node_count();
    let k = if sample_size < n {
        sample_size
    } else {
        n
    };
    // a partial shuffle of the node indices: the first `k` entries are the
    // sample
    let mut idx: Vec<usize> = Vec::new();
    for i in 0..n
        invariant
            idx@.len() == i,
            forall|p: int| 0 <= p < i ==> (#[trigger] idx@[p]) == p,
    {
        idx.push(i);
    }
    proof {
        assert(idx@.no_duplicates());
    }
    let mut i: usize = 0;
    while i < k
        invariant
            i <= k <= n,
            idx@.len() == n,
            forall|p: int| 0 <= p < n ==> (#[trigger] idx@[p]) < n,
            idx@.no_duplicates(),
        decreases k - i,
    {
        let j = i + rng_below(rng, n - i);
        let ghost idx0 = idx@;
        let a = idx[i];
        let b = idx[j];
        idx[i] = b;
        idx[j] = a;
        proof {
            assert(idx@ =~= idx0.update(i as int, b).update(j as int, a));
            assert(idx@.no_duplicates()) by {
                assert forall|p: int, q: int|
                    0 <= p < idx@.len() && 0 <= q < idx@.len() && p != q implies idx@[p]
                    != idx@[q] by {
                    let p0: int = if p == i as int {
                        j as int
                    } else if p == j as int {
                        i as int
                    } else {
                        p
                    };
                    let q0: int = if q == i as int {
                        j as int
                    } else if q == j as int {
                        i as int
                    } else {
                        q
                    };
                    assert(idx@[p] == idx0[p0] && idx@[q] == idx0[q0]);
                }
            }
        }
        i = i + 1;
    }
    // the sampled nodes become the subgraph's nodes
    let mut sub = Graph::new();
    let mut t: usize = 0;
    while t < k
        invariant
            t <= k <= n,
            n == g.n(),
            g.wf(),
            idx@.len() == n,
            forall|p: int| 0 <= p < n ==> (#[trigger] idx@[p]) < n,
            idx@.no_duplicates(),
            sub.wf(),
            sub.n() == t,
            sub.edge_list@.len() == 0,
            forall|a: Seq<char>, b: Seq<char>| !sub.edge_ids(a, b),
            forall|a: Seq<char>|
                #[trigger] sub.has_id(a) <==> exists|p: int|
                    0 <= p < t && g.ids@[(#[trigger] idx@[p]) as int]@ == a,
        decreases k - t,
    {
        let ghost sub0 = sub;
        let id = g.id_of(idx[t]).clone();
        proof {
            // the id is new: earlier samples are other nodes, and ids are
            // distinct across nodes
            assert(!sub0.has_id(id@)) by {
                if sub0.has_id(id@) {
                    let p = choose|p: int|
                        0 <= p < t as int && g.ids@[(#[trigger] idx@[p]) as int]@ == id@;
                    assert(idx@[p] != idx@[t as int]);
                    let u = idx@[p] as int;
                    let w = idx@[t as int] as int;
                    if u < w {
                        assert(g.ids@[u]@ != g.ids@[w]@);
                    } else {
                        assert(g.ids@[w]@ != g.ids@[u]@);
                    }
                    assert(false);
                }
            }
        }
        sub.add_node(id);
        proof {
            assert forall|a: Seq<char>| #[trigger] sub.has_id(a) implies exists|p: int|
                0 <= p < t as int + 1 && g.ids@[(#[trigger] idx@[p]) as int]@ == a by {
                if sub0.has_id(a) {
                    let p = choose|p: int|
                        0 <= p < t as int && g.ids@[(#[trigger] idx@[p]) as int]@ == a;
                    assert(0 <= p < t as int + 1 && g.ids@[idx@[p] as int]@ == a);
                } else {
                    assert(g.ids@[idx@[t as int] as int]@ == a);
                }
            }
            assert forall|a: Seq<char>|
                (exists|p: int|
                    0 <= p < t as int + 1 && g.ids@[(#[trigger] idx@[p]) as int]@
                        == a) implies sub.has_id(a) by {
                let p = choose|p: int|
                    0 <= p < t as int + 1 && g.ids@[(#[trigger] idx@[p]) as int]@ == a;
                if p < t as int {
                    assert(sub0.has_id(a));
                }
            }
        }
        t = t + 1;
    }
    copy_induced_edges(g, &mut sub);
    proof {
        assert forall|a: Seq<char>| #[trigger] sub.has_id(a) implies g.has_id(a) by {
            let p = choose|p: int|
                0 <= p < k as int && g.ids@[(#[trigger] idx@[p]) as int]@ == a;
            assert(g.ids@[idx@[p] as int]@ == a);
        }
    }
    sub
}

} // verus!
