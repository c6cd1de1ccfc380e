//! Connected-component discovery: the number of components and the grouping
//! of actor ids by component. Component identity is positional and carries no
//! meaning across runs; the contracts speak only of the grouping.

use vstd::prelude::*;

use crate::bfs::bfs_distances;
use crate::graph::Graph;
use crate::reach::connected;
use crate::reach::lemma_connected_sym;
use crate::reach::lemma_connected_trans;
use crate::reach::reach;

verus! {

/// Node `v` is its component's representative: the least node index in it.
pub open spec fn is_rep(g: Graph, v: int) -> bool {
    0 <= v < g.n() && forall|u: int| 0 <= u < v ==> !connected(g, u, v)
}

/// The number of connected components: one representative each.
pub open spec fn component_count(g: Graph) -> nat {
    Set::new(|v: int| is_rep(g, v)).len()
}

/// Some group in `comps` holds the id of node `v` of `g`.
pub open spec fn holds_id_of(comps: Seq<Vec<String>>, g: Graph, v: int) -> bool {
    exists|c: int, k: int|
        0 <= c < comps.len() && 0 <= k < comps[c]@.len() && (#[trigger] comps[c]@[k])@
            == g.ids@[v]@
}

/// Node `w` has a recorded entry: its label is a live group, and the entry
/// at its recorded position was copied from it.
spec fn slot_ok(
    label: Seq<usize>,
    bound: int,
    owners: Seq<Seq<int>>,
    pos: Seq<int>,
    w: int,
) -> bool {
    &&& (label[w] as int) < bound
    &&& 0 <= pos[w] < owners[label[w] as int].len()
    &&& owners[label[w] as int][pos[w]] == w
}

/// One seed node per component (each the component's representative, in
/// increasing order) and, for every node, the seed position of its component.
fn component_labels(g: &Graph) -> (r: (Vec<usize>, Vec<usize>))
    requires
        g.wf(),
    ensures
        r.1@.len() == g.n(),
        forall|c1: int, c2: int|
            0 <= c1 < c2 < r.0@.len() ==> (#[trigger] r.0@[c1]) < (#[trigger] r.0@[c2]),
        forall|c: int| 0 <= c < r.0@.len() ==> is_rep(*g, (#[trigger] r.0@[c]) as int),
        forall|v: int| is_rep(*g, v) ==> r.0@.contains(v as usize),
        forall|w: int, c: int|
            #![trigger r.1@[w], r.0@[c]]
            #![trigger connected(*g, r.0@[c] as int, w)]
            0 <= w < g.n() ==> (r.1@[w] as int == c && 0 <= c < r.0@.len() <==> 0 <= c
                < r.0@.len() && connected(*g, r.0@[c] as int, w)),
{
    let n = g.node_count();
    let mut seeds: Vec<usize> = Vec::new();
    let mut label: Vec<usize> = Vec::new();
    let mut tagged: Vec<bool> = Vec::new();
    for i in 0..n
        invariant
            label@.len() == i,
            tagged@.len() == i,
            forall|j: int| 0 <= j < i ==> !(#[trigger] tagged@[j]),
    {
        label.push(0);
        tagged.push(false);
    }
    let mut v: usize = 0;
    while v < n
        invariant
            v <= n,
            n == g.n(),
            g.wf(),
            label@.len() == n,
            tagged@.len() == n,
            forall|u: int| 0 <= u < v ==> tagged@[u],
            forall|u: int|
                0 <= u < n && tagged@[u] ==> ((#[trigger] label@[u]) as int) < seeds@.len(),
            forall|c1: int, c2: int|
                0 <= c1 < c2 < seeds@.len() ==> (#[trigger] seeds@[c1]) < (#[trigger] seeds@[c2]),
            forall|c: int| 0 <= c < seeds@.len() ==> (#[trigger] seeds@[c] as int) < v,
            forall|c: int| 0 <= c < seeds@.len() ==> is_rep(*g, (#[trigger] seeds@[c]) as int),
            forall|u: int| 0 <= u < v && is_rep(*g, u) ==> seeds@.contains(u as usize),
            forall|w: int, c: int|
                #![trigger label@[w], seeds@[c]]
                #![trigger tagged@[w], seeds@[c]]
                #![trigger connected(*g, seeds@[c] as int, w)]
                0 <= w < n ==> ((tagged@[w] && label@[w] as int == c && 0 <= c < seeds@.len())
                    <==> (0 <= c < seeds@.len() && connected(*g, seeds@[c] as int, w))),
        decreases n - v,
    {
        let ghost seeds0 = seeds@;
        let ghost label0 = label@;
        let ghost tagged0 = tagged@;
        if !tagged[v] {
            seeds.push(v);
            let c = seeds.len() - 1;
            proof {
                // `v` is untagged, so it is connected to no earlier seed, and
                // hence to no earlier node at all: it is a representative
                assert(seeds@ =~= seeds0.push(v));
                assert forall|u: int| 0 <= u < v as int implies !connected(*g, u, v as int) by {
                    if connected(*g, u, v as int) {
                        assert(tagged0[u]);
                        let cu = label0[u] as int;
                        assert(0 <= cu < seeds0.len());
                        assert(connected(*g, seeds0[cu] as int, u));
                        lemma_connected_trans(*g, seeds0[cu] as int, u, v as int);
                        assert(tagged0[v as int] && label0[v as int] as int == cu);
                        assert(false);
                    }
                }
                assert(is_rep(*g, v as int));
            }
            let dist = bfs_distances(g, v);
            proof {
                assert forall|u: int|
                    0 <= u < n implies ((#[trigger] dist@[u]) is Some <==> connected(
                    *g,
                    v as int,
                    u,
                )) by {
                    if dist@[u] is Some {
                        let d = dist@[u]->Some_0;
                        assert(crate::reach::dist_is(*g, v as int, u, d as nat));
                        assert(reach(*g, v as int, d as nat).contains(u));
                    }
                }
            }
            let mut w: usize = 0;
            while w < n
                invariant
                    w <= n,
                    n == g.n(),
                    g.wf(),
                    v < n,
                    c == seeds@.len() - 1,
                    seeds@ == seeds0.push(v),
                    dist@.len() == n,
                    label@.len() == n,
                    tagged@.len() == n,
                    forall|u: int|
                        0 <= u < n ==> ((#[trigger] dist@[u]) is Some <==> connected(
                            *g,
                            v as int,
                            u,
                        )),
                    forall|u: int|
                        0 <= u < n && tagged@[u] ==> ((#[trigger] label@[u]) as int)
                            < seeds@.len(),
                    // entries for nodes before `w`: retagged when connected to `v`
                    forall|u: int|
                        #![trigger connected(*g, v as int, u)]
                        #![trigger label@[u]]
                        0 <= u < w ==> (connected(*g, v as int, u) ==> tagged@[u] && label@[u]
                            == c),
                    forall|u: int|
                        #![trigger label@[u]]
                        #![trigger tagged@[u]]
                        0 <= u < n ==> (!(0 <= u < w && connected(*g, v as int, u))
                            ==> label@[u] == label0[u] && tagged@[u] == tagged0[u]),
                decreases n - w,
            {
                if dist[w].is_some() {
                    label[w] = c;
                    tagged[w] = true;
                }
                proof {
                    if dist@[w as int] is Some {
                        assert(connected(*g, v as int, w as int));
                        assert(tagged@[w as int]);
                        assert(label@[w as int] == c);
                    } else {
                        assert(!connected(*g, v as int, w as int));
                    }
                    assert forall|u: int|
                        0 <= u < w as int + 1 && connected(*g, v as int, u) implies tagged@[u] && (
                    label@[u]) == c by {
                        if u != w as int {
                            assert(tagged@[u] && label@[u] == c);
                        }
                    }
                }
                w = w + 1;
            }
            proof {
                // nodes connected to an old seed are untouched: the two
                // components are disjoint
                assert forall|ww: int, cc: int|
                    #![trigger label@[ww], seeds@[cc]]
                    #![trigger tagged@[ww], seeds@[cc]]
                    #![trigger connected(*g, seeds@[cc] as int, ww)]
                    0 <= ww < n implies ((tagged@[ww] && label@[ww] as int == cc && 0 <= cc
                    < seeds@.len()) <==> (0 <= cc < seeds@.len() && connected(
                    *g,
                    seeds@[cc] as int,
                    ww,
                ))) by {
                    if connected(*g, v as int, ww) {
                        // ww now carries the new label `c`; it is connected to
                        // no old seed
                        assert(tagged@[ww] && label@[ww] == c);
                        assert forall|oc: int| 0 <= oc < seeds0.len() implies !connected(
                            *g,
                            seeds0[oc] as int,
                            ww,
                        ) by {
                            if connected(*g, seeds0[oc] as int, ww) {
                                lemma_connected_sym(*g, v as int, ww);
                                lemma_connected_trans(*g, seeds0[oc] as int, ww, v as int);
                                assert(tagged0[v as int]);
                                assert(false);
                            }
                        }
                        assert(seeds@[c as int] == v);
                    } else {
                        // untouched entry; old seeds are not connected to it
                        // exactly as before, and the new seed `v` is not
                        assert(label@[ww] == label0[ww] && tagged@[ww] == tagged0[ww]);
                        if 0 <= cc < seeds0.len() {
                            assert(seeds@[cc] == seeds0[cc]);
                        }
                        if cc == c as int {
                            assert(!connected(*g, seeds@[cc] as int, ww));
                            assert(!(tagged@[ww] && label@[ww] as int == cc && 0 <= cc
                                < seeds@.len())) by {
                                if tagged0[ww] {
                                    let oc = label0[ww] as int;
                                    assert(0 <= oc < seeds0.len());
                                    assert(oc != c as int);
                                }
                            }
                        }
                    }
                }
            }
        }
        proof {
            assert(connected(*g, v as int, v as int)) by {
                assert(reach(*g, v as int, 0).contains(v as int));
            }
            assert(tagged@[v as int]);
            assert forall|u: int| 0 <= u < v as int + 1 implies tagged@[u] by {
                if u < v as int && !tagged0[u] {
                    assert(false);
                }
            }
            assert forall|u: int|
                0 <= u < v as int + 1 && is_rep(*g, u) implies seeds@.contains(u as usize) by {
                if u == v as int {
                    if tagged0[u] {
                        // `v` was tagged before: it is connected to an earlier
                        // seed and so is no representative
                        let cu = label0[u] as int;
                        assert(0 <= cu < seeds0.len());
                        assert(connected(*g, seeds0[cu] as int, u));
                        assert((seeds0[cu] as int) < v as int);
                        lemma_connected_sym(*g, seeds0[cu] as int, u);
                        assert(false);
                    } else {
                        assert(seeds@[seeds@.len() - 1] == v as usize);
                    }
                } else {
                    assert(seeds0.contains(u as usize));
                    let k = choose|k: int| 0 <= k < seeds0.len() && seeds0[k] == u as usize;
                    assert(seeds@[k] == u as usize);
                }
            }
        }
        v = v + 1;
    }
    (seeds, label)
}

/// A strictly increasing list of exactly the representatives has the
/// component count as its length.
proof fn lemma_seed_count(g: Graph, seeds: Seq<usize>)
    requires
        g.n() <= usize::MAX,
        forall|c1: int, c2: int|
            0 <= c1 < c2 < seeds.len() ==> (#[trigger] seeds[c1]) < (#[trigger] seeds[c2]),
        forall|c: int| 0 <= c < seeds.len() ==> is_rep(g, (#[trigger] seeds[c]) as int),
        forall|v: int| is_rep(g, v) ==> seeds.contains(v as usize),
    ensures
        seeds.len() == component_count(g),
{
    let reps = Set::new(|v: int| is_rep(g, v));
    let seed_ints = seeds.map_values(|x: usize| x as int);
    assert(seed_ints.no_duplicates()) by {
        assert forall|c1: int, c2: int|
            0 <= c1 < seed_ints.len() && 0 <= c2 < seed_ints.len() && c1 != c2 implies
            seed_ints[c1] != seed_ints[c2] by {
            if c1 < c2 {
                assert(seeds[c1] < seeds[c2]);
            } else {
                assert(seeds[c2] < seeds[c1]);
            }
        }
    }
    assert(seed_ints.to_set() =~= reps) by {
        assert forall|x: int| seed_ints.to_set().contains(x) implies reps.contains(x) by {
            let c = choose|c: int| 0 <= c < seed_ints.len() && seed_ints[c] == x;
            assert(is_rep(g, seeds[c] as int));
        }
        assert forall|x: int| reps.contains(x) implies seed_ints.to_set().contains(x) by {
            assert(is_rep(g, x));
            assert(0 <= x < g.n());
            assert(seeds.contains(x as usize));
            let c = choose|c: int| 0 <= c < seeds.len() && seeds[c] == x as usize;
            assert(seed_ints[c] == seeds[c] as int);
            assert(seed_ints[c] == x);
            assert(seed_ints.to_set().contains(seed_ints[c]));
        }
    }
    seed_ints.unique_seq_to_set();
    assert(seeds.len() == reps.len());
}

/// Every node is connected to a representative.
pub proof fn lemma_rep_exists(g: Graph, v: int)
    requires
        g.wf(),
        0 <= v < g.n(),
    ensures
        exists|u: int| #[trigger] is_rep(g, u) && connected(g, u, v),
    decreases v,
{
    if forall|u: int| 0 <= u < v ==> !connected(g, u, v) {
        assert(connected(g, v, v)) by {
            assert(reach(g, v, 0).contains(v));
        }
        assert(is_rep(g, v) && connected(g, v, v));
    } else {
        let u = choose|u: int| 0 <= u < v && connected(g, u, v);
        lemma_rep_exists(g, u);
        let r = choose|r: int| #[trigger] is_rep(g, r) && connected(g, r, u);
        lemma_connected_trans(g, r, u, v);
        assert(is_rep(g, r) && connected(g, r, v));
    }
}

/// Groups the actor ids of all nodes by connected component: every node's id
/// stands in exactly one group, exactly once; two ids share a group exactly
/// when their nodes are connected; each group is nonempty; and the number of
/// groups equals the number of connected components. Which group comes first
/// carries no meaning.
pub fn connected_components_map(g: &Graph) -> (comps: Vec<Vec<String>>)
    requires
        g.wf(),
    ensures
        comps@.len() == component_count(*g),
        forall|c: int| 0 <= c < comps@.len() ==> (#[trigger] comps@[c]@.len()) > 0,
        forall|c: int, k: int|
            0 <= c < comps@.len() && 0 <= k < comps@[c]@.len() ==> g.has_id(
                (#[trigger] comps@[c]@[k])@,
            ),
        forall|v: int| 0 <= v < g.n() ==> #[trigger] holds_id_of(comps@, *g, v),
        forall|c1: int, k1: int, c2: int, k2: int|
            #![trigger comps@[c1]@[k1], comps@[c2]@[k2]]
            0 <= c1 < comps@.len() && 0 <= k1 < comps@[c1]@.len() && 0 <= c2 < comps@.len() && 0
                <= k2 < comps@[c2]@.len() && !(c1 == c2 && k1 == k2) ==> comps@[c1]@[k1]@
                != comps@[c2]@[k2]@,
        forall|c1: int, k1: int, c2: int, k2: int|
            #![trigger comps@[c1]@[k1], comps@[c2]@[k2]]
            0 <= c1 < comps@.len() && 0 <= k1 < comps@[c1]@.len() && 0 <= c2 < comps@.len() && 0
                <= k2 < comps@[c2]@.len() ==> (connected(
                *g,
                g.index_of(comps@[c1]@[k1]@),
                g.index_of(comps@[c2]@[k2]@),
            ) <==> c1 == c2),
{
    let n = g.node_count();
    let (seeds, label) = component_labels(g);
    let mut comps: Vec<Vec<String>> = Vec::new();
    let sl = seeds.len();
    for c in 0..sl
        invariant
            comps@.len() == c,
            forall|j: int| 0 <= j < c ==> (#[trigger] comps@[j]@.len()) == 0,
    {
        comps.push(Vec::new());
    }
    // ghost bookkeeping: which node each entry was copied from, and where
    // each node's entry sits
    let ghost mut owners: Seq<Seq<int>> = Seq::new(sl as nat, |c: int| Seq::empty());
    let ghost mut pos: Seq<int> = Seq::new(n as nat, |w: int| 0);
    let mut v: usize = 0;
    while v < n
        invariant
            v <= n,
            n == g.n(),
            g.wf(),
            sl == seeds@.len(),
            label@.len() == n,
            comps@.len() == sl,
            owners.len() == sl,
            pos.len() == n,
            forall|c1: int, c2: int|
                0 <= c1 < c2 < seeds@.len() ==> (#[trigger] seeds@[c1]) < (#[trigger] seeds@[c2]),
            forall|c: int| 0 <= c < seeds@.len() ==> is_rep(*g, (#[trigger] seeds@[c]) as int),
            forall|u: int| is_rep(*g, u) ==> seeds@.contains(u as usize),
            forall|w: int, c: int|
                #![trigger label@[w], seeds@[c]]
                #![trigger connected(*g, seeds@[c] as int, w)]
                0 <= w < n ==> (label@[w] as int == c && 0 <= c < seeds@.len() <==> 0 <= c
                    < seeds@.len() && connected(*g, seeds@[c] as int, w)),
            forall|c: int| 0 <= c < sl ==> (#[trigger] owners[c]).len() == comps@[c]@.len(),
            forall|c: int, k: int|
                #![trigger owners[c][k]]
                0 <= c < sl && 0 <= k < owners[c].len() ==> 0 <= owners[c][k] < v
                    && label@[owners[c][k]] as int == c && comps@[c]@[k]@
                    == g.ids@[owners[c][k]]@,
            forall|c: int, k1: int, k2: int|
                #![trigger owners[c][k1], owners[c][k2]]
                0 <= c < sl && 0 <= k1 < k2 < owners[c].len() ==> owners[c][k1] < owners[c][k2],
            forall|w: int|
                0 <= w < v ==> #[trigger] slot_ok(label@, sl as int, owners, pos, w),
        decreases n - v,
    {
        let l = label[v];
        proof {
            lemma_rep_exists(*g, v as int);
            let r = choose|r: int| #[trigger] is_rep(*g, r) && connected(*g, r, v as int);
            assert(seeds@.contains(r as usize));
            let cr = choose|cr: int| 0 <= cr < seeds@.len() && seeds@[cr] == r as usize;
            assert(connected(*g, seeds@[cr] as int, v as int));
            assert(label@[v as int] as int == cr);
            assert((l as int) < sl);
        }
        let ghost comps0 = comps@;
        let ghost owners0 = owners;
        let ghost pos0 = pos;
        let id = g.id_of(v).clone();
        comps[l].push(id);
        proof {
            owners = owners.update(l as int, owners[l as int].push(v as int));
            pos = pos.update(v as int, owners[l as int].len() - 1);
            assert(comps@ =~= comps0.update(l as int, comps@[l as int]));
            assert(comps@[l as int]@ =~= comps0[l as int]@.push(id));
            assert(owners[l as int] =~= owners0[l as int].push(v as int));
            assert(id@ == g.ids@[v as int]@);
            assert forall|c: int, k: int|
                #![trigger owners[c][k]]
                0 <= c < sl && 0 <= k < owners[c].len() implies 0 <= owners[c][k] < v as int + 1
                && label@[owners[c][k]] as int == c && comps@[c]@[k]@
                == g.ids@[owners[c][k]]@ by {
                if c == l as int && k == owners[c].len() - 1 {
                    assert(owners[c][k] == v as int);
                    assert(comps@[c]@[k]@ == g.ids@[v as int]@);
                } else {
                    assert(owners[c][k] == owners0[c][k]);
                    assert(comps@[c]@[k] == comps0[c]@[k]);
                }
            }
            assert forall|c: int, k1: int, k2: int|
                #![trigger owners[c][k1], owners[c][k2]]
                0 <= c < sl && 0 <= k1 < k2 < owners[c].len() implies owners[c][k1]
                < owners[c][k2] by {
                if c == l as int && k2 == owners[c].len() - 1 {
                    assert(owners[c][k1] == owners0[c][k1]);
                    assert(owners0[c][k1] < v as int);
                    assert(owners[c][k2] == v as int);
                } else {
                    assert(owners[c][k1] == owners0[c][k1]);
                    assert(owners[c][k2] == owners0[c][k2]);
                }
            }
            assert forall|w: int|
                0 <= w < v as int + 1 implies #[trigger] slot_ok(
                label@,
                sl as int,
                owners,
                pos,
                w,
            ) by {
                if w == v as int {
                    assert(pos[w] == owners[l as int].len() - 1);
                    assert(owners[l as int][pos[w]] == w);
                } else {
                    assert(slot_ok(label@, sl as int, owners0, pos0, w));
                    assert(pos[w] == pos0[w]);
                    let c = label@[w] as int;
                    if c == l as int {
                        assert(owners[c][pos[w]] == owners0[c][pos[w]]);
                    } else {
                        assert(owners[c] == owners0[c]);
                    }
                }
            }
        }
        v = v + 1;
    }
    proof {
        assert(g.n() == n);
        lemma_groups_ok(*g, seeds@, label@, comps@, owners, pos);
    }
    comps
}

/// Derives the public shape of the component grouping from the bookkeeping
/// of the filling loop.
#[verifier::rlimit(100)]
proof fn lemma_groups_ok(
    g: Graph,
    seeds: Seq<usize>,
    label: Seq<usize>,
    comps: Seq<Vec<String>>,
    owners: Seq<Seq<int>>,
    pos: Seq<int>,
)
    requires
        g.wf(),
        g.n() <= usize::MAX,
        label.len() == g.n(),
        comps.len() == seeds.len(),
        owners.len() == comps.len(),
        pos.len() == g.n(),
        forall|c1: int, c2: int|
            0 <= c1 < c2 < seeds.len() ==> (#[trigger] seeds[c1]) < (#[trigger] seeds[c2]),
        forall|c: int| 0 <= c < seeds.len() ==> is_rep(g, (#[trigger] seeds[c]) as int),
        forall|u: int| is_rep(g, u) ==> seeds.contains(u as usize),
        forall|w: int, c: int|
            #![trigger label[w], seeds[c]]
            #![trigger connected(g, seeds[c] as int, w)]
            0 <= w < g.n() ==> (label[w] as int == c && 0 <= c < seeds.len() <==> 0 <= c
                < seeds.len() && connected(g, seeds[c] as int, w)),
        forall|c: int| 0 <= c < comps.len() ==> (#[trigger] owners[c]).len() == comps[c]@.len(),
        forall|c: int, k: int|
            #![trigger owners[c][k]]
            0 <= c < comps.len() && 0 <= k < owners[c].len() ==> 0 <= owners[c][k] < g.n()
                && label[owners[c][k]] as int == c && comps[c]@[k]@ == g.ids@[owners[c][k]]@,
        forall|c: int, k1: int, k2: int|
            #![trigger owners[c][k1], owners[c][k2]]
            0 <= c < comps.len() && 0 <= k1 < k2 < owners[c].len() ==> owners[c][k1]
                < owners[c][k2],
        forall|w: int| 0 <= w < g.n() ==> #[trigger] slot_ok(label, comps.len() as int, owners, pos, w),
    ensures
        comps.len() == component_count(g),
        forall|c: int| 0 <= c < comps.len() ==> (#[trigger] comps[c]@.len()) > 0,
        forall|c: int, k: int|
            0 <= c < comps.len() && 0 <= k < comps[c]@.len() ==> g.has_id(
                (#[trigger] comps[c]@[k])@,
            ),
        forall|v: int| 0 <= v < g.n() ==> #[trigger] holds_id_of(comps, g, v),
        forall|c1: int, k1: int, c2: int, k2: int|
            #![trigger comps[c1]@[k1], comps[c2]@[k2]]
            0 <= c1 < comps.len() && 0 <= k1 < comps[c1]@.len() && 0 <= c2 < comps.len() && 0 <= k2
                < comps[c2]@.len() && !(c1 == c2 && k1 == k2) ==> comps[c1]@[k1]@
                != comps[c2]@[k2]@,
        forall|c1: int, k1: int, c2: int, k2: int|
            #![trigger comps[c1]@[k1], comps[c2]@[k2]]
            0 <= c1 < comps.len() && 0 <= k1 < comps[c1]@.len() && 0 <= c2 < comps.len() && 0 <= k2
                < comps[c2]@.len() ==> (connected(
                g,
                g.index_of(comps[c1]@[k1]@),
                g.index_of(comps[c2]@[k2]@),
            ) <==> c1 == c2),
{
    lemma_seed_count(g, seeds);
    assert forall|c: int| 0 <= c < comps.len() implies (#[trigger] comps[c]@.len()) > 0 by {
        let s = seeds[c] as int;
        assert(is_rep(g, s));
        assert(connected(g, seeds[c] as int, s)) by {
            assert(reach(g, s, 0).contains(s));
        }
        assert(label[s] as int == c);
        assert(slot_ok(label, comps.len() as int, owners, pos, s));
        assert(owners[c][pos[s]] == s);
    }
    assert forall|c: int, k: int|
        0 <= c < comps.len() && 0 <= k < comps[c]@.len() implies g.has_id(
        (#[trigger] comps[c]@[k])@,
    ) by {
        let w = owners[c][k];
        assert(g.ids@[w]@ == comps[c]@[k]@);
    }
    assert forall|v: int| 0 <= v < g.n() implies #[trigger] holds_id_of(comps, g, v) by {
        assert(slot_ok(label, comps.len() as int, owners, pos, v));
        let c = label[v] as int;
        let k = pos[v];
        assert(owners[c][k] == v);
        assert(0 <= c < comps.len() && 0 <= k < comps[c]@.len() && comps[c]@[k]@ == g.ids@[v]@);
    }
    assert forall|c1: int, k1: int, c2: int, k2: int|
        #![trigger comps[c1]@[k1], comps[c2]@[k2]]
        0 <= c1 < comps.len() && 0 <= k1 < comps[c1]@.len() && 0 <= c2 < comps.len() && 0 <= k2
            < comps[c2]@.len() && !(c1 == c2 && k1 == k2) implies comps[c1]@[k1]@
        != comps[c2]@[k2]@ by {
        let w1 = owners[c1][k1];
        let w2 = owners[c2][k2];
        if comps[c1]@[k1]@ == comps[c2]@[k2]@ {
            assert(w1 == w2) by {
                if w1 < w2 {
                    assert(g.ids@[w1]@ != g.ids@[w2]@);
                } else if w2 < w1 {
                    assert(g.ids@[w2]@ != g.ids@[w1]@);
                }
            }
            assert(c1 == c2);
            if k1 < k2 {
                assert(owners[c1][k1] < owners[c1][k2]);
            } else {
                assert(owners[c1][k2] < owners[c1][k1]);
            }
            assert(false);
        }
    }
    assert forall|c1: int, k1: int, c2: int, k2: int|
        #![trigger comps[c1]@[k1], comps[c2]@[k2]]
        0 <= c1 < comps.len() && 0 <= k1 < comps[c1]@.len() && 0 <= c2 < comps.len() && 0 <= k2
            < comps[c2]@.len() implies (connected(
        g,
        g.index_of(comps[c1]@[k1]@),
        g.index_of(comps[c2]@[k2]@),
    ) <==> c1 == c2) by {
        let w1 = owners[c1][k1];
        let w2 = owners[c2][k2];
        assert(g.index_of(comps[c1]@[k1]@) == w1) by {
            let i = g.index_of(comps[c1]@[k1]@);
            assert(0 <= i < g.n() && g.ids@[i]@ == comps[c1]@[k1]@) by {
                assert(g.ids@[w1]@ == comps[c1]@[k1]@);
            }
        }
        assert(g.index_of(comps[c2]@[k2]@) == w2) by {
            let i = g.index_of(comps[c2]@[k2]@);
            assert(0 <= i < g.n() && g.ids@[i]@ == comps[c2]@[k2]@) by {
                assert(g.ids@[w2]@ == comps[c2]@[k2]@);
            }
        }
        assert(connected(g, seeds[c1] as int, w1));
        assert(connected(g, seeds[c2] as int, w2));
        if c1 == c2 {
            lemma_connected_sym(g, seeds[c1] as int, w1);
            lemma_connected_trans(g, w1, seeds[c1] as int, w2);
        } else {
            if connected(g, w1, w2) {
                lemma_connected_trans(g, seeds[c1] as int, w1, w2);
                assert(label[w2] as int == c1);
                assert(false);
            }
        }
    }
}

/// The number of connected components of the graph.
pub fn num_connected_components(g: &Graph) -> (r: usize)
    requires
        g.wf(),
    ensures
        r == component_count(*g),
{
    let nn = g.node_count();
    let (seeds, _label) = component_labels(g);
    proof {
        assert(g.n() == nn);
        lemma_seed_count(*g, seeds@);
    }
    seeds.len()
}

} // verus!
