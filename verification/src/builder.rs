//! Graph construction from a group-membership table: every pair of distinct
//! members of a group becomes an edge, idempotently across groups.

use vstd::prelude::*;

use crate::graph::Graph;

verus! {

/// One group (a movie or series title) and its member list (the cast).
pub struct Group {
    pub id: String,
    pub members: Vec<String>,
}

impl Group {
    /// The group lists the member id `a`.
    pub open spec fn has_member(self, a: Seq<char>) -> bool {
        exists|j: int| 0 <= j < self.members@.len() && self.members@[j]@ == a
    }
}

/// `a` is a member of one of the first `k` groups.
pub open spec fn appears_upto(gs: Seq<Group>, k: int, a: Seq<char>) -> bool {
    exists|i: int| 0 <= i < k && i < gs.len() && (#[trigger] gs[i]).has_member(a)
}

/// `a` is a member of some group.
pub open spec fn appears(gs: Seq<Group>, a: Seq<char>) -> bool {
    appears_upto(gs, gs.len() as int, a)
}

/// Two distinct ids share one of the first `k` groups.
pub open spec fn co_occur_upto(gs: Seq<Group>, k: int, a: Seq<char>, b: Seq<char>) -> bool {
    a != b && exists|i: int|
        0 <= i < k && i < gs.len() && (#[trigger] gs[i]).has_member(a) && gs[i].has_member(b)
}

/// Two distinct ids share some group.
pub open spec fn co_occur(gs: Seq<Group>, a: Seq<char>, b: Seq<char>) -> bool {
    co_occur_upto(gs, gs.len() as int, a, b)
}

/// The unordered pairs of member positions of `gr` already visited by the
/// pair loop, when it stands at row `i`, column `j`: all pairs `(p, q)` with
/// `p < q` that precede `(i, j)` in row-major order, read as a relation on
/// the ids they carry.
pub open spec fn pairs_done(gr: Group, i: int, j: int, a: Seq<char>, b: Seq<char>) -> bool {
    a != b && exists|p: int, q: int|
        0 <= p < q < gr.members@.len() && (p < i || (p == i && q < j)) && (((
        #[trigger] gr.members@[p])@ == a && (#[trigger] gr.members@[q])@ == b) || (gr.members@[p]@
            == b && gr.members@[q]@ == a))
}

/// Number of unordered pairs `(p, q)` with `i <= p < q < m`.
pub open spec fn pairs_from(i: nat, m: nat) -> nat
    decreases m - i,
{
    if i >= m {
        0
    } else {
        (m - i - 1) as nat + pairs_from(i + 1, m)
    }
}

/// Sum over the first `k` groups of the number of unordered member pairs.
pub open spec fn pair_budget_upto(gs: Seq<Group>, k: int) -> nat
    decreases k,
{
    if k <= 0 || k > gs.len() {
        0
    } else {
        pair_budget_upto(gs, k - 1) + pairs_from(0, gs[k - 1].members@.len())
    }
}

/// Sum over all groups of the number of unordered member pairs.
pub open spec fn pair_budget(gs: Seq<Group>) -> nat {
    pair_budget_upto(gs, gs.len() as int)
}

/// `pairs_from(0, m)` is the binomial count: twice it is `m * (m - 1)`.
pub proof fn lemma_pairs_from_closed(i: nat, m: nat)
    requires
        i <= m,
    ensures
        2 * pairs_from(i, m) == (m - i) * (m - i - 1),
    decreases m - i,
{
    if i < m {
        lemma_pairs_from_closed(i + 1, m);
        assert(pairs_from(i, m) == (m - i - 1) + pairs_from(i + 1, m));
        assert(2 * pairs_from(i, m) == 2 * (m - i - 1) + (m - i - 1) * (m - i - 2));
        assert(2 * (m - i - 1) + (m - i - 1) * (m - i - 2) == (m - i) * (m - i - 1))
            by (nonlinear_arith);
    } else {
        assert(pairs_from(i, m) == 0);
        assert((m - i) * (m - i - 1) == 0) by (nonlinear_arith)
            requires
                i == m,
        ;
    }
}

/// The member list of a group, read as a sequence of id views.
pub open spec fn member_views(gr: Group) -> Seq<Seq<char>> {
    gr.members@.map_values(|s: String| s@)
}

/// A group lists an id exactly when its view sequence contains it.
pub proof fn lemma_member_views_contains(gr: Group, a: Seq<char>)
    ensures
        gr.has_member(a) <==> member_views(gr).contains(a),
{
    if gr.has_member(a) {
        let j = choose|j: int| 0 <= j < gr.members@.len() && gr.members@[j]@ == a;
        assert(member_views(gr)[j] == a);
    }
    if member_views(gr).contains(a) {
        let j = choose|j: int| 0 <= j < member_views(gr).len() && member_views(gr)[j] == a;
        assert(gr.members@[j]@ == a);
    }
}

/// Graph construction is invariant to the order of groups and to the order
/// of members within a group: when a permutation `p` aligns the groups of
/// `gs2` with those of `gs1` and corresponding groups list the same members,
/// two graphs built from the two tables carry the same node ids and the same
/// edges between ids.
pub proof fn lemma_build_graph_order_invariant(
    gs1: Seq<Group>,
    gs2: Seq<Group>,
    p: spec_fn(int) -> int,
    q: spec_fn(int) -> int,
    g1: Graph,
    g2: Graph,
)
    requires
        forall|a: Seq<char>| g1.has_id(a) <==> appears(gs1, a),
        forall|a: Seq<char>, b: Seq<char>| g1.edge_ids(a, b) <==> co_occur(gs1, a, b),
        forall|a: Seq<char>| g2.has_id(a) <==> appears(gs2, a),
        forall|a: Seq<char>, b: Seq<char>| g2.edge_ids(a, b) <==> co_occur(gs2, a, b),
        gs2.len() == gs1.len(),
        forall|i: int| 0 <= i < gs2.len() ==> 0 <= #[trigger] p(i) < gs1.len(),
        forall|i: int, j: int|
            0 <= i < gs2.len() && 0 <= j < gs2.len() && i != j ==> #[trigger] p(i) != #[trigger] p(
                j,
            ),
        forall|j: int| 0 <= j < gs1.len() ==> 0 <= #[trigger] q(j) < gs2.len() && p(q(j)) == j,
        forall|i: int|
            0 <= i < gs2.len() ==> member_views(#[trigger] gs2[i]).to_multiset() == member_views(
                gs1[p(i)],
            ).to_multiset(),
    ensures
        forall|a: Seq<char>| g2.has_id(a) <==> g1.has_id(a),
        forall|a: Seq<char>, b: Seq<char>| g2.edge_ids(a, b) <==> g1.edge_ids(a, b),
{
    broadcast use vstd::seq_lib::group_to_multiset_ensures;

    assert forall|i: int, a: Seq<char>|
        0 <= i < gs2.len() implies (#[trigger] gs2[i].has_member(a) <==> gs1[p(i)].has_member(
        a,
    )) by {
        lemma_member_views_contains(gs2[i], a);
        lemma_member_views_contains(gs1[p(i)], a);
        assert(member_views(gs2[i]).contains(a) <==> member_views(gs2[i]).to_multiset().count(a)
            > 0);
        assert(member_views(gs1[p(i)]).contains(a) <==> member_views(
            gs1[p(i)],
        ).to_multiset().count(a) > 0);
    }
    assert forall|a: Seq<char>| appears(gs2, a) <==> appears(gs1, a) by {
        if appears(gs2, a) {
            let i = choose|i: int|
                0 <= i < gs2.len() && (#[trigger] gs2[i]).has_member(a);
            assert(gs1[p(i)].has_member(a));
            assert(appears_upto(gs1, gs1.len() as int, a));
        }
        if appears(gs1, a) {
            let j = choose|j: int|
                0 <= j < gs1.len() && (#[trigger] gs1[j]).has_member(a);
            let i = q(j);
            assert(gs2[i].has_member(a));
            assert(appears_upto(gs2, gs2.len() as int, a));
        }
    }
    assert forall|a: Seq<char>, b: Seq<char>| co_occur(gs2, a, b) <==> co_occur(gs1, a, b) by {
        if co_occur(gs2, a, b) {
            let i = choose|i: int|
                0 <= i < gs2.len() && (#[trigger] gs2[i]).has_member(a) && gs2[i].has_member(b);
            assert(gs1[p(i)].has_member(a) && gs1[p(i)].has_member(b));
            assert(co_occur_upto(gs1, gs1.len() as int, a, b));
        }
        if co_occur(gs1, a, b) {
            let j = choose|j: int|
                0 <= j < gs1.len() && (#[trigger] gs1[j]).has_member(a) && gs1[j].has_member(b);
            let i = q(j);
            assert(gs2[i].has_member(a) && gs2[i].has_member(b));
            assert(co_occur_upto(gs2, gs2.len() as int, a, b));
        }
    }
}

/// Every group lists its members without repetition.
pub open spec fn distinct_members(gs: Seq<Group>) -> bool {
    forall|i: int, p: int, q: int|
        0 <= i < gs.len() && 0 <= p < q < gs[i].members@.len() ==> (
        #[trigger] gs[i].members@[p])@ != (#[trigger] gs[i].members@[q])@
}

/// No unordered pair of distinct ids occurs together in two groups.
pub open spec fn no_shared_pairs(gs: Seq<Group>) -> bool {
    forall|i: int, j: int, a: Seq<char>, b: Seq<char>|
        #![trigger gs[i].has_member(a), gs[j].has_member(b)]
        0 <= i < j < gs.len() && a != b ==> !(gs[i].has_member(a) && gs[i].has_member(b)
            && gs[j].has_member(a) && gs[j].has_member(b))
}

/// Builds the co-appearance graph of a membership table: one node per
/// distinct member id, and an edge between two ids exactly when they are
/// distinct and share at least one group. The edge count never exceeds the
/// sum over groups of the number of unordered member pairs, with equality
/// when the groups repeat no member and share no pair.
pub fn build_graph(groups: &Vec<Group>) -> (g: Graph)
    ensures
        g.wf(),
        forall|a: Seq<char>| g.has_id(a) <==> appears(groups@, a),
        forall|a: Seq<char>, b: Seq<char>| g.edge_ids(a, b) <==> co_occur(groups@, a, b),
        g.edge_list@.len() <= pair_budget(groups@),
        distinct_members(groups@) && no_shared_pairs(groups@) ==> g.edge_list@.len()
            == pair_budget(groups@),
{
    let mut g = Graph::new();
    let ng = groups.len();
    proof {
        assert(forall|a: Seq<char>| !appears_upto(groups@, 0, a));
        assert(forall|a: Seq<char>, b: Seq<char>| !co_occur_upto(groups@, 0, a, b));
    }
    for gi in 0..ng
        invariant
            ng == groups@.len(),
            g.wf(),
            forall|a: Seq<char>| g.has_id(a) <==> appears_upto(groups@, gi as int, a),
            forall|a: Seq<char>, b: Seq<char>|
                g.edge_ids(a, b) <==> co_occur_upto(groups@, gi as int, a, b),
            g.edge_list@.len() <= pair_budget_upto(groups@, gi as int),
            distinct_members(groups@) && no_shared_pairs(groups@) ==> g.edge_list@.len()
                == pair_budget_upto(groups@, gi as int),
    {
        let m = groups[gi].members.len();
        // first pass: every member becomes a node (idempotently)
        for j in 0..m
            invariant
                ng == groups@.len(),
                gi < ng,
                m == groups@[gi as int].members@.len(),
                g.wf(),
                forall|a: Seq<char>|
                    g.has_id(a) <==> (appears_upto(groups@, gi as int, a) || exists|p: int|
                        0 <= p < j && (#[trigger] groups@[gi as int].members@[p])@ == a),
                forall|a: Seq<char>, b: Seq<char>|
                    g.edge_ids(a, b) <==> co_occur_upto(groups@, gi as int, a, b),
                g.edge_list@.len() <= pair_budget_upto(groups@, gi as int),
                distinct_members(groups@) && no_shared_pairs(groups@) ==> g.edge_list@.len()
                    == pair_budget_upto(groups@, gi as int),
        {
            let id = groups[gi].members[j].clone();
            g.add_node(id);
        }
        proof {
            assert forall|a: Seq<char>|
                g.has_id(a) <==> (appears_upto(groups@, gi as int, a) || groups@[gi as int]
                    .has_member(a)) by {
                if groups@[gi as int].has_member(a) {
                    let p = choose|p: int|
                        0 <= p < groups@[gi as int].members@.len()
                            && groups@[gi as int].members@[p]@ == a;
                    assert(g.has_id(a));
                }
            }
        }
        // second pass: every unordered pair of distinct members becomes an edge
        for i in 0..m
            invariant
                ng == groups@.len(),
                gi < ng,
                m == groups@[gi as int].members@.len(),
                g.wf(),
                forall|a: Seq<char>|
                    g.has_id(a) <==> (appears_upto(groups@, gi as int, a) || groups@[gi as int]
                        .has_member(a)),
                forall|a: Seq<char>, b: Seq<char>|
                    g.edge_ids(a, b) <==> (co_occur_upto(groups@, gi as int, a, b) || pairs_done(
                        groups@[gi as int],
                        i as int,
                        i as int + 1,
                        a,
                        b,
                    )),
                g.edge_list@.len() + pairs_from(i as nat, m as nat) <= pair_budget_upto(
                    groups@,
                    gi as int,
                ) + pairs_from(0, m as nat),
                distinct_members(groups@) && no_shared_pairs(groups@) ==> g.edge_list@.len()
                    + pairs_from(i as nat, m as nat) == pair_budget_upto(groups@, gi as int)
                    + pairs_from(0, m as nat),
        {
            let mut j = i + 1;
            while j < m
                invariant
                    ng == groups@.len(),
                    gi < ng,
                    i < m,
                    i < j <= m,
                    m == groups@[gi as int].members@.len(),
                    g.wf(),
                    forall|a: Seq<char>|
                        g.has_id(a) <==> (appears_upto(groups@, gi as int, a) || groups@[gi as int]
                            .has_member(a)),
                    forall|a: Seq<char>, b: Seq<char>|
                        g.edge_ids(a, b) <==> (co_occur_upto(groups@, gi as int, a, b)
                            || pairs_done(groups@[gi as int], i as int, j as int, a, b)),
                    g.edge_list@.len() + pairs_from(i as nat, m as nat) <= pair_budget_upto(
                        groups@,
                        gi as int,
                    ) + pairs_from(0, m as nat) + (j - i - 1),
                    distinct_members(groups@) && no_shared_pairs(groups@) ==> g.edge_list@.len()
                        + pairs_from(i as nat, m as nat) == pair_budget_upto(groups@, gi as int)
                        + pairs_from(0, m as nat) + (j - i - 1),
                decreases m - j,
            {
                let ghost gr = groups@[gi as int];
                let ai = match g.find_index(groups[gi].members[i].as_str()) {
                    Some(x) => x,
                    None => {
                        proof {
                            assert(gr.has_member(gr.members@[i as int]@));
                            assert(g.has_id(gr.members@[i as int]@));
                            assert(false);
                        }
                        0
                    },
                };
                let bi = match g.find_index(groups[gi].members[j].as_str()) {
                    Some(x) => x,
                    None => {
                        proof {
                            assert(gr.has_member(gr.members@[j as int]@));
                            assert(g.has_id(gr.members@[j as int]@));
                            assert(false);
                        }
                        0
                    },
                };
                let ghost g_before = g;
                if ai != bi {
                    g.add_edge(ai, bi);
                }
                proof {
                    assert forall|a: Seq<char>| g.has_id(a) <==> g_before.has_id(a) by {
                        assert(g.ids@ == g_before.ids@);
                        if g.has_id(a) {
                            let w = choose|w: int|
                                0 <= w < g.n() && g.ids@[w]@ == a;
                            assert(g_before.ids@[w]@ == a);
                        }
                        if g_before.has_id(a) {
                            let w = choose|w: int|
                                0 <= w < g_before.n() && g_before.ids@[w]@ == a;
                            assert(g.ids@[w]@ == a);
                        }
                    }
                    let ma = gr.members@[i as int]@;
                    let mb = gr.members@[j as int]@;
                    if ai == bi {
                        assert(ma == mb);
                        if distinct_members(groups@) && no_shared_pairs(groups@) {
                            // clean input lists no member twice, so two
                            // positions never collapse to one node
                            assert(groups@[gi as int].members@[i as int]@ != groups@[gi as int]
                                .members@[j as int]@);
                            assert(false);
                        }
                    } else {
                        assert(ma != mb) by {
                            assert(g_before.ids@[ai as int]@ == ma);
                            assert(g_before.ids@[bi as int]@ == mb);
                        }
                    }
                    assert forall|a: Seq<char>, b: Seq<char>|
                        g.edge_ids(a, b) <==> (co_occur_upto(groups@, gi as int, a, b)
                            || pairs_done(gr, i as int, j as int + 1, a, b)) by {
                        // the pair relation one step further differs only by (i, j)
                        assert(pairs_done(gr, i as int, j as int + 1, a, b) <==> (pairs_done(
                            gr,
                            i as int,
                            j as int,
                            a,
                            b,
                        ) || (a != b && ((ma == a && mb == b) || (ma == b && mb == a))))) by {
                            if pairs_done(gr, i as int, j as int + 1, a, b) {
                                let (p, q) = choose|p: int, q: int|
                                    0 <= p < q < gr.members@.len() && (p < i as int || (p
                                        == i as int && q < j as int + 1)) && (((
                                    #[trigger] gr.members@[p])@ == a && (
                                    #[trigger] gr.members@[q])@ == b) || (gr.members@[p]@ == b
                                        && gr.members@[q]@ == a));
                                if p == i as int && q == j as int {
                                    assert((ma == a && mb == b) || (ma == b && mb == a));
                                } else {
                                    assert(pairs_done(gr, i as int, j as int, a, b));
                                }
                            }
                            if pairs_done(gr, i as int, j as int, a, b) {
                                let (p, q) = choose|p: int, q: int|
                                    0 <= p < q < gr.members@.len() && (p < i as int || (p
                                        == i as int && q < j as int)) && (((
                                    #[trigger] gr.members@[p])@ == a && (
                                    #[trigger] gr.members@[q])@ == b) || (gr.members@[p]@ == b
                                        && gr.members@[q]@ == a));
                                assert(pairs_done(gr, i as int, j as int + 1, a, b));
                            }
                            if a != b && ((ma == a && mb == b) || (ma == b && mb == a)) {
                                assert((i as int) < (j as int) && (j as int) < gr.members@.len());
                                assert(pairs_done(gr, i as int, j as int + 1, a, b));
                            }
                        }
                    }
                    if distinct_members(groups@) && no_shared_pairs(groups@) {
                        // clean input: the pair is fresh, so the edge count
                        // grew by exactly one
                        assert(ma != mb) by {
                            assert(groups@[gi as int].members@[i as int]@ != groups@[gi as int]
                                .members@[j as int]@);
                        }
                        assert(!g_before.edge(ai as int, bi as int)) by {
                            if g_before.edge(ai as int, bi as int) {
                                assert(g_before.edge_ids(ma, mb)) by {
                                    assert(g_before.ids@[ai as int]@ == ma && g_before.ids@[bi as int]@
                                        == mb);
                                }
                                if co_occur_upto(groups@, gi as int, ma, mb) {
                                    let w = choose|w: int|
                                        0 <= w < gi as int && w < groups@.len() && (
                                        #[trigger] groups@[w]).has_member(ma)
                                            && groups@[w].has_member(mb);
                                    assert(groups@[gi as int].has_member(ma)) by {
                                        assert(groups@[gi as int].members@[i as int]@ == ma);
                                    }
                                    assert(groups@[gi as int].has_member(mb)) by {
                                        assert(groups@[gi as int].members@[j as int]@ == mb);
                                    }
                                    assert(groups@[w].has_member(ma)
                                        && groups@[gi as int].has_member(mb));
                                    assert(false);
                                } else {
                                    assert(pairs_done(gr, i as int, j as int, ma, mb));
                                    let (p, q) = choose|p: int, q: int|
                                        0 <= p < q < gr.members@.len() && (p < i as int || (p
                                            == i as int && q < j as int)) && (((
                                        #[trigger] gr.members@[p])@ == ma && (
                                        #[trigger] gr.members@[q])@ == mb) || (gr.members@[p]@
                                            == mb && gr.members@[q]@ == ma));
                                    if gr.members@[p]@ == ma && gr.members@[q]@ == mb {
                                        if p < i as int {
                                            assert(groups@[gi as int].members@[p]@
                                                != groups@[gi as int].members@[i as int]@);
                                        } else {
                                            assert(q < j as int);
                                            assert(groups@[gi as int].members@[q]@
                                                != groups@[gi as int].members@[j as int]@);
                                        }
                                        assert(false);
                                    } else {
                                        // swapped ids: the earlier position
                                        // would repeat this row's later member
                                        assert(p < j as int);
                                        assert(groups@[gi as int].members@[p]@ != groups@[gi as int]
                                            .members@[j as int]@);
                                        assert(false);
                                    }
                                }
                            }
                        }
                        assert(g.edge_list@.len() == g_before.edge_list@.len() + 1);
                    }
                }
                j = j + 1;
            }
            proof {
                // row `i` finished: the frontier moves to row `i + 1`
                assert(pairs_from(i as nat, m as nat) == (m - i - 1) + pairs_from(
                    i as nat + 1,
                    m as nat,
                ));
                assert forall|a: Seq<char>, b: Seq<char>|
                    pairs_done(groups@[gi as int], i as int, m as int, a, b) <==> pairs_done(
                        groups@[gi as int],
                        i as int + 1,
                        i as int + 2,
                        a,
                        b,
                    ) by {
                    let gr = groups@[gi as int];
                    if pairs_done(gr, i as int, m as int, a, b) {
                        let (p, q) = choose|p: int, q: int|
                            0 <= p < q < gr.members@.len() && (p < i as int || (p == i as int && q
                                < m as int)) && (((#[trigger] gr.members@[p])@ == a && (
                            #[trigger] gr.members@[q])@ == b) || (gr.members@[p]@ == b
                                && gr.members@[q]@ == a));
                        assert(p < i as int + 1 || (p == i as int + 1 && q < i as int + 2));
                        assert(pairs_done(gr, i as int + 1, i as int + 2, a, b));
                    }
                    if pairs_done(gr, i as int + 1, i as int + 2, a, b) {
                        let (p, q) = choose|p: int, q: int|
                            0 <= p < q < gr.members@.len() && (p < i as int + 1 || (p == i as int
                                + 1 && q < i as int + 2)) && (((#[trigger] gr.members@[p])@ == a
                                && (#[trigger] gr.members@[q])@ == b) || (gr.members@[p]@ == b
                                && gr.members@[q]@ == a));
                        assert(pairs_done(gr, i as int, m as int, a, b));
                    }
                }
            }
        }
        proof {
            // a full pass over the group realises exactly its co-occurrences
            let gr = groups@[gi as int];
            assert(pairs_from(m as nat, m as nat) == 0);
            assert(pair_budget_upto(groups@, gi as int + 1) == pair_budget_upto(groups@, gi as int)
                + pairs_from(0, gr.members@.len()));
            assert forall|a: Seq<char>, b: Seq<char>|
                (co_occur_upto(groups@, gi as int, a, b) || pairs_done(
                    gr,
                    m as int,
                    m as int + 1,
                    a,
                    b,
                )) <==> co_occur_upto(groups@, gi as int + 1, a, b) by {
                if pairs_done(gr, m as int, m as int + 1, a, b) {
                    let (p, q) = choose|p: int, q: int|
                        0 <= p < q < gr.members@.len() && (p < m as int || (p == m as int && q
                            < m as int + 1)) && (((#[trigger] gr.members@[p])@ == a && (
                        #[trigger] gr.members@[q])@ == b) || (gr.members@[p]@ == b
                            && gr.members@[q]@ == a));
                    assert(gr.has_member(a) && gr.has_member(b));
                    assert(co_occur_upto(groups@, gi as int + 1, a, b));
                }
                if co_occur_upto(groups@, gi as int, a, b) {
                    let w = choose|w: int|
                        0 <= w < gi as int && w < groups@.len() && (#[trigger] groups@[w])
                            .has_member(a) && groups@[w].has_member(b);
                    assert(co_occur_upto(groups@, gi as int + 1, a, b));
                }
                if co_occur_upto(groups@, gi as int + 1, a, b) && !co_occur_upto(
                    groups@,
                    gi as int,
                    a,
                    b,
                ) {
                    let w = choose|w: int|
                        0 <= w < gi as int + 1 && w < groups@.len() && (#[trigger] groups@[w])
                            .has_member(a) && groups@[w].has_member(b);
                    assert(w == gi as int);
                    let p = choose|p: int| 0 <= p < gr.members@.len() && gr.members@[p]@ == a;
                    let q = choose|q: int| 0 <= q < gr.members@.len() && gr.members@[q]@ == b;
                    assert(p != q);
                    if p < q {
                        assert(pairs_done(gr, m as int, m as int + 1, a, b));
                    } else {
                        assert(pairs_done(gr, m as int, m as int + 1, a, b));
                    }
                }
            }
            assert forall|a: Seq<char>|
                (appears_upto(groups@, gi as int, a) || gr.has_member(a)) <==> appears_upto(
                    groups@,
                    gi as int + 1,
                    a,
                ) by {
                if appears_upto(groups@, gi as int, a) {
                    let w = choose|w: int|
                        0 <= w < gi as int && w < groups@.len() && (#[trigger] groups@[w])
                            .has_member(a);
                    assert(appears_upto(groups@, gi as int + 1, a));
                }
                if appears_upto(groups@, gi as int + 1, a) && !appears_upto(
                    groups@,
                    gi as int,
                    a,
                ) {
                    let w = choose|w: int|
                        0 <= w < gi as int + 1 && w < groups@.len() && (#[trigger] groups@[w])
                            .has_member(a);
                    assert(w == gi as int);
                }
            }
        }
    }
    g
}

} // verus!
