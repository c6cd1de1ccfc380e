//! Folding parsed dataset rows into the two lookup tables: group id to
//! member list, and actor id to display name. Reading and deserializing the
//! file is the caller's concern; this logic only groups fully-read rows.

use vstd::prelude::*;

use crate::builder::Group;

verus! {

/// One row of the dataset: an actor, the actor's display name, and one title
/// the actor appears in.
pub struct Record {
    pub actor_id: String,
    pub actor_name: String,
    pub movie_id: String,
}

/// The cast of the title `mid`: the actor ids of the rows carrying that
/// title, in row order, duplicates kept.
pub open spec fn cast_of(rs: Seq<Record>, mid: Seq<char>) -> Seq<String>
    decreases rs.len(),
{
    if rs.len() == 0 {
        Seq::empty()
    } else {
        let prefix = cast_of(rs.drop_last(), mid);
        if rs.last().movie_id@ == mid {
            prefix.push(rs.last().actor_id)
        } else {
            prefix
        }
    }
}

/// The display name of actor `aid`: the name given by the first row that
/// carries the id (meaningful when some row does).
pub open spec fn first_name(rs: Seq<Record>, aid: Seq<char>) -> String
    decreases rs.len(),
{
    if rs.len() == 0 {
        arbitrary()
    } else if rs.first().actor_id@ == aid {
        rs.first().actor_name
    } else {
        first_name(rs.drop_first(), aid)
    }
}

/// Some row carries the title `mid`.
pub open spec fn has_title(rs: Seq<Record>, mid: Seq<char>) -> bool {
    exists|k: int| 0 <= k < rs.len() && (#[trigger] rs[k]).movie_id@ == mid
}

/// Some row carries the actor id `aid`.
pub open spec fn has_actor(rs: Seq<Record>, aid: Seq<char>) -> bool {
    exists|k: int| 0 <= k < rs.len() && (#[trigger] rs[k]).actor_id@ == aid
}

/// Some group carries the title id `mid`.
pub open spec fn title_listed(gs: Seq<Group>, mid: Seq<char>) -> bool {
    exists|i: int| 0 <= i < gs.len() && (#[trigger] gs[i]).id@ == mid
}

/// Some name entry carries the actor id `aid`.
pub open spec fn actor_listed(es: Seq<(String, String)>, aid: Seq<char>) -> bool {
    exists|i: int| 0 <= i < es.len() && (#[trigger] es[i]).0@ == aid
}

/// One more row extends a cast exactly by its actor id, or not at all.
proof fn lemma_cast_snoc(rs: Seq<Record>, r: Record, mid: Seq<char>)
    ensures
        r.movie_id@ == mid ==> cast_of(rs.push(r), mid) == cast_of(rs, mid).push(r.actor_id),
        r.movie_id@ != mid ==> cast_of(rs.push(r), mid) == cast_of(rs, mid),
{
    assert(rs.push(r).drop_last() =~= rs);
    assert(rs.push(r).last() == r);
}

/// A title no row carries has the empty cast.
proof fn lemma_cast_empty(rs: Seq<Record>, mid: Seq<char>)
    requires
        !has_title(rs, mid),
    ensures
        cast_of(rs, mid) == Seq::<String>::empty(),
    decreases rs.len(),
{
    if rs.len() > 0 {
        assert(!has_title(rs.drop_last(), mid)) by {
            if has_title(rs.drop_last(), mid) {
                let k = choose|k: int|
                    0 <= k < rs.drop_last().len() && (#[trigger] rs.drop_last()[k]).movie_id@
                        == mid;
                assert(rs[k].movie_id@ == mid);
            }
        }
        lemma_cast_empty(rs.drop_last(), mid);
        assert(rs.last().movie_id@ != mid) by {
            if rs.last().movie_id@ == mid {
                assert(rs[rs.len() - 1].movie_id@ == mid);
            }
        }
    }
}

/// One more row never changes the first name of an already-seen actor, and
/// supplies the name of an unseen one it carries.
proof fn lemma_first_name_snoc(rs: Seq<Record>, r: Record, aid: Seq<char>)
    ensures
        has_actor(rs, aid) ==> first_name(rs.push(r), aid) == first_name(rs, aid),
        !has_actor(rs, aid) && r.actor_id@ == aid ==> first_name(rs.push(r), aid) == r.actor_name,
    decreases rs.len(),
{
    if rs.len() == 0 {
        assert(rs.push(r).first() == r);
        assert(rs.push(r).len() == 1);
    } else {
        assert(rs.push(r).first() == rs.first());
        assert(rs.push(r).drop_first() =~= rs.drop_first().push(r));
        if rs.first().actor_id@ == aid {
            assert(has_actor(rs, aid)) by {
                assert(rs[0].actor_id@ == aid);
            }
        } else {
            lemma_first_name_snoc(rs.drop_first(), r, aid);
            if has_actor(rs, aid) {
                assert(has_actor(rs.drop_first(), aid)) by {
                    let k = choose|k: int|
                        0 <= k < rs.len() && (#[trigger] rs[k]).actor_id@ == aid;
                    assert(k > 0);
                    assert(rs.drop_first()[k - 1].actor_id@ == aid);
                }
            } else {
                assert(!has_actor(rs.drop_first(), aid)) by {
                    if has_actor(rs.drop_first(), aid) {
                        let k = choose|k: int|
                            0 <= k < rs.drop_first().len() && (
                            #[trigger] rs.drop_first()[k]).actor_id@ == aid;
                        assert(rs[k + 1].actor_id@ == aid);
                    }
                }
            }
        }
    }
}

/// Folds one row into the membership table, preserving its shape.
#[verifier::loop_isolation(false)]
#[verifier::rlimit(100)]
fn fold_group_row(groups: &mut Vec<Group>, records: &Vec<Record>, k: usize)
    requires
        k < records@.len(),
        forall|i1: int, i2: int|
            0 <= i1 < i2 < old(groups)@.len() ==> (#[trigger] old(groups)@[i1].id)@ != (
            #[trigger] old(groups)@[i2].id)@,
        forall|i: int|
            0 <= i < old(groups)@.len() ==> has_title(
                records@.take(k as int),
                (#[trigger] old(groups)@[i]).id@,
            ),
        forall|i: int|
            0 <= i < old(groups)@.len() ==> (#[trigger] old(groups)@[i]).members@ == cast_of(
                records@.take(k as int),
                old(groups)@[i].id@,
            ),
        forall|kk: int|
            0 <= kk < k ==> title_listed(old(groups)@, (#[trigger] records@[kk]).movie_id@),
    ensures
        forall|i1: int, i2: int|
            0 <= i1 < i2 < final(groups)@.len() ==> (#[trigger] final(groups)@[i1].id)@ != (
            #[trigger] final(groups)@[i2].id)@,
        forall|i: int|
            0 <= i < final(groups)@.len() ==> has_title(
                records@.take(k as int + 1),
                (#[trigger] final(groups)@[i]).id@,
            ),
        forall|i: int|
            0 <= i < final(groups)@.len() ==> (#[trigger] final(groups)@[i]).members@ == cast_of(
                records@.take(k as int + 1),
                final(groups)@[i].id@,
            ),
        forall|kk: int|
            0 <= kk < k as int + 1 ==> title_listed(
                final(groups)@,
                (#[trigger] records@[kk]).movie_id@,
            ),
{
    let ghost rec = records@[k as int];
    let ghost prefix = records@.take(k as int);
    let ghost prefix1 = records@.take(k as int + 1);
    proof {
        assert(prefix1 =~= prefix.push(rec));
    }
    let ng = groups.len();
    let mut gi: usize = 0;
    let mut found_g = false;
    while gi < ng && !found_g
        invariant
            ng == groups@.len(),
            gi <= ng,
            groups@ == old(groups)@,
            !found_g ==> forall|i: int|
                0 <= i < gi ==> (#[trigger] groups@[i].id)@ != records@[k as int].movie_id@,
            found_g ==> gi < ng && groups@[gi as int].id@ == records@[k as int].movie_id@,
        decreases ng - gi + (if found_g {
            0int
        } else {
            1int
        }),
    {
        if groups[gi].id == records[k].movie_id {
            found_g = true;
        } else {
            gi = gi + 1;
        }
    }
    let ghost groups0 = groups@;
    if found_g {
        groups[gi].members.push(records[k].actor_id.clone());
        proof {
            assert(groups@ =~= groups0.update(
                gi as int,
                Group { id: groups0[gi as int].id, members: groups@[gi as int].members },
            ));
            assert(groups@[gi as int].members@ =~= groups0[gi as int].members@.push(rec.actor_id));
            assert(groups@[gi as int].id == groups0[gi as int].id);
        }
    } else {
        let mut members: Vec<String> = Vec::new();
        members.push(records[k].actor_id.clone());
        groups.push(Group { id: records[k].movie_id.clone(), members });
        proof {
            assert(groups@ =~= groups0.push(groups@[groups@.len() - 1]));
            assert(groups@[groups@.len() - 1].id@ == rec.movie_id@);
            assert(groups@[groups@.len() - 1].members@ =~= Seq::<String>::empty().push(
                rec.actor_id,
            ));
        }
    }
    proof {
        // each group's cast, one row further
        assert forall|i: int|
            0 <= i < groups@.len() implies (#[trigger] groups@[i]).members@ == cast_of(
            prefix1,
            groups@[i].id@,
        ) && has_title(prefix1, groups@[i].id@) by {
            lemma_cast_snoc(prefix, rec, groups@[i].id@);
            if found_g && i == gi as int {
                assert(groups@[i].id@ == rec.movie_id@);
                assert(prefix1[k as int] == rec);
                assert(has_title(prefix1, groups@[i].id@));
            } else if !found_g && i == groups@.len() - 1 {
                assert(groups@[i].id@ == rec.movie_id@);
                assert(!has_title(prefix, rec.movie_id@)) by {
                    if has_title(prefix, rec.movie_id@) {
                        let kk = choose|kk: int|
                            0 <= kk < prefix.len() && (#[trigger] prefix[kk]).movie_id@
                                == rec.movie_id@;
                        assert(records@[kk].movie_id@ == rec.movie_id@);
                        assert(title_listed(groups0, records@[kk].movie_id@));
                        let w = choose|w: int|
                            0 <= w < groups0.len() && (#[trigger] groups0[w]).id@
                                == rec.movie_id@;
                        assert(groups0[w].id@ != rec.movie_id@);
                    }
                }
                lemma_cast_empty(prefix, rec.movie_id@);
                assert(prefix1[k as int] == rec);
                assert(has_title(prefix1, groups@[i].id@));
            } else {
                // untouched group: its title is not this row's title
                assert(groups@[i] == groups0[i]);
                assert(groups@[i].id@ != rec.movie_id@) by {
                    if found_g {
                        assert(groups@[gi as int].id@ == rec.movie_id@);
                    } else {
                        assert(groups0[i].id@ != rec.movie_id@);
                    }
                }
                assert(has_title(prefix, groups@[i].id@));
                let kk = choose|kk: int|
                    0 <= kk < prefix.len() && (#[trigger] prefix[kk]).movie_id@
                        == groups@[i].id@;
                assert(prefix1[kk] == prefix[kk]);
                assert(has_title(prefix1, groups@[i].id@));
            }
        }
        assert forall|kk: int|
            0 <= kk < k as int + 1 implies title_listed(
            groups@,
            (#[trigger] records@[kk]).movie_id@,
        ) by {
            if kk < k as int {
                let w = choose|w: int|
                    0 <= w < groups0.len() && (#[trigger] groups0[w]).id@
                        == records@[kk].movie_id@;
                assert(groups@[w].id@ == records@[kk].movie_id@);
            } else {
                if found_g {
                    assert(groups@[gi as int].id@ == rec.movie_id@);
                } else {
                    assert(groups@[groups@.len() - 1].id@ == rec.movie_id@);
                }
            }
        }
    }
}

/// Folds one row into the name table; the first record for an actor wins.
#[verifier::loop_isolation(false)]
#[verifier::rlimit(100)]
fn fold_name_row(names: &mut Vec<(String, String)>, records: &Vec<Record>, k: usize)
    requires
        k < records@.len(),
        forall|i1: int, i2: int|
            0 <= i1 < i2 < old(names)@.len() ==> (#[trigger] old(names)@[i1]).0@ != (
            #[trigger] old(names)@[i2]).0@,
        forall|i: int|
            0 <= i < old(names)@.len() ==> has_actor(
                records@.take(k as int),
                (#[trigger] old(names)@[i]).0@,
            ) && old(names)@[i].1 == first_name(records@.take(k as int), old(names)@[i].0@),
        forall|kk: int|
            0 <= kk < k ==> actor_listed(old(names)@, (#[trigger] records@[kk]).actor_id@),
    ensures
        forall|i1: int, i2: int|
            0 <= i1 < i2 < final(names)@.len() ==> (#[trigger] final(names)@[i1]).0@ != (
            #[trigger] final(names)@[i2]).0@,
        forall|i: int|
            0 <= i < final(names)@.len() ==> has_actor(
                records@.take(k as int + 1),
                (#[trigger] final(names)@[i]).0@,
            ) && final(names)@[i].1 == first_name(
                records@.take(k as int + 1),
                final(names)@[i].0@,
            ),
        forall|kk: int|
            0 <= kk < k as int + 1 ==> actor_listed(
                final(names)@,
                (#[trigger] records@[kk]).actor_id@,
            ),
{
    let ghost rec = records@[k as int];
    let ghost prefix = records@.take(k as int);
    let ghost prefix1 = records@.take(k as int + 1);
    proof {
        assert(prefix1 =~= prefix.push(rec));
    }
    let nn = names.len();
    let mut ni: usize = 0;
    let mut found_n = false;
    while ni < nn && !found_n
        invariant
            nn == names@.len(),
            ni <= nn,
            names@ == old(names)@,
            !found_n ==> forall|i: int|
                0 <= i < ni ==> (#[trigger] names@[i]).0@ != records@[k as int].actor_id@,
            found_n ==> ni < nn && names@[ni as int].0@ == records@[k as int].actor_id@,
        decreases nn - ni + (if found_n {
            0int
        } else {
            1int
        }),
    {
        if names[ni].0 == records[k].actor_id {
            found_n = true;
        } else {
            ni = ni + 1;
        }
    }
    let ghost names0 = names@;
    if !found_n {
        names.push((records[k].actor_id.clone(), records[k].actor_name.clone()));
        proof {
            assert(names@ =~= names0.push((rec.actor_id, rec.actor_name)));
        }
    }
    proof {
        assert forall|i: int|
            0 <= i < names@.len() implies has_actor(prefix1, (#[trigger] names@[i]).0@)
            && names@[i].1 == first_name(prefix1, names@[i].0@) by {
            lemma_first_name_snoc(prefix, rec, names@[i].0@);
            if !found_n && i == names@.len() - 1 {
                assert(names@[i].0@ == rec.actor_id@ && names@[i].1 == rec.actor_name);
                assert(!has_actor(prefix, rec.actor_id@)) by {
                    if has_actor(prefix, rec.actor_id@) {
                        let kk = choose|kk: int|
                            0 <= kk < prefix.len() && (#[trigger] prefix[kk]).actor_id@
                                == rec.actor_id@;
                        assert(records@[kk].actor_id@ == rec.actor_id@);
                        assert(actor_listed(names0, records@[kk].actor_id@));
                        let w = choose|w: int|
                            0 <= w < names0.len() && (#[trigger] names0[w]).0@ == rec.actor_id@;
                        assert(names0[w].0@ != rec.actor_id@);
                    }
                }
                assert(prefix1[k as int] == rec);
                assert(has_actor(prefix1, names@[i].0@));
            } else {
                assert(names@[i] == names0[i]);
                assert(has_actor(prefix, names@[i].0@));
                let kk = choose|kk: int|
                    0 <= kk < prefix.len() && (#[trigger] prefix[kk]).actor_id@ == names@[i].0@;
                assert(prefix1[kk] == prefix[kk]);
                assert(has_actor(prefix1, names@[i].0@));
            }
        }
        assert forall|kk: int|
            0 <= kk < k as int + 1 implies actor_listed(
            names@,
            (#[trigger] records@[kk]).actor_id@,
        ) by {
            if kk < k as int {
                let w = choose|w: int|
                    0 <= w < names0.len() && (#[trigger] names0[w]).0@
                        == records@[kk].actor_id@;
                assert(names@[w].0@ == records@[kk].actor_id@);
            } else {
                if found_n {
                    assert(names@[ni as int].0@ == rec.actor_id@);
                } else {
                    assert(names@[names@.len() - 1].0@ == rec.actor_id@);
                }
            }
        }
    }
}

/// Folds fully-read rows into a membership table and a name table. Exactly
/// one group per title that some row carries, whose member list is that
/// title's cast in row order with duplicates kept; exactly one name entry
/// per actor id that some row carries, whose name is the one from the first
/// such row. Keys are unique in both tables.
pub fn tabulate_records(records: &Vec<Record>) -> (r: (Vec<Group>, Vec<(String, String)>))
    ensures
        forall|i1: int, i2: int|
            0 <= i1 < i2 < r.0@.len() ==> (#[trigger] r.0@[i1].id)@ != (#[trigger] r.0@[i2].id)@,
        forall|i: int| 0 <= i < r.0@.len() ==> has_title(records@, (#[trigger] r.0@[i]).id@),
        forall|i: int|
            0 <= i < r.0@.len() ==> (#[trigger] r.0@[i]).members@ == cast_of(
                records@,
                r.0@[i].id@,
            ),
        forall|k: int|
            0 <= k < records@.len() ==> title_listed(r.0@, (#[trigger] records@[k]).movie_id@),
        forall|i1: int, i2: int|
            0 <= i1 < i2 < r.1@.len() ==> (#[trigger] r.1@[i1]).0@ != (#[trigger] r.1@[i2]).0@,
        forall|i: int|
            0 <= i < r.1@.len() ==> has_actor(records@, (#[trigger] r.1@[i]).0@) && r.1@[i].1
                == first_name(records@, r.1@[i].0@),
        forall|k: int|
            0 <= k < records@.len() ==> actor_listed(r.1@, (#[trigger] records@[k]).actor_id@),
{
    let nr = records.len();
    let mut groups: Vec<Group> = Vec::new();
    let mut names: Vec<(String, String)> = Vec::new();
    for k in 0..nr
        invariant
            nr == records@.len(),
            forall|i1: int, i2: int|
                0 <= i1 < i2 < groups@.len() ==> (#[trigger] groups@[i1].id)@ != (
                #[trigger] groups@[i2].id)@,
            forall|i: int|
                0 <= i < groups@.len() ==> has_title(
                    records@.take(k as int),
                    (#[trigger] groups@[i]).id@,
                ),
            forall|i: int|
                0 <= i < groups@.len() ==> (#[trigger] groups@[i]).members@ == cast_of(
                    records@.take(k as int),
                    groups@[i].id@,
                ),
            forall|kk: int|
                0 <= kk < k ==> title_listed(groups@, (#[trigger] records@[kk]).movie_id@),
            forall|i1: int, i2: int|
                0 <= i1 < i2 < names@.len() ==> (#[trigger] names@[i1]).0@ != (
                #[trigger] names@[i2]).0@,
            forall|i: int|
                0 <= i < names@.len() ==> has_actor(
                    records@.take(k as int),
                    (#[trigger] names@[i]).0@,
                ) && names@[i].1 == first_name(records@.take(k as int), names@[i].0@),
            forall|kk: int|
                0 <= kk < k ==> actor_listed(names@, (#[trigger] records@[kk]).actor_id@),
    {
        fold_group_row(&mut groups, records, k);
        fold_name_row(&mut names, records, k);
    }
    proof {
        assert(records@.take(nr as int) =~= records@);
    }
    (groups, names)
}

} // verus!
