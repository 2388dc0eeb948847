//! Detection of existing dependency cycles: the strongly connected
//! components of the working set that have more than one member. A lone
//! issue is never reported, so an acyclic working set yields nothing.
//! Purely diagnostic: total, never mutates.

use vstd::prelude::*;

use crate::issue::IssueWithId;
use crate::graph::{
    can_reach, has_node, is_dep_path, lemma_reaches_refl, lemma_reaches_trans, reaches, wf_nodes,
};
use crate::layers::flat_union;
use crate::strutil::{contains_u32, sort_distinct, strictly_sorted};

verus! {

/// `v` lies on a dependency cycle: some other issue is reachable from it
/// and reaches it back.
pub open spec fn in_cycle(nodes: Seq<IssueWithId>, v: u32) -> bool {
    exists|w: u32| w != v && reaches(nodes, v, w) && #[trigger] reaches(nodes, w, v)
}

/// The strongly connected component of `v`: everything mutually
/// reachable with it (always contains `v` itself).
pub open spec fn scc_of(nodes: Seq<IssueWithId>, v: u32) -> Set<u32> {
    Set::new(|w: u32| reaches(nodes, v, w) && reaches(nodes, w, v))
}

/// An id distinct from one it reaches must be an issue of the working
/// set: the walk's first step leaves it.
pub proof fn lemma_reaching_is_node(nodes: Seq<IssueWithId>, a: u32, b: u32)
    requires
        reaches(nodes, a, b),
        a != b,
    ensures
        has_node(nodes, a),
{
    let p = choose|p: Seq<u32>|
        #[trigger] is_dep_path(nodes, p) && p.first() == a && p.last() == b;
    assert(p.len() >= 2);
    assert(crate::graph::dep_edge(nodes, p[0], p[1]));
}

/// Mutually reachable ids have the same component.
pub proof fn lemma_scc_same(nodes: Seq<IssueWithId>, v: u32, w: u32)
    requires
        reaches(nodes, v, w),
        reaches(nodes, w, v),
    ensures
        scc_of(nodes, v) == scc_of(nodes, w),
{
    assert(scc_of(nodes, v) =~= scc_of(nodes, w)) by {
        assert forall|x: u32| scc_of(nodes, v).contains(x) implies scc_of(nodes, w).contains(
            x,
        ) by {
            lemma_reaches_trans(nodes, w, v, x);
            lemma_reaches_trans(nodes, x, v, w);
        }
        assert forall|x: u32| scc_of(nodes, w).contains(x) implies scc_of(nodes, v).contains(
            x,
        ) by {
            lemma_reaches_trans(nodes, v, w, x);
            lemma_reaches_trans(nodes, x, w, v);
        }
    }
}

/// No dependency cycle anywhere: no issue is mutually reachable with a
/// distinct one.
pub open spec fn acyclic(nodes: Seq<IssueWithId>) -> bool {
    forall|v: u32| !in_cycle(nodes, v)
}

/// On an acyclic working set the cycle detector reports nothing: the
/// covering clause of `find_cycles` leaves its groups no members, yet
/// every group must have at least two.
pub proof fn lemma_acyclic_reports_nothing(nodes: Seq<IssueWithId>, groups: Seq<Vec<u32>>)
    requires
        acyclic(nodes),
        forall|g: int| 0 <= g < groups.len() ==> cycle_group_ok(nodes, #[trigger] groups[g]@),
        forall|v: u32|
            #[trigger] crate::layers::flat_union(groups).contains(v) <==> has_node(nodes, v)
                && in_cycle(nodes, v),
    ensures
        groups.len() == 0,
{
    if groups.len() > 0 {
        let g = groups[groups.len() - 1]@;
        assert(cycle_group_ok(nodes, g));
        assert(g.contains(g[0])) by {
            assert(g[0] == g.index(0));
        }
        assert(crate::layers::flat_union(groups).contains(g[0])) by {
            assert(groups.drop_last() =~= groups.subrange(0, groups.len() - 1));
            assert(groups.last()@.to_set().contains(g[0]));
        }
        assert(in_cycle(nodes, g[0]));
        assert(!in_cycle(nodes, g[0]));
    }
}

/// One reported component is sound: strictly ascending, more than one
/// member, led by an issue of the working set, and exactly the strongly
/// connected component of its first member.
pub open spec fn cycle_group_ok(nodes: Seq<IssueWithId>, g: Seq<u32>) -> bool {
    strictly_sorted(g) && g.len() >= 2 && has_node(nodes, g[0]) && g.to_set() == scc_of(
        nodes,
        g[0],
    )
}

/// Whether any recorded group contains the id.
fn contains_u32_groups(groups: &Vec<Vec<u32>>, x: u32) -> (r: bool)
    ensures
        r == exists|g: int| 0 <= g < groups@.len() && #[trigger] groups@[g]@.contains(x),
{
    let mut g: usize = 0;
    while g < groups.len()
        invariant
            g <= groups@.len(),
            forall|t: int| 0 <= t < g ==> !(#[trigger] groups@[t]@.contains(x)),
        decreases groups@.len() - g,
    {
        if contains_u32(&groups[g], x) {
            return true;
        }
        g = g + 1;
    }
    false
}

/// All dependency cycles of the working set: every strongly connected
/// component with more than one member, each sorted ascending, pairwise
/// disjoint, together covering exactly the issues that lie on a cycle.
pub fn find_cycles(issues: &Vec<IssueWithId>) -> (r: Vec<Vec<u32>>)
    requires
        wf_nodes(issues@),
    ensures
        forall|g: int| 0 <= g < r@.len() ==> cycle_group_ok(issues@, #[trigger] r@[g]@),
        forall|v: u32|
            #[trigger] flat_union(r@).contains(v) <==> has_node(issues@, v) && in_cycle(
                issues@,
                v,
            ),
        forall|g1: int, g2: int, x: u32|
            0 <= g1 < g2 < r@.len() && #[trigger] r@[g1]@.contains(x) ==> !(#[trigger] r@[g2]@
                .contains(x)),
{
    let mut cycles: Vec<Vec<u32>> = Vec::new();
    let mut i: usize = 0;
    while i < issues.len()
        invariant
            wf_nodes(issues@),
            i <= issues@.len(),
            forall|g: int|
                0 <= g < cycles@.len() ==> cycle_group_ok(issues@, #[trigger] cycles@[g]@),
            forall|v: u32|
                #[trigger] flat_union(cycles@).contains(v) ==> has_node(issues@, v) && in_cycle(
                    issues@,
                    v,
                ),
            forall|t: int|
                0 <= t < i && in_cycle(issues@, #[trigger] issues@[t].id) ==> flat_union(
                    cycles@,
                ).contains(issues@[t].id),
            forall|g1: int, g2: int, x: u32|
                0 <= g1 < g2 < cycles@.len() && #[trigger] cycles@[g1]@.contains(x) ==> !(
                #[trigger] cycles@[g2]@.contains(x)),
            forall|g: int, x: u32|
                0 <= g < cycles@.len() && #[trigger] cycles@[g]@.contains(x) ==> flat_union(
                    cycles@,
                ).contains(x),
        decreases issues@.len() - i,
    {
        let v = issues[i].id;
        proof {
            assert(has_node(issues@, v)) by {
                assert(issues@[i as int].id == v);
            }
            lemma_reaches_refl(issues@, v);
            assert(scc_of(issues@, v).contains(v));
        }
        if !contains_u32_groups(&cycles, v) {
            let mut members: Vec<u32> = Vec::new();
            let mut k: usize = 0;
            while k < issues.len()
                invariant
                    wf_nodes(issues@),
                    i < issues@.len(),
                    v == issues@[i as int].id,
                    k <= issues@.len(),
                    forall|t: int|
                        0 <= t < k ==> (members@.contains(#[trigger] issues@[t].id) <==> scc_of(
                            issues@,
                            v,
                        ).contains(issues@[t].id)),
                    forall|u: int|
                        0 <= u < members@.len() ==> scc_of(issues@, v).contains(
                            #[trigger] members@[u],
                        ) && exists|t: int| 0 <= t < k && issues@[t].id == #[trigger] members@[u],
                    members@.no_duplicates(),
                decreases issues@.len() - k,
            {
                let w = issues[k].id;
                let ghost old_members = members@;
                if can_reach(issues, v, w) && can_reach(issues, w, v) {
                    proof {
                        assert(scc_of(issues@, v).contains(w));
                        assert(!old_members.contains(w)) by {
                            if old_members.contains(w) {
                                let u = choose|u: int|
                                    0 <= u < old_members.len() && old_members[u] == w;
                                let t = choose|t: int|
                                    0 <= t < k && issues@[t].id == old_members[u];
                                assert(issues@[t].id == issues@[k as int].id);
                            }
                        }
                    }
                    members.push(w);
                    proof {
                        assert(forall|u: int|
                            0 <= u < old_members.len() ==> #[trigger] members@[u]
                                == old_members[u]);
                        assert(members@[members@.len() - 1] == w);
                        assert(members@.contains(w));
                        assert(members@.no_duplicates()) by {
                            assert forall|u1: int, u2: int|
                                0 <= u1 < u2 < members@.len() implies members@[u1]
                                != members@[u2] by {
                                if u2 == members@.len() - 1 {
                                    assert(old_members[u1] == members@[u1]);
                                }
                            }
                        }
                        assert forall|x: u32| old_members.contains(x) implies members@.contains(
                            x,
                        ) by {
                            let u = choose|u: int|
                                0 <= u < old_members.len() && old_members[u] == x;
                            assert(members@[u] == x);
                        }
                    }
                } else {
                    proof {
                        assert(!scc_of(issues@, v).contains(issues@[k as int].id));
                        assert(!members@.contains(w)) by {
                            if members@.contains(w) {
                                let u = choose|u: int| 0 <= u < members@.len() && members@[u] == w;
                                assert(scc_of(issues@, v).contains(members@[u]));
                            }
                        }
                    }
                }
                k = k + 1;
            }
            // `members` now holds exactly the component of `v`.
            proof {
                assert forall|x: u32| scc_of(issues@, v).contains(x) implies members@.contains(
                    x,
                ) by {
                    if x == v {
                        assert(members@.contains(issues@[i as int].id));
                    } else {
                        lemma_reaching_is_node(issues@, x, v);
                        let t = choose|t: int|
                            0 <= t < issues@.len() && #[trigger] issues@[t].id == x;
                        assert(members@.contains(issues@[t].id));
                    }
                }
                assert(members@.contains(v)) by {
                    assert(members@.contains(issues@[i as int].id));
                }
            }
            let ghost pre_set = members@.to_set();
            proof {
                assert(pre_set =~= scc_of(issues@, v)) by {
                    assert forall|x: u32| pre_set.contains(x) implies scc_of(issues@, v).contains(
                        x,
                    ) by {
                        assert(members@.contains(x));
                        let u = choose|u: int| 0 <= u < members@.len() && members@[u] == x;
                        assert(scc_of(issues@, v).contains(members@[u]));
                    }
                }
            }
            if members.len() > 1 {
                sort_distinct(&mut members);
                let ghost grp = members@;
                let ghost pre_cycles = cycles@;
                proof {
                    assert(grp.to_set() == scc_of(issues@, v));
                    assert(grp.contains(v)) by {
                        assert(grp.to_set().contains(v));
                    }
                    // The group's leading member carries the same component.
                    let rep = grp[0];
                    assert(grp.to_set().contains(rep)) by {
                        assert(grp.contains(rep));
                    }
                    assert(scc_of(issues@, v).contains(rep));
                    lemma_scc_same(issues@, v, rep);
                    if rep != v {
                        lemma_reaching_is_node(issues@, rep, v);
                    }
                    assert(cycle_group_ok(issues@, grp));
                }
                cycles.push(members);
                proof {
                    let rep = grp[0];
                    assert(cycles@.drop_last() =~= pre_cycles);
                    assert(cycles@.last()@ == grp);
                    assert(cycles@[cycles@.len() - 1]@ == grp);
                    assert(flat_union(cycles@) == flat_union(pre_cycles).union(grp.to_set()));
                    assert(forall|g: int|
                        0 <= g < pre_cycles.len() ==> #[trigger] cycles@[g]@ == pre_cycles[g]@);
                    // Every member of the new group is on a cycle: it is
                    // mutually reachable with `v`, and the group has a
                    // second, distinct member.
                    assert forall|x: u32| grp.contains(x) implies has_node(issues@, x) && in_cycle(
                        issues@,
                        x,
                    ) by {
                        assert(grp.to_set().contains(x));
                        let y = if x == grp[0] { grp[1] } else { grp[0] };
                        assert(grp.contains(y)) by {
                            if x == grp[0] {
                                assert(grp[1] == grp.index(1));
                            }
                        }
                        assert(grp.to_set().contains(y));
                        assert(y != x) by {
                            if x == grp[0] {
                                assert(grp[0] < grp[1]);
                            }
                        }
                        lemma_reaches_trans(issues@, x, v, y);
                        lemma_reaches_trans(issues@, y, v, x);
                        assert(reaches(issues@, x, y) && reaches(issues@, y, x));
                        assert(in_cycle(issues@, x));
                        if x == v {
                            assert(has_node(issues@, x));
                        } else {
                            lemma_reaching_is_node(issues@, x, v);
                        }
                    }
                    // Disjoint from every earlier group: an overlap would
                    // put `v` into that group.
                    assert forall|g1: int, g2: int, x: u32|
                        0 <= g1 < g2 < cycles@.len() && #[trigger] cycles@[g1]@.contains(x)
                            implies !(#[trigger] cycles@[g2]@.contains(x)) by {
                        if g2 == cycles@.len() - 1 {
                            if cycles@[g1]@.contains(x) && grp.contains(x) {
                                let old_rep = cycles@[g1]@[0];
                                assert(cycle_group_ok(issues@, pre_cycles[g1]@));
                                assert(cycles@[g1]@.to_set().contains(x));
                                assert(scc_of(issues@, old_rep).contains(x));
                                assert(grp.to_set().contains(x));
                                assert(scc_of(issues@, v).contains(x));
                                lemma_scc_same(issues@, v, x);
                                lemma_scc_same(issues@, old_rep, x);
                                assert(scc_of(issues@, old_rep).contains(v));
                                assert(cycles@[g1]@.to_set().contains(v));
                                assert(pre_cycles[g1]@.contains(v));
                                assert(false);
                            }
                        }
                    }
                }
            } else {
                // A lone component: `v` is on no cycle.
                proof {
                    assert(!in_cycle(issues@, v)) by {
                        if in_cycle(issues@, v) {
                            let w = choose|w: u32|
                                w != v && reaches(issues@, v, w) && #[trigger] reaches(
                                    issues@,
                                    w,
                                    v,
                                );
                            assert(scc_of(issues@, v).contains(w));
                            assert(members@.contains(w));
                            assert(members@.contains(v));
                            let uw = choose|u: int| 0 <= u < members@.len() && members@[u] == w;
                            let uv = choose|u: int| 0 <= u < members@.len() && members@[u] == v;
                            assert(uw != uv);
                            assert(members@.len() >= 2);
                        }
                    }
                }
            }
        }
        proof {
            // Whether placed now, placed earlier, or on no cycle, the
            // issue scanned this round is accounted for.
            assert forall|t: int|
                0 <= t < i + 1 && in_cycle(issues@, #[trigger] issues@[t].id) implies flat_union(
                cycles@,
            ).contains(issues@[t].id) by {
                if t == i {
                    assert(flat_union(cycles@).contains(v));
                }
            }
        }
        i = i + 1;
    }
    proof {
        assert forall|v: u32|
            has_node(issues@, v) && in_cycle(issues@, v) implies #[trigger] flat_union(
            cycles@,
        ).contains(v) by {
            let t = choose|t: int| 0 <= t < issues@.len() && #[trigger] issues@[t].id == v;
            assert(in_cycle(issues@, issues@[t].id));
        }
    }
    cycles
}

} // verus!
