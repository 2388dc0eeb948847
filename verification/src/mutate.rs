//! Edge mutation: adding and removing dependency edges across the two
//! affected records, with the cycle guard run over the pre-mutation
//! graph. Every candidate edge is validated before any record changes,
//! so a rejected request leaves the repository exactly as it was; the
//! reverse `blocks` lists are kept in step with `depends_on`.

use vstd::prelude::*;

use crate::errors::TrackerError;
use crate::issue::IssueWithId;
use crate::graph::{
    blocks_of, can_reach_either, dep_edge, deps_of, find_index_either, has_node, index_of, lemma_index_of_unique,
    lemma_reaches_refl, reaches, wf_nodes,
};
use crate::storage::{record_changed, RecordChange, Storage};
use crate::strutil::{
    contains_u32, copy_ids, lemma_strictly_sorted_no_duplicates, sort_distinct, strictly_sorted,
};

verus! {

/// Equal metadata apart from the two edge lists.
pub open spec fn meta_eq_except_edges(
    a: crate::issue::IssueMetadata,
    b: crate::issue::IssueMetadata,
) -> bool {
    a.title == b.title && a.priority == b.priority && a.status == b.status && a.created
        == b.created && a.tags == b.tags && a.files == b.files && a.effort == b.effort && a.context
        == b.context && a.started == b.started && a.blocked_reason == b.blocked_reason && a.closed
        == b.closed
}

/// Every edge list of the working set is strictly ascending, as the data
/// model keeps them.
pub open spec fn sorted_store(ws: Seq<IssueWithId>) -> bool {
    forall|k: int|
        0 <= k < ws.len() ==> strictly_sorted(#[trigger] ws[k].issue.metadata.depends_on@)
            && strictly_sorted(ws[k].issue.metadata.blocks@)
}

/// The first id of the list that is not an issue of the working set.
pub open spec fn first_missing(ws: Seq<IssueWithId>, adds: Seq<u32>) -> Option<u32>
    decreases adds.len(),
{
    if adds.len() == 0 {
        None
    } else if !has_node(ws, adds[0]) {
        Some(adds[0])
    } else {
        first_missing(ws, adds.drop_first())
    }
}

/// The first id of the list from which the subject is already reachable,
/// so that the new edge would close a cycle.
pub open spec fn first_cycle(ws: Seq<IssueWithId>, subject: u32, adds: Seq<u32>) -> Option<u32>
    decreases adds.len(),
{
    if adds.len() == 0 {
        None
    } else if reaches(ws, adds[0], subject) {
        Some(adds[0])
    } else {
        first_cycle(ws, subject, adds.drop_first())
    }
}

/// Which error an edge request draws, if any: an empty request is
/// malformed; then the subject and every id to add must exist; then no
/// id to add may already reach the subject. Ids to remove need not
/// exist. Checked in that order, before anything is touched.
pub open spec fn depend_outcome(
    ws: Seq<IssueWithId>,
    subject: u32,
    adds: Seq<u32>,
    removes: Seq<u32>,
) -> Result<(), TrackerError> {
    if adds.len() == 0 && removes.len() == 0 {
        Err(TrackerError::MalformedRequest)
    } else if !has_node(ws, subject) {
        Err(TrackerError::NotFound(subject))
    } else {
        match first_missing(ws, adds) {
            Some(a) => Err(TrackerError::NotFound(a)),
            None => match first_cycle(ws, subject, adds) {
                Some(a) => Err(TrackerError::CycleDetected(subject, a)),
                None => Ok(()),
            },
        }
    }
}

/// How the working set after a successful edge request relates to the
/// working set before it: the subject's `depends_on` takes the added ids
/// and drops the removed ones; each added id gains the subject in its
/// `blocks`; each removed id loses it; every list stays strictly
/// ascending; nothing else moves.
pub open spec fn edges_applied(
    ws: Seq<IssueWithId>,
    ws2: Seq<IssueWithId>,
    subject: u32,
    adds: Set<u32>,
    removes: Set<u32>,
) -> bool {
    &&& ws2.len() == ws.len()
    &&& (forall|k: int|
        0 <= k < ws.len() ==> (#[trigger] ws2[k]).id == ws[k].id && ws2[k].issue.body
            == ws[k].issue.body && meta_eq_except_edges(
            ws2[k].issue.metadata,
            ws[k].issue.metadata,
        ))
    &&& (forall|k: int|
        0 <= k < ws.len() && (#[trigger] ws[k]).id == subject ==> strictly_sorted(
            ws2[k].issue.metadata.depends_on@,
        ) && ws2[k].issue.metadata.depends_on@.to_set() == ws[k].issue.metadata.depends_on@.to_set(
        ).union(adds).difference(removes))
    &&& (forall|k: int|
        0 <= k < ws.len() && (#[trigger] ws[k]).id != subject
            ==> ws2[k].issue.metadata.depends_on == ws[k].issue.metadata.depends_on)
    &&& (forall|k: int|
        0 <= k < ws.len() && adds.contains((#[trigger] ws[k]).id) && !removes.contains(ws[k].id)
            ==> strictly_sorted(ws2[k].issue.metadata.blocks@)
            && ws2[k].issue.metadata.blocks@.to_set() == ws[k].issue.metadata.blocks@.to_set(
        ).insert(subject))
    &&& (forall|k: int|
        0 <= k < ws.len() && removes.contains((#[trigger] ws[k]).id) ==> strictly_sorted(
            ws2[k].issue.metadata.blocks@,
        ) && ws2[k].issue.metadata.blocks@.to_set() == ws[k].issue.metadata.blocks@.to_set(
        ).remove(subject))
    &&& (forall|k: int|
        0 <= k < ws.len() && !adds.contains((#[trigger] ws[k]).id) && !removes.contains(ws[k].id)
            ==> ws2[k].issue.metadata.blocks == ws[k].issue.metadata.blocks)
}

/// With all prior ids present, `first_missing` points at index `j`, or
/// past the end.
proof fn lemma_first_missing_at(ws: Seq<IssueWithId>, adds: Seq<u32>, j: int)
    requires
        0 <= j <= adds.len(),
        forall|t: int| 0 <= t < j ==> has_node(ws, #[trigger] adds[t]),
        j < adds.len() ==> !has_node(ws, adds[j]),
    ensures
        first_missing(ws, adds) == (if j == adds.len() {
            Option::<u32>::None
        } else {
            Option::<u32>::Some(adds[j])
        }),
    decreases adds.len(),
{
    if adds.len() == 0 {
    } else if j == 0 {
    } else {
        assert(has_node(ws, adds[0]));
        let rest = adds.drop_first();
        assert(forall|t: int| 0 <= t < j - 1 ==> #[trigger] rest[t] == adds[t + 1]);
        lemma_first_missing_at(ws, rest, j - 1);
        if j < adds.len() {
            assert(rest[j - 1] == adds[j]);
        }
    }
}

/// With no prior id reaching the subject, `first_cycle` points at index
/// `j`, or past the end.
proof fn lemma_first_cycle_at(ws: Seq<IssueWithId>, subject: u32, adds: Seq<u32>, j: int)
    requires
        0 <= j <= adds.len(),
        forall|t: int| 0 <= t < j ==> !reaches(ws, #[trigger] adds[t], subject),
        j < adds.len() ==> reaches(ws, adds[j], subject),
    ensures
        first_cycle(ws, subject, adds) == (if j == adds.len() {
            Option::<u32>::None
        } else {
            Option::<u32>::Some(adds[j])
        }),
    decreases adds.len(),
{
    if adds.len() == 0 {
    } else if j == 0 {
    } else {
        assert(!reaches(ws, adds[0], subject));
        let rest = adds.drop_first();
        assert(forall|t: int| 0 <= t < j - 1 ==> #[trigger] rest[t] == adds[t + 1]);
        lemma_first_cycle_at(ws, subject, rest, j - 1);
        if j < adds.len() {
            assert(rest[j - 1] == adds[j]);
        }
    }
}

/// Adds and removes dependency edges of one issue, returning its new
/// `depends_on`. All validation happens before any record changes, so an
/// error leaves the repository untouched; a successful request updates
/// the subject's `depends_on` and the `blocks` list of every added or
/// removed issue, keeping the reverse lists in step.
pub fn apply_edges(
    storage: &mut Storage,
    bug_num: u32,
    add: &Vec<u32>,
    remove: &Vec<u32>,
) -> (r: Result<Vec<u32>, TrackerError>)
    requires
        old(storage).wf(),
        sorted_store(old(storage).working_set()),
    ensures
        match r {
            Ok(v) => {
                let ws = old(storage).working_set();
                let ws2 = final(storage).working_set();
                &&& depend_outcome(ws, bug_num, add@, remove@) == Ok::<(), TrackerError>(())
                &&& edges_applied(ws, ws2, bug_num, add@.to_set(), remove@.to_set())
                &&& v@ == ws2[index_of(ws2, bug_num)].issue.metadata.depends_on@
                &&& final(storage).wf()
                &&& sorted_store(ws2)
                &&& final(storage).base_dir == old(storage).base_dir
                &&& final(storage).aliases == old(storage).aliases
                &&& final(storage).open_issues@.len() == old(storage).open_issues@.len()
                &&& final(storage).closed_issues@.len() == old(storage).closed_issues@.len()
            },
            Err(e) => {
                &&& Err::<(), TrackerError>(e) == depend_outcome(
                    old(storage).working_set(),
                    bug_num,
                    add@,
                    remove@,
                )
                &&& *final(storage) == *old(storage)
            },
        },
{
    let ghost ws = storage.working_set();
    if add.len() == 0 && remove.len() == 0 {
        return Err(TrackerError::MalformedRequest);
    }
    // The subject must exist.
    match find_index_either(&storage.open_issues, &storage.closed_issues, bug_num) {
        Some(i) => {
            proof {
                assert(has_node(ws, bug_num)) by {
                    assert(ws[i as int].id == bug_num);
                }
            }
        },
        None => {
            return Err(TrackerError::NotFound(bug_num));
        },
    }
    // Every id to add must exist.
    let mut j: usize = 0;
    while j < add.len()
        invariant
            j <= add@.len(),
            forall|t: int| 0 <= t < j ==> has_node(ws, #[trigger] add@[t]),
            ws == storage.working_set(),
            storage.wf(),
            has_node(ws, bug_num),
            add@.len() > 0 || remove@.len() > 0,
        decreases add@.len() - j,
    {
        match find_index_either(&storage.open_issues, &storage.closed_issues, add[j]) {
            Some(_) => {},
            None => {
                proof {
                    lemma_first_missing_at(ws, add@, j as int);
                }
                return Err(TrackerError::NotFound(add[j]));
            },
        }
        j = j + 1;
    }
    proof {
        lemma_first_missing_at(ws, add@, add@.len() as int);
    }
    // No id to add may already reach the subject.
    let mut c: usize = 0;
    while c < add.len()
        invariant
            c <= add@.len(),
            forall|t: int| 0 <= t < c ==> !reaches(ws, #[trigger] add@[t], bug_num),
            ws == storage.working_set(),
            storage.wf(),
            has_node(ws, bug_num),
            first_missing(ws, add@) is None,
            add@.len() > 0 || remove@.len() > 0,
        decreases add@.len() - c,
    {
        if can_reach_either(&storage.open_issues, &storage.closed_issues, add[c], bug_num) {
            proof {
                lemma_first_cycle_at(ws, bug_num, add@, c as int);
            }
            return Err(TrackerError::CycleDetected(bug_num, add[c]));
        }
        c = c + 1;
    }
    proof {
        lemma_first_cycle_at(ws, bug_num, add@, add@.len() as int);
        assert(depend_outcome(ws, bug_num, add@, remove@) == Ok::<(), TrackerError>(()));
    }
    // Update the subject's forward edges.
    let mut new_deps: Vec<u32>;
    {
        let subject_issue = match storage.load_issue(bug_num) {
            Ok(iss) => iss,
            Err(_) => {
                proof {
                    assert(false);
                }
                return Err(TrackerError::NotFound(bug_num));
            },
        };
        new_deps = copy_ids(&subject_issue.metadata.depends_on);
    }
    let ghost old_deps = ws[index_of(ws, bug_num)].issue.metadata.depends_on@;
    proof {
        lemma_strictly_sorted_no_duplicates(old_deps);
        assert(new_deps@ == old_deps);
    }
    let mut a: usize = 0;
    while a < add.len()
        invariant
            a <= add@.len(),
            new_deps@.no_duplicates(),
            new_deps@.len() >= old_deps.len(),
            forall|w: int| 0 <= w < old_deps.len() ==> #[trigger] new_deps@[w] == old_deps[w],
            forall|u: int|
                0 <= u < new_deps@.len() ==> old_deps.contains(#[trigger] new_deps@[u])
                    || add@.subrange(0, a as int).contains(new_deps@[u]),
            forall|w: int| 0 <= w < a ==> new_deps@.contains(#[trigger] add@[w]),
        decreases add@.len() - a,
    {
        let ghost pre = new_deps@;
        let x = add[a];
        let present = contains_u32(&new_deps, x);
        if !present {
            new_deps.push(x);
            proof {
                assert(forall|u: int| 0 <= u < pre.len() ==> #[trigger] new_deps@[u] == pre[u]);
                assert(new_deps@[new_deps@.len() - 1] == x);
                assert(new_deps@.no_duplicates()) by {
                    assert forall|u1: int, u2: int|
                        0 <= u1 < u2 < new_deps@.len() implies new_deps@[u1] != new_deps@[u2] by {
                        if u2 == new_deps@.len() - 1 {
                            assert(pre[u1] == new_deps@[u1]);
                            if new_deps@[u1] == x {
                                assert(pre.contains(x));
                            }
                        }
                    }
                }
            }
        }
        proof {
            assert(new_deps@.contains(x)) by {
                if present {
                } else {
                    assert(new_deps@[new_deps@.len() - 1] == x);
                }
            }
            assert forall|u: int| 0 <= u < new_deps@.len() implies old_deps.contains(
                #[trigger] new_deps@[u],
            ) || add@.subrange(0, (a + 1) as int).contains(new_deps@[u]) by {
                if u < pre.len() {
                    assert(pre[u] == new_deps@[u]);
                    if add@.subrange(0, a as int).contains(pre[u]) {
                        let w = choose|w: int|
                            0 <= w < a && #[trigger] add@.subrange(0, a as int)[w] == pre[u];
                        assert(add@.subrange(0, (a + 1) as int)[w] == pre[u]);
                    }
                } else {
                    assert(new_deps@[u] == x);
                    assert(add@.subrange(0, (a + 1) as int)[a as int] == x);
                }
            }
            assert forall|w: int| 0 <= w < a + 1 implies new_deps@.contains(
                #[trigger] add@[w],
            ) by {
                if w < a {
                    let u = choose|u: int| 0 <= u < pre.len() && pre[u] == add@[w];
                    assert(new_deps@[u] == add@[w]);
                } else {
                    assert(new_deps@.contains(x));
                }
            }
        }
        a = a + 1;
    }
    proof {
        assert(add@.subrange(0, add@.len() as int) =~= add@);
    }
    // Drop the removed ids.
    let mut kept: Vec<u32> = Vec::new();
    let mut t: usize = 0;
    while t < new_deps.len()
        invariant
            t <= new_deps@.len(),
            new_deps@.no_duplicates(),
            kept@.no_duplicates(),
            forall|u: int|
                0 <= u < kept@.len() ==> new_deps@.subrange(0, t as int).contains(
                    #[trigger] kept@[u],
                ) && !remove@.contains(kept@[u]),
            forall|w: int|
                0 <= w < t ==> remove@.contains(#[trigger] new_deps@[w]) || kept@.contains(
                    new_deps@[w],
                ),
        decreases new_deps@.len() - t,
    {
        let x = new_deps[t];
        let ghost prek = kept@;
        if !contains_u32(remove, x) {
            proof {
                assert(!prek.contains(x)) by {
                    if prek.contains(x) {
                        let u = choose|u: int| 0 <= u < prek.len() && prek[u] == x;
                        let w = choose|w: int|
                            0 <= w < t && #[trigger] new_deps@.subrange(0, t as int)[w] == x;
                        assert(new_deps@[w] == x);
                        assert(new_deps@[t as int] == x);
                    }
                }
            }
            kept.push(x);
            proof {
                assert(forall|u: int| 0 <= u < prek.len() ==> #[trigger] kept@[u] == prek[u]);
                assert(kept@[kept@.len() - 1] == x);
                assert(kept@.no_duplicates()) by {
                    assert forall|u1: int, u2: int|
                        0 <= u1 < u2 < kept@.len() implies kept@[u1] != kept@[u2] by {
                        if u2 == kept@.len() - 1 {
                            assert(prek[u1] == kept@[u1]);
                        }
                    }
                }
                assert forall|u: int| 0 <= u < kept@.len() implies new_deps@.subrange(
                    0,
                    (t + 1) as int,
                ).contains(#[trigger] kept@[u]) && !remove@.contains(kept@[u]) by {
                    if u < kept@.len() - 1 {
                        let w = choose|w: int|
                            0 <= w < t && #[trigger] new_deps@.subrange(0, t as int)[w] == kept@[u];
                        assert(new_deps@.subrange(0, (t + 1) as int)[w] == kept@[u]);
                    } else {
                        assert(new_deps@.subrange(0, (t + 1) as int)[t as int] == x);
                    }
                }
                assert forall|w: int| 0 <= w < t + 1 implies remove@.contains(
                    #[trigger] new_deps@[w],
                ) || kept@.contains(new_deps@[w]) by {
                    if w < t {
                        if !remove@.contains(new_deps@[w]) {
                            let u = choose|u: int|
                                0 <= u < prek.len() && prek[u] == new_deps@[w];
                            assert(kept@[u] == new_deps@[w]);
                        }
                    } else {
                        assert(kept@[kept@.len() - 1] == x);
                    }
                }
            }
        } else {
            proof {
                assert forall|u: int| 0 <= u < kept@.len() implies new_deps@.subrange(
                    0,
                    (t + 1) as int,
                ).contains(#[trigger] kept@[u]) && !remove@.contains(kept@[u]) by {
                    let w = choose|w: int|
                        0 <= w < t && #[trigger] new_deps@.subrange(0, t as int)[w] == kept@[u];
                    assert(new_deps@.subrange(0, (t + 1) as int)[w] == kept@[u]);
                }
                assert forall|w: int| 0 <= w < t + 1 implies remove@.contains(
                    #[trigger] new_deps@[w],
                ) || kept@.contains(new_deps@[w]) by {
                    if w == t {
                        assert(remove@.contains(x));
                    }
                }
            }
        }
        t = t + 1;
    }
    proof {
        assert(new_deps@.subrange(0, new_deps@.len() as int) =~= new_deps@);
    }
    let ghost kept_pre = kept@;
    sort_distinct(&mut kept);
    let ghost final_deps = kept@;
    proof {
        assert(final_deps.to_set() == kept_pre.to_set());
        assert(kept_pre.to_set() =~= old_deps.to_set().union(add@.to_set()).difference(
            remove@.to_set(),
        )) by {
            assert forall|x: u32| kept_pre.to_set().contains(x) implies old_deps.to_set().union(
                add@.to_set(),
            ).difference(remove@.to_set()).contains(x) by {
                assert(kept_pre.contains(x));
                let u = choose|u: int| 0 <= u < kept_pre.len() && kept_pre[u] == x;
                assert(new_deps@.contains(kept_pre[u]));
                assert(!remove@.contains(kept_pre[u]));
                let w2 = choose|w2: int| 0 <= w2 < new_deps@.len() && new_deps@[w2] == x;
                assert(old_deps.contains(new_deps@[w2]) || add@.contains(new_deps@[w2]));
            }
            assert forall|x: u32| old_deps.to_set().union(add@.to_set()).difference(
                remove@.to_set(),
            ).contains(x) implies kept_pre.to_set().contains(x) by {
                assert(new_deps@.contains(x)) by {
                    if old_deps.contains(x) {
                        let w0 = choose|w0: int| 0 <= w0 < old_deps.len() && old_deps[w0] == x;
                        assert(new_deps@[w0] == x);
                    } else {
                        let w0 = choose|w0: int| 0 <= w0 < add@.len() && add@[w0] == x;
                        assert(new_deps@.contains(add@[w0]));
                    }
                }
                let w = choose|w: int| 0 <= w < new_deps@.len() && new_deps@[w] == x;
                assert(remove@.contains(new_deps@[w]) || kept_pre.contains(new_deps@[w]));
            }
        }
        assert(final_deps.to_set() =~= old_deps.to_set().union(add@.to_set()).difference(
            remove@.to_set(),
        ));
    }
    let result_deps = copy_ids(&kept);
    match storage.update_record(bug_num, RecordChange::DependsOn(kept)) {
        Ok(()) => {},
        Err(_) => {
            proof {
                assert(false);
            }
            return Err(TrackerError::MalformedRequest);
        },
    }
    let ghost ws_mid = storage.working_set();
    // Add the subject to the reverse lists of the added ids.
    let mut p: usize = 0;
    while p < add.len()
        invariant
            p <= add@.len(),
            storage.wf(),
            storage.base_dir == old(storage).base_dir,
            storage.aliases == old(storage).aliases,
            storage.open_issues@.len() == old(storage).open_issues@.len(),
            storage.closed_issues@.len() == old(storage).closed_issues@.len(),
            ws == old(storage).working_set(),
            sorted_store(ws),
            has_node(ws, bug_num),
            forall|t: int| 0 <= t < add@.len() ==> has_node(ws, #[trigger] add@[t]),
            storage.working_set().len() == ws.len(),
            forall|k: int|
                0 <= k < ws.len() ==> (#[trigger] storage.working_set()[k]).id == ws[k].id
                    && storage.working_set()[k].issue.body == ws[k].issue.body
                    && meta_eq_except_edges(
                    storage.working_set()[k].issue.metadata,
                    ws[k].issue.metadata,
                ),
            forall|k: int|
                0 <= k < ws.len() && (#[trigger] ws[k]).id == bug_num ==> strictly_sorted(
                    storage.working_set()[k].issue.metadata.depends_on@,
                ) && storage.working_set()[k].issue.metadata.depends_on@ == final_deps,
            forall|k: int|
                0 <= k < ws.len() && (#[trigger] ws[k]).id != bug_num
                    ==> storage.working_set()[k].issue.metadata.depends_on
                    == ws[k].issue.metadata.depends_on,
            forall|k: int|
                0 <= k < ws.len() && add@.subrange(0, p as int).contains((#[trigger] ws[k]).id)
                    ==> strictly_sorted(storage.working_set()[k].issue.metadata.blocks@)
                    && storage.working_set()[k].issue.metadata.blocks@.to_set()
                    == ws[k].issue.metadata.blocks@.to_set().insert(bug_num),
            forall|k: int|
                0 <= k < ws.len() && !add@.subrange(0, p as int).contains((#[trigger] ws[k]).id)
                    ==> storage.working_set()[k].issue.metadata.blocks
                    == ws[k].issue.metadata.blocks,
            strictly_sorted(final_deps),
        decreases add@.len() - p,
    {
        let ghost ws_pre = storage.working_set();
        let dep_id = add[p];
        let mut new_blocks: Vec<u32>;
        {
            let dep_issue = match storage.load_issue(dep_id) {
                Ok(iss) => iss,
                Err(_) => {
                    proof {
                        assert(has_node(storage.working_set(), dep_id)) by {
                            let k = choose|k: int|
                                0 <= k < ws.len() && #[trigger] ws[k].id == dep_id;
                            assert(storage.working_set()[k].id == dep_id);
                        }
                        assert(false);
                    }
                    return Err(TrackerError::NotFound(dep_id));
                },
            };
            new_blocks = copy_ids(&dep_issue.metadata.blocks);
        }
        let ghost kx = index_of(ws_pre, dep_id);
        proof {
            assert(has_node(ws_pre, dep_id)) by {
                let k = choose|k: int| 0 <= k < ws.len() && #[trigger] ws[k].id == dep_id;
                assert(ws_pre[k].id == dep_id);
            }
            assert(0 <= kx < ws_pre.len() && ws_pre[kx].id == dep_id);
            assert(ws[kx].id == dep_id);
            assert(new_blocks@ == ws_pre[kx].issue.metadata.blocks@);
            // The reverse list this round starts from is strictly sorted:
            // either untouched from the original working set, or already
            // resorted by an earlier round.
            assert(ws_pre == storage.working_set());
            assert(ws_pre.len() == ws.len());
            if add@.subrange(0, p as int).contains(ws[kx].id) {
                assert(strictly_sorted(storage.working_set()[kx].issue.metadata.blocks@));
                assert(strictly_sorted(new_blocks@));
            } else {
                assert(storage.working_set()[kx].issue.metadata.blocks
                    == ws[kx].issue.metadata.blocks);
                assert(strictly_sorted(ws[kx].issue.metadata.depends_on@));
                assert(strictly_sorted(ws[kx].issue.metadata.blocks@));
                assert(strictly_sorted(new_blocks@));
            }
            lemma_strictly_sorted_no_duplicates(new_blocks@);
        }
        let ghost pre_blocks = new_blocks@;
        if !contains_u32(&new_blocks, bug_num) {
            new_blocks.push(bug_num);
            proof {
                assert(forall|u: int|
                    0 <= u < pre_blocks.len() ==> #[trigger] new_blocks@[u] == pre_blocks[u]);
                assert(new_blocks@[new_blocks@.len() - 1] == bug_num);
                assert(new_blocks@.no_duplicates()) by {
                    assert forall|u1: int, u2: int|
                        0 <= u1 < u2 < new_blocks@.len() implies new_blocks@[u1]
                        != new_blocks@[u2] by {
                        if u2 == new_blocks@.len() - 1 {
                            assert(pre_blocks[u1] == new_blocks@[u1]);
                        }
                    }
                }
                assert(new_blocks@.to_set() =~= pre_blocks.to_set().insert(bug_num)) by {
                    assert forall|x: u32| new_blocks@.contains(x) implies pre_blocks.contains(x)
                        || x == bug_num by {
                        let u = choose|u: int| 0 <= u < new_blocks@.len() && new_blocks@[u] == x;
                        if u < pre_blocks.len() {
                            assert(pre_blocks[u] == x);
                        }
                    }
                    assert forall|x: u32| pre_blocks.contains(x) implies new_blocks@.contains(
                        x,
                    ) by {
                        let u = choose|u: int| 0 <= u < pre_blocks.len() && pre_blocks[u] == x;
                        assert(new_blocks@[u] == x);
                    }
                }
            }
        } else {
            proof {
                assert(new_blocks@.to_set() =~= pre_blocks.to_set().insert(bug_num)) by {
                    assert(pre_blocks.to_set().contains(bug_num));
                }
            }
        }
        sort_distinct(&mut new_blocks);
        let ghost sorted_blocks = new_blocks@;
        match storage.update_record(dep_id, RecordChange::Blocks(new_blocks)) {
            Ok(()) => {},
            Err(_) => {
                proof {
                    assert(false);
                }
                return Err(TrackerError::NotFound(dep_id));
            },
        }
        proof {
            let ws_now = storage.working_set();
            assert(forall|k: int| 0 <= k < ws.len() && k != kx ==> ws_now[k] == ws_pre[k]);
            assert(record_changed(
                ws_pre[kx],
                ws_now[kx],
                RecordChange::Blocks(new_blocks),
            ));
            assert forall|k: int|
                0 <= k < ws.len() && add@.subrange(0, (p + 1) as int).contains(
                    (#[trigger] ws[k]).id,
                ) implies strictly_sorted(ws_now[k].issue.metadata.blocks@)
                && ws_now[k].issue.metadata.blocks@.to_set()
                == ws[k].issue.metadata.blocks@.to_set().insert(bug_num) by {
                if k == kx {
                    if add@.subrange(0, p as int).contains(ws[kx].id) {
                        // Reinserting an id already present changes nothing.
                        assert(pre_blocks.to_set() == ws[kx].issue.metadata.blocks@.to_set(
                        ).insert(bug_num));
                        assert(pre_blocks.to_set().contains(bug_num));
                        assert(sorted_blocks.to_set() =~= ws[kx].issue.metadata.blocks@.to_set(
                        ).insert(bug_num));
                    } else {
                        assert(pre_blocks == ws[kx].issue.metadata.blocks@);
                    }
                } else {
                    assert(ws_now[k] == ws_pre[k]);
                    assert(add@.subrange(0, p as int).contains(ws[k].id)) by {
                        let w = choose|w: int|
                            0 <= w < p + 1 && #[trigger] add@.subrange(0, (p + 1) as int)[w]
                                == ws[k].id;
                        if w == p {
                            assert(add@[p as int] == ws[k].id);
                            assert(ws[k].id == dep_id);
                            lemma_index_of_unique(ws_pre, k);
                            assert(false);
                        } else {
                            assert(add@.subrange(0, p as int)[w] == ws[k].id);
                        }
                    }
                }
            }
            assert forall|k: int|
                0 <= k < ws.len() && !add@.subrange(0, (p + 1) as int).contains(
                    (#[trigger] ws[k]).id,
                ) implies ws_now[k].issue.metadata.blocks == ws[k].issue.metadata.blocks by {
                assert(k != kx) by {
                    if k == kx {
                        assert(add@.subrange(0, (p + 1) as int)[p as int] == add@[p as int]);
                        assert(add@[p as int] == dep_id);
                    }
                }
                assert(ws_now[k] == ws_pre[k]);
                assert(!add@.subrange(0, p as int).contains(ws[k].id)) by {
                    if add@.subrange(0, p as int).contains(ws[k].id) {
                        let w = choose|w: int|
                            0 <= w < p && #[trigger] add@.subrange(0, p as int)[w] == ws[k].id;
                        assert(add@.subrange(0, (p + 1) as int)[w] == ws[k].id);
                    }
                }
            }
        }
        p = p + 1;
    }
    proof {
        assert(add@.subrange(0, add@.len() as int) =~= add@);
    }
    // Drop the subject from the reverse lists of the removed ids; a
    // removed id without a record is skipped.
    let mut q: usize = 0;
    while q < remove.len()
        invariant
            q <= remove@.len(),
            storage.wf(),
            storage.base_dir == old(storage).base_dir,
            storage.aliases == old(storage).aliases,
            storage.open_issues@.len() == old(storage).open_issues@.len(),
            storage.closed_issues@.len() == old(storage).closed_issues@.len(),
            ws == old(storage).working_set(),
            sorted_store(ws),
            has_node(ws, bug_num),
            storage.working_set().len() == ws.len(),
            forall|k: int|
                0 <= k < ws.len() ==> (#[trigger] storage.working_set()[k]).id == ws[k].id
                    && storage.working_set()[k].issue.body == ws[k].issue.body
                    && meta_eq_except_edges(
                    storage.working_set()[k].issue.metadata,
                    ws[k].issue.metadata,
                ),
            forall|k: int|
                0 <= k < ws.len() && (#[trigger] ws[k]).id == bug_num ==> strictly_sorted(
                    storage.working_set()[k].issue.metadata.depends_on@,
                ) && storage.working_set()[k].issue.metadata.depends_on@ == final_deps,
            forall|k: int|
                0 <= k < ws.len() && (#[trigger] ws[k]).id != bug_num
                    ==> storage.working_set()[k].issue.metadata.depends_on
                    == ws[k].issue.metadata.depends_on,
            forall|k: int|
                0 <= k < ws.len() && remove@.subrange(0, q as int).contains(
                    (#[trigger] ws[k]).id,
                ) ==> strictly_sorted(storage.working_set()[k].issue.metadata.blocks@)
                    && storage.working_set()[k].issue.metadata.blocks@.to_set()
                    == ws[k].issue.metadata.blocks@.to_set().remove(bug_num),
            forall|k: int|
                0 <= k < ws.len() && !remove@.subrange(0, q as int).contains(
                    (#[trigger] ws[k]).id,
                ) && add@.contains(ws[k].id) ==> strictly_sorted(
                    storage.working_set()[k].issue.metadata.blocks@,
                ) && storage.working_set()[k].issue.metadata.blocks@.to_set()
                    == ws[k].issue.metadata.blocks@.to_set().insert(bug_num),
            forall|k: int|
                0 <= k < ws.len() && !remove@.subrange(0, q as int).contains(
                    (#[trigger] ws[k]).id,
                ) && !add@.contains(ws[k].id)
                    ==> storage.working_set()[k].issue.metadata.blocks
                    == ws[k].issue.metadata.blocks,
        decreases remove@.len() - q,
    {
        let ghost ws_pre = storage.working_set();
        let x = remove[q];
        match find_index_either(&storage.open_issues, &storage.closed_issues, x) {
            None => {
                proof {
                    assert(!has_node(ws, x)) by {
                        if has_node(ws, x) {
                            let k = choose|k: int|
                                0 <= k < ws.len() && #[trigger] ws[k].id == x;
                            assert(ws_pre[k].id == x);
                            assert(has_node(ws_pre, x));
                        }
                    }
                    assert forall|k: int|
                        0 <= k < ws.len() && remove@.subrange(0, (q + 1) as int).contains(
                            (#[trigger] ws[k]).id,
                        ) implies remove@.subrange(0, q as int).contains(ws[k].id) by {
                        let w = choose|w: int|
                            0 <= w < q + 1 && #[trigger] remove@.subrange(0, (q + 1) as int)[w]
                                == ws[k].id;
                        if w == q {
                            assert(ws[k].id == x);
                            assert(has_node(ws, x));
                        } else {
                            assert(remove@.subrange(0, q as int)[w] == ws[k].id);
                        }
                    }
                    assert forall|k: int|
                        0 <= k < ws.len() && !remove@.subrange(0, (q + 1) as int).contains(
                            (#[trigger] ws[k]).id,
                        ) implies !remove@.subrange(0, q as int).contains(ws[k].id) by {
                        if remove@.subrange(0, q as int).contains(ws[k].id) {
                            let w = choose|w: int|
                                0 <= w < q && #[trigger] remove@.subrange(0, q as int)[w]
                                    == ws[k].id;
                            assert(remove@.subrange(0, (q + 1) as int)[w] == ws[k].id);
                        }
                    }
                }
            },
            Some(fi) => {
                proof {
                    assert(has_node(ws_pre, x)) by {
                        assert(ws_pre[fi as int].id == x);
                    }
                }
                let mut kept_b: Vec<u32>;
                {
                    let rec = match storage.load_issue(x) {
                        Ok(iss) => iss,
                        Err(_) => {
                            proof {
                                assert(false);
                            }
                            return Err(TrackerError::NotFound(x));
                        },
                    };
                    kept_b = copy_ids(&rec.metadata.blocks);
                }
                let ghost kx = index_of(ws_pre, x);
                proof {
                    assert(0 <= kx < ws_pre.len() && ws_pre[kx].id == x);
                    assert(ws[kx].id == x);
                    assert(kept_b@ == ws_pre[kx].issue.metadata.blocks@);
                    // The list this round starts from is strictly sorted in
                    // every case: dropped from, added to, or untouched.
                    assert(ws_pre == storage.working_set());
                    assert(ws_pre.len() == ws.len());
                    if remove@.subrange(0, q as int).contains(ws[kx].id) {
                        assert(strictly_sorted(
                            storage.working_set()[kx].issue.metadata.blocks@,
                        ));
                        assert(strictly_sorted(kept_b@));
                    } else if add@.contains(ws[kx].id) {
                        assert(strictly_sorted(
                            storage.working_set()[kx].issue.metadata.blocks@,
                        ));
                        assert(strictly_sorted(kept_b@));
                    } else {
                        assert(storage.working_set()[kx].issue.metadata.blocks
                            == ws[kx].issue.metadata.blocks);
                        assert(strictly_sorted(ws[kx].issue.metadata.depends_on@));
                        assert(strictly_sorted(ws[kx].issue.metadata.blocks@));
                        assert(strictly_sorted(kept_b@));
                    }
                    lemma_strictly_sorted_no_duplicates(kept_b@);
                }
                let ghost pre_blocks = kept_b@;
                // Filter the subject out.
                let mut filtered: Vec<u32> = Vec::new();
                let mut t: usize = 0;
                while t < kept_b.len()
                    invariant
                        t <= kept_b@.len(),
                        kept_b@.no_duplicates(),
                        filtered@.no_duplicates(),
                        forall|u: int|
                            0 <= u < filtered@.len() ==> kept_b@.subrange(0, t as int).contains(
                                #[trigger] filtered@[u],
                            ) && filtered@[u] != bug_num,
                        forall|w: int|
                            0 <= w < t ==> #[trigger] kept_b@[w] == bug_num || filtered@.contains(
                                kept_b@[w],
                            ),
                    decreases kept_b@.len() - t,
                {
                    let y = kept_b[t];
                    let ghost pref = filtered@;
                    if y != bug_num {
                        proof {
                            assert(!pref.contains(y)) by {
                                if pref.contains(y) {
                                    let u = choose|u: int|
                                        0 <= u < pref.len() && pref[u] == y;
                                    let w = choose|w: int|
                                        0 <= w < t && #[trigger] kept_b@.subrange(0, t as int)[w]
                                            == y;
                                    assert(kept_b@[w] == y);
                                    assert(kept_b@[t as int] == y);
                                }
                            }
                        }
                        filtered.push(y);
                        proof {
                            assert(forall|u: int|
                                0 <= u < pref.len() ==> #[trigger] filtered@[u] == pref[u]);
                            assert(filtered@[filtered@.len() - 1] == y);
                            assert(filtered@.no_duplicates()) by {
                                assert forall|u1: int, u2: int|
                                    0 <= u1 < u2 < filtered@.len() implies filtered@[u1]
                                    != filtered@[u2] by {
                                    if u2 == filtered@.len() - 1 {
                                        assert(pref[u1] == filtered@[u1]);
                                    }
                                }
                            }
                            assert forall|u: int| 0 <= u < filtered@.len() implies kept_b@.subrange(
                                0,
                                (t + 1) as int,
                            ).contains(#[trigger] filtered@[u]) && filtered@[u] != bug_num by {
                                if u < filtered@.len() - 1 {
                                    let w = choose|w: int|
                                        0 <= w < t && #[trigger] kept_b@.subrange(0, t as int)[w]
                                            == filtered@[u];
                                    assert(kept_b@.subrange(0, (t + 1) as int)[w] == filtered@[u]);
                                } else {
                                    assert(kept_b@.subrange(0, (t + 1) as int)[t as int] == y);
                                }
                            }
                            assert forall|w: int| 0 <= w < t + 1 implies #[trigger] kept_b@[w]
                                == bug_num || filtered@.contains(kept_b@[w]) by {
                                if w < t {
                                    if kept_b@[w] != bug_num {
                                        let u = choose|u: int|
                                            0 <= u < pref.len() && pref[u] == kept_b@[w];
                                        assert(filtered@[u] == kept_b@[w]);
                                    }
                                } else {
                                    assert(filtered@[filtered@.len() - 1] == y);
                                }
                            }
                        }
                    } else {
                        proof {
                            assert forall|u: int| 0 <= u < filtered@.len() implies kept_b@.subrange(
                                0,
                                (t + 1) as int,
                            ).contains(#[trigger] filtered@[u]) && filtered@[u] != bug_num by {
                                let w = choose|w: int|
                                    0 <= w < t && #[trigger] kept_b@.subrange(0, t as int)[w]
                                        == filtered@[u];
                                assert(kept_b@.subrange(0, (t + 1) as int)[w] == filtered@[u]);
                            }
                            assert forall|w: int| 0 <= w < t + 1 implies #[trigger] kept_b@[w]
                                == bug_num || filtered@.contains(kept_b@[w]) by {
                                if w == t {
                                    assert(kept_b@[t as int] == bug_num);
                                }
                            }
                        }
                    }
                    t = t + 1;
                }
                proof {
                    assert(kept_b@.subrange(0, kept_b@.len() as int) =~= kept_b@);
                    assert(filtered@.to_set() =~= pre_blocks.to_set().remove(bug_num)) by {
                        assert forall|z: u32| filtered@.to_set().contains(z)
                            implies pre_blocks.to_set().remove(bug_num).contains(z) by {
                            assert(filtered@.contains(z));
                            let u = choose|u: int|
                                0 <= u < filtered@.len() && filtered@[u] == z;
                            assert(pre_blocks.contains(filtered@[u]));
                        }
                        assert forall|z: u32| pre_blocks.to_set().remove(bug_num).contains(z)
                            implies filtered@.to_set().contains(z) by {
                            assert(pre_blocks.contains(z));
                            let w = choose|w: int|
                                0 <= w < pre_blocks.len() && pre_blocks[w] == z;
                            assert(kept_b@[w] == bug_num || filtered@.contains(kept_b@[w]));
                        }
                    }
                }
                sort_distinct(&mut filtered);
                let ghost sorted_blocks = filtered@;
                match storage.update_record(x, RecordChange::Blocks(filtered)) {
                    Ok(()) => {},
                    Err(_) => {
                        proof {
                            assert(has_node(ws_pre, x));
                            assert(false);
                        }
                        return Err(TrackerError::NotFound(x));
                    },
                }
                proof {
                    let ws_now = storage.working_set();
                    assert(forall|k: int|
                        0 <= k < ws.len() && k != kx ==> ws_now[k] == ws_pre[k]);
                    assert(sorted_blocks.to_set() == pre_blocks.to_set().remove(bug_num));
                    assert forall|k: int|
                        0 <= k < ws.len() && remove@.subrange(0, (q + 1) as int).contains(
                            (#[trigger] ws[k]).id,
                        ) implies strictly_sorted(ws_now[k].issue.metadata.blocks@)
                        && ws_now[k].issue.metadata.blocks@.to_set()
                        == ws[k].issue.metadata.blocks@.to_set().remove(bug_num) by {
                        if k == kx {
                            // Whatever this record held before this round,
                            // dropping the subject lands on the same set.
                            if remove@.subrange(0, q as int).contains(ws[kx].id) {
                                assert(pre_blocks.to_set() == ws[kx].issue.metadata.blocks@.to_set(
                                ).remove(bug_num));
                                assert(sorted_blocks.to_set()
                                    =~= ws[kx].issue.metadata.blocks@.to_set().remove(bug_num));
                            } else if add@.contains(ws[kx].id) {
                                assert(pre_blocks.to_set() == ws[kx].issue.metadata.blocks@.to_set(
                                ).insert(bug_num));
                                assert(sorted_blocks.to_set()
                                    =~= ws[kx].issue.metadata.blocks@.to_set().remove(bug_num));
                            } else {
                                assert(pre_blocks == ws[kx].issue.metadata.blocks@);
                            }
                        } else {
                            assert(ws_now[k] == ws_pre[k]);
                            assert(remove@.subrange(0, q as int).contains(ws[k].id)) by {
                                let w = choose|w: int|
                                    0 <= w < q + 1 && #[trigger] remove@.subrange(
                                        0,
                                        (q + 1) as int,
                                    )[w] == ws[k].id;
                                if w == q {
                                    assert(remove@[q as int] == ws[k].id);
                                    assert(ws[k].id == x);
                                    lemma_index_of_unique(ws_pre, k);
                                    assert(false);
                                } else {
                                    assert(remove@.subrange(0, q as int)[w] == ws[k].id);
                                }
                            }
                        }
                    }
                    assert forall|k: int|
                        0 <= k < ws.len() && !remove@.subrange(0, (q + 1) as int).contains(
                            (#[trigger] ws[k]).id,
                        ) && add@.contains(ws[k].id) implies strictly_sorted(
                        ws_now[k].issue.metadata.blocks@,
                    ) && ws_now[k].issue.metadata.blocks@.to_set()
                        == ws[k].issue.metadata.blocks@.to_set().insert(bug_num) by {
                        assert(k != kx) by {
                            if k == kx {
                                assert(remove@.subrange(0, (q + 1) as int)[q as int]
                                    == remove@[q as int]);
                            }
                        }
                        assert(ws_now[k] == ws_pre[k]);
                        assert(!remove@.subrange(0, q as int).contains(ws[k].id)) by {
                            if remove@.subrange(0, q as int).contains(ws[k].id) {
                                let w = choose|w: int|
                                    0 <= w < q && #[trigger] remove@.subrange(0, q as int)[w]
                                        == ws[k].id;
                                assert(remove@.subrange(0, (q + 1) as int)[w] == ws[k].id);
                            }
                        }
                    }
                    assert forall|k: int|
                        0 <= k < ws.len() && !remove@.subrange(0, (q + 1) as int).contains(
                            (#[trigger] ws[k]).id,
                        ) && !add@.contains(ws[k].id) implies ws_now[k].issue.metadata.blocks
                        == ws[k].issue.metadata.blocks by {
                        assert(k != kx) by {
                            if k == kx {
                                assert(remove@.subrange(0, (q + 1) as int)[q as int]
                                    == remove@[q as int]);
                            }
                        }
                        assert(ws_now[k] == ws_pre[k]);
                        assert(!remove@.subrange(0, q as int).contains(ws[k].id)) by {
                            if remove@.subrange(0, q as int).contains(ws[k].id) {
                                let w = choose|w: int|
                                    0 <= w < q && #[trigger] remove@.subrange(0, q as int)[w]
                                        == ws[k].id;
                                assert(remove@.subrange(0, (q + 1) as int)[w] == ws[k].id);
                            }
                        }
                    }
                }
            },
        }
        q = q + 1;
    }
    proof {
        assert(remove@.subrange(0, remove@.len() as int) =~= remove@);
        let ws2 = storage.working_set();
        assert(edges_applied(ws, ws2, bug_num, add@.to_set(), remove@.to_set())) by {
            assert forall|k: int|
                0 <= k < ws.len() && (#[trigger] ws[k]).id == bug_num implies strictly_sorted(
                ws2[k].issue.metadata.depends_on@,
            ) && ws2[k].issue.metadata.depends_on@.to_set()
                == ws[k].issue.metadata.depends_on@.to_set().union(add@.to_set()).difference(
                remove@.to_set(),
            ) by {
                lemma_index_of_unique(ws, k);
                assert(ws[k].issue.metadata.depends_on@ == old_deps);
            }
        }
        assert(sorted_store(ws2)) by {
            assert forall|k: int| 0 <= k < ws2.len() implies strictly_sorted(
                #[trigger] ws2[k].issue.metadata.depends_on@,
            ) && strictly_sorted(ws2[k].issue.metadata.blocks@) by {
                assert(strictly_sorted(ws[k].issue.metadata.depends_on@));
                assert(strictly_sorted(ws[k].issue.metadata.blocks@));
                if ws[k].id == bug_num {
                    assert(strictly_sorted(ws2[k].issue.metadata.depends_on@));
                } else {
                    assert(ws2[k].issue.metadata.depends_on == ws[k].issue.metadata.depends_on);
                }
                if remove@.contains(ws[k].id) {
                    assert(remove@.to_set().contains(ws[k].id));
                    assert(strictly_sorted(ws2[k].issue.metadata.blocks@));
                } else if add@.contains(ws[k].id) {
                    assert(add@.to_set().contains(ws[k].id));
                    assert(!remove@.to_set().contains(ws[k].id)) by {
                        if remove@.to_set().contains(ws[k].id) {
                            assert(remove@.contains(ws[k].id));
                        }
                    }
                    assert(strictly_sorted(ws2[k].issue.metadata.blocks@));
                } else {
                    assert(!add@.to_set().contains(ws[k].id)) by {
                        if add@.to_set().contains(ws[k].id) {
                            assert(add@.contains(ws[k].id));
                        }
                    }
                    assert(!remove@.to_set().contains(ws[k].id)) by {
                        if remove@.to_set().contains(ws[k].id) {
                            assert(remove@.contains(ws[k].id));
                        }
                    }
                    assert(ws2[k].issue.metadata.blocks == ws[k].issue.metadata.blocks);
                }
            }
        }
        let k1 = index_of(ws, bug_num);
        assert(ws2[k1].id == bug_num) by {
            assert(ws[k1].id == bug_num);
        }
        lemma_index_of_unique(ws2, k1);
        assert(result_deps@ == ws2[index_of(ws2, bug_num)].issue.metadata.depends_on@);
    }
    Ok(result_deps)
}

// ---------------------------------------------------------------------
// Laws of edge mutation
// ---------------------------------------------------------------------

/// The symmetry invariant of the data model: an issue appears in a
/// dependency's `blocks` exactly when that dependency appears in its
/// `depends_on`.
pub open spec fn edges_symmetric(ws: Seq<IssueWithId>) -> bool {
    forall|s: u32, d: u32|
        has_node(ws, s) && has_node(ws, d) ==> (#[trigger] deps_of(ws, s).contains(d)
            <==> #[trigger] blocks_of(ws, d).contains(s))
}

/// Requesting that an issue depend on itself is rejected: the cycle
/// guard trivially finds that the candidate dependency already reaches
/// the subject, namely by the empty walk.
pub proof fn lemma_self_dependency_rejected(
    ws: Seq<IssueWithId>,
    subject: u32,
    removes: Seq<u32>,
)
    requires
        has_node(ws, subject),
    ensures
        depend_outcome(ws, subject, seq![subject], removes) == Err::<(), TrackerError>(
            TrackerError::CycleDetected(subject, subject),
        ),
{
    let adds = seq![subject];
    assert(adds[0] == subject);
    assert(adds.drop_first() =~= Seq::<u32>::empty());
    assert(first_missing(ws, adds) == first_missing(ws, adds.drop_first()));
    assert(first_missing(ws, Seq::<u32>::empty()) is None);
    lemma_reaches_refl(ws, subject);
    assert(first_cycle(ws, subject, adds) == Some(subject));
}

/// When one issue already depends, directly or transitively, on another,
/// a request to give the latter a dependency on the former draws
/// `CycleDetected` — and, by the contract of `apply_edges`, leaves every
/// record untouched.
pub proof fn lemma_transitive_cycle_rejected(
    ws: Seq<IssueWithId>,
    a: u32,
    b: u32,
    removes: Seq<u32>,
)
    requires
        has_node(ws, a),
        has_node(ws, b),
        reaches(ws, a, b),
    ensures
        depend_outcome(ws, b, seq![a], removes) == Err::<(), TrackerError>(
            TrackerError::CycleDetected(b, a),
        ),
{
    let adds = seq![a];
    assert(adds[0] == a);
    assert(adds.drop_first() =~= Seq::<u32>::empty());
    assert(first_missing(ws, adds) == first_missing(ws, adds.drop_first()));
    assert(first_missing(ws, Seq::<u32>::empty()) is None);
    assert(first_cycle(ws, b, adds) == Some(a));
}

/// Ids agreeing pointwise keep lookups stable across a mutation.
proof fn lemma_same_ids(ws: Seq<IssueWithId>, ws2: Seq<IssueWithId>, x: u32)
    requires
        wf_nodes(ws),
        ws2.len() == ws.len(),
        forall|k: int| 0 <= k < ws.len() ==> (#[trigger] ws2[k]).id == ws[k].id,
        has_node(ws, x),
    ensures
        wf_nodes(ws2),
        has_node(ws2, x),
        index_of(ws2, x) == index_of(ws, x),
{
    assert(wf_nodes(ws2)) by {
        assert(forall|k: int| 0 <= k < ws.len() ==> (#[trigger] ws2[k]).id == ws[k].id);
    }
    let k = index_of(ws, x);
    assert(0 <= k < ws.len() && ws[k].id == x);
    assert(ws2[k].id == x);
    lemma_index_of_unique(ws2, k);
}

/// A successful edge request keeps the symmetry invariant: if every
/// dependency was mirrored by a `blocks` entry before, it still is
/// afterwards. (Over any run of requests this keeps the two edge
/// directions consistent, as long as every record write lands.)
pub proof fn lemma_apply_keeps_symmetry(
    ws: Seq<IssueWithId>,
    ws2: Seq<IssueWithId>,
    subject: u32,
    adds: Set<u32>,
    removes: Set<u32>,
)
    requires
        wf_nodes(ws),
        edges_symmetric(ws),
        has_node(ws, subject),
        !adds.contains(subject),
        edges_applied(ws, ws2, subject, adds, removes),
    ensures
        edges_symmetric(ws2),
{
    assert forall|s: u32, d: u32| has_node(ws2, s) && has_node(ws2, d) implies (
    #[trigger] deps_of(ws2, s).contains(d) <==> #[trigger] blocks_of(ws2, d).contains(s)) by {
        assert(has_node(ws, s)) by {
            let k = choose|k: int| 0 <= k < ws2.len() && #[trigger] ws2[k].id == s;
            assert(ws[k].id == s);
        }
        assert(has_node(ws, d)) by {
            let k = choose|k: int| 0 <= k < ws2.len() && #[trigger] ws2[k].id == d;
            assert(ws[k].id == d);
        }
        lemma_same_ids(ws, ws2, s);
        lemma_same_ids(ws, ws2, d);
        let ks = index_of(ws, s);
        let kd = index_of(ws, d);
        assert(deps_of(ws2, s) == ws2[ks].issue.metadata.depends_on@);
        assert(blocks_of(ws2, d) == ws2[kd].issue.metadata.blocks@);
        assert(deps_of(ws, s) == ws[ks].issue.metadata.depends_on@);
        assert(blocks_of(ws, d) == ws[kd].issue.metadata.blocks@);
        assert(ws[ks].id == s && ws[kd].id == d);
        if s == subject {
            assert(ws2[ks].issue.metadata.depends_on@.to_set()
                == ws[ks].issue.metadata.depends_on@.to_set().union(adds).difference(removes));
            if removes.contains(d) {
                assert(ws2[kd].issue.metadata.blocks@.to_set()
                    == ws[kd].issue.metadata.blocks@.to_set().remove(subject));
            } else if adds.contains(d) {
                assert(ws2[kd].issue.metadata.blocks@.to_set()
                    == ws[kd].issue.metadata.blocks@.to_set().insert(subject));
            } else {
                assert(ws2[kd].issue.metadata.blocks == ws[kd].issue.metadata.blocks);
                assert(deps_of(ws, s).contains(d) <==> blocks_of(ws, d).contains(s));
            }
        } else {
            assert(ws2[ks].issue.metadata.depends_on == ws[ks].issue.metadata.depends_on);
            assert(deps_of(ws, s).contains(d) <==> blocks_of(ws, d).contains(s));
            if removes.contains(d) {
                assert(ws2[kd].issue.metadata.blocks@.to_set()
                    == ws[kd].issue.metadata.blocks@.to_set().remove(subject));
            } else if adds.contains(d) {
                assert(ws2[kd].issue.metadata.blocks@.to_set()
                    == ws[kd].issue.metadata.blocks@.to_set().insert(subject));
            } else {
                assert(ws2[kd].issue.metadata.blocks == ws[kd].issue.metadata.blocks);
            }
        }
        assert(deps_of(ws2, s).contains(d) <==> deps_of(ws2, s).to_set().contains(d));
        assert(blocks_of(ws2, d).contains(s) <==> blocks_of(ws2, d).to_set().contains(s));
        assert(deps_of(ws, s).contains(d) <==> deps_of(ws, s).to_set().contains(d));
        assert(blocks_of(ws, d).contains(s) <==> blocks_of(ws, d).to_set().contains(s));
    }
}

/// Records carrying the same data, record by record: everything equal,
/// with the two edge lists compared as sequences.
pub open spec fn same_records(ws: Seq<IssueWithId>, ws2: Seq<IssueWithId>) -> bool {
    ws2.len() == ws.len() && forall|k: int|
        0 <= k < ws.len() ==> (#[trigger] ws2[k]).id == ws[k].id && ws2[k].issue.body
            == ws[k].issue.body && meta_eq_except_edges(
            ws2[k].issue.metadata,
            ws[k].issue.metadata,
        ) && ws2[k].issue.metadata.depends_on@ == ws[k].issue.metadata.depends_on@
            && ws2[k].issue.metadata.blocks@ == ws[k].issue.metadata.blocks@
}

/// A redundant request on an acyclic, symmetric working set is accepted
/// and changes nothing: adding dependencies that are already present and
/// removing ones that are already absent leaves every record as it was.
pub proof fn lemma_redundant_request_is_noop(
    ws: Seq<IssueWithId>,
    ws2: Seq<IssueWithId>,
    subject: u32,
    adds: Seq<u32>,
    removes: Seq<u32>,
)
    requires
        wf_nodes(ws),
        sorted_store(ws),
        edges_symmetric(ws),
        crate::cycles::acyclic(ws),
        has_node(ws, subject),
        !deps_of(ws, subject).contains(subject),
        forall|t: int|
            0 <= t < adds.len() ==> has_node(ws, #[trigger] adds[t]) && deps_of(
                ws,
                subject,
            ).contains(adds[t]),
        forall|t: int|
            0 <= t < removes.len() ==> !deps_of(ws, subject).contains(#[trigger] removes[t]),
        adds.len() > 0 || removes.len() > 0,
        edges_applied(ws, ws2, subject, adds.to_set(), removes.to_set()),
    ensures
        depend_outcome(ws, subject, adds, removes) == Ok::<(), TrackerError>(()),
        same_records(ws, ws2),
{
    let ksub = index_of(ws, subject);
    assert(0 <= ksub < ws.len() && ws[ksub].id == subject);
    // No id to add is missing, and none closes a cycle.
    lemma_first_missing_at(ws, adds, adds.len() as int);
    assert forall|t: int| 0 <= t < adds.len() implies !reaches(
        ws,
        #[trigger] adds[t],
        subject,
    ) by {
        if reaches(ws, adds[t], subject) {
            assert(dep_edge(ws, subject, adds[t])) by {
                assert(deps_of(ws, subject).contains(adds[t]));
            }
            crate::graph::lemma_reaches_step(ws, subject, adds[t]);
            assert(adds[t] != subject);
            assert(crate::cycles::in_cycle(ws, subject)) by {
                assert(reaches(ws, subject, adds[t]) && reaches(ws, adds[t], subject));
            }
        }
    }
    lemma_first_cycle_at(ws, subject, adds, adds.len() as int);
    // Record by record, the request lands where it started.
    assert forall|k: int| 0 <= k < ws.len() implies (#[trigger] ws2[k]).id == ws[k].id
        && ws2[k].issue.body == ws[k].issue.body && meta_eq_except_edges(
        ws2[k].issue.metadata,
        ws[k].issue.metadata,
    ) && ws2[k].issue.metadata.depends_on@ == ws[k].issue.metadata.depends_on@
        && ws2[k].issue.metadata.blocks@ == ws[k].issue.metadata.blocks@ by {
        lemma_index_of_unique(ws, k);
        assert(strictly_sorted(ws[k].issue.metadata.depends_on@));
        assert(strictly_sorted(ws[k].issue.metadata.blocks@));
        // Forward edges.
        if ws[k].id == subject {
            assert(k == ksub);
            assert(ws2[k].issue.metadata.depends_on@.to_set()
                =~= ws[k].issue.metadata.depends_on@.to_set()) by {
                assert forall|x: u32| adds.to_set().contains(x)
                    implies ws[ksub].issue.metadata.depends_on@.to_set().contains(x) by {
                    let t = choose|t: int| 0 <= t < adds.len() && adds[t] == x;
                    assert(deps_of(ws, subject).contains(adds[t]));
                }
                assert forall|x: u32| ws[ksub].issue.metadata.depends_on@.to_set().contains(x)
                    implies !removes.to_set().contains(x) by {
                    if removes.contains(x) {
                        let t = choose|t: int| 0 <= t < removes.len() && removes[t] == x;
                        assert(!deps_of(ws, subject).contains(removes[t]));
                        assert(deps_of(ws, subject).contains(x));
                    }
                }
            }
            crate::strutil::lemma_strictly_sorted_equal(
                ws2[k].issue.metadata.depends_on@,
                ws[k].issue.metadata.depends_on@,
            );
        }
        // Reverse edges.
        if removes.to_set().contains(ws[k].id) {
            assert(!blocks_of(ws, ws[k].id).contains(subject)) by {
                let t = choose|t: int| 0 <= t < removes.len() && removes[t] == ws[k].id;
                assert(!deps_of(ws, subject).contains(removes[t]));
                if blocks_of(ws, ws[k].id).contains(subject) {
                    assert(deps_of(ws, subject).contains(ws[k].id));
                }
            }
            assert(blocks_of(ws, ws[k].id) == ws[k].issue.metadata.blocks@);
            assert(ws2[k].issue.metadata.blocks@.to_set()
                =~= ws[k].issue.metadata.blocks@.to_set()) by {
                assert(!ws[k].issue.metadata.blocks@.to_set().contains(subject)) by {
                    assert(!ws[k].issue.metadata.blocks@.contains(subject));
                }
            }
            crate::strutil::lemma_strictly_sorted_equal(
                ws2[k].issue.metadata.blocks@,
                ws[k].issue.metadata.blocks@,
            );
        } else if adds.to_set().contains(ws[k].id) {
            assert(blocks_of(ws, ws[k].id).contains(subject)) by {
                let t = choose|t: int| 0 <= t < adds.len() && adds[t] == ws[k].id;
                assert(deps_of(ws, subject).contains(adds[t]));
            }
            assert(blocks_of(ws, ws[k].id) == ws[k].issue.metadata.blocks@);
            assert(ws2[k].issue.metadata.blocks@.to_set()
                =~= ws[k].issue.metadata.blocks@.to_set()) by {
                assert(ws[k].issue.metadata.blocks@.to_set().contains(subject)) by {
                    assert(ws[k].issue.metadata.blocks@.contains(subject));
                }
            }
            crate::strutil::lemma_strictly_sorted_equal(
                ws2[k].issue.metadata.blocks@,
                ws[k].issue.metadata.blocks@,
            );
        } else {
            assert(ws2[k].issue.metadata.blocks == ws[k].issue.metadata.blocks);
        }
    }
}

} // verus!
