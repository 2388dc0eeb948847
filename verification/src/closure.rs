//! Reachability closure of one issue: the issue itself, everything it
//! depends on transitively (its ancestors), and everything that
//! transitively depends on it (its descendants). Used to scope a graph
//! view to "this issue and everything connected to it".

use vstd::prelude::*;

use crate::issue::IssueWithId;
use crate::graph::{
    can_reach, deps_of, has_node, index_of, is_dep_path, lemma_deps_union_member,
    lemma_index_of_unique, reaches, wf_nodes,
};
use crate::strutil::{contains_u32, sort_distinct, strictly_sorted};

verus! {

/// `y` belongs to the closure of `root`: it is an ancestor or a
/// descendant of it (or `root` itself, which is both).
pub open spec fn connected(nodes: Seq<IssueWithId>, root: u32, y: u32) -> bool {
    reaches(nodes, root, y) || reaches(nodes, y, root)
}

/// A reached id other than the start sits in some `depends_on` list.
proof fn lemma_reached_is_mentioned(nodes: Seq<IssueWithId>, a: u32, b: u32)
    requires
        reaches(nodes, a, b),
        a != b,
    ensures
        exists|k: int|
            0 <= k < nodes.len() && (#[trigger] nodes[k]).issue.metadata.depends_on@.contains(b),
{
    let p = choose|p: Seq<u32>|
        #[trigger] is_dep_path(nodes, p) && p.first() == a && p.last() == b;
    assert(p.len() >= 2);
    assert(crate::graph::dep_edge(nodes, p[p.len() - 2], p[p.len() - 1]));
    let prev = p[p.len() - 2];
    let k = index_of(nodes, prev);
    assert(0 <= k < nodes.len() && nodes[k].id == prev);
    assert(deps_of(nodes, prev).contains(b));
}

/// The set of ids connected to `root`, in ascending order: `root`
/// itself, its transitive prerequisites — dangling ids included — and
/// the issues that transitively depend on it. Tolerates cycles.
pub fn get_dependency_closure(root: u32, issues: &Vec<IssueWithId>) -> (r: Vec<u32>)
    requires
        wf_nodes(issues@),
    ensures
        strictly_sorted(r@),
        forall|y: u32| r@.contains(y) <==> connected(issues@, root, y),
{
    proof {
        crate::graph::lemma_reaches_refl(issues@, root);
    }
    let mut result: Vec<u32> = Vec::new();
    result.push(root);
    proof {
        assert(result@[0] == root);
        assert(result@.contains(root));
    }
    // The issues of the working set.
    let mut k: usize = 0;
    while k < issues.len()
        invariant
            wf_nodes(issues@),
            k <= issues@.len(),
            result@.no_duplicates(),
            result@.contains(root),
            forall|u: int| 0 <= u < result@.len() ==> connected(issues@, root, #[trigger] result@[u]),
            forall|t: int|
                0 <= t < k && connected(issues@, root, (#[trigger] issues@[t]).id)
                    ==> result@.contains(issues@[t].id),
        decreases issues@.len() - k,
    {
        let id = issues[k].id;
        let ghost pre = result@;
        if !contains_u32(&result, id) {
            if can_reach(issues, root, id) || can_reach(issues, id, root) {
                result.push(id);
                proof {
                    assert(forall|u: int| 0 <= u < pre.len() ==> #[trigger] result@[u] == pre[u]);
                    assert(result@[result@.len() - 1] == id);
                    assert(result@.contains(id));
                    assert(result@.contains(root)) by {
                        let u = choose|u: int| 0 <= u < pre.len() && pre[u] == root;
                        assert(result@[u] == root);
                    }
                    assert(result@.no_duplicates()) by {
                        assert forall|u1: int, u2: int|
                            0 <= u1 < u2 < result@.len() implies result@[u1] != result@[u2] by {
                            if u2 == result@.len() - 1 {
                                assert(pre[u1] == result@[u1]);
                            }
                        }
                    }
                }
            }
        }
        proof {
            assert forall|t: int|
                0 <= t < k + 1 && connected(issues@, root, (#[trigger] issues@[t]).id)
                    implies result@.contains(issues@[t].id) by {
                if t < k {
                    if pre.contains(issues@[t].id) {
                        let u = choose|u: int| 0 <= u < pre.len() && pre[u] == issues@[t].id;
                        assert(result@[u] == issues@[t].id);
                    }
                }
            }
        }
        k = k + 1;
    }
    let ghost after_nodes = result@;
    // The dangling prerequisites mentioned only in edge lists.
    let mut k2: usize = 0;
    while k2 < issues.len()
        invariant
            wf_nodes(issues@),
            k2 <= issues@.len(),
            result@.no_duplicates(),
            result@.contains(root),
            forall|u: int| 0 <= u < result@.len() ==> connected(issues@, root, #[trigger] result@[u]),
            forall|x: u32| after_nodes.contains(x) ==> result@.contains(x),
            forall|t: int, j: int|
                0 <= t < k2 && 0 <= j < issues@[t].issue.metadata.depends_on@.len() && connected(
                    issues@,
                    root,
                    #[trigger] issues@[t].issue.metadata.depends_on@[j],
                ) ==> result@.contains(issues@[t].issue.metadata.depends_on@[j]),
        decreases issues@.len() - k2,
    {
        let deps_len = issues[k2].issue.metadata.depends_on.len();
        let mut j: usize = 0;
        while j < deps_len
            invariant
                wf_nodes(issues@),
                k2 < issues@.len(),
                deps_len == issues@[k2 as int].issue.metadata.depends_on@.len(),
                j <= deps_len,
                result@.no_duplicates(),
                result@.contains(root),
                forall|u: int|
                    0 <= u < result@.len() ==> connected(issues@, root, #[trigger] result@[u]),
                forall|x: u32| after_nodes.contains(x) ==> result@.contains(x),
                forall|t: int, jj: int|
                    0 <= t < k2 && 0 <= jj < issues@[t].issue.metadata.depends_on@.len()
                        && connected(
                        issues@,
                        root,
                        #[trigger] issues@[t].issue.metadata.depends_on@[jj],
                    ) ==> result@.contains(issues@[t].issue.metadata.depends_on@[jj]),
                forall|jj: int|
                    0 <= jj < j && connected(
                        issues@,
                        root,
                        #[trigger] issues@[k2 as int].issue.metadata.depends_on@[jj],
                    ) ==> result@.contains(issues@[k2 as int].issue.metadata.depends_on@[jj]),
            decreases deps_len - j,
        {
            let y = issues[k2].issue.metadata.depends_on[j];
            let ghost pre = result@;
            if !contains_u32(&result, y) {
                if can_reach(issues, root, y) || can_reach(issues, y, root) {
                    result.push(y);
                    proof {
                        assert(forall|u: int|
                            0 <= u < pre.len() ==> #[trigger] result@[u] == pre[u]);
                        assert(result@[result@.len() - 1] == y);
                        assert(result@.contains(y));
                        assert forall|x: u32| pre.contains(x) implies result@.contains(x) by {
                            let u = choose|u: int| 0 <= u < pre.len() && pre[u] == x;
                            assert(result@[u] == x);
                        }
                        assert(result@.no_duplicates()) by {
                            assert forall|u1: int, u2: int|
                                0 <= u1 < u2 < result@.len() implies result@[u1]
                                != result@[u2] by {
                                if u2 == result@.len() - 1 {
                                    assert(pre[u1] == result@[u1]);
                                }
                            }
                        }
                    }
                }
            }
            j = j + 1;
        }
        k2 = k2 + 1;
    }
    let ghost vis_final = result@;
    sort_distinct(&mut result);
    proof {
        assert forall|y: u32| result@.contains(y) implies connected(issues@, root, y) by {
            assert(result@.to_set().contains(y));
            assert(vis_final.to_set().contains(y));
            assert(vis_final.contains(y));
            let u = choose|u: int| 0 <= u < vis_final.len() && vis_final[u] == y;
            assert(connected(issues@, root, vis_final[u]));
        }
        assert forall|y: u32| connected(issues@, root, y) implies result@.contains(y) by {
            if y == root {
                assert(vis_final.contains(root));
            } else if reaches(issues@, y, root) {
                crate::cycles::lemma_reaching_is_node(issues@, y, root);
                let t = choose|t: int| 0 <= t < issues@.len() && #[trigger] issues@[t].id == y;
                assert(connected(issues@, root, issues@[t].id));
                assert(after_nodes.contains(issues@[t].id));
                assert(vis_final.contains(issues@[t].id));
            } else {
                assert(reaches(issues@, root, y));
                lemma_reached_is_mentioned(issues@, root, y);
                let t = choose|t: int|
                    0 <= t < issues@.len()
                        && (#[trigger] issues@[t]).issue.metadata.depends_on@.contains(y);
                let jj = choose|jj: int|
                    0 <= jj < issues@[t].issue.metadata.depends_on@.len()
                        && issues@[t].issue.metadata.depends_on@[jj] == y;
                assert(connected(issues@, root, issues@[t].issue.metadata.depends_on@[jj]));
                assert(vis_final.contains(issues@[t].issue.metadata.depends_on@[jj]));
            }
            assert(vis_final.contains(y));
            assert(vis_final.to_set().contains(y));
            assert(result@.to_set().contains(y));
        }
    }
    result
}

} // verus!
