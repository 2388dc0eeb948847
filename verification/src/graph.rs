//! The dependency graph seen as a mathematical object, and reachability
//! over it.
//!
//! A working set is a vector of issues with pairwise distinct ids. The
//! directed edge `a -> b` means "a depends on b" and is read off the
//! `depends_on` list of `a`. `depends_on` entries may point outside the
//! working set (dangling ids from legacy data); such targets have no
//! outgoing edges. The graph may already contain cycles: nothing here
//! assumes acyclicity.

use vstd::prelude::*;

use crate::issue::IssueWithId;
use crate::strutil::contains_u32;

verus! {

/// Pairwise distinct ids: the well-formedness every graph operation
/// expects of a working set.
pub open spec fn wf_nodes(nodes: Seq<IssueWithId>) -> bool {
    forall|k1: int, k2: int|
        0 <= k1 < k2 < nodes.len() ==> #[trigger] nodes[k1].id != #[trigger] nodes[k2].id
}

/// Some issue in the working set has this id.
pub open spec fn has_node(nodes: Seq<IssueWithId>, id: u32) -> bool {
    exists|k: int| 0 <= k < nodes.len() && #[trigger] nodes[k].id == id
}

/// Index of the issue with this id (meaningful when `has_node` holds;
/// unique under `wf_nodes`).
pub open spec fn index_of(nodes: Seq<IssueWithId>, id: u32) -> int {
    choose|k: int| 0 <= k < nodes.len() && #[trigger] nodes[k].id == id
}

/// The `depends_on` list of the issue with this id; empty for an id
/// outside the working set.
pub open spec fn deps_of(nodes: Seq<IssueWithId>, id: u32) -> Seq<u32> {
    if has_node(nodes, id) {
        nodes[index_of(nodes, id)].issue.metadata.depends_on@
    } else {
        Seq::empty()
    }
}

/// The `blocks` list of the issue with this id; empty for an id outside
/// the working set.
pub open spec fn blocks_of(nodes: Seq<IssueWithId>, id: u32) -> Seq<u32> {
    if has_node(nodes, id) {
        nodes[index_of(nodes, id)].issue.metadata.blocks@
    } else {
        Seq::empty()
    }
}

/// Under distinct ids, `index_of` returns the index of any record whose
/// id is looked up.
pub proof fn lemma_index_of_unique(nodes: Seq<IssueWithId>, k: int)
    requires
        wf_nodes(nodes),
        0 <= k < nodes.len(),
    ensures
        has_node(nodes, nodes[k].id),
        index_of(nodes, nodes[k].id) == k,
{
    assert(has_node(nodes, nodes[k].id));
    let k0 = index_of(nodes, nodes[k].id);
    assert(0 <= k0 < nodes.len() && nodes[k0].id == nodes[k].id);
    if k0 < k {
        assert(nodes[k0].id != nodes[k].id);
    } else if k < k0 {
        assert(nodes[k].id != nodes[k0].id);
    }
}

/// Directed dependency edge: `a` depends on `b`.
pub open spec fn dep_edge(nodes: Seq<IssueWithId>, a: u32, b: u32) -> bool {
    has_node(nodes, a) && deps_of(nodes, a).contains(b)
}

/// A walk along dependency edges: nonempty, consecutive elements joined
/// by `dep_edge`.
pub open spec fn is_dep_path(nodes: Seq<IssueWithId>, p: Seq<u32>) -> bool {
    p.len() >= 1 && forall|k: int|
        0 <= k < p.len() - 1 ==> dep_edge(nodes, #[trigger] p[k], p[k + 1])
}

/// `to` can be reached from `from` along dependency edges (including the
/// empty walk: every id reaches itself).
pub open spec fn reaches(nodes: Seq<IssueWithId>, from: u32, to: u32) -> bool {
    exists|p: Seq<u32>| #[trigger] is_dep_path(nodes, p) && p.first() == from && p.last() == to
}

/// Every id reaches itself.
pub proof fn lemma_reaches_refl(nodes: Seq<IssueWithId>, x: u32)
    ensures
        reaches(nodes, x, x),
{
    let p = seq![x];
    assert(is_dep_path(nodes, p));
    assert(p.first() == x && p.last() == x);
}

/// One edge is a reach.
pub proof fn lemma_reaches_step(nodes: Seq<IssueWithId>, a: u32, b: u32)
    requires
        dep_edge(nodes, a, b),
    ensures
        reaches(nodes, a, b),
{
    let p = seq![a, b];
    assert(is_dep_path(nodes, p));
}

/// Reaching is transitive.
pub proof fn lemma_reaches_trans(nodes: Seq<IssueWithId>, a: u32, b: u32, c: u32)
    requires
        reaches(nodes, a, b),
        reaches(nodes, b, c),
    ensures
        reaches(nodes, a, c),
{
    let p1 = choose|p: Seq<u32>| #[trigger] is_dep_path(nodes, p) && p.first() == a && p.last() == b;
    let p2 = choose|p: Seq<u32>| #[trigger] is_dep_path(nodes, p) && p.first() == b && p.last() == c;
    let p = p1 + p2.drop_first();
    assert(is_dep_path(nodes, p)) by {
        assert forall|k: int| 0 <= k < p.len() - 1 implies dep_edge(nodes, #[trigger] p[k], p[k + 1]) by {
            if k < p1.len() - 1 {
                assert(p[k] == p1[k] && p[k + 1] == p1[k + 1]);
            } else if k == p1.len() - 1 {
                if p2.len() == 1 {
                    assert(false);
                } else {
                    assert(p[k] == p1[k] && p1[k] == b == p2[0]);
                    assert(p[k + 1] == p2.drop_first()[0] == p2[1]);
                }
            } else {
                let t = k - p1.len();
                assert(p[k] == p2.drop_first()[t] == p2[t + 1]);
                assert(p[k + 1] == p2.drop_first()[t + 1] == p2[t + 2]);
            }
        }
    }
    if p2.len() == 1 {
        assert(p =~= p1);
        assert(p.first() == a && p.last() == c);
    } else {
        assert(p.first() == a);
        assert(p.last() == p2.last());
    }
}

/// A walk starting inside a set that is closed under dependency edges
/// never leaves it.
proof fn lemma_path_stays_in_closed(nodes: Seq<IssueWithId>, vis: Seq<u32>, p: Seq<u32>)
    requires
        is_dep_path(nodes, p),
        vis.contains(p.first()),
        forall|v: u32, w: u32|
            vis.contains(v) && #[trigger] dep_edge(nodes, v, w) ==> vis.contains(w),
    ensures
        vis.contains(p.last()),
    decreases p.len(),
{
    if p.len() == 1 {
    } else {
        assert(dep_edge(nodes, p[0], p[1]));
        let q = p.drop_first();
        assert(is_dep_path(nodes, q)) by {
            assert forall|k: int| 0 <= k < q.len() - 1 implies dep_edge(
                nodes,
                #[trigger] q[k],
                q[k + 1],
            ) by {
                assert(q[k] == p[k + 1] && q[k + 1] == p[k + 2]);
            }
        }
        assert(q.first() == p[1]);
        lemma_path_stays_in_closed(nodes, vis, q);
        assert(q.last() == p.last());
    }
}

/// If a set contains `from`, is closed under dependency edges and misses
/// `to`, then `to` is unreachable from `from`.
pub proof fn lemma_closed_set_unreachable(
    nodes: Seq<IssueWithId>,
    vis: Seq<u32>,
    from: u32,
    to: u32,
)
    requires
        vis.contains(from),
        !vis.contains(to),
        forall|v: u32, w: u32|
            vis.contains(v) && #[trigger] dep_edge(nodes, v, w) ==> vis.contains(w),
    ensures
        !reaches(nodes, from, to),
{
    if reaches(nodes, from, to) {
        let p = choose|p: Seq<u32>|
            #[trigger] is_dep_path(nodes, p) && p.first() == from && p.last() == to;
        lemma_path_stays_in_closed(nodes, vis, p);
    }
}

// ---------------------------------------------------------------------
// The universe of ids a traversal can meet
// ---------------------------------------------------------------------

/// All ids mentioned in some `depends_on` list of the working set.
pub open spec fn deps_union(nodes: Seq<IssueWithId>) -> Set<u32>
    decreases nodes.len(),
{
    if nodes.len() == 0 {
        Set::empty()
    } else {
        deps_union(nodes.drop_last()).union(nodes.last().issue.metadata.depends_on@.to_set())
    }
}

/// All ids of the working set.
pub open spec fn id_set(nodes: Seq<IssueWithId>) -> Set<u32> {
    nodes.map_values(|n: IssueWithId| n.id).to_set()
}

/// Ids a dependency traversal from `from` can meet.
pub open spec fn traversal_universe(nodes: Seq<IssueWithId>, from: u32) -> Set<u32> {
    deps_union(nodes).union(id_set(nodes)).insert(from)
}

pub proof fn lemma_deps_union_finite(nodes: Seq<IssueWithId>)
    ensures
        deps_union(nodes).finite(),
    decreases nodes.len(),
{
    broadcast use vstd::seq_lib::seq_to_set_is_finite;

    if nodes.len() == 0 {
    } else {
        lemma_deps_union_finite(nodes.drop_last());
    }
}

/// Membership in `deps_union` comes from membership in some node's
/// `depends_on` list.
pub proof fn lemma_deps_union_member(nodes: Seq<IssueWithId>, k: int, x: u32)
    requires
        0 <= k < nodes.len(),
        nodes[k].issue.metadata.depends_on@.contains(x),
    ensures
        deps_union(nodes).contains(x),
    decreases nodes.len(),
{
    if k == nodes.len() - 1 {
        assert(nodes.last().issue.metadata.depends_on@.to_set().contains(x));
    } else {
        assert(nodes.drop_last()[k] == nodes[k]);
        lemma_deps_union_member(nodes.drop_last(), k, x);
    }
}

pub proof fn lemma_universe_finite(nodes: Seq<IssueWithId>, from: u32)
    ensures
        traversal_universe(nodes, from).finite(),
{
    broadcast use vstd::seq_lib::seq_to_set_is_finite;

    lemma_deps_union_finite(nodes);
}

/// A duplicate-free list of elements of a finite set is no longer than
/// the set.
pub proof fn lemma_distinct_in_universe(s: Seq<u32>, u: Set<u32>)
    requires
        u.finite(),
        s.no_duplicates(),
        forall|j: int| 0 <= j < s.len() ==> u.contains(#[trigger] s[j]),
    ensures
        s.len() <= u.len(),
{
    broadcast use vstd::seq_lib::seq_to_set_is_finite;

    s.unique_seq_to_set();
    assert forall|x: u32| s.to_set().contains(x) implies u.contains(x) by {
        let j = choose|j: int| 0 <= j < s.len() && s[j] == x;
        assert(u.contains(s[j]));
    }
    vstd::set_lib::lemma_len_subset(s.to_set(), u);
}


// ---------------------------------------------------------------------
// Executable lookup and reachability
// ---------------------------------------------------------------------

/// First index holding the given id.
pub fn find_index(nodes: &Vec<IssueWithId>, id: u32) -> (r: Option<usize>)
    ensures
        match r {
            Some(i) => i < nodes@.len() && nodes@[i as int].id == id,
            None => !has_node(nodes@, id),
        },
{
    let mut i: usize = 0;
    while i < nodes.len()
        invariant
            i <= nodes@.len(),
            forall|k: int| 0 <= k < i ==> #[trigger] nodes@[k].id != id,
        decreases nodes@.len() - i,
    {
        if nodes[i].id == id {
            return Some(i);
        }
        i = i + 1;
    }
    None
}

/// Index of the given id in the concatenation of two working sets,
/// searching the first one first.
pub fn find_index_either(
    open: &Vec<IssueWithId>,
    closed: &Vec<IssueWithId>,
    id: u32,
) -> (r: Option<usize>)
    requires
        open@.len() + closed@.len() <= usize::MAX,
    ensures
        match r {
            Some(i) => i < open@.len() + closed@.len() && (open@ + closed@)[i as int].id == id,
            None => !has_node(open@ + closed@, id),
        },
{
    match find_index(open, id) {
        Some(i) => {
            proof {
                assert((open@ + closed@)[i as int] == open@[i as int]);
            }
            Some(i)
        },
        None => match find_index(closed, id) {
            Some(j) => {
                proof {
                    assert((open@ + closed@)[open@.len() + j] == closed@[j as int]);
                }
                Some(open.len() + j)
            },
            None => {
                proof {
                    assert(!has_node(open@ + closed@, id)) by {
                        if has_node(open@ + closed@, id) {
                            let k = choose|k: int|
                                0 <= k < (open@ + closed@).len() && #[trigger] (open@
                                    + closed@)[k].id == id;
                            if k < open@.len() {
                                assert(open@[k].id == id);
                            } else {
                                assert(closed@[k - open@.len()].id == id);
                            }
                        }
                    }
                }
                None
            },
        },
    }
}

/// The issue at an index of the concatenation of two working sets.
pub(crate) fn node_at<'a>(
    open: &'a Vec<IssueWithId>,
    closed: &'a Vec<IssueWithId>,
    ix: usize,
) -> (r: &'a IssueWithId)
    requires
        ix < open@.len() + closed@.len(),
    ensures
        *r == (open@ + closed@)[ix as int],
{
    if ix < open.len() {
        &open[ix]
    } else {
        &closed[ix - open.len()]
    }
}

/// Iterative depth-first reachability along `depends_on` edges over the
/// union of two working sets, exactly deciding `reaches`. Terminates on
/// cyclic graphs: the visited list only grows, inside a finite universe
/// of ids.
pub fn can_reach_either(
    open: &Vec<IssueWithId>,
    closed: &Vec<IssueWithId>,
    from: u32,
    to: u32,
) -> (r: bool)
    requires
        wf_nodes(open@ + closed@),
        open@.len() + closed@.len() <= usize::MAX,
    ensures
        r == reaches(open@ + closed@, from, to),
{
    let ghost all = open@ + closed@;
    let ghost univ = traversal_universe(all, from);
    proof {
        lemma_universe_finite(all, from);
        lemma_reaches_refl(all, from);
    }
    let mut stack: Vec<u32> = Vec::new();
    stack.push(from);
    let mut visited: Vec<u32> = Vec::new();
    proof {
        assert(stack@[0] == from);
        assert(stack@.contains(from));
    }
    loop
        invariant
            wf_nodes(all),
            all == open@ + closed@,
            all.len() <= usize::MAX,
            univ == traversal_universe(all, from),
            univ.finite(),
            forall|j: int| 0 <= j < stack@.len() ==> reaches(all, from, #[trigger] stack@[j]),
            forall|j: int| 0 <= j < visited@.len() ==> reaches(all, from, #[trigger] visited@[j]),
            !visited@.contains(to),
            forall|v: u32, w: u32|
                visited@.contains(v) && #[trigger] dep_edge(all, v, w) ==> visited@.contains(w)
                    || stack@.contains(w),
            visited@.contains(from) || stack@.contains(from),
            visited@.no_duplicates(),
            forall|j: int| 0 <= j < visited@.len() ==> univ.contains(#[trigger] visited@[j]),
            forall|j: int| 0 <= j < stack@.len() ==> univ.contains(#[trigger] stack@[j]),
            visited@.len() <= univ.len(),
        ensures
            stack@.len() == 0,
            !visited@.contains(to),
            visited@.contains(from),
            forall|v: u32, w: u32|
                visited@.contains(v) && #[trigger] dep_edge(all, v, w) ==> visited@.contains(w),
        decreases univ.len() - visited@.len(), stack@.len(),
    {
        if stack.len() == 0 {
            break;
        }
        let ghost old_stack = stack@;
        let current = match stack.pop() {
            Some(c) => c,
            None => {
                proof {
                    assert(false);
                }
                0
            },
        };
        proof {
            assert(current == old_stack.last());
            assert(old_stack.contains(current)) by {
                assert(old_stack[old_stack.len() - 1] == current);
            }
            assert forall|x: u32| stack@.contains(x) implies old_stack.contains(x) by {
                let j = choose|j: int| 0 <= j < stack@.len() && stack@[j] == x;
                assert(old_stack[j] == x);
            }
            assert forall|x: u32| old_stack.contains(x) implies stack@.contains(x) || x
                == current by {
                let j = choose|j: int| 0 <= j < old_stack.len() && old_stack[j] == x;
                if j < old_stack.len() - 1 {
                    assert(stack@[j] == x);
                }
            }
        }
        if current == to {
            assert(reaches(all, from, to));
            return true;
        }
        if contains_u32(&visited, current) {
            continue;
        }
        let ghost old_visited = visited@;
        visited.push(current);
        proof {
            assert forall|x: u32| old_visited.contains(x) implies visited@.contains(x) by {
                let j = choose|j: int| 0 <= j < old_visited.len() && old_visited[j] == x;
                assert(visited@[j] == x);
            }
            assert(visited@.contains(current)) by {
                assert(visited@[visited@.len() - 1] == current);
            }
            assert(visited@.no_duplicates()) by {
                assert(forall|j: int|
                    0 <= j < old_visited.len() ==> #[trigger] visited@[j] == old_visited[j]);
                assert forall|j1: int, j2: int| 0 <= j1 < j2 < visited@.len() implies visited@[j1]
                    != visited@[j2] by {
                    if j2 == visited@.len() - 1 {
                        assert(old_visited[j1] == visited@[j1]);
                        assert(!old_visited.contains(current));
                    }
                }
            }
            lemma_distinct_in_universe(visited@, univ);
        }
        match find_index_either(open, closed, current) {
            Some(ix) => {
                let node = node_at(open, closed, ix);
                let ghost mid_stack = stack@;
                let deps_len = node.issue.metadata.depends_on.len();
                let mut j: usize = 0;
                while j < deps_len
                    invariant
                        wf_nodes(all),
                        all == open@ + closed@,
                        univ == traversal_universe(all, from),
                        univ.finite(),
                        ix < all.len(),
                        *node == all[ix as int],
                        all[ix as int].id == current,
                        deps_len == all[ix as int].issue.metadata.depends_on@.len(),
                        j <= deps_len,
                        reaches(all, from, current),
                        forall|t: int|
                            0 <= t < stack@.len() ==> reaches(all, from, #[trigger] stack@[t]),
                        forall|t: int|
                            0 <= t < stack@.len() ==> univ.contains(#[trigger] stack@[t]),
                        forall|x: u32| mid_stack.contains(x) ==> stack@.contains(x),
                        forall|t: int|
                            0 <= t < j ==> visited@.contains(
                                #[trigger] all[ix as int].issue.metadata.depends_on@[t],
                            ) || stack@.contains(all[ix as int].issue.metadata.depends_on@[t]),
                    decreases deps_len - j,
                {
                    let dep = node.issue.metadata.depends_on[j];
                    proof {
                        assert(deps_of(all, current).contains(dep)) by {
                            assert(has_node(all, current));
                            let kk = index_of(all, current);
                            assert(all[kk].id == current);
                            assert(kk == ix as int);
                            assert(deps_of(all, current)[j as int] == dep);
                        }
                        assert(dep_edge(all, current, dep));
                    }
                    if !contains_u32(&visited, dep) {
                        let ghost pre = stack@;
                        stack.push(dep);
                        proof {
                            lemma_reaches_step(all, current, dep);
                            lemma_reaches_trans(all, from, current, dep);
                            lemma_deps_union_member(all, ix as int, dep);
                            assert forall|x: u32| pre.contains(x) implies stack@.contains(x) by {
                                let t = choose|t: int| 0 <= t < pre.len() && pre[t] == x;
                                assert(stack@[t] == x);
                            }
                            assert(stack@.contains(dep)) by {
                                assert(stack@[stack@.len() - 1] == dep);
                            }
                        }
                    }
                    j = j + 1;
                }
                proof {
                    assert forall|v: u32, w: u32|
                        visited@.contains(v) && #[trigger] dep_edge(all, v, w)
                            implies visited@.contains(w) || stack@.contains(w) by {
                        if v == current {
                            let kk = index_of(all, current);
                            assert(kk == ix as int);
                            let dl = all[ix as int].issue.metadata.depends_on@;
                            assert(deps_of(all, current) == dl);
                            let t = choose|t: int| 0 <= t < dl.len() && dl[t] == w;
                            assert(visited@.contains(dl[t]) || stack@.contains(dl[t]));
                        } else {
                            assert(old_visited.contains(v));
                        }
                    }
                }
            },
            None => {
                proof {
                    assert forall|v: u32, w: u32|
                        visited@.contains(v) && #[trigger] dep_edge(all, v, w)
                            implies visited@.contains(w) || stack@.contains(w) by {
                        if v == current {
                            assert(has_node(all, current));
                        } else {
                            assert(old_visited.contains(v));
                        }
                    }
                }
            },
        }
    }
    proof {
        lemma_closed_set_unreachable(all, visited@, from, to);
    }
    false
}

/// Depth-first reachability over one working set.
pub fn can_reach(nodes: &Vec<IssueWithId>, from: u32, to: u32) -> (r: bool)
    requires
        wf_nodes(nodes@),
    ensures
        r == reaches(nodes@, from, to),
{
    let empty: Vec<IssueWithId> = Vec::new();
    let n = nodes.len();
    proof {
        assert(nodes@.len() == n);
        assert(nodes@ + empty@ =~= nodes@);
    }
    can_reach_either(nodes, &empty, from, to)
}

} // verus!
