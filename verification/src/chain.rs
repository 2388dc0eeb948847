//! The critical path: a longest simple chain of issues in which each
//! issue depends on the one before it. Found by exhaustive depth-first
//! search over simple chains — acceptable for small, sparse issue graphs
//! — with the chain-so-far doubling as the visited set, so a cyclic
//! working set only ever cuts a branch short.

use vstd::prelude::*;

use crate::issue::IssueWithId;
use crate::graph::{dep_edge, deps_of, has_node, id_set, index_of, wf_nodes};
use crate::strutil::{contains_u32, copy_ids};

verus! {

/// A dependency chain: issues of the working set, each depending on its
/// predecessor. The empty sequence is a chain.
pub open spec fn is_chain(nodes: Seq<IssueWithId>, p: Seq<u32>) -> bool {
    (forall|k: int| 0 <= k < p.len() ==> has_node(nodes, #[trigger] p[k])) && (forall|k: int|
        0 <= k < p.len() - 1 ==> dep_edge(nodes, #[trigger] p[k + 1], p[k]))
}

/// A simple chain visits at most as many issues as the working set has.
proof fn lemma_chain_len_bounded(nodes: Seq<IssueWithId>, p: Seq<u32>)
    requires
        is_chain(nodes, p),
        p.no_duplicates(),
    ensures
        p.len() <= nodes.len(),
{
    broadcast use vstd::seq_lib::seq_to_set_is_finite;

    assert forall|k: int| 0 <= k < p.len() implies id_set(nodes).contains(#[trigger] p[k]) by {
        let t = choose|t: int| 0 <= t < nodes.len() && #[trigger] nodes[t].id == p[k];
        let ids = nodes.map_values(|n: IssueWithId| n.id);
        assert(ids[t] == p[k]);
        assert(ids.contains(p[k]));
    }
    crate::graph::lemma_distinct_in_universe(p, id_set(nodes));
    nodes.map_values(|n: IssueWithId| n.id).lemma_cardinality_of_set();
}

/// Extends the chain `current` with `id`, records it in `longest` if it
/// beats it, and searches on through every issue that depends on `id`
/// and is not already on the chain. Afterwards `longest` bounds every
/// simple chain that extends `current + [id]`.
fn find_chain(issues: &Vec<IssueWithId>, id: u32, current: &mut Vec<u32>, longest: &mut Vec<u32>)
    requires
        wf_nodes(issues@),
        is_chain(issues@, old(current)@.push(id)),
        old(current)@.push(id).no_duplicates(),
        is_chain(issues@, old(longest)@),
        old(longest)@.no_duplicates(),
    ensures
        final(current)@ == old(current)@,
        is_chain(issues@, final(longest)@),
        final(longest)@.no_duplicates(),
        final(longest)@.len() >= old(longest)@.len(),
        forall|ext: Seq<u32>|
            is_chain(issues@, old(current)@.push(id) + ext) && (old(current)@.push(id)
                + ext).no_duplicates() ==> (old(current)@.push(id) + ext).len()
                <= final(longest)@.len(),
    decreases issues@.len() - old(current)@.len(),
{
    let ghost base = current@.push(id);
    current.push(id);
    proof {
        assert(current@ == base);
        lemma_chain_len_bounded(issues@, base);
    }
    if current.len() > longest.len() {
        let copy = copy_ids(current);
        *longest = copy;
        proof {
            assert(base + Seq::<u32>::empty() =~= base);
        }
    } else {
        proof {
            assert(base + Seq::<u32>::empty() =~= base);
        }
    }
    let mut k: usize = 0;
    while k < issues.len()
        invariant
            wf_nodes(issues@),
            k <= issues@.len(),
            current@ == base,
            base == old(current)@.push(id),
            base.len() <= issues@.len(),
            is_chain(issues@, base),
            base.no_duplicates(),
            is_chain(issues@, longest@),
            longest@.no_duplicates(),
            longest@.len() >= old(longest)@.len(),
            base.len() <= longest@.len(),
            forall|ext: Seq<u32>|
                is_chain(issues@, base + ext) && (base + ext).no_duplicates() && (ext.len() == 0
                    || (0 <= index_of(issues@, ext[0]) < k)) ==> (base + ext).len()
                    <= longest@.len(),
        decreases issues@.len() - k,
    {
        let next = issues[k].id;
        let deps_has = contains_u32(&issues[k].issue.metadata.depends_on, id);
        let on_chain = contains_u32(current, next);
        if deps_has && !on_chain {
            proof {
                assert(has_node(issues@, next)) by {
                    assert(issues@[k as int].id == next);
                }
                let kk = index_of(issues@, next);
                assert(kk == k as int);
                assert(deps_of(issues@, next).contains(id));
                assert(dep_edge(issues@, next, id));
                assert(is_chain(issues@, base.push(next))) by {
                    assert forall|t: int| 0 <= t < base.push(next).len() - 1 implies dep_edge(
                        issues@,
                        #[trigger] base.push(next)[t + 1],
                        base.push(next)[t],
                    ) by {
                        if t < base.len() - 1 {
                            assert(base.push(next)[t + 1] == base[t + 1]);
                            assert(base.push(next)[t] == base[t]);
                        } else {
                            assert(base.push(next)[t + 1] == next);
                            assert(base.push(next)[t] == base.last());
                            assert(base.last() == id);
                        }
                    }
                }
                assert(base.push(next).no_duplicates());
            }
            let ghost pre_longest = longest@;
            find_chain(issues, next, current, longest);
            proof {
                // Chains whose next step is this issue are now bounded.
                assert forall|ext: Seq<u32>|
                    is_chain(issues@, base + ext) && (base + ext).no_duplicates() && (ext.len()
                        == 0 || (0 <= index_of(issues@, ext[0]) < k + 1)) implies (base
                    + ext).len() <= longest@.len() by {
                    if ext.len() == 0 {
                        assert((base + ext) =~= base);
                    } else if 0 <= index_of(issues@, ext[0]) < k {
                        assert((base + ext).len() <= pre_longest.len());
                    } else {
                        // ext starts at this issue.
                        assert(ext[0] == next) by {
                            assert((base + ext)[base.len() as int] == ext[0]);
                            assert(is_chain(issues@, base + ext));
                            assert(has_node(issues@, ext[0])) by {
                                assert((base + ext)[base.len() as int] == ext[0]);
                            }
                            let kk2 = index_of(issues@, ext[0]);
                            assert(issues@[kk2].id == ext[0]);
                            assert(kk2 == k as int);
                            assert(issues@[k as int].id == next);
                        }
                        let ext2 = ext.drop_first();
                        assert(base.push(next) + ext2 =~= base + ext);
                        assert((base.push(next) + ext2).len() <= longest@.len());
                    }
                }
            }
        } else {
            proof {
                assert forall|ext: Seq<u32>|
                    is_chain(issues@, base + ext) && (base + ext).no_duplicates() && (ext.len()
                        == 0 || (0 <= index_of(issues@, ext[0]) < k + 1)) implies (base
                    + ext).len() <= longest@.len() by {
                    if ext.len() == 0 || 0 <= index_of(issues@, ext[0]) < k {
                    } else {
                        assert(ext[0] == next) by {
                            assert((base + ext)[base.len() as int] == ext[0]);
                            assert(has_node(issues@, ext[0]));
                            let kk2 = index_of(issues@, ext[0]);
                            assert(issues@[kk2].id == ext[0]);
                            assert(kk2 == k as int);
                        }
                        if !deps_has {
                            // No edge from this issue back to `id`.
                            assert(dep_edge(issues@, (base + ext)[base.len() as int], (base
                                + ext)[base.len() - 1]));
                            assert((base + ext)[base.len() - 1] == base.last());
                            assert(base.last() == id);
                            let kk2 = index_of(issues@, next);
                            assert(kk2 == k as int);
                            assert(deps_of(issues@, next).contains(id));
                            assert(issues@[k as int].issue.metadata.depends_on@.contains(id));
                            assert(false);
                        } else {
                            // `next` is already on the chain: no simple
                            // extension can start with it.
                            assert(base.contains(next));
                            let u = choose|u: int| 0 <= u < base.len() && base[u] == next;
                            assert((base + ext)[u] == next);
                            assert((base + ext)[base.len() as int] == next);
                            assert(!(base + ext).no_duplicates());
                            assert(false);
                        }
                    }
                }
            }
        }
        k = k + 1;
    }
    proof {
        // Every simple extension starts at some issue of the working set.
        assert forall|ext: Seq<u32>|
            is_chain(issues@, base + ext) && (base + ext).no_duplicates() implies (base
            + ext).len() <= longest@.len() by {
            if ext.len() > 0 {
                assert(has_node(issues@, ext[0])) by {
                    assert((base + ext)[base.len() as int] == ext[0]);
                }
                let kk2 = index_of(issues@, ext[0]);
                assert(issues@[kk2].id == ext[0]);
                assert(0 <= kk2 < issues@.len());
            }
        }
    }
    let _popped = current.pop();
    proof {
        assert(current@ =~= old(current)@);
    }
}

/// A longest simple dependency chain of the working set: consecutive
/// issues are joined by "depends on", no issue repeats, and no simple
/// chain in the working set is longer. Empty exactly when the working
/// set is empty. Ties go to the first chain found, searching issues in
/// the order given.
pub fn longest_chain(issues: &Vec<IssueWithId>) -> (r: Vec<u32>)
    requires
        wf_nodes(issues@),
    ensures
        is_chain(issues@, r@),
        r@.no_duplicates(),
        forall|p: Seq<u32>|
            is_chain(issues@, p) && p.no_duplicates() ==> p.len() <= r@.len(),
{
    let mut longest: Vec<u32> = Vec::new();
    let mut i: usize = 0;
    while i < issues.len()
        invariant
            wf_nodes(issues@),
            i <= issues@.len(),
            is_chain(issues@, longest@),
            longest@.no_duplicates(),
            forall|p: Seq<u32>|
                is_chain(issues@, p) && p.no_duplicates() && (p.len() == 0 || (0 <= index_of(
                    issues@,
                    p[0],
                ) < i)) ==> p.len() <= longest@.len(),
        decreases issues@.len() - i,
    {
        let start = issues[i].id;
        let mut current: Vec<u32> = Vec::new();
        proof {
            assert(has_node(issues@, start)) by {
                assert(issues@[i as int].id == start);
            }
            assert(is_chain(issues@, current@.push(start))) by {
                assert(current@.push(start)[0] == start);
            }
            assert(current@.push(start).no_duplicates());
        }
        let ghost pre_longest = longest@;
        find_chain(issues, start, &mut current, &mut longest);
        proof {
            assert forall|p: Seq<u32>|
                is_chain(issues@, p) && p.no_duplicates() && (p.len() == 0 || (0 <= index_of(
                    issues@,
                    p[0],
                ) < i + 1)) implies p.len() <= longest@.len() by {
                if p.len() == 0 {
                } else if 0 <= index_of(issues@, p[0]) < i {
                    assert(p.len() <= pre_longest.len());
                } else {
                    assert(p[0] == start) by {
                        let kk = index_of(issues@, p[0]);
                        assert(issues@[kk].id == p[0]);
                        assert(kk == i as int);
                    }
                    let ext = p.drop_first();
                    assert(Seq::<u32>::empty().push(start) + ext =~= p);
                }
            }
        }
        i = i + 1;
    }
    proof {
        assert forall|p: Seq<u32>|
            is_chain(issues@, p) && p.no_duplicates() implies p.len() <= longest@.len() by {
            if p.len() > 0 {
                assert(has_node(issues@, p[0]));
                let kk = index_of(issues@, p[0]);
                assert(issues@[kk].id == p[0]);
            }
        }
    }
    longest
}

} // verus!
