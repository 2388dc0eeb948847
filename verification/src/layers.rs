//! Topological layering of a working set for rendering: every
//! in-working-set prerequisite of an issue in layer `L` sits in a layer
//! below `L`. A round that finds no placeable issue (only possible when
//! the remaining ids hide a cycle, or point outside the working set)
//! dumps everything left into one final layer, so the computation always
//! ends.

use vstd::prelude::*;

use crate::issue::IssueWithId;
use crate::graph::{deps_of, find_index, has_node, index_of, wf_nodes};
use crate::strutil::{contains_u32, sort_distinct, strictly_sorted};

verus! {

/// `id` can be placed once `assigned` is placed: it names an issue of the
/// working set whose every dependency is already placed or outside the
/// id set under layout.
pub open spec fn eligible(
    nodes: Seq<IssueWithId>,
    ids: Set<u32>,
    assigned: Set<u32>,
    id: u32,
) -> bool {
    has_node(nodes, id) && forall|d: u32|
        #[trigger] deps_of(nodes, id).contains(d) ==> assigned.contains(d) || !ids.contains(d)
}

/// The ids that the next layer takes: still unplaced, and eligible.
pub open spec fn eligible_set(nodes: Seq<IssueWithId>, ids: Set<u32>, assigned: Set<u32>) -> Set<
    u32,
> {
    Set::new(
        |id: u32|
            ids.contains(id) && !assigned.contains(id) && eligible(nodes, ids, assigned, id),
    )
}

/// Every id placed by the given layers.
pub open spec fn flat_union(layers: Seq<Vec<u32>>) -> Set<u32>
    decreases layers.len(),
{
    if layers.len() == 0 {
        Set::empty()
    } else {
        flat_union(layers.drop_last()).union(layers.last()@.to_set())
    }
}

/// What one layer of a finished layout must be: nonempty, strictly
/// ascending, and exactly the eligible ids given everything placed below
/// it — or, when nothing is eligible, everything still unplaced (the
/// cycle dump).
pub open spec fn layer_ok(
    nodes: Seq<IssueWithId>,
    ids: Set<u32>,
    layers: Seq<Vec<u32>>,
    lv: int,
) -> bool {
    let assigned = flat_union(layers.subrange(0, lv));
    let el = eligible_set(nodes, ids, assigned);
    strictly_sorted(layers[lv]@) && layers[lv]@.len() > 0 && layers[lv]@.to_set() == (
    if exists|x: u32| el.contains(x) {
        el
    } else {
        ids.difference(assigned)
    })
}

/// Decides `eligible` for one id.
fn layer_eligible(
    issues: &Vec<IssueWithId>,
    issue_ids: &Vec<u32>,
    assigned: &Vec<u32>,
    id: u32,
) -> (r: bool)
    requires
        wf_nodes(issues@),
    ensures
        r == eligible(issues@, issue_ids@.to_set(), assigned@.to_set(), id),
{
    match find_index(issues, id) {
        None => false,
        Some(ix) => {
            let deps_len = issues[ix].issue.metadata.depends_on.len();
            let mut j: usize = 0;
            while j < deps_len
                invariant
                    wf_nodes(issues@),
                    ix < issues@.len(),
                    issues@[ix as int].id == id,
                    deps_len == issues@[ix as int].issue.metadata.depends_on@.len(),
                    j <= deps_len,
                    forall|t: int|
                        0 <= t < j ==> assigned@.to_set().contains(
                            #[trigger] issues@[ix as int].issue.metadata.depends_on@[t],
                        ) || !issue_ids@.to_set().contains(
                            issues@[ix as int].issue.metadata.depends_on@[t],
                        ),
                decreases deps_len - j,
            {
                let dep = issues[ix].issue.metadata.depends_on[j];
                if !contains_u32(assigned, dep) && contains_u32(issue_ids, dep) {
                    proof {
                        assert(has_node(issues@, id));
                        let kk = index_of(issues@, id);
                        assert(kk == ix as int);
                        assert(deps_of(issues@, id)[j as int] == dep);
                        assert(deps_of(issues@, id).contains(dep));
                    }
                    return false;
                }
                j = j + 1;
            }
            proof {
                let kk = index_of(issues@, id);
                assert(kk == ix as int);
                assert forall|d: u32| deps_of(issues@, id).contains(d) implies assigned@.to_set()
                    .contains(d) || !issue_ids@.to_set().contains(d) by {
                    let dl = issues@[ix as int].issue.metadata.depends_on@;
                    let t = choose|t: int| 0 <= t < dl.len() && dl[t] == d;
                    assert(assigned@.to_set().contains(dl[t]) || !issue_ids@.to_set().contains(
                        dl[t]));
                }
            }
            true
        },
    }
}

/// Partitions `issue_ids` into layers: round after round, every id whose
/// in-set prerequisites are all placed joins the next layer, each layer
/// sorted ascending; a round that places nothing dumps all remaining ids
/// into one final layer.
pub fn compute_graph_layers(issue_ids: &Vec<u32>, issues: &Vec<IssueWithId>) -> (r: Vec<Vec<u32>>)
    requires
        wf_nodes(issues@),
        issue_ids@.no_duplicates(),
    ensures
        forall|lv: int|
            0 <= lv < r@.len() ==> #[trigger] layer_ok(issues@, issue_ids@.to_set(), r@, lv),
        flat_union(r@) == issue_ids@.to_set(),
{
    let ghost ids = issue_ids@.to_set();
    let mut layers: Vec<Vec<u32>> = Vec::new();
    let mut assigned: Vec<u32> = Vec::new();
    let mut remaining: Vec<u32> = Vec::new();
    let mut c: usize = 0;
    while c < issue_ids.len()
        invariant
            c <= issue_ids@.len(),
            remaining@ == issue_ids@.subrange(0, c as int),
        decreases issue_ids@.len() - c,
    {
        remaining.push(issue_ids[c]);
        proof {
            assert(remaining@ =~= issue_ids@.subrange(0, (c + 1) as int));
        }
        c = c + 1;
    }
    proof {
        assert(remaining@ =~= issue_ids@);
    }
    loop
        invariant
            wf_nodes(issues@),
            ids == issue_ids@.to_set(),
            remaining@.no_duplicates(),
            remaining@.to_set() == ids.difference(assigned@.to_set()),
            assigned@.to_set() == flat_union(layers@),
            assigned@.to_set().subset_of(ids),
            forall|lv: int|
                0 <= lv < layers@.len() ==> #[trigger] layer_ok(issues@, ids, layers@, lv),
        ensures
            remaining@.len() == 0,
            forall|lv: int|
                0 <= lv < layers@.len() ==> #[trigger] layer_ok(issues@, ids, layers@, lv),
            assigned@.to_set() == flat_union(layers@),
            assigned@.to_set().subset_of(ids),
            remaining@.to_set() == ids.difference(assigned@.to_set()),
        decreases remaining@.len(),
    {
        if remaining.len() == 0 {
            break;
        }
        let ghost old_layers = layers@;
        let ghost old_assigned_set = assigned@.to_set();
        let ghost el = eligible_set(issues@, ids, old_assigned_set);
        let mut layer: Vec<u32> = Vec::new();
        let mut k: usize = 0;
        while k < remaining.len()
            invariant
                wf_nodes(issues@),
                ids == issue_ids@.to_set(),
                k <= remaining@.len(),
                remaining@.no_duplicates(),
                remaining@.to_set() == ids.difference(assigned@.to_set()),
                old_assigned_set == assigned@.to_set(),
                el == eligible_set(issues@, ids, old_assigned_set),
                forall|t: int|
                    0 <= t < layer@.len() ==> el.contains(#[trigger] layer@[t]),
                forall|t: int|
                    0 <= t < k ==> (el.contains(#[trigger] remaining@[t]) <==> layer@.contains(
                        remaining@[t])),
                forall|t: int|
                    0 <= t < layer@.len() ==> remaining@.subrange(0, k as int).contains(
                        #[trigger] layer@[t],
                    ),
                layer@.no_duplicates(),
            decreases remaining@.len() - k,
        {
            let id = remaining[k];
            let ghost old_layer = layer@;
            if layer_eligible(issues, issue_ids, &assigned, id) {
                proof {
                    assert(remaining@.to_set().contains(id)) by {
                        assert(remaining@.contains(id));
                    }
                    assert(el.contains(id));
                    assert(!old_layer.contains(id)) by {
                        if old_layer.contains(id) {
                            let t = choose|t: int|
                                0 <= t < old_layer.len() && old_layer[t] == id;
                            let u = choose|u: int|
                                0 <= u < k && remaining@.subrange(0, k as int)[u] == id;
                            assert(remaining@[u] == id);
                            assert(remaining@[k as int] == id);
                        }
                    }
                }
                layer.push(id);
                proof {
                    assert forall|x: u32| old_layer.contains(x) implies layer@.contains(x) by {
                        let t = choose|t: int| 0 <= t < old_layer.len() && old_layer[t] == x;
                        assert(layer@[t] == x);
                    }
                    assert(layer@[layer@.len() - 1] == id);
                    assert(layer@.contains(id));
                    assert(layer@.no_duplicates()) by {
                        assert(forall|t: int|
                            0 <= t < old_layer.len() ==> #[trigger] layer@[t] == old_layer[t]);
                        assert forall|t1: int, t2: int|
                            0 <= t1 < t2 < layer@.len() implies layer@[t1] != layer@[t2] by {
                            if t2 == layer@.len() - 1 {
                                assert(old_layer[t1] == layer@[t1]);
                            }
                        }
                    }
                    assert forall|t: int|
                        0 <= t < layer@.len() implies remaining@.subrange(0, (k + 1) as int)
                            .contains(#[trigger] layer@[t]) by {
                        if t < layer@.len() - 1 {
                            let u = choose|u: int|
                                0 <= u < k && remaining@.subrange(0, k as int)[u] == layer@[t];
                            assert(remaining@.subrange(0, (k + 1) as int)[u] == layer@[t]);
                        } else {
                            assert(remaining@.subrange(0, (k + 1) as int)[k as int] == id);
                        }
                    }
                }
            } else {
                proof {
                    assert(!el.contains(id));
                    assert forall|t: int|
                        0 <= t < layer@.len() implies remaining@.subrange(0, (k + 1) as int)
                            .contains(#[trigger] layer@[t]) by {
                        let u = choose|u: int|
                            0 <= u < k && remaining@.subrange(0, k as int)[u] == layer@[t];
                        assert(remaining@.subrange(0, (k + 1) as int)[u] == layer@[t]);
                    }
                }
            }
            k = k + 1;
        }
        proof {
            assert(remaining@.subrange(0, remaining@.len() as int) =~= remaining@);
        }
        let ghost scan_layer = layer@;
        // All eligible ids are in `layer`; if none was, dump the rest.
        let dumped = layer.len() == 0;
        if dumped {
            let mut t: usize = 0;
            while t < remaining.len()
                invariant
                    t <= remaining@.len(),
                    layer@ == remaining@.subrange(0, t as int),
                decreases remaining@.len() - t,
            {
                layer.push(remaining[t]);
                proof {
                    assert(layer@ =~= remaining@.subrange(0, (t + 1) as int));
                }
                t = t + 1;
            }
            proof {
                assert(layer@ =~= remaining@);
            }
        }
        proof {
            if dumped {
                assert forall|x: u32| !el.contains(x) by {
                    if el.contains(x) {
                        assert(ids.contains(x) && !old_assigned_set.contains(x));
                        assert(remaining@.to_set().contains(x));
                        assert(remaining@.contains(x));
                        let u = choose|u: int|
                            0 <= u < remaining@.len() && remaining@[u] == x;
                        assert(scan_layer.contains(remaining@[u]));
                        assert(false);
                    }
                }
                assert(layer@.to_set() =~= ids.difference(old_assigned_set)) by {
                    assert(layer@ == remaining@);
                }
            } else {
                assert(layer@.to_set() =~= el) by {
                    assert forall|x: u32| layer@.to_set().contains(x) implies el.contains(x) by {
                        let t = choose|t: int| 0 <= t < layer@.len() && layer@[t] == x;
                        assert(el.contains(layer@[t]));
                    }
                    assert forall|x: u32| el.contains(x) implies layer@.to_set().contains(x) by {
                        assert(ids.contains(x) && !old_assigned_set.contains(x));
                        assert(remaining@.to_set().contains(x));
                        assert(remaining@.contains(x));
                        let u = choose|u: int|
                            0 <= u < remaining@.len() && remaining@[u] == x;
                        assert(el.contains(remaining@[u]) <==> layer@.contains(remaining@[u]));
                    }
                }
                assert(exists|x: u32| el.contains(x)) by {
                    assert(layer@.len() > 0);
                    assert(el.contains(layer@[0]));
                }
            }
        }
        let ghost layer_set = layer@.to_set();
        sort_distinct(&mut layer);
        let ghost sorted_layer = layer@;
        let layer_len = layer.len();
        // Move the layer's ids from `remaining` to `assigned`.
        let mut new_remaining: Vec<u32> = Vec::new();
        let mut t: usize = 0;
        while t < remaining.len()
            invariant
                t <= remaining@.len(),
                remaining@.no_duplicates(),
                sorted_layer == layer@,
                layer_set == layer@.to_set(),
                forall|u: int|
                    0 <= u < new_remaining@.len() ==> remaining@.subrange(0, t as int).contains(
                        #[trigger] new_remaining@[u],
                    ) && !layer_set.contains(new_remaining@[u]),
                forall|w: int|
                    0 <= w < t ==> layer_set.contains(#[trigger] remaining@[w])
                        || new_remaining@.contains(remaining@[w]),
                new_remaining@.no_duplicates(),
            decreases remaining@.len() - t,
        {
            let id = remaining[t];
            let ghost old_new = new_remaining@;
            if !contains_u32(&layer, id) {
                proof {
                    assert(!layer_set.contains(id));
                    assert(!old_new.contains(id)) by {
                        if old_new.contains(id) {
                            let u = choose|u: int| 0 <= u < old_new.len() && old_new[u] == id;
                            assert(remaining@.subrange(0, t as int).contains(old_new[u]));
                            let w = choose|w: int|
                                0 <= w < t && remaining@.subrange(0, t as int)[w] == id;
                            assert(remaining@[w] == id);
                            assert(remaining@[t as int] == id);
                        }
                    }
                }
                new_remaining.push(id);
                proof {
                    assert(forall|u: int|
                        0 <= u < old_new.len() ==> #[trigger] new_remaining@[u] == old_new[u]);
                    assert(new_remaining@[new_remaining@.len() - 1] == id);
                    assert(new_remaining@.no_duplicates()) by {
                        assert forall|u1: int, u2: int|
                            0 <= u1 < u2 < new_remaining@.len() implies new_remaining@[u1]
                            != new_remaining@[u2] by {
                            if u2 == new_remaining@.len() - 1 {
                                assert(old_new[u1] == new_remaining@[u1]);
                            }
                        }
                    }
                    assert forall|u: int| 0 <= u < new_remaining@.len() implies remaining@.subrange(
                        0,
                        (t + 1) as int,
                    ).contains(#[trigger] new_remaining@[u]) && !layer_set.contains(
                        new_remaining@[u],
                    ) by {
                        if u < new_remaining@.len() - 1 {
                            let w = choose|w: int|
                                0 <= w < t && remaining@.subrange(0, t as int)[w]
                                    == new_remaining@[u];
                            assert(remaining@.subrange(0, (t + 1) as int)[w] == new_remaining@[u]);
                        } else {
                            assert(remaining@.subrange(0, (t + 1) as int)[t as int] == id);
                        }
                    }
                    assert forall|w: int| 0 <= w < t + 1 implies layer_set.contains(
                        #[trigger] remaining@[w],
                    ) || new_remaining@.contains(remaining@[w]) by {
                        if w < t {
                            if !layer_set.contains(remaining@[w]) {
                                assert(old_new.contains(remaining@[w]));
                                let u = choose|u: int|
                                    0 <= u < old_new.len() && old_new[u] == remaining@[w];
                                assert(new_remaining@[u] == remaining@[w]);
                            }
                        } else {
                            assert(new_remaining@[new_remaining@.len() - 1] == remaining@[w]);
                        }
                    }
                }
            } else {
                proof {
                    assert(layer_set.contains(id)) by {
                        assert(layer@.contains(id));
                    }
                    assert forall|u: int| 0 <= u < new_remaining@.len() implies remaining@.subrange(
                        0,
                        (t + 1) as int,
                    ).contains(#[trigger] new_remaining@[u]) && !layer_set.contains(
                        new_remaining@[u],
                    ) by {
                        let w = choose|w: int|
                            0 <= w < t && remaining@.subrange(0, t as int)[w] == new_remaining@[u];
                        assert(remaining@.subrange(0, (t + 1) as int)[w] == new_remaining@[u]);
                    }
                }
            }
            t = t + 1;
        }
        proof {
            assert(remaining@.subrange(0, remaining@.len() as int) =~= remaining@);
        }
        // Record the layer.
        let ghost old_assigned = assigned@;
        let mut a: usize = 0;
        while a < layer_len
            invariant
                a <= layer_len,
                layer_len == layer@.len(),
                sorted_layer == layer@,
                assigned@ == old_assigned + layer@.subrange(0, a as int),
            decreases layer_len - a,
        {
            assigned.push(layer[a]);
            proof {
                assert(assigned@ =~= old_assigned + layer@.subrange(0, (a + 1) as int));
            }
            a = a + 1;
        }
        proof {
            assert(layer@.subrange(0, layer@.len() as int) =~= layer@);
            assert(assigned@.to_set() =~= old_assigned_set.union(layer_set)) by {
                assert(assigned@ == old_assigned + layer@);
                assert forall|x: u32| assigned@.contains(x) implies old_assigned.contains(x)
                    || layer@.contains(x) by {
                    let u = choose|u: int| 0 <= u < assigned@.len() && assigned@[u] == x;
                    if u < old_assigned.len() {
                        assert(old_assigned[u] == x);
                    } else {
                        assert(layer@[u - old_assigned.len()] == x);
                    }
                }
                assert forall|x: u32| old_assigned.contains(x) implies assigned@.contains(x) by {
                    let u = choose|u: int| 0 <= u < old_assigned.len() && old_assigned[u] == x;
                    assert(assigned@[u] == x);
                }
                assert forall|x: u32| layer@.contains(x) implies assigned@.contains(x) by {
                    let u = choose|u: int| 0 <= u < layer@.len() && layer@[u] == x;
                    assert(assigned@[old_assigned.len() + u] == x);
                }
            }
        }
        let ghost pre_layers = layers@;
        layers.push(layer);
        proof {
            assert(layers@.drop_last() =~= pre_layers);
            assert(layers@.last()@ == sorted_layer);
            assert(flat_union(layers@) == flat_union(pre_layers).union(sorted_layer.to_set()));
            assert(sorted_layer.to_set() == layer_set);
            // Each previously recorded layer keeps its meaning: its prefix
            // is unchanged.
            assert forall|lv: int| 0 <= lv < layers@.len() implies #[trigger] layer_ok(
                issues@,
                ids,
                layers@,
                lv,
            ) by {
                if lv < pre_layers.len() {
                    assert(layers@.subrange(0, lv) =~= pre_layers.subrange(0, lv));
                    assert(layers@[lv] == pre_layers[lv]);
                    assert(layer_ok(issues@, ids, pre_layers, lv));
                } else {
                    assert(layers@.subrange(0, lv) =~= pre_layers);
                    assert(layers@[lv]@ == sorted_layer);
                    assert(flat_union(pre_layers) == old_assigned_set);
                }
            }
            // The new remaining set.
            assert(new_remaining@.to_set() =~= ids.difference(assigned@.to_set())) by {
                assert forall|x: u32|
                    new_remaining@.to_set().contains(x) implies ids.difference(
                    assigned@.to_set(),
                ).contains(x) by {
                    assert(new_remaining@.contains(x));
                    let u = choose|u: int|
                        0 <= u < new_remaining@.len() && new_remaining@[u] == x;
                    assert(remaining@.contains(new_remaining@[u]));
                    assert(!layer_set.contains(new_remaining@[u]));
                    assert(remaining@.to_set().contains(x));
                    assert(ids.contains(x) && !old_assigned_set.contains(x));
                    assert(!assigned@.to_set().contains(x));
                }
                assert forall|x: u32|
                    ids.difference(assigned@.to_set()).contains(x)
                        implies new_remaining@.to_set().contains(x) by {
                    assert(!old_assigned_set.contains(x) && !layer_set.contains(x));
                    assert(remaining@.to_set().contains(x));
                    assert(remaining@.contains(x));
                    let w = choose|w: int| 0 <= w < remaining@.len() && remaining@[w] == x;
                    assert(layer_set.contains(remaining@[w]) || new_remaining@.contains(
                        remaining@[w]));
                    assert(new_remaining@.contains(x));
                }
            }
        }
        // Progress: the layer was nonempty and drawn from `remaining`.
        proof {
            assert(sorted_layer.len() > 0);
            let x0 = sorted_layer[0];
            assert(layer_set.contains(x0)) by {
                assert(sorted_layer.contains(x0));
            }
            assert(remaining@.contains(x0)) by {
                assert(remaining@.to_set().contains(x0)) by {
                    if exists|x: u32| el.contains(x) {
                        assert(ids.contains(x0) && !old_assigned_set.contains(x0));
                    } else {
                        assert(ids.difference(old_assigned_set).contains(x0));
                    }
                }
            }
            assert(!new_remaining@.contains(x0)) by {
                if new_remaining@.contains(x0) {
                    let u = choose|u: int|
                        0 <= u < new_remaining@.len() && new_remaining@[u] == x0;
                    assert(!layer_set.contains(new_remaining@[u]));
                }
            }
            // A duplicate-free list missing one element of another is
            // strictly shorter.
            new_remaining@.unique_seq_to_set();
            remaining@.unique_seq_to_set();
            assert(new_remaining@.to_set().subset_of(remaining@.to_set().remove(x0))) by {
                assert forall|x: u32| new_remaining@.to_set().contains(x)
                    implies remaining@.to_set().remove(x0).contains(x) by {
                    assert(new_remaining@.contains(x));
                    assert(remaining@.contains(x) && !layer_set.contains(x));
                    assert(x != x0);
                }
            }
            broadcast use vstd::seq_lib::seq_to_set_is_finite;

            assert(remaining@.to_set().finite());
            assert(remaining@.to_set().remove(x0).len() == remaining@.to_set().len() - 1) by {
                assert(remaining@.to_set().contains(x0));
            }
            vstd::set_lib::lemma_len_subset(
                new_remaining@.to_set(),
                remaining@.to_set().remove(x0),
            );
            assert(new_remaining@.len() < remaining@.len());
        }
        remaining = new_remaining;
    }
    proof {
        assert(flat_union(layers@) =~= ids) by {
            assert forall|x: u32| ids.contains(x) implies flat_union(layers@).contains(x) by {
                if !assigned@.to_set().contains(x) {
                    assert(ids.difference(assigned@.to_set()).contains(x));
                    assert(remaining@.to_set().contains(x));
                    assert(remaining@.contains(x));
                }
            }
        }
    }
    layers
}

} // verus!
