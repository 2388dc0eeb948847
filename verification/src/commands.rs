//! The operations the tracker offers, over an in-memory repository
//! model: reading and changing issue records, guarding and mutating
//! dependency edges, and the read-only graph analyses. The caller loads
//! the repository into `Storage`, runs an operation, and persists what
//! changed; rendering and I/O stay outside.

use vstd::prelude::*;

use crate::config::Config;
use crate::errors::TrackerError;
use crate::issue::{Issue, IssueWithId, Status};
use crate::graph::{can_reach_either, has_node, index_of, reaches, wf_nodes};
use crate::layers::{flat_union, layer_ok};
use crate::cycles::{cycle_group_ok, in_cycle};
use crate::chain::is_chain;
use crate::closure::connected;
use crate::mutate::{apply_edges, depend_outcome, edges_applied, sorted_store};
use crate::storage::{
    max_id, record_changed, record_file_name, resolve_spec, RecordChange, Storage,
};
use crate::strutil::strictly_sorted;

verus! {

/// What creating an issue reports: its number, title and record file.
#[derive(Debug, Clone)]
pub struct CreateIssueResult {
    pub bug_num: u32,
    pub title: String,
    pub path: String,
}

/// What a status change reports.
#[derive(Debug, Clone)]
pub struct StatusUpdateResult {
    pub bug_num: u32,
    pub status: String,
    pub message: Option<String>,
}

/// What an edge request reports: the resolved ids and the subject's new
/// dependency list.
#[derive(Debug, Clone)]
pub struct DependResult {
    pub bug_num: u32,
    pub added: Vec<u32>,
    pub removed: Vec<u32>,
    pub depends_on: Vec<u32>,
}

/// What a dependency query reports: what the issue waits for and which
/// open issues wait for it.
#[derive(Debug, Clone)]
pub struct DependenciesResult {
    pub bug_num: u32,
    pub depends_on: Vec<u32>,
    pub blocks: Vec<u32>,
}

/// References resolved one after another; the first failure wins.
pub open spec fn resolve_all(aliases: Seq<(String, u32)>, refs: Seq<String>) -> Result<
    Seq<u32>,
    TrackerError,
>
    decreases refs.len(),
{
    if refs.len() == 0 {
        Ok(Seq::empty())
    } else {
        match resolve_spec(aliases, refs[0]@) {
            Err(e) => Err(e),
            Ok(n) => match resolve_all(aliases, refs.drop_first()) {
                Err(e) => Err(e),
                Ok(rest) => Ok(seq![n] + rest),
            },
        }
    }
}

/// With every earlier reference resolved, `resolve_all` either carries
/// the collected ids through or stops at index `j`.
proof fn lemma_resolve_all_at(
    aliases: Seq<(String, u32)>,
    refs: Seq<String>,
    j: int,
    acc: Seq<u32>,
)
    requires
        0 <= j <= refs.len(),
        acc.len() == j,
        forall|t: int|
            0 <= t < j ==> resolve_spec(aliases, (#[trigger] refs[t])@) == Ok::<u32, TrackerError>(
                acc[t],
            ),
        j < refs.len() ==> resolve_spec(aliases, refs[j]@) is Err,
    ensures
        resolve_all(aliases, refs) == (if j == refs.len() {
            Ok::<Seq<u32>, TrackerError>(acc)
        } else {
            Err(resolve_spec(aliases, refs[j]@).get_Err_0())
        }),
    decreases refs.len(),
{
    if refs.len() == 0 {
        assert(acc =~= Seq::<u32>::empty());
    } else if j == 0 {
    } else {
        assert(resolve_spec(aliases, refs[0]@) == Ok::<u32, TrackerError>(acc[0]));
        let rest = refs.drop_first();
        let acc2 = acc.drop_first();
        assert(forall|t: int| 0 <= t < j - 1 ==> #[trigger] rest[t] == refs[t + 1]);
        assert(forall|t: int| 0 <= t < j - 1 ==> #[trigger] acc2[t] == acc[t + 1]);
        lemma_resolve_all_at(aliases, rest, j - 1, acc2);
        if j == refs.len() {
            assert(seq![acc[0]] + acc2 =~= acc);
        } else {
            assert(rest[j - 1] == refs[j]);
        }
    }
}

/// The commands of the tracker, bound to a repository model and a
/// configuration.
#[derive(Debug, Clone)]
pub struct Commands {
    pub storage: Storage,
    pub config: Config,
}

impl Commands {
    /// Binds the commands to a loaded repository and configuration.
    pub fn new(storage: Storage, config: Config) -> (r: Commands)
        ensures
            r.storage == storage,
            r.config == config,
    {
        Commands { storage, config }
    }

    /// The configuration in use.
    pub fn config(&self) -> (r: &Config)
        ensures
            r == self.config,
    {
        &self.config
    }

    /// The repository model in use.
    pub fn storage(&self) -> (r: &Storage)
        ensures
            r == self.storage,
    {
        &self.storage
    }

    /// Whether making `bug_num` depend on `dep_num` would close a cycle:
    /// exactly when the subject is already reachable from the candidate
    /// dependency along existing edges. Requesting a self-dependency
    /// therefore always answers yes.
    pub fn would_create_cycle(&self, bug_num: u32, dep_num: u32) -> (r: bool)
        requires
            self.storage.wf(),
        ensures
            r == reaches(self.storage.working_set(), dep_num, bug_num),
    {
        can_reach_either(
            &self.storage.open_issues,
            &self.storage.closed_issues,
            dep_num,
            bug_num,
        )
    }

    /// All dependency cycles among the open issues; empty exactly when
    /// they are acyclic.
    pub fn find_cycles(&self) -> (r: Vec<Vec<u32>>)
        requires
            self.storage.wf(),
        ensures
            forall|g: int|
                0 <= g < r@.len() ==> cycle_group_ok(self.storage.open_issues@, #[trigger] r@[g]@),
            forall|v: u32|
                #[trigger] flat_union(r@).contains(v) <==> has_node(self.storage.open_issues@, v)
                    && in_cycle(self.storage.open_issues@, v),
            forall|g1: int, g2: int, x: u32|
                0 <= g1 < g2 < r@.len() && #[trigger] r@[g1]@.contains(x) ==> !(#[trigger] r@[g2]@
                    .contains(x)),
    {
        proof {
            lemma_wf_prefix(self.storage.open_issues@, self.storage.closed_issues@);
        }
        crate::cycles::find_cycles(&self.storage.open_issues)
    }

    /// A longest simple dependency chain among the open issues.
    pub fn critical_path_data(&self) -> (r: Vec<u32>)
        requires
            self.storage.wf(),
        ensures
            is_chain(self.storage.open_issues@, r@),
            r@.no_duplicates(),
            forall|p: Seq<u32>|
                is_chain(self.storage.open_issues@, p) && p.no_duplicates() ==> p.len() <= r@.len(),
    {
        proof {
            lemma_wf_prefix(self.storage.open_issues@, self.storage.closed_issues@);
        }
        crate::chain::longest_chain(&self.storage.open_issues)
    }

    /// Everything connected to `root` among the open issues, following
    /// edges both ways, in ascending order.
    pub fn get_dependency_closure(&self, root: u32) -> (r: Vec<u32>)
        requires
            self.storage.wf(),
        ensures
            strictly_sorted(r@),
            forall|y: u32| r@.contains(y) <==> connected(self.storage.open_issues@, root, y),
    {
        proof {
            lemma_wf_prefix(self.storage.open_issues@, self.storage.closed_issues@);
        }
        crate::closure::get_dependency_closure(root, &self.storage.open_issues)
    }

    /// Topological layers of the given open issues, for rendering.
    pub fn compute_graph_layers(&self, issue_ids: &Vec<u32>) -> (r: Vec<Vec<u32>>)
        requires
            self.storage.wf(),
            issue_ids@.no_duplicates(),
        ensures
            forall|lv: int|
                0 <= lv < r@.len() ==> #[trigger] layer_ok(
                    self.storage.open_issues@,
                    issue_ids@.to_set(),
                    r@,
                    lv,
                ),
            flat_union(r@) == issue_ids@.to_set(),
    {
        proof {
            lemma_wf_prefix(self.storage.open_issues@, self.storage.closed_issues@);
        }
        crate::layers::compute_graph_layers(issue_ids, &self.storage.open_issues)
    }


    /// The graph view's working set and layout: the closure of the focus
    /// issue when one is given, else every open issue; partitioned into
    /// topological layers.
    pub fn deps_graph_data(&self, focus: Option<&str>) -> (r: Result<
        (Vec<u32>, Vec<Vec<u32>>),
        TrackerError,
    >)
        requires
            self.storage.wf(),
        ensures
            match r {
                Ok(p) => {
                    &&& p.0@.no_duplicates()
                    &&& (match focus {
                        Some(f) => resolve_spec(self.storage.aliases@, f@) is Ok && (forall|y: u32|
                            p.0@.contains(y) <==> connected(
                                self.storage.open_issues@,
                                resolve_spec(self.storage.aliases@, f@).get_Ok_0(),
                                y,
                            )),
                        None => p.0@ == self.storage.open_issues@.map_values(
                            |n: IssueWithId| n.id,
                        ),
                    })
                    &&& (forall|lv: int|
                        0 <= lv < p.1@.len() ==> #[trigger] layer_ok(
                            self.storage.open_issues@,
                            p.0@.to_set(),
                            p.1@,
                            lv,
                        ))
                    &&& flat_union(p.1@) == p.0@.to_set()
                },
                Err(e) => {
                    focus matches Some(f) && Err::<u32, TrackerError>(e) == resolve_spec(
                        self.storage.aliases@,
                        f@,
                    )
                },
            },
    {
        let ids: Vec<u32> = match focus {
            Some(f) => {
                let num = match self.storage.resolve_bug_ref(f) {
                    Ok(n) => n,
                    Err(e) => {
                        return Err(e);
                    },
                };
                let c = self.get_dependency_closure(num);
                proof {
                    crate::strutil::lemma_strictly_sorted_no_duplicates(c@);
                }
                c
            },
            None => {
                let mut ids: Vec<u32> = Vec::new();
                let mut k: usize = 0;
                while k < self.storage.open_issues.len()
                    invariant
                        self.storage.wf(),
                        k <= self.storage.open_issues@.len(),
                        ids@ == self.storage.open_issues@.subrange(0, k as int).map_values(
                            |n: IssueWithId| n.id,
                        ),
                    decreases self.storage.open_issues@.len() - k,
                {
                    ids.push(self.storage.open_issues[k].id);
                    proof {
                        assert(ids@ =~= self.storage.open_issues@.subrange(
                            0,
                            (k + 1) as int,
                        ).map_values(|n: IssueWithId| n.id));
                    }
                    k = k + 1;
                }
                proof {
                    assert(self.storage.open_issues@.subrange(
                        0,
                        self.storage.open_issues@.len() as int,
                    ) =~= self.storage.open_issues@);
                    lemma_wf_prefix(self.storage.open_issues@, self.storage.closed_issues@);
                    assert(ids@.no_duplicates()) by {
                        let m = self.storage.open_issues@.map_values(|n: IssueWithId| n.id);
                        assert forall|u1: int, u2: int|
                            0 <= u1 < u2 < m.len() implies m[u1] != m[u2] by {
                            assert(self.storage.open_issues@[u1].id
                                != self.storage.open_issues@[u2].id);
                        }
                    }
                }
                ids
            },
        };
        let layers = self.compute_graph_layers(&ids);
        Ok((ids, layers))
    }

    /// What an issue depends on, and which open issues depend on it.
    pub fn dependencies_data(&self, bug_ref: &str) -> (r: Result<DependenciesResult, TrackerError>)
        requires
            self.storage.wf(),
        ensures
            match r {
                Ok(res) => {
                    let ws = self.storage.working_set();
                    &&& resolve_spec(self.storage.aliases@, bug_ref@) == Ok::<u32, TrackerError>(
                        res.bug_num,
                    )
                    &&& has_node(ws, res.bug_num)
                    &&& res.depends_on@ == ws[index_of(ws, res.bug_num)].issue.metadata.depends_on@
                    &&& res.blocks@.no_duplicates()
                    &&& (forall|x: u32|
                        res.blocks@.contains(x) <==> has_node(self.storage.open_issues@, x)
                            && crate::graph::deps_of(self.storage.open_issues@, x).contains(
                            res.bug_num,
                        ))
                },
                Err(e) => {
                    ||| (e == resolve_spec(self.storage.aliases@, bug_ref@).get_Err_0()
                        && resolve_spec(self.storage.aliases@, bug_ref@) is Err)
                    ||| (resolve_spec(self.storage.aliases@, bug_ref@) is Ok && e
                        == TrackerError::NotFound(
                        resolve_spec(self.storage.aliases@, bug_ref@).get_Ok_0(),
                    ) && !has_node(
                        self.storage.working_set(),
                        resolve_spec(self.storage.aliases@, bug_ref@).get_Ok_0(),
                    ))
                },
            },
    {
        let bug_num = match self.storage.resolve_bug_ref(bug_ref) {
            Ok(n) => n,
            Err(e) => {
                return Err(e);
            },
        };
        let depends_on = match self.storage.load_issue(bug_num) {
            Ok(iss) => crate::strutil::copy_ids(&iss.metadata.depends_on),
            Err(e) => {
                return Err(e);
            },
        };
        proof {
            lemma_wf_prefix(self.storage.open_issues@, self.storage.closed_issues@);
        }
        let ghost open = self.storage.open_issues@;
        let mut blocks: Vec<u32> = Vec::new();
        let mut k: usize = 0;
        while k < self.storage.open_issues.len()
            invariant
                self.storage.wf(),
                wf_nodes(self.storage.open_issues@),
                open == self.storage.open_issues@,
                k <= open.len(),
                blocks@.no_duplicates(),
                forall|u: int|
                    0 <= u < blocks@.len() ==> has_node(open, #[trigger] blocks@[u])
                        && crate::graph::deps_of(open, blocks@[u]).contains(bug_num)
                        && crate::graph::index_of(open, blocks@[u]) < k,
                forall|t: int|
                    0 <= t < k && (#[trigger] open[t]).issue.metadata.depends_on@.contains(
                        bug_num,
                    ) ==> blocks@.contains(open[t].id),
            decreases open.len() - k,
        {
            let rec = &self.storage.open_issues[k];
            let ghost pre = blocks@;
            if crate::strutil::contains_u32(&rec.issue.metadata.depends_on, bug_num) {
                let rid = rec.id;
                proof {
                    assert(has_node(open, rid)) by {
                        assert(open[k as int].id == rid);
                    }
                    crate::graph::lemma_index_of_unique(open, k as int);
                    assert(crate::graph::deps_of(open, rid).contains(bug_num));
                    assert(!pre.contains(rid)) by {
                        if pre.contains(rid) {
                            let u = choose|u: int| 0 <= u < pre.len() && pre[u] == rid;
                            assert(crate::graph::index_of(open, pre[u]) < k);
                        }
                    }
                }
                blocks.push(rid);
                proof {
                    assert(forall|u: int|
                        0 <= u < pre.len() ==> #[trigger] blocks@[u] == pre[u]);
                    assert(blocks@[blocks@.len() - 1] == rid);
                    assert(blocks@.no_duplicates()) by {
                        assert forall|u1: int, u2: int|
                            0 <= u1 < u2 < blocks@.len() implies blocks@[u1] != blocks@[u2] by {
                            if u2 == blocks@.len() - 1 {
                                assert(pre[u1] == blocks@[u1]);
                                if pre[u1] == rid {
                                    assert(pre.contains(rid));
                                }
                            }
                        }
                    }
                    assert forall|t: int|
                        0 <= t < k + 1 && (#[trigger] open[t]).issue.metadata.depends_on@.contains(
                            bug_num,
                        ) implies blocks@.contains(open[t].id) by {
                        if t < k {
                            let u = choose|u: int| 0 <= u < pre.len() && pre[u] == open[t].id;
                            assert(blocks@[u] == open[t].id);
                        } else {
                            assert(blocks@[blocks@.len() - 1] == rid);
                        }
                    }
                }
            } else {
                proof {
                    assert forall|t: int|
                        0 <= t < k + 1 && (#[trigger] open[t]).issue.metadata.depends_on@.contains(
                            bug_num,
                        ) implies blocks@.contains(open[t].id) by {
                        if t == k {
                            assert(false);
                        }
                    }
                }
            }
            k = k + 1;
        }
        proof {
            assert forall|x: u32|
                has_node(open, x) && crate::graph::deps_of(open, x).contains(bug_num)
                    implies blocks@.contains(x) by {
                let k0 = crate::graph::index_of(open, x);
                assert(0 <= k0 < open.len() && open[k0].id == x);
                assert(open[k0].issue.metadata.depends_on@.contains(bug_num));
            }
        }
        Ok(DependenciesResult { bug_num, depends_on, blocks })
    }

    /// Adds and removes dependency edges of one issue, resolving textual
    /// references first. A failed resolution, a missing issue, an empty
    /// request or a cycle-closing edge aborts with nothing changed.
    pub fn depend_data(
        &mut self,
        bug_ref: &str,
        add_refs: &Vec<String>,
        remove_refs: &Vec<String>,
    ) -> (r: Result<DependResult, TrackerError>)
        requires
            old(self).storage.wf(),
            sorted_store(old(self).storage.working_set()),
        ensures
            final(self).config == old(self).config,
            match r {
                Ok(res) => {
                    let aliases = old(self).storage.aliases@;
                    let ws = old(self).storage.working_set();
                    let ws2 = final(self).storage.working_set();
                    &&& resolve_spec(aliases, bug_ref@) == Ok::<u32, TrackerError>(res.bug_num)
                    &&& resolve_all(aliases, add_refs@) == Ok::<Seq<u32>, TrackerError>(res.added@)
                    &&& resolve_all(aliases, remove_refs@) == Ok::<Seq<u32>, TrackerError>(
                        res.removed@,
                    )
                    &&& depend_outcome(ws, res.bug_num, res.added@, res.removed@) == Ok::<
                        (),
                        TrackerError,
                    >(())
                    &&& edges_applied(
                        ws,
                        ws2,
                        res.bug_num,
                        res.added@.to_set(),
                        res.removed@.to_set(),
                    )
                    &&& res.depends_on@ == ws2[index_of(ws2, res.bug_num)].issue.metadata
                        .depends_on@
                    &&& final(self).storage.wf()
                    &&& sorted_store(ws2)
                },
                Err(e) => {
                    let aliases = old(self).storage.aliases@;
                    let ws = old(self).storage.working_set();
                    &&& *final(self) == *old(self)
                    &&& match resolve_spec(aliases, bug_ref@) {
                        Err(e0) => e == e0,
                        Ok(subject) => match resolve_all(aliases, add_refs@) {
                            Err(e1) => e == e1,
                            Ok(adds) => match resolve_all(aliases, remove_refs@) {
                                Err(e2) => e == e2,
                                Ok(removes) => Err::<(), TrackerError>(e) == depend_outcome(
                                    ws,
                                    subject,
                                    adds,
                                    removes,
                                ),
                            },
                        },
                    }
                },
            },
    {
        let bug_num = match self.storage.resolve_bug_ref(bug_ref) {
            Ok(n) => n,
            Err(e) => {
                return Err(e);
            },
        };
        let mut added: Vec<u32> = Vec::new();
        let mut j: usize = 0;
        while j < add_refs.len()
            invariant
                j <= add_refs@.len(),
                added@.len() == j,
                forall|t: int|
                    0 <= t < j ==> resolve_spec(self.storage.aliases@, (#[trigger] add_refs@[t])@)
                        == Ok::<u32, TrackerError>(added@[t]),
                self == old(self),
            decreases add_refs@.len() - j,
        {
            match self.storage.resolve_bug_ref(add_refs[j].as_str()) {
                Ok(n) => {
                    added.push(n);
                },
                Err(e) => {
                    proof {
                        lemma_resolve_all_at(self.storage.aliases@, add_refs@, j as int, added@);
                    }
                    return Err(e);
                },
            }
            j = j + 1;
        }
        proof {
            lemma_resolve_all_at(
                self.storage.aliases@,
                add_refs@,
                add_refs@.len() as int,
                added@,
            );
        }
        let mut removed: Vec<u32> = Vec::new();
        let mut q: usize = 0;
        while q < remove_refs.len()
            invariant
                q <= remove_refs@.len(),
                removed@.len() == q,
                forall|t: int|
                    0 <= t < q ==> resolve_spec(
                        self.storage.aliases@,
                        (#[trigger] remove_refs@[t])@,
                    ) == Ok::<u32, TrackerError>(removed@[t]),
                self == old(self),
                resolve_all(self.storage.aliases@, add_refs@) == Ok::<Seq<u32>, TrackerError>(
                    added@,
                ),
                resolve_spec(self.storage.aliases@, bug_ref@) == Ok::<u32, TrackerError>(bug_num),
            decreases remove_refs@.len() - q,
        {
            match self.storage.resolve_bug_ref(remove_refs[q].as_str()) {
                Ok(n) => {
                    removed.push(n);
                },
                Err(e) => {
                    proof {
                        lemma_resolve_all_at(
                            self.storage.aliases@,
                            remove_refs@,
                            q as int,
                            removed@,
                        );
                    }
                    return Err(e);
                },
            }
            q = q + 1;
        }
        proof {
            lemma_resolve_all_at(
                self.storage.aliases@,
                remove_refs@,
                remove_refs@.len() as int,
                removed@,
            );
        }
        let new_deps = match apply_edges(&mut self.storage, bug_num, &added, &removed) {
            Ok(v) => v,
            Err(e) => {
                return Err(e);
            },
        };
        Ok(DependResult { bug_num, added, removed, depends_on: new_deps })
    }

    /// Marks an issue blocked, recording the reason.
    pub fn block_data(&mut self, bug_ref: &str, reason: String) -> (r: Result<
        StatusUpdateResult,
        TrackerError,
    >)
        requires
            old(self).storage.wf(),
        ensures
            final(self).config == old(self).config,
            match r {
                Ok(res) => {
                    &&& resolve_spec(old(self).storage.aliases@, bug_ref@) == Ok::<
                        u32,
                        TrackerError,
                    >(res.bug_num)
                    &&& status_updated(
                        old(self).storage,
                        final(self).storage,
                        res.bug_num,
                        RecordChange::StatusInfo {
                            status: Status::Blocked,
                            started: None,
                            blocked_reason: Some(Some(reason)),
                            closed: None,
                        },
                    )
                    &&& res.status@ == "blocked"@
                    &&& (res.message matches Some(m) && m@ == reason@)
                },
                Err(e) => {
                    &&& *final(self) == *old(self)
                    &&& match resolve_spec(old(self).storage.aliases@, bug_ref@) {
                        Err(e0) => e == e0,
                        Ok(n) => e == TrackerError::NotFound(n) && !has_node(
                            old(self).storage.working_set(),
                            n,
                        ),
                    }
                },
            },
    {
        let bug_num = match self.storage.resolve_bug_ref(bug_ref) {
            Ok(n) => n,
            Err(e) => {
                return Err(e);
            },
        };
        let message = reason.clone();
        match self.storage.update_record(
            bug_num,
            RecordChange::StatusInfo {
                status: Status::Blocked,
                started: None,
                blocked_reason: Some(Some(reason)),
                closed: None,
            },
        ) {
            Ok(()) => {},
            Err(e) => {
                return Err(e);
            },
        }
        let mut status = String::new();
        status.append("blocked");
        proof {
            assert(status@ =~= "blocked"@);
        }
        Ok(StatusUpdateResult { bug_num, status, message: Some(message) })
    }

    /// Reopens an issue: open state, no closing time, record back among
    /// the open ones.
    pub fn open_data(&mut self, bug_ref: &str) -> (r: Result<StatusUpdateResult, TrackerError>)
        requires
            old(self).storage.wf(),
        ensures
            final(self).config == old(self).config,
            match r {
                Ok(res) => {
                    &&& resolve_spec(old(self).storage.aliases@, bug_ref@) == Ok::<
                        u32,
                        TrackerError,
                    >(res.bug_num)
                    &&& (exists|mid: Storage|
                        #[trigger] status_updated(
                            old(self).storage,
                            mid,
                            res.bug_num,
                            RecordChange::StatusInfo {
                                status: Status::NotStarted,
                                started: None,
                                blocked_reason: None,
                                closed: Some(None),
                            },
                        ) && moved_to_open(mid, final(self).storage, res.bug_num))
                    &&& res.status@ == "open"@
                    &&& res.message is None
                },
                Err(e) => {
                    &&& *final(self) == *old(self)
                    &&& match resolve_spec(old(self).storage.aliases@, bug_ref@) {
                        Err(e0) => e == e0,
                        Ok(n) => e == TrackerError::NotFound(n) && !has_node(
                            old(self).storage.working_set(),
                            n,
                        ),
                    }
                },
            },
    {
        let bug_num = match self.storage.resolve_bug_ref(bug_ref) {
            Ok(n) => n,
            Err(e) => {
                return Err(e);
            },
        };
        match self.storage.update_record(
            bug_num,
            RecordChange::StatusInfo {
                status: Status::NotStarted,
                started: None,
                blocked_reason: None,
                closed: Some(None),
            },
        ) {
            Ok(()) => {},
            Err(e) => {
                return Err(e);
            },
        }
        let ghost mid = self.storage;
        match self.storage.move_issue(bug_num, true) {
            Ok(()) => {},
            Err(e) => {
                proof {
                    assert(false);
                }
                return Err(e);
            },
        }
        proof {
            assert(status_updated(
                old(self).storage,
                mid,
                bug_num,
                RecordChange::StatusInfo {
                    status: Status::NotStarted,
                    started: None,
                    blocked_reason: None,
                    closed: Some(None),
                },
            ) && moved_to_open(mid, self.storage, bug_num));
        }
        let mut status = String::new();
        status.append("open");
        proof {
            assert(status@ =~= "open"@);
        }
        Ok(StatusUpdateResult { bug_num, status, message: None })
    }

    /// Defers an issue to the backlog.
    pub fn defer_data(&mut self, bug_ref: &str) -> (r: Result<StatusUpdateResult, TrackerError>)
        requires
            old(self).storage.wf(),
        ensures
            final(self).config == old(self).config,
            match r {
                Ok(res) => {
                    &&& resolve_spec(old(self).storage.aliases@, bug_ref@) == Ok::<
                        u32,
                        TrackerError,
                    >(res.bug_num)
                    &&& status_updated(
                        old(self).storage,
                        final(self).storage,
                        res.bug_num,
                        RecordChange::StatusInfo {
                            status: Status::Backlog,
                            started: None,
                            blocked_reason: None,
                            closed: None,
                        },
                    )
                    &&& res.status@ == "backlog"@
                    &&& res.message is None
                },
                Err(e) => {
                    &&& *final(self) == *old(self)
                    &&& match resolve_spec(old(self).storage.aliases@, bug_ref@) {
                        Err(e0) => e == e0,
                        Ok(n) => e == TrackerError::NotFound(n) && !has_node(
                            old(self).storage.working_set(),
                            n,
                        ),
                    }
                },
            },
    {
        let bug_num = match self.storage.resolve_bug_ref(bug_ref) {
            Ok(n) => n,
            Err(e) => {
                return Err(e);
            },
        };
        match self.storage.update_record(
            bug_num,
            RecordChange::StatusInfo {
                status: Status::Backlog,
                started: None,
                blocked_reason: None,
                closed: None,
            },
        ) {
            Ok(()) => {},
            Err(e) => {
                return Err(e);
            },
        }
        let mut status = String::new();
        status.append("backlog");
        proof {
            assert(status@ =~= "backlog"@);
        }
        Ok(StatusUpdateResult { bug_num, status, message: None })
    }

    /// Pulls an issue out of the backlog into the open state.
    pub fn activate_data(&mut self, bug_ref: &str) -> (r: Result<StatusUpdateResult, TrackerError>)
        requires
            old(self).storage.wf(),
        ensures
            final(self).config == old(self).config,
            match r {
                Ok(res) => {
                    &&& resolve_spec(old(self).storage.aliases@, bug_ref@) == Ok::<
                        u32,
                        TrackerError,
                    >(res.bug_num)
                    &&& status_updated(
                        old(self).storage,
                        final(self).storage,
                        res.bug_num,
                        RecordChange::StatusInfo {
                            status: Status::NotStarted,
                            started: None,
                            blocked_reason: None,
                            closed: None,
                        },
                    )
                    &&& res.status@ == "open"@
                    &&& res.message is None
                },
                Err(e) => {
                    &&& *final(self) == *old(self)
                    &&& match resolve_spec(old(self).storage.aliases@, bug_ref@) {
                        Err(e0) => e == e0,
                        Ok(n) => e == TrackerError::NotFound(n) && !has_node(
                            old(self).storage.working_set(),
                            n,
                        ),
                    }
                },
            },
    {
        let bug_num = match self.storage.resolve_bug_ref(bug_ref) {
            Ok(n) => n,
            Err(e) => {
                return Err(e);
            },
        };
        match self.storage.update_record(
            bug_num,
            RecordChange::StatusInfo {
                status: Status::NotStarted,
                started: None,
                blocked_reason: None,
                closed: None,
            },
        ) {
            Ok(()) => {},
            Err(e) => {
                return Err(e);
            },
        }
        let mut status = String::new();
        status.append("open");
        proof {
            assert(status@ =~= "open"@);
        }
        Ok(StatusUpdateResult { bug_num, status, message: None })
    }

    /// Creates a new open issue with the next free number, returning its
    /// number, title and record file path.
    pub fn create_issue_data(
        &mut self,
        title: String,
        priority_str: &str,
        tags: Vec<String>,
        files: Vec<String>,
        issue: String,
        impact: String,
        acceptance: String,
        effort: Option<String>,
        context: Option<String>,
        created: i64,
    ) -> (r: Result<CreateIssueResult, TrackerError>)
        requires
            old(self).storage.wf(),
            max_id(old(self).storage.working_set()) < u32::MAX,
            old(self).storage.working_set().len() < usize::MAX,
        ensures
            final(self).config == old(self).config,
            match r {
                Ok(res) => {
                    &&& parsed_priority(priority_str@) is Some
                    &&& res.bug_num == max_id(old(self).storage.working_set()) + 1
                    &&& res.title@ == title@
                    &&& res.path@ == old(self).storage.base_dir@ + "/issues/open"@ + "/"@
                        + record_file_name(res.bug_num as nat, title@)
                    &&& final(self).storage.closed_issues == old(self).storage.closed_issues
                    &&& final(self).storage.open_issues@.len() == old(
                        self,
                    ).storage.open_issues@.len() + 1
                    &&& (forall|k: int|
                        0 <= k < old(self).storage.open_issues@.len()
                            ==> final(self).storage.open_issues@[k] == old(
                            self,
                        ).storage.open_issues@[k])
                    &&& ({
                        let rec = final(self).storage.open_issues@.last();
                        &&& rec.id == res.bug_num
                        &&& rec.issue.metadata.title@ == title@
                        &&& rec.issue.metadata.priority == parsed_priority(
                            priority_str@,
                        ).get_Some_0()
                        &&& rec.issue.metadata.status == Status::NotStarted
                        &&& rec.issue.metadata.created == created
                        &&& rec.issue.metadata.tags == tags
                        &&& rec.issue.metadata.files == files
                        &&& rec.issue.metadata.effort == effort
                        &&& rec.issue.metadata.context == context
                        &&& rec.issue.metadata.depends_on@ == Seq::<u32>::empty()
                        &&& rec.issue.metadata.blocks@ == Seq::<u32>::empty()
                    })
                    &&& final(self).storage.wf()
                },
                Err(e) => {
                    &&& *final(self) == *old(self)
                    &&& e == TrackerError::InvalidPriority
                    &&& parsed_priority(priority_str@) is None
                },
            },
    {
        let priority = if crate::strutil::str_eq(priority_str, "critical") {
            crate::issue::Priority::Critical
        } else if crate::strutil::str_eq(priority_str, "high") {
            crate::issue::Priority::High
        } else if crate::strutil::str_eq(priority_str, "medium") {
            crate::issue::Priority::Medium
        } else if crate::strutil::str_eq(priority_str, "low") {
            crate::issue::Priority::Low
        } else {
            return Err(TrackerError::InvalidPriority);
        };
        let bug_num = self.storage.next_bug_number();
        let title_copy = title.clone();
        let path = {
            let mut p = self.storage.open_dir();
            p.append("/");
            let fname = Storage::record_file(bug_num, title.as_str());
            p.append(fname.as_str());
            p
        };
        let issue_obj = Issue::new(
            title,
            priority,
            tags,
            files,
            issue,
            impact,
            acceptance,
            effort,
            context,
            created,
        );
        match self.storage.insert_issue(bug_num, issue_obj, true) {
            Ok(()) => {},
            Err(e) => {
                proof {
                    crate::storage::lemma_max_id_bound_all(old(self).storage.working_set());
                    assert(false);
                }
                return Err(e);
            },
        }
        proof {
            assert(final(self).storage.open_issues@.last().id == bug_num);
        }
        Ok(CreateIssueResult { bug_num, title: title_copy, path })
    }
}

/// Open records keep distinct ids on their own.
pub proof fn lemma_wf_prefix(open: Seq<IssueWithId>, closed: Seq<IssueWithId>)
    requires
        wf_nodes(open + closed),
    ensures
        wf_nodes(open),
{
    assert forall|k1: int, k2: int| 0 <= k1 < k2 < open.len() implies #[trigger] open[k1].id
        != #[trigger] open[k2].id by {
        assert((open + closed)[k1] == open[k1]);
        assert((open + closed)[k2] == open[k2]);
    }
}

/// The priority named by a priority string, if any.
pub open spec fn parsed_priority(s: Seq<char>) -> Option<crate::issue::Priority> {
    if s == "critical"@ {
        Some(crate::issue::Priority::Critical)
    } else if s == "high"@ {
        Some(crate::issue::Priority::High)
    } else if s == "medium"@ {
        Some(crate::issue::Priority::Medium)
    } else if s == "low"@ {
        Some(crate::issue::Priority::Low)
    } else {
        None
    }
}

/// How a repository looks after one status change of one record: that
/// record carries the change, everything else is exactly as it was.
pub open spec fn status_updated(s1: Storage, s2: Storage, num: u32, c: RecordChange) -> bool {
    let ws = s1.working_set();
    let ws2 = s2.working_set();
    let ix = index_of(ws, num);
    &&& has_node(ws, num)
    &&& ws2.len() == ws.len()
    &&& s2.open_issues@.len() == s1.open_issues@.len()
    &&& s2.closed_issues@.len() == s1.closed_issues@.len()
    &&& s2.base_dir == s1.base_dir
    &&& s2.aliases == s1.aliases
    &&& (forall|k: int| 0 <= k < ws.len() && k != ix ==> ws2[k] == ws[k])
    &&& record_changed(ws[ix], ws2[ix], c)
    &&& s2.wf()
}

/// How a repository looks after moving one record to the open set: the
/// record at its new place, everything else as it was.
pub open spec fn moved_to_open(s1: Storage, s2: Storage, num: u32) -> bool {
    &&& has_node(s1.working_set(), num)
    &&& s2.base_dir == s1.base_dir
    &&& s2.aliases == s1.aliases
    &&& s2.wf()
    &&& ((s2.open_issues == s1.open_issues && s2.closed_issues == s1.closed_issues) || (exists|j: int|
        0 <= j < s1.closed_issues@.len() && (#[trigger] s1.closed_issues@[j]).id == num
            && s2.closed_issues@ == s1.closed_issues@.remove(j) && s2.open_issues@
            == s1.open_issues@.push(s1.closed_issues@[j])))
}

} // verus!
