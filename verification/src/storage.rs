//! The repository of issue records, modelled as data: the open and
//! closed working sets, the alias table, and the base directory the
//! records live under. The caller reads the record files into a
//! `Storage` before an operation and writes changed records back after
//! it; everything in between is verified against this model.

use vstd::prelude::*;

use crate::errors::TrackerError;
use crate::issue::{Issue, IssueMetadata, IssueWithId, Status};
use crate::graph::{find_index, has_node, index_of, wf_nodes};
use crate::strutil::{dec_str, parse_u32, parse_u32_spec, str_eq, u32_to_string};

verus! {

/// The repository model: issue records by location, aliases, and the
/// directory they are stored under.
#[derive(Debug, Clone)]
pub struct Storage {
    pub base_dir: String,
    pub aliases: Vec<(String, u32)>,
    pub open_issues: Vec<IssueWithId>,
    pub closed_issues: Vec<IssueWithId>,
}

/// One metadata change applied to a stored record.
#[derive(Debug, Clone)]
pub enum RecordChange {
    /// A new lifecycle state; the three optional fields are replaced
    /// where the outer option is set and kept where it is `None`.
    StatusInfo {
        status: Status,
        started: Option<Option<i64>>,
        blocked_reason: Option<Option<String>>,
        closed: Option<Option<i64>>,
    },
    /// A new forward edge list.
    DependsOn(Vec<u32>),
    /// A new reverse edge list.
    Blocks(Vec<u32>),
    /// Text appended to the record body.
    AppendBody(String),
}

/// Equal metadata apart from the lifecycle fields (status, started,
/// blocked_reason, closed).
pub open spec fn meta_eq_except_status_info(a: IssueMetadata, b: IssueMetadata) -> bool {
    a.title == b.title && a.priority == b.priority && a.created == b.created && a.tags == b.tags
        && a.files == b.files && a.effort == b.effort && a.context == b.context && a.depends_on
        == b.depends_on && a.blocks == b.blocks
}

/// Equal metadata apart from `depends_on`.
pub open spec fn meta_eq_except_deps(a: IssueMetadata, b: IssueMetadata) -> bool {
    a.title == b.title && a.priority == b.priority && a.status == b.status && a.created
        == b.created && a.tags == b.tags && a.files == b.files && a.effort == b.effort && a.context
        == b.context && a.started == b.started && a.blocked_reason == b.blocked_reason && a.closed
        == b.closed && a.blocks == b.blocks
}

/// Equal metadata apart from `blocks`.
pub open spec fn meta_eq_except_blocks(a: IssueMetadata, b: IssueMetadata) -> bool {
    a.title == b.title && a.priority == b.priority && a.status == b.status && a.created
        == b.created && a.tags == b.tags && a.files == b.files && a.effort == b.effort && a.context
        == b.context && a.started == b.started && a.blocked_reason == b.blocked_reason && a.closed
        == b.closed && a.depends_on == b.depends_on
}

/// How a record after a `RecordChange` relates to the record before it.
pub open spec fn record_changed(n: IssueWithId, n2: IssueWithId, c: RecordChange) -> bool {
    n2.id == n.id && match c {
        RecordChange::StatusInfo { status, started, blocked_reason, closed } => {
            &&& n2.issue.body == n.issue.body
            &&& meta_eq_except_status_info(n2.issue.metadata, n.issue.metadata)
            &&& n2.issue.metadata.status == status
            &&& n2.issue.metadata.started == (match started {
                Option::None => n.issue.metadata.started,
                Option::Some(v) => v,
            })
            &&& n2.issue.metadata.blocked_reason == (match blocked_reason {
                Option::None => n.issue.metadata.blocked_reason,
                Option::Some(v) => v,
            })
            &&& n2.issue.metadata.closed == (match closed {
                Option::None => n.issue.metadata.closed,
                Option::Some(v) => v,
            })
        },
        RecordChange::DependsOn(deps) => {
            &&& n2.issue.body == n.issue.body
            &&& meta_eq_except_deps(n2.issue.metadata, n.issue.metadata)
            &&& n2.issue.metadata.depends_on == deps
        },
        RecordChange::Blocks(blocks) => {
            &&& n2.issue.body == n.issue.body
            &&& meta_eq_except_blocks(n2.issue.metadata, n.issue.metadata)
            &&& n2.issue.metadata.blocks == blocks
        },
        RecordChange::AppendBody(text) => {
            &&& n2.issue.metadata == n.issue.metadata
            &&& n2.issue.body@ == n.issue.body@ + text@
        },
    }
}

/// First alias entry matching the given name.
pub open spec fn alias_lookup(aliases: Seq<(String, u32)>, name: Seq<char>) -> Option<u32>
    decreases aliases.len(),
{
    if aliases.len() == 0 {
        None
    } else if aliases[0].0@ == name {
        Some(aliases[0].1)
    } else {
        alias_lookup(aliases.drop_first(), name)
    }
}

/// What `resolve_bug_ref` yields: the reference read as a number, else
/// the first alias of that name, else nothing.
pub open spec fn resolve_spec(aliases: Seq<(String, u32)>, r: Seq<char>) -> Result<
    u32,
    TrackerError,
> {
    match parse_u32_spec(r) {
        Some(n) => Ok(n),
        None => match alias_lookup(aliases, r) {
            Some(n) => Ok(n),
            None => Err(TrackerError::UnknownRef),
        },
    }
}

/// The largest id in use, zero on an empty working set.
pub open spec fn max_id(ws: Seq<IssueWithId>) -> u32
    decreases ws.len(),
{
    if ws.len() == 0 {
        0
    } else if ws.last().id > max_id(ws.drop_last()) {
        ws.last().id
    } else {
        max_id(ws.drop_last())
    }
}

impl Storage {
    /// The whole working set: open records first, then closed ones.
    pub open spec fn working_set(self) -> Seq<IssueWithId> {
        self.open_issues@ + self.closed_issues@
    }

    /// Ids are pairwise distinct across both locations, and the working
    /// set fits the machine.
    pub open spec fn wf(self) -> bool {
        wf_nodes(self.working_set()) && self.working_set().len() <= usize::MAX
    }

    /// An empty repository rooted at the given directory.
    pub fn new(base_dir: String) -> (r: Storage)
        ensures
            r.base_dir == base_dir,
            r.aliases@ == Seq::<(String, u32)>::empty(),
            r.open_issues@ == Seq::<IssueWithId>::empty(),
            r.closed_issues@ == Seq::<IssueWithId>::empty(),
            r.wf(),
    {
        let r = Storage { base_dir, aliases: Vec::new(), open_issues: Vec::new(), closed_issues: Vec::new() };
        proof {
            assert(r.working_set() =~= Seq::<IssueWithId>::empty());
        }
        r
    }

    /// Replaces the alias table (read from the alias file by the caller).
    pub fn set_aliases(&mut self, aliases: Vec<(String, u32)>)
        ensures
            final(self).aliases == aliases,
            final(self).base_dir == old(self).base_dir,
            final(self).open_issues == old(self).open_issues,
            final(self).closed_issues == old(self).closed_issues,
    {
        self.aliases = aliases;
    }

    /// Replaces the working set (read from the record files by the
    /// caller).
    pub fn set_working_set(&mut self, open: Vec<IssueWithId>, closed: Vec<IssueWithId>)
        ensures
            final(self).open_issues == open,
            final(self).closed_issues == closed,
            final(self).base_dir == old(self).base_dir,
            final(self).aliases == old(self).aliases,
    {
        self.open_issues = open;
        self.closed_issues = closed;
    }

    /// The open records.
    pub fn list_open_issues(&self) -> (r: &Vec<IssueWithId>)
        ensures
            r == self.open_issues,
    {
        &self.open_issues
    }

    /// The closed records.
    pub fn list_closed_issues(&self) -> (r: &Vec<IssueWithId>)
        ensures
            r == self.closed_issues,
    {
        &self.closed_issues
    }

    /// Reads an issue reference: a plain number, or a known alias.
    pub fn resolve_bug_ref(&self, bug_ref: &str) -> (r: Result<u32, TrackerError>)
        ensures
            r == resolve_spec(self.aliases@, bug_ref@),
    {
        match parse_u32(bug_ref) {
            Some(n) => Ok(n),
            None => {
                proof {
                    assert(self.aliases@.subrange(0, self.aliases@.len() as int)
                        =~= self.aliases@);
                }
                let mut i: usize = 0;
                while i < self.aliases.len()
                    invariant
                        i <= self.aliases@.len(),
                        parse_u32_spec(bug_ref@) is None,
                        alias_lookup(self.aliases@, bug_ref@) == alias_lookup(
                            self.aliases@.subrange(i as int, self.aliases@.len() as int),
                            bug_ref@,
                        ),
                    decreases self.aliases@.len() - i,
                {
                    let hit = str_eq(self.aliases[i].0.as_str(), bug_ref);
                    proof {
                        let tail = self.aliases@.subrange(i as int, self.aliases@.len() as int);
                        assert(tail[0] == self.aliases@[i as int]);
                        assert(tail.drop_first() =~= self.aliases@.subrange(
                            (i + 1) as int,
                            self.aliases@.len() as int,
                        ));
                    }
                    if hit {
                        proof {
                            let tail = self.aliases@.subrange(i as int, self.aliases@.len() as int);
                            assert(tail.len() > 0);
                            assert(tail[0].0@ == bug_ref@);
                            assert(alias_lookup(tail, bug_ref@) == Some(tail[0].1));
                            assert(alias_lookup(self.aliases@, bug_ref@) == Some(
                                self.aliases@[i as int].1,
                            ));
                            assert(parse_u32_spec(bug_ref@) is None);
                            assert(resolve_spec(self.aliases@, bug_ref@) == Ok::<
                                u32,
                                TrackerError,
                            >(self.aliases@[i as int].1));
                        }
                        return Ok(self.aliases[i].1);
                    }
                    i = i + 1;
                }
                proof {
                    assert(self.aliases@.subrange(i as int, self.aliases@.len() as int)
                        =~= Seq::<(String, u32)>::empty());
                }
                Err(TrackerError::UnknownRef)
            },
        }
    }

    /// Looks a record up by id, searching open records first.
    pub fn load_issue(&self, bug_num: u32) -> (r: Result<&Issue, TrackerError>)
        requires
            self.wf(),
        ensures
            match r {
                Ok(iss) => has_node(self.working_set(), bug_num) && *iss == self.working_set()[
                    index_of(self.working_set(), bug_num)
                ].issue,
                Err(e) => e == TrackerError::NotFound(bug_num) && !has_node(
                    self.working_set(),
                    bug_num,
                ),
            },
    {
        let ghost ws = self.working_set();
        match crate::graph::find_index_either(&self.open_issues, &self.closed_issues, bug_num) {
            Some(i) => {
                let n = crate::graph::node_at(&self.open_issues, &self.closed_issues, i);
                proof {
                    crate::graph::lemma_index_of_unique(ws, i as int);
                }
                Ok(&n.issue)
            },
            None => Err(TrackerError::NotFound(bug_num)),
        }
    }

    /// One more than the largest id in use.
    pub fn next_bug_number(&self) -> (r: u32)
        requires
            max_id(self.working_set()) < u32::MAX,
        ensures
            r == max_id(self.working_set()) + 1,
    {
        let mut best: u32 = 0;
        let mut i: usize = 0;
        while i < self.open_issues.len()
            invariant
                i <= self.open_issues@.len(),
                best == max_id(self.open_issues@.subrange(0, i as int)),
            decreases self.open_issues@.len() - i,
        {
            let id = self.open_issues[i].id;
            proof {
                let pre = self.open_issues@.subrange(0, i as int);
                assert(self.open_issues@.subrange(0, (i + 1) as int).drop_last() =~= pre);
                assert(self.open_issues@.subrange(0, (i + 1) as int).last()
                    == self.open_issues@[i as int]);
            }
            if id > best {
                best = id;
            }
            i = i + 1;
        }
        proof {
            assert(self.open_issues@.subrange(0, self.open_issues@.len() as int)
                =~= self.open_issues@);
        }
        let mut j: usize = 0;
        while j < self.closed_issues.len()
            invariant
                j <= self.closed_issues@.len(),
                best == max_id(self.open_issues@ + self.closed_issues@.subrange(0, j as int)),
            decreases self.closed_issues@.len() - j,
        {
            let id = self.closed_issues[j].id;
            proof {
                let pre = self.open_issues@ + self.closed_issues@.subrange(0, j as int);
                let nxt = self.open_issues@ + self.closed_issues@.subrange(0, (j + 1) as int);
                assert(nxt.drop_last() =~= pre);
                assert(nxt.last() == self.closed_issues@[j as int]);
            }
            if id > best {
                best = id;
            }
            j = j + 1;
        }
        proof {
            assert(self.open_issues@ + self.closed_issues@.subrange(
                0,
                self.closed_issues@.len() as int,
            ) =~= self.working_set());
            if self.open_issues@.len() == 0 && self.closed_issues@.len() == 0 {
                assert(self.working_set() =~= Seq::<IssueWithId>::empty());
            }
        }
        best + 1
    }

    /// Applies one metadata or body change to the record with this id,
    /// leaving every other record and the record's place untouched.
    pub fn update_record(&mut self, bug_num: u32, change: RecordChange) -> (r: Result<
        (),
        TrackerError,
    >)
        requires
            old(self).wf(),
        ensures
            match r {
                Ok(()) => {
                    let ws = old(self).working_set();
                    let ws2 = final(self).working_set();
                    let ix = index_of(ws, bug_num);
                    &&& has_node(ws, bug_num)
                    &&& ws2.len() == ws.len()
                    &&& final(self).open_issues@.len() == old(self).open_issues@.len()
                    &&& final(self).closed_issues@.len() == old(self).closed_issues@.len()
                    &&& final(self).base_dir == old(self).base_dir
                    &&& final(self).aliases == old(self).aliases
                    &&& (forall|k: int| 0 <= k < ws.len() && k != ix ==> ws2[k] == ws[k])
                    &&& record_changed(ws[ix], ws2[ix], change)
                    &&& final(self).wf()
                },
                Err(e) => {
                    &&& e == TrackerError::NotFound(bug_num)
                    &&& !has_node(old(self).working_set(), bug_num)
                    &&& *final(self) == *old(self)
                },
            },
    {
        let ghost ws = self.working_set();
        let in_open = match find_index(&self.open_issues, bug_num) {
            Some(i) => Some(i),
            None => None,
        };
        match in_open {
            Some(i) => {
                let n = self.open_issues.remove(i);
                let n2 = apply_change(n, change);
                self.open_issues.insert(i, n2);
                proof {
                    assert(ws[i as int] == old(self).open_issues@[i as int]);
                    crate::graph::lemma_index_of_unique(ws, i as int);
                    assert(self.open_issues@ =~= old(self).open_issues@.update(i as int, n2));
                    assert(self.working_set() =~= ws.update(i as int, n2));
                    assert(forall|k: int|
                        0 <= k < ws.len() && k != i ==> self.working_set()[k] == ws[k]);
                    assert(wf_nodes(self.working_set())) by {
                        assert(forall|k: int|
                            0 <= k < ws.len() ==> self.working_set()[k].id == #[trigger] ws[k].id);
                    }
                }
                Ok(())
            },
            None => {
                match find_index(&self.closed_issues, bug_num) {
                    Some(j) => {
                        let ghost ix = self.open_issues@.len() + j;
                        let n = self.closed_issues.remove(j);
                        let n2 = apply_change(n, change);
                        self.closed_issues.insert(j, n2);
                        proof {
                            assert(ws[ix as int] == old(self).closed_issues@[j as int]);
                            crate::graph::lemma_index_of_unique(ws, ix as int);
                            assert(self.closed_issues@ =~= old(self).closed_issues@.update(
                                j as int,
                                n2,
                            ));
                            assert(self.working_set() =~= ws.update(ix as int, n2));
                            assert(forall|k: int|
                                0 <= k < ws.len() && k != ix ==> self.working_set()[k] == ws[k]);
                            assert(wf_nodes(self.working_set())) by {
                                assert(forall|k: int|
                                    0 <= k < ws.len() ==> self.working_set()[k].id
                                        == #[trigger] ws[k].id);
                            }
                        }
                        Ok(())
                    },
                    None => {
                        proof {
                            assert(!has_node(ws, bug_num)) by {
                                if has_node(ws, bug_num) {
                                    let k = choose|k: int|
                                        0 <= k < ws.len() && #[trigger] ws[k].id == bug_num;
                                    if k < self.open_issues@.len() {
                                        assert(self.open_issues@[k].id == bug_num);
                                    } else {
                                        assert(self.closed_issues@[k - self.open_issues@.len()].id
                                            == bug_num);
                                    }
                                }
                            }
                        }
                        Err(TrackerError::NotFound(bug_num))
                    },
                }
            },
        }
    }

    /// Moves a record between the open and closed sets; a record already
    /// in the requested place stays as it is.
    pub fn move_issue(&mut self, bug_num: u32, to_open: bool) -> (r: Result<(), TrackerError>)
        requires
            old(self).wf(),
        ensures
            match r {
                Ok(()) => {
                    &&& has_node(old(self).working_set(), bug_num)
                    &&& final(self).base_dir == old(self).base_dir
                    &&& final(self).aliases == old(self).aliases
                    &&& final(self).wf()
                    &&& (if to_open {
                        (final(self).open_issues == old(self).open_issues && final(self).closed_issues == old(self).closed_issues) || (exists|j: int|
                            0 <= j < old(self).closed_issues@.len()
                                && #[trigger] old(self).closed_issues@[j].id == bug_num && final(self).closed_issues@ == old(self).closed_issues@.remove(j) && final(self).open_issues@ == old(self).open_issues@.push(
                                old(self).closed_issues@[j],
                            ))
                    } else {
                        (final(self).open_issues == old(self).open_issues && final(self).closed_issues == old(self).closed_issues) || (exists|i: int|
                            0 <= i < old(self).open_issues@.len()
                                && #[trigger] old(self).open_issues@[i].id == bug_num && final(self).open_issues@ == old(self).open_issues@.remove(i) && final(self).closed_issues@ == old(self).closed_issues@.push(
                                old(self).open_issues@[i],
                            ))
                    })
                },
                Err(e) => {
                    &&& e == TrackerError::NotFound(bug_num)
                    &&& !has_node(old(self).working_set(), bug_num)
                    &&& *final(self) == *old(self)
                },
            },
    {
        let ghost ws = self.working_set();
        if to_open {
            match find_index(&self.open_issues, bug_num) {
                Some(_) => {
                    proof {
                        let i = choose|k: int|
                            0 <= k < self.open_issues@.len() && #[trigger] self.open_issues@[k].id
                                == bug_num;
                        assert(ws[i] == self.open_issues@[i]);
                    }
                    Ok(())
                },
                None => match find_index(&self.closed_issues, bug_num) {
                    Some(j) => {
                        let n = self.closed_issues.remove(j);
                        self.open_issues.push(n);
                        proof {
                            lemma_move_keeps_wf(
                                ws,
                                old(self).open_issues@,
                                old(self).closed_issues@,
                                self.open_issues@,
                                self.closed_issues@,
                                j as int,
                            );
                            assert(ws[old(self).open_issues@.len() + j].id == bug_num);
                            assert(has_node(ws, bug_num));
                            assert(old(self).closed_issues@[j as int].id == bug_num);
                            assert(self.closed_issues@ == old(self).closed_issues@.remove(
                                j as int,
                            ));
                            assert(self.open_issues@ == old(self).open_issues@.push(
                                old(self).closed_issues@[j as int],
                            ));
                        }
                        Ok(())
                    },
                    None => {
                        proof {
                            lemma_not_in_either(
                                self.open_issues@,
                                self.closed_issues@,
                                bug_num,
                            );
                        }
                        Err(TrackerError::NotFound(bug_num))
                    },
                },
            }
        } else {
            match find_index(&self.closed_issues, bug_num) {
                Some(_) => {
                    proof {
                        let j = choose|k: int|
                            0 <= k < self.closed_issues@.len()
                                && #[trigger] self.closed_issues@[k].id == bug_num;
                        assert(ws[self.open_issues@.len() + j] == self.closed_issues@[j]);
                    }
                    Ok(())
                },
                None => match find_index(&self.open_issues, bug_num) {
                    Some(i) => {
                        let n = self.open_issues.remove(i);
                        self.closed_issues.push(n);
                        proof {
                            lemma_move_keeps_wf_to_closed(
                                ws,
                                old(self).open_issues@,
                                old(self).closed_issues@,
                                self.open_issues@,
                                self.closed_issues@,
                                i as int,
                            );
                            assert(ws[i as int].id == bug_num);
                            assert(has_node(ws, bug_num));
                            assert(old(self).open_issues@[i as int].id == bug_num);
                            assert(self.open_issues@ == old(self).open_issues@.remove(i as int));
                            assert(self.closed_issues@ == old(self).closed_issues@.push(
                                old(self).open_issues@[i as int],
                            ));
                        }
                        Ok(())
                    },
                    None => {
                        proof {
                            lemma_not_in_either(
                                self.open_issues@,
                                self.closed_issues@,
                                bug_num,
                            );
                        }
                        Err(TrackerError::NotFound(bug_num))
                    },
                },
            }
        }
    }

    /// Adds a fresh record at the given location.
    pub fn insert_issue(&mut self, bug_num: u32, issue: Issue, is_open: bool) -> (r: Result<
        (),
        TrackerError,
    >)
        requires
            old(self).wf(),
            old(self).working_set().len() < usize::MAX,
        ensures
            match r {
                Ok(()) => {
                    &&& !has_node(old(self).working_set(), bug_num)
                    &&& final(self).base_dir == old(self).base_dir
                    &&& final(self).aliases == old(self).aliases
                    &&& final(self).wf()
                    &&& (if is_open {
                        final(self).open_issues@ == old(self).open_issues@.push(
                            (IssueWithId { id: bug_num, issue: issue }),
                        ) && final(self).closed_issues == old(self).closed_issues
                    } else {
                        final(self).closed_issues@ == old(self).closed_issues@.push(
                            (IssueWithId { id: bug_num, issue: issue }),
                        ) && final(self).open_issues == old(self).open_issues
                    })
                },
                Err(e) => {
                    &&& e == TrackerError::NotFound(bug_num)
                    &&& has_node(old(self).working_set(), bug_num)
                    &&& *final(self) == *old(self)
                },
            },
    {
        let ghost ws = self.working_set();
        match crate::graph::find_index_either(&self.open_issues, &self.closed_issues, bug_num) {
            Some(_) => Err(TrackerError::NotFound(bug_num)),
            None => {
                let n = IssueWithId { id: bug_num, issue };
                if is_open {
                    self.open_issues.push(n);
                    proof {
                        lemma_insert_keeps_wf_open(ws, old(self).open_issues@, old(self).closed_issues@, self.working_set(), n);
                    }
                } else {
                    self.closed_issues.push(n);
                    proof {
                        assert(self.working_set() =~= ws.push(n));
                        lemma_push_keeps_wf(ws, n);
                    }
                }
                Ok(())
            },
        }
    }

    /// The directory all records live under.
    pub fn issues_dir(&self) -> (r: String)
        ensures
            r@ == self.base_dir@ + "/issues"@,
    {
        let mut s = String::new();
        s.append(self.base_dir.as_str());
        s.append("/issues");
        s
    }

    /// The directory of open records.
    pub fn open_dir(&self) -> (r: String)
        ensures
            r@ == self.base_dir@ + "/issues/open"@,
    {
        let mut s = String::new();
        s.append(self.base_dir.as_str());
        s.append("/issues/open");
        s
    }

    /// The directory of closed records.
    pub fn closed_dir(&self) -> (r: String)
        ensures
            r@ == self.base_dir@ + "/issues/closed"@,
    {
        let mut s = String::new();
        s.append(self.base_dir.as_str());
        s.append("/issues/closed");
        s
    }

    /// The alias file.
    pub fn aliases_file(&self) -> (r: String)
        ensures
            r@ == self.base_dir@ + "/issues/.aliases.yaml"@,
    {
        let mut s = String::new();
        s.append(self.base_dir.as_str());
        s.append("/issues/.aliases.yaml");
        s
    }

    /// Turns a title into a file-name slug: ASCII letters and digits
    /// lower-cased, everything else collapsed into single dashes, none
    /// of them leading or trailing.
    pub fn slugify(title: &str) -> (r: String)
        ensures
            r@ == slug_of(title@),
    {
        let len = title.unicode_len();
        let mut acc = String::new();
        let mut i: usize = 0;
        while i < len
            invariant
                i <= len,
                len == title@.len(),
                acc@ == slug_fold(title@, i as int),
            decreases len - i,
        {
            let c = title.get_char(i);
            let lower: char = if c >= 'A' && c <= 'Z' {
                (((c as u8) + 32) as char)
            } else {
                c
            };
            let is_alnum = (c >= 'a' && c <= 'z') || (c >= 'A' && c <= 'Z') || (c >= '0' && c
                <= '9');
            if is_alnum {
                crate::strutil::push_char(&mut acc, lower);
                proof {
                    assert(lower == crate::strutil::ascii_lower_char(c));
                }
            } else {
                let l = acc.as_str().unicode_len();
                if l > 0 {
                    let last = acc.as_str().get_char(l - 1);
                    if last != '-' {
                        crate::strutil::push_char(&mut acc, '-');
                    }
                }
            }
            i = i + 1;
        }
        let l = acc.as_str().unicode_len();
        if l > 0 {
            let last = acc.as_str().get_char(l - 1);
            if last == '-' {
                let trimmed = acc.as_str().substring_char(0, l - 1);
                proof {
                    assert(trimmed@ =~= slug_fold(title@, title@.len() as int).drop_last());
                }
                let mut out = String::new();
                out.append(trimmed);
                proof {
                    assert(out@ =~= trimmed@);
                }
                return out;
            }
        }
        acc
    }

    /// The file name a record is saved under.
    pub fn record_file(bug_num: u32, title: &str) -> (r: String)
        ensures
            r@ == record_file_name(bug_num as nat, title@),
    {
        let mut s = String::new();
        if bug_num < 10 {
            s.append("0");
            proof {
                reveal_strlit("0");
                assert(s@ =~= seq!['0']);
            }
        }
        let digits = u32_to_string(bug_num);
        s.append(digits.as_str());
        s.append("-");
        let slug = Storage::slugify(title);
        s.append(slug.as_str());
        s.append(".mdx");
        proof {
            assert(s@ =~= record_file_name(bug_num as nat, title@));
        }
        s
    }
}


/// Every id of the working set is bounded by `max_id`.
pub proof fn lemma_max_id_bound(ws: Seq<IssueWithId>, k: int)
    requires
        0 <= k < ws.len(),
    ensures
        ws[k].id <= max_id(ws),
    decreases ws.len(),
{
    if k == ws.len() - 1 {
    } else {
        assert(ws.drop_last()[k] == ws[k]);
        lemma_max_id_bound(ws.drop_last(), k);
    }
}

/// Every id of the working set is bounded by `max_id`, all at once.
pub proof fn lemma_max_id_bound_all(ws: Seq<IssueWithId>)
    ensures
        forall|k: int| 0 <= k < ws.len() ==> (#[trigger] ws[k]).id <= max_id(ws),
{
    assert forall|k: int| 0 <= k < ws.len() implies (#[trigger] ws[k]).id <= max_id(ws) by {
        lemma_max_id_bound(ws, k);
    }
}

/// An ASCII letter or digit.
pub open spec fn is_ascii_alnum(c: char) -> bool {
    ('a' <= c && c <= 'z') || ('A' <= c && c <= 'Z') || ('0' <= c && c <= '9')
}

/// The slug built from the first `i` characters: ASCII letters and
/// digits lower-cased, every other run of characters collapsed into a
/// single dash, with no leading dash.
pub open spec fn slug_fold(s: Seq<char>, i: int) -> Seq<char>
    decreases i,
{
    if i <= 0 {
        Seq::empty()
    } else {
        let acc = slug_fold(s, i - 1);
        let c = s[i - 1];
        if is_ascii_alnum(c) {
            acc.push(crate::strutil::ascii_lower_char(c))
        } else if acc.len() > 0 && acc.last() != '-' {
            acc.push('-')
        } else {
            acc
        }
    }
}

/// The file-name slug of a title: fold over all characters, then drop a
/// trailing dash.
pub open spec fn slug_of(s: Seq<char>) -> Seq<char> {
    let f = slug_fold(s, s.len() as int);
    if f.len() > 0 && f.last() == '-' {
        f.drop_last()
    } else {
        f
    }
}

/// The issue number as used in file names: two digits minimum,
/// zero-padded.
pub open spec fn pad2(n: nat) -> Seq<char> {
    if n < 10 {
        seq!['0'] + dec_str(n)
    } else {
        dec_str(n)
    }
}

/// The file name of an issue record: padded number, dash, title slug,
/// and the `.mdx` ending.
pub open spec fn record_file_name(num: nat, title: Seq<char>) -> Seq<char> {
    pad2(num) + "-"@ + slug_of(title) + ".mdx"@
}

/// Builds the changed record.
fn apply_change(n: IssueWithId, change: RecordChange) -> (r: IssueWithId)
    ensures
        record_changed(n, r, change),
{
    let IssueWithId { id, issue } = n;
    let Issue { metadata, body } = issue;
    let IssueMetadata {
        title,
        priority,
        status: old_status,
        created,
        tags,
        files,
        effort,
        context,
        started: old_started,
        blocked_reason: old_blocked,
        closed: old_closed,
        depends_on: old_deps,
        blocks: old_blocks,
    } = metadata;
    match change {
        RecordChange::StatusInfo { status, started, blocked_reason, closed } => {
            let new_started = match started {
                Option::None => old_started,
                Option::Some(v) => v,
            };
            let new_blocked = match blocked_reason {
                Option::None => old_blocked,
                Option::Some(v) => v,
            };
            let new_closed = match closed {
                Option::None => old_closed,
                Option::Some(v) => v,
            };
            let m2 = IssueMetadata {
                title,
                priority,
                status,
                created,
                tags,
                files,
                effort,
                context,
                started: new_started,
                blocked_reason: new_blocked,
                closed: new_closed,
                depends_on: old_deps,
                blocks: old_blocks,
            };
            IssueWithId { id, issue: Issue { metadata: m2, body } }
        },
        RecordChange::DependsOn(deps) => {
            let m2 = IssueMetadata {
                title,
                priority,
                status: old_status,
                created,
                tags,
                files,
                effort,
                context,
                started: old_started,
                blocked_reason: old_blocked,
                closed: old_closed,
                depends_on: deps,
                blocks: old_blocks,
            };
            IssueWithId { id, issue: Issue { metadata: m2, body } }
        },
        RecordChange::Blocks(blocks) => {
            let m2 = IssueMetadata {
                title,
                priority,
                status: old_status,
                created,
                tags,
                files,
                effort,
                context,
                started: old_started,
                blocked_reason: old_blocked,
                closed: old_closed,
                depends_on: old_deps,
                blocks,
            };
            IssueWithId { id, issue: Issue { metadata: m2, body } }
        },
        RecordChange::AppendBody(text) => {
            let m2 = IssueMetadata {
                title,
                priority,
                status: old_status,
                created,
                tags,
                files,
                effort,
                context,
                started: old_started,
                blocked_reason: old_blocked,
                closed: old_closed,
                depends_on: old_deps,
                blocks: old_blocks,
            };
            let body2 = body.concat(text.as_str());
            IssueWithId { id, issue: Issue { metadata: m2, body: body2 } }
        },
    }
}

/// A record absent from both locations is absent from the working set.
proof fn lemma_not_in_either(open: Seq<IssueWithId>, closed: Seq<IssueWithId>, bug_num: u32)
    requires
        !has_node(open, bug_num),
        !has_node(closed, bug_num),
    ensures
        !has_node(open + closed, bug_num),
{
    if has_node(open + closed, bug_num) {
        let k = choose|k: int|
            0 <= k < (open + closed).len() && #[trigger] (open + closed)[k].id == bug_num;
        if k < open.len() {
            assert(open[k].id == bug_num);
        } else {
            assert(closed[k - open.len()].id == bug_num);
        }
    }
}

/// Appending a record with a fresh id keeps ids distinct.
proof fn lemma_push_keeps_wf(ws: Seq<IssueWithId>, n: IssueWithId)
    requires
        wf_nodes(ws),
        !has_node(ws, n.id),
        ws.len() < usize::MAX,
    ensures
        wf_nodes(ws.push(n)),
        ws.push(n).len() <= usize::MAX,
{
    assert forall|k1: int, k2: int| 0 <= k1 < k2 < ws.push(n).len() implies #[trigger] ws.push(
        n,
    )[k1].id != #[trigger] ws.push(n)[k2].id by {
        if k2 == ws.len() {
            assert(ws.push(n)[k1] == ws[k1]);
            if ws[k1].id == n.id {
                assert(has_node(ws, n.id));
            }
        } else {
            assert(ws.push(n)[k1] == ws[k1]);
            assert(ws.push(n)[k2] == ws[k2]);
        }
    }
}

/// Appending a fresh record to the open set keeps the whole working set
/// well formed.
proof fn lemma_insert_keeps_wf_open(
    ws: Seq<IssueWithId>,
    open: Seq<IssueWithId>,
    closed: Seq<IssueWithId>,
    ws2: Seq<IssueWithId>,
    n: IssueWithId,
)
    requires
        ws == open + closed,
        ws2 == open.push(n) + closed,
        wf_nodes(ws),
        !has_node(ws, n.id),
        ws.len() < usize::MAX,
    ensures
        wf_nodes(ws2),
        ws2.len() <= usize::MAX,
{
    // The new working set is a permutation of pushing at the end.
    let pushed = ws.push(n);
    lemma_push_keeps_wf(ws, n);
    assert forall|k1: int, k2: int| 0 <= k1 < k2 < ws2.len() implies #[trigger] ws2[k1].id
        != #[trigger] ws2[k2].id by {
        let m1 = if k1 < open.len() {
            k1
        } else if k1 == open.len() {
            ws.len() as int
        } else {
            k1 - 1
        };
        let m2 = if k2 < open.len() {
            k2
        } else if k2 == open.len() {
            ws.len() as int
        } else {
            k2 - 1
        };
        assert(ws2[k1] == pushed[m1]);
        assert(ws2[k2] == pushed[m2]);
        assert(m1 != m2);
        if m1 < m2 {
            assert(pushed[m1].id != pushed[m2].id);
        } else {
            assert(pushed[m2].id != pushed[m1].id);
        }
    }
}

/// Moving one record from the closed to the open set keeps ids distinct.
proof fn lemma_move_keeps_wf(
    ws: Seq<IssueWithId>,
    open: Seq<IssueWithId>,
    closed: Seq<IssueWithId>,
    open2: Seq<IssueWithId>,
    closed2: Seq<IssueWithId>,
    j: int,
)
    requires
        ws == open + closed,
        wf_nodes(ws),
        ws.len() <= usize::MAX,
        0 <= j < closed.len(),
        open2 == open.push(closed[j]),
        closed2 == closed.remove(j),
    ensures
        wf_nodes(open2 + closed2),
        (open2 + closed2).len() <= usize::MAX,
{
    let ws2 = open2 + closed2;
    assert forall|k1: int, k2: int| 0 <= k1 < k2 < ws2.len() implies #[trigger] ws2[k1].id
        != #[trigger] ws2[k2].id by {
        let m1 = move_src_index(open.len() as int, closed.len() as int, j, k1);
        let m2 = move_src_index(open.len() as int, closed.len() as int, j, k2);
        assert(ws2[k1] == ws[m1]);
        assert(ws2[k2] == ws[m2]);
        assert(m1 != m2);
        if m1 < m2 {
            assert(ws[m1].id != ws[m2].id);
        } else {
            assert(ws[m2].id != ws[m1].id);
        }
    }
}

/// Index in the old working set of the record at `k` in the working set
/// after moving the closed record at `j` to the end of the open set.
spec fn move_src_index(open_len: int, closed_len: int, j: int, k: int) -> int {
    if k < open_len {
        k
    } else if k == open_len {
        open_len + j
    } else if k - 1 < open_len + j {
        k - 1
    } else {
        k
    }
}

/// Moving one record from the open to the closed set keeps ids distinct.
proof fn lemma_move_keeps_wf_to_closed(
    ws: Seq<IssueWithId>,
    open: Seq<IssueWithId>,
    closed: Seq<IssueWithId>,
    open2: Seq<IssueWithId>,
    closed2: Seq<IssueWithId>,
    i: int,
)
    requires
        ws == open + closed,
        wf_nodes(ws),
        ws.len() <= usize::MAX,
        0 <= i < open.len(),
        open2 == open.remove(i),
        closed2 == closed.push(open[i]),
    ensures
        wf_nodes(open2 + closed2),
        (open2 + closed2).len() <= usize::MAX,
{
    let ws2 = open2 + closed2;
    assert forall|k1: int, k2: int| 0 <= k1 < k2 < ws2.len() implies #[trigger] ws2[k1].id
        != #[trigger] ws2[k2].id by {
        let m1 = move_closed_src_index(open.len() as int, closed.len() as int, i, k1);
        let m2 = move_closed_src_index(open.len() as int, closed.len() as int, i, k2);
        assert(ws2[k1] == ws[m1]);
        assert(ws2[k2] == ws[m2]);
        assert(m1 != m2);
        if m1 < m2 {
            assert(ws[m1].id != ws[m2].id);
        } else {
            assert(ws[m2].id != ws[m1].id);
        }
    }
}

/// Index in the old working set of the record at `k` in the working set
/// after moving the open record at `i` to the end of the closed set.
spec fn move_closed_src_index(open_len: int, closed_len: int, i: int, k: int) -> int {
    if k < i {
        k
    } else if k < open_len - 1 + closed_len {
        k + 1
    } else {
        i
    }
}

} // verus!
