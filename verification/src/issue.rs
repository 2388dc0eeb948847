//! Issue records: status, priority, metadata and the issue body.
//!
//! Timestamps are plain Unix seconds and every text field is a plain
//! `String`, so the whole record is visible to the verifier; reading and
//! writing these records to disk is the caller's business.

use vstd::prelude::*;

verus! {

/// Lifecycle state of an issue.
#[derive(Debug, Clone, Copy, PartialEq, Eq, Hash, Structural)]
pub enum Status {
    NotStarted,
    InProgress,
    Blocked,
    Done,
    Closed,
    Backlog,
}

impl Status {
    /// One-character marker shown in front of an issue line.
    pub fn marker(&self) -> (r: &'static str)
        ensures
            r@ == match *self {
                Status::NotStarted => "⭕"@,
                Status::InProgress => "🟡"@,
                Status::Blocked => "🚫"@,
                Status::Done => "🟢"@,
                Status::Closed => "🗑️"@,
                Status::Backlog => "💤"@,
            },
    {
        match self {
            Status::NotStarted => "⭕",
            Status::InProgress => "🟡",
            Status::Blocked => "🚫",
            Status::Done => "🟢",
            Status::Closed => "🗑️",
            Status::Backlog => "💤",
        }
    }

    /// Lower-case name of the status, as stored on disk.
    pub fn label(&self) -> (r: &'static str)
        ensures
            r@ == match *self {
                Status::NotStarted => "open"@,
                Status::InProgress => "active"@,
                Status::Blocked => "blocked"@,
                Status::Done => "done"@,
                Status::Closed => "closed"@,
                Status::Backlog => "backlog"@,
            },
    {
        match self {
            Status::NotStarted => "open",
            Status::InProgress => "active",
            Status::Blocked => "blocked",
            Status::Done => "done",
            Status::Closed => "closed",
            Status::Backlog => "backlog",
        }
    }
}

/// Priority of an issue, highest first.
#[derive(Debug, Clone, Copy, PartialEq, Eq, Hash, Structural)]
pub enum Priority {
    Critical,
    High,
    Medium,
    Low,
}

impl Priority {
    /// Rank used to order issues by priority, lowest rank first.
    pub fn sort_key(&self) -> (r: u8)
        ensures
            r == match *self {
                Priority::Critical => 0u8,
                Priority::High => 1u8,
                Priority::Medium => 2u8,
                Priority::Low => 3u8,
            },
    {
        match self {
            Priority::Critical => 0,
            Priority::High => 1,
            Priority::Medium => 2,
            Priority::Low => 3,
        }
    }

    /// Lower-case name of the priority, as stored on disk.
    pub fn label(&self) -> (r: &'static str)
        ensures
            r@ == match *self {
                Priority::Critical => "critical"@,
                Priority::High => "high"@,
                Priority::Medium => "medium"@,
                Priority::Low => "low"@,
            },
    {
        match self {
            Priority::Critical => "critical",
            Priority::High => "high",
            Priority::Medium => "medium",
            Priority::Low => "low",
        }
    }
}

/// Frontmatter of an issue record. `created`, `started` and `closed` are
/// Unix timestamps in seconds. `depends_on` lists the issues this one
/// waits for; `blocks` is the maintained reverse of `depends_on`.
#[derive(Debug, Clone)]
pub struct IssueMetadata {
    pub title: String,
    pub priority: Priority,
    pub status: Status,
    pub created: i64,
    pub tags: Vec<String>,
    pub files: Vec<String>,
    pub effort: Option<String>,
    pub context: Option<String>,
    pub started: Option<i64>,
    pub blocked_reason: Option<String>,
    pub closed: Option<i64>,
    pub depends_on: Vec<u32>,
    pub blocks: Vec<u32>,
}

/// A full issue record: frontmatter plus free-form body text.
#[derive(Debug, Clone)]
pub struct Issue {
    pub metadata: IssueMetadata,
    pub body: String,
}

/// An issue together with the id taken from its file name.
#[derive(Debug, Clone)]
pub struct IssueWithId {
    pub id: u32,
    pub issue: Issue,
}

impl Issue {
    /// A fresh, not-yet-started issue with no edges. The body is built
    /// from the three description sections, skipping empty ones.
    pub fn new(
        title: String,
        priority: Priority,
        tags: Vec<String>,
        files: Vec<String>,
        issue: String,
        impact: String,
        acceptance: String,
        effort: Option<String>,
        context: Option<String>,
        created: i64,
    ) -> (r: Issue)
        ensures
            r.metadata.title == title,
            r.metadata.priority == priority,
            r.metadata.status == Status::NotStarted,
            r.metadata.created == created,
            r.metadata.tags == tags,
            r.metadata.files == files,
            r.metadata.effort == effort,
            r.metadata.context == context,
            r.metadata.started is None,
            r.metadata.blocked_reason is None,
            r.metadata.closed is None,
            r.metadata.depends_on@ == Seq::<u32>::empty(),
            r.metadata.blocks@ == Seq::<u32>::empty(),
            r.body@ == body_section("**Issue**: "@, issue@) + body_section("**Impact**: "@, impact@)
                + body_section("**Acceptance**: "@, acceptance@),
    {
        let metadata = IssueMetadata {
            title,
            priority,
            status: Status::NotStarted,
            created,
            tags,
            files,
            effort,
            context,
            started: None,
            blocked_reason: None,
            closed: None,
            depends_on: Vec::new(),
            blocks: Vec::new(),
        };
        let mut body = String::new();
        if issue.unicode_len() > 0 {
            body.append("**Issue**: ");
            body.append(issue.as_str());
            body.append("\n\n");
        }
        if impact.unicode_len() > 0 {
            body.append("**Impact**: ");
            body.append(impact.as_str());
            body.append("\n\n");
        }
        if acceptance.unicode_len() > 0 {
            body.append("**Acceptance**: ");
            body.append(acceptance.as_str());
            body.append("\n\n");
        }
        proof {
            reveal_strlit("\n\n");
            assert(body@ =~= body_section("**Issue**: "@, issue@)
                + body_section("**Impact**: "@, impact@)
                + body_section("**Acceptance**: "@, acceptance@));
        }
        Issue { metadata, body }
    }
}

/// One labelled section of a freshly created issue body: the label, the
/// text and a blank line, or nothing when the text is empty.
pub open spec fn body_section(label: Seq<char>, text: Seq<char>) -> Seq<char> {
    if text.len() > 0 {
        label + text + "\n\n"@
    } else {
        Seq::empty()
    }
}

} // verus!
