//! The requests the tool server takes, as plain data, and the server
//! states themselves. Decoding requests from the wire and encoding
//! responses is the transport's business.

use vstd::prelude::*;

use crate::commands::Commands;
use crate::issue::{Priority, Status};
use crate::storage::Storage;

verus! {

/// A status change asked for over the wire.
#[derive(Debug, Clone, Copy, PartialEq, Eq, Structural)]
pub enum StatusAction {
    Start,
    Block,
    Done,
    Close,
    Reopen,
    Defer,
    Activate,
}

#[derive(Debug, Clone)]
pub struct ContextRequest {
    pub format: Option<String>,
}

#[derive(Debug, Clone)]
pub struct CreateIssueRequest {
    pub title: String,
    pub priority: Option<Priority>,
    pub tags: Option<Vec<String>>,
    pub files: Option<Vec<String>>,
    pub issue: String,
    pub impact: String,
    pub acceptance: String,
    pub effort: Option<String>,
    pub context: Option<String>,
}

#[derive(Debug, Clone)]
pub struct UpdateStatusRequest {
    pub bug_ref: String,
    pub status: StatusAction,
    pub reason: Option<String>,
}

#[derive(Debug, Clone)]
pub struct ShowRequest {
    pub bug_ref: String,
}

#[derive(Debug, Clone)]
pub struct CheckpointRequest {
    pub bug_ref: String,
    pub message: String,
}

#[derive(Debug, Clone)]
pub struct QuickWinsRequest {
    pub threshold: Option<String>,
}

#[derive(Debug, Clone)]
pub struct SearchRequest {
    pub query: String,
    pub include_closed: Option<bool>,
    pub status: Option<Status>,
    pub priority: Option<Priority>,
    pub tags: Option<Vec<String>>,
}

#[derive(Debug, Clone)]
pub struct QueryRequest {
    pub status: Option<Status>,
    pub priority: Option<Priority>,
    pub max_effort: Option<String>,
    pub file_contains: Option<String>,
    pub limit: Option<usize>,
    pub tags: Option<Vec<String>>,
}

#[derive(Debug, Clone)]
pub struct ListRequest {
    pub status: Option<String>,
    pub verbose: Option<bool>,
}

#[derive(Debug, Clone)]
pub struct ImportRequest {
    pub yaml_content: String,
}

#[derive(Debug, Clone)]
pub struct AliasListRequest {}

#[derive(Debug, Clone)]
pub struct AliasAddRequest {
    pub bug_ref: String,
    pub alias: String,
}

#[derive(Debug, Clone)]
pub struct AliasRemoveRequest {
    pub alias: String,
}

#[derive(Debug, Clone)]
pub struct BulkStartRequest {
    pub bug_refs: Vec<String>,
}

#[derive(Debug, Clone)]
pub struct BulkCloseRequest {
    pub bug_refs: Vec<String>,
    pub message: Option<String>,
}

#[derive(Debug, Clone)]
pub struct SummaryRequest {
    pub hours: Option<u64>,
}

#[derive(Debug, Clone)]
pub struct DependenciesRequest {
    pub bug_ref: String,
}

#[derive(Debug, Clone)]
pub struct DependRequest {
    pub bug_ref: String,
    pub add: Option<Vec<String>>,
    pub remove: Option<Vec<String>>,
}

#[derive(Debug, Clone)]
pub struct TagRequest {
    pub bug_ref: String,
    pub add: Option<Vec<String>>,
    pub remove: Option<Vec<String>>,
    pub list: Option<bool>,
}

#[derive(Debug, Clone)]
pub struct MetricsRequest {
    pub period: Option<String>,
}

#[derive(Debug, Clone)]
pub struct DepsGraphRequest {
    pub issue: Option<String>,
}

/// The tool server: commands bound to a repository, with a second handle
/// on the repository for read-only queries.
#[derive(Debug, Clone)]
pub struct IssueTrackerMCP {
    pub commands: Commands,
    pub storage: Storage,
}

impl IssueTrackerMCP {
    /// Binds the server to a loaded repository and its commands.
    pub fn new(storage: Storage, commands: Commands) -> (r: IssueTrackerMCP)
        ensures
            r.storage == storage,
            r.commands == commands,
    {
        IssueTrackerMCP { commands, storage }
    }
}

/// The line-based tool server, carrying only the commands.
#[derive(Debug, Clone)]
pub struct SimpleMcpServer {
    pub commands: Commands,
}

impl SimpleMcpServer {
    /// Binds the server to its commands.
    pub fn new(commands: Commands) -> (r: SimpleMcpServer)
        ensures
            r.commands == commands,
    {
        SimpleMcpServer { commands }
    }
}

} // verus!
