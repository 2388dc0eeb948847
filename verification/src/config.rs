//! Tracker configuration: defaults for new issues, output options, the
//! issue reference prefix, and git integration settings. Loading the
//! configuration file from disk is the caller's business; this module
//! holds the data and its defaults.

use vstd::prelude::*;

use crate::strutil::{dec_str, u32_to_string};

verus! {

/// Where the issue records live.
#[derive(Debug, Clone)]
pub enum IssuesLocation {
    /// Under the current working directory.
    Cwd,
    /// Under a fixed directory.
    Fixed { path: String },
    /// Under a named folder in the user's home directory.
    Home { folder: String },
}

/// Settings for the optional git integration.
#[derive(Debug, Clone)]
pub struct GitIntegration {
    pub enabled: bool,
    pub branch_prefix: String,
    pub commit_prefix_format: Option<String>,
    pub auto_branch: bool,
}

/// The tracker's configuration.
#[derive(Debug, Clone)]
pub struct Config {
    pub default_priority: String,
    pub default_effort_unit: String,
    pub auto_status_detection: bool,
    pub issues_location: Option<IssuesLocation>,
    pub colored_output: bool,
    pub issue_prefix: String,
    pub git_integration: GitIntegration,
    pub templates_dir: Option<String>,
}

fn default_priority() -> (r: String)
    ensures
        r@ == "medium"@,
{
    let mut s = String::new();
    s.append("medium");
    proof {
        assert(s@ =~= "medium"@);
    }
    s
}

fn default_effort_unit() -> (r: String)
    ensures
        r@ == "hours"@,
{
    let mut s = String::new();
    s.append("hours");
    proof {
        assert(s@ =~= "hours"@);
    }
    s
}

fn default_auto_status() -> (r: bool)
    ensures
        r,
{
    true
}

fn default_colored_output() -> (r: bool)
    ensures
        r,
{
    true
}

fn default_issue_prefix() -> (r: String)
    ensures
        r@ == "ISSUE"@,
{
    let mut s = String::new();
    s.append("ISSUE");
    proof {
        assert(s@ =~= "ISSUE"@);
    }
    s
}

fn default_branch_prefix() -> (r: String)
    ensures
        r@ == "issue-"@,
{
    let mut s = String::new();
    s.append("issue-");
    proof {
        assert(s@ =~= "issue-"@);
    }
    s
}

impl Default for GitIntegration {
    /// Git integration off, with the standard branch prefix.
    fn default() -> (r: GitIntegration)
        ensures
            !r.enabled,
            r.branch_prefix@ == "issue-"@,
            r.commit_prefix_format is None,
            !r.auto_branch,
    {
        GitIntegration {
            enabled: false,
            branch_prefix: default_branch_prefix(),
            commit_prefix_format: None,
            auto_branch: false,
        }
    }
}

impl Default for Config {
    /// Medium priority, effort in hours, automatic status detection and
    /// colored output on, `ISSUE` as the reference prefix, records under
    /// the working directory, git integration off.
    fn default() -> (r: Config)
        ensures
            r.default_priority@ == "medium"@,
            r.default_effort_unit@ == "hours"@,
            r.auto_status_detection,
            r.issues_location is None,
            r.colored_output,
            r.issue_prefix@ == "ISSUE"@,
            !r.git_integration.enabled,
            r.git_integration.branch_prefix@ == "issue-"@,
            r.git_integration.commit_prefix_format is None,
            !r.git_integration.auto_branch,
            r.templates_dir is None,
    {
        Config {
            default_priority: default_priority(),
            default_effort_unit: default_effort_unit(),
            auto_status_detection: default_auto_status(),
            issues_location: None,
            colored_output: default_colored_output(),
            issue_prefix: default_issue_prefix(),
            git_integration: GitIntegration::default(),
            templates_dir: None,
        }
    }
}

impl Config {
    /// The displayed reference of an issue: the configured prefix, a
    /// dash, and the number in decimal.
    pub fn format_issue_ref(&self, num: u32) -> (r: String)
        ensures
            r@ == self.issue_prefix@ + "-"@ + dec_str(num as nat),
    {
        let mut s = String::new();
        s.append(self.issue_prefix.as_str());
        s.append("-");
        let digits = u32_to_string(num);
        s.append(digits.as_str());
        s
    }
}

} // verus!
