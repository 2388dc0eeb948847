use agentx::commands::Commands;
use agentx::config::Config;
use agentx::errors::TrackerError;
use agentx::issue::{Issue, IssueMetadata, IssueWithId, Priority, Status};
use agentx::storage::Storage;
use agentx::validators::{
    validate_effort, validate_issue_ref, validate_non_empty, validate_priority,
};

fn rec(id: u32, title: &str, status: Status) -> IssueWithId {
    IssueWithId {
        id,
        issue: Issue {
            metadata: IssueMetadata {
                title: String::from(title),
                priority: Priority::Medium,
                status,
                created: 0,
                tags: Vec::new(),
                files: Vec::new(),
                effort: None,
                context: None,
                started: None,
                blocked_reason: None,
                closed: None,
                depends_on: Vec::new(),
                blocks: Vec::new(),
            },
            body: String::new(),
        },
    }
}

#[test]
fn references_resolve_to_numbers_or_aliases() {
    let mut storage = Storage::new(String::from("."));
    storage.set_aliases(vec![(String::from("login-bug"), 7)]);
    assert_eq!(storage.resolve_bug_ref("12"), Ok(12));
    assert_eq!(storage.resolve_bug_ref("login-bug"), Ok(7));
    assert_eq!(storage.resolve_bug_ref("missing"), Err(TrackerError::UnknownRef));
    assert_eq!(storage.resolve_bug_ref("+3"), Ok(3));
}

#[test]
fn slugs_collapse_everything_but_letters_and_digits() {
    assert_eq!(Storage::slugify("Fix Login Bug"), "fix-login-bug");
    assert_eq!(Storage::slugify("  spaces  everywhere  "), "spaces-everywhere");
    assert_eq!(Storage::slugify("a+b=c"), "a-b-c");
    assert_eq!(Storage::slugify("!!!"), "");
    assert_eq!(Storage::slugify("Caf\u{e9} 9"), "caf-9");
}

#[test]
fn directories_hang_off_the_base() {
    let storage = Storage::new(String::from("/work"));
    assert_eq!(storage.issues_dir(), "/work/issues");
    assert_eq!(storage.open_dir(), "/work/issues/open");
    assert_eq!(storage.closed_dir(), "/work/issues/closed");
    assert_eq!(storage.aliases_file(), "/work/issues/.aliases.yaml");
}

#[test]
fn creating_an_issue_takes_the_next_number() {
    let mut storage = Storage::new(String::from("/work"));
    storage.set_working_set(vec![rec(1, "one", Status::NotStarted)], Vec::new());
    let mut commands = Commands::new(storage, Config::default());
    let r = commands
        .create_issue_data(
            String::from("Fix Login Bug"),
            "high",
            Vec::new(),
            Vec::new(),
            String::from("the login breaks"),
            String::new(),
            String::new(),
            None,
            None,
            1700000000,
        )
        .unwrap();
    assert_eq!(r.bug_num, 2);
    assert_eq!(r.title, "Fix Login Bug");
    assert_eq!(r.path, "/work/issues/open/02-fix-login-bug.mdx");
    let created = &commands.storage.open_issues[1];
    assert_eq!(created.id, 2);
    assert_eq!(created.issue.metadata.priority, Priority::High);
    assert_eq!(created.issue.metadata.status, Status::NotStarted);
    assert_eq!(created.issue.body, "**Issue**: the login breaks\n\n");
    let bad = commands.create_issue_data(
        String::from("x"),
        "urgent",
        Vec::new(),
        Vec::new(),
        String::new(),
        String::new(),
        String::new(),
        None,
        None,
        0,
    );
    assert_eq!(bad.unwrap_err(), TrackerError::InvalidPriority);
}

#[test]
fn status_changes_land_on_the_right_record() {
    let mut storage = Storage::new(String::from("."));
    storage.set_working_set(
        vec![rec(1, "one", Status::NotStarted)],
        vec![rec(2, "two", Status::Closed)],
    );
    let mut commands = Commands::new(storage, Config::default());

    let blocked = commands.block_data("1", String::from("waiting")).unwrap();
    assert_eq!(blocked.status, "blocked");
    assert_eq!(blocked.message.as_deref(), Some("waiting"));
    assert_eq!(commands.storage.open_issues[0].issue.metadata.status, Status::Blocked);

    let deferred = commands.defer_data("1").unwrap();
    assert_eq!(deferred.status, "backlog");
    assert_eq!(commands.storage.open_issues[0].issue.metadata.status, Status::Backlog);

    let activated = commands.activate_data("1").unwrap();
    assert_eq!(activated.status, "open");
    assert_eq!(commands.storage.open_issues[0].issue.metadata.status, Status::NotStarted);

    // Reopening pulls the closed record back among the open ones.
    let reopened = commands.open_data("2").unwrap();
    assert_eq!(reopened.status, "open");
    assert!(commands.storage.closed_issues.is_empty());
    assert_eq!(commands.storage.open_issues.len(), 2);
    assert_eq!(commands.storage.open_issues[1].id, 2);
    assert_eq!(commands.storage.open_issues[1].issue.metadata.status, Status::NotStarted);
    assert_eq!(commands.storage.open_issues[1].issue.metadata.closed, None);

    let missing = commands.defer_data("9");
    assert_eq!(missing.unwrap_err(), TrackerError::NotFound(9));
}

#[test]
fn validators_accept_and_reject() {
    assert!(validate_non_empty("hello").is_ok());
    assert!(validate_non_empty("   ").is_err());
    assert!(validate_priority("critical").is_ok());
    assert!(validate_priority("HIGH").is_ok());
    assert!(validate_priority("urgent").is_err());
    assert!(validate_effort("XS").is_ok());
    assert!(validate_effort("13").is_ok());
    assert!(validate_effort("30m").is_ok());
    assert!(validate_effort("4x").is_err());
    assert!(validate_issue_ref("BUG-123").is_ok());
    assert!(validate_issue_ref("").is_err());
    assert!(validate_issue_ref("a b").is_err());
}

#[test]
fn status_labels_and_markers() {
    assert_eq!(Status::NotStarted.label(), "open");
    assert_eq!(Status::InProgress.label(), "active");
    assert_eq!(Status::Backlog.marker(), "\u{1f4a4}");
    assert_eq!(Priority::Critical.sort_key(), 0);
    assert_eq!(Priority::Low.sort_key(), 3);
    assert_eq!(Priority::High.label(), "high");
}
