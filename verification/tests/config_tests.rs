use agentx::config::Config;

#[test]
fn test_default_config() {
    let config = Config::default();
    assert_eq!(config.default_priority, "medium");
    assert_eq!(config.default_effort_unit, "hours");
    assert!(config.auto_status_detection);
}

#[test]
fn default_git_integration_is_off() {
    let config = Config::default();
    assert!(!config.git_integration.enabled);
    assert_eq!(config.git_integration.branch_prefix, "issue-");
    assert!(!config.git_integration.auto_branch);
    assert!(config.colored_output);
    assert_eq!(config.issue_prefix, "ISSUE");
}

#[test]
fn issue_refs_use_the_prefix() {
    let config = Config::default();
    assert_eq!(config.format_issue_ref(1), "ISSUE-1");
    assert_eq!(config.format_issue_ref(42), "ISSUE-42");
    assert_eq!(config.format_issue_ref(0), "ISSUE-0");
    assert_eq!(config.format_issue_ref(4294967295), "ISSUE-4294967295");
}
