use agentx::fuzzy::fuzzy_match_tag;

#[test]
fn test_fuzzy_match_tag() {
    assert!(fuzzy_match_tag("sec", "security"));
    assert!(fuzzy_match_tag("feat", "feature"));
    assert!(fuzzy_match_tag("bug", "bugfix"));
    assert!(fuzzy_match_tag("SEC", "security"));
    assert!(!fuzzy_match_tag("xyz", "security"));
}

#[test]
fn fuzzy_matching_folds_both_sides() {
    assert!(fuzzy_match_tag("Sec", "SECURITY"));
    assert!(fuzzy_match_tag("", "anything"));
    assert!(!fuzzy_match_tag("security", "sec"));
}
