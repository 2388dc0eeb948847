use agentx::utils::{parse_effort, EffortError};

#[test]
fn test_parse_effort() {
    assert_eq!(parse_effort("30m").unwrap(), 30);
    assert_eq!(parse_effort("2h").unwrap(), 120);
    assert_eq!(parse_effort("1d").unwrap(), 480);
    assert_eq!(parse_effort("0.5h").unwrap(), 30);
    assert_eq!(parse_effort("1.5 hours").unwrap(), 90);
}

#[test]
fn effort_units_and_defaults() {
    assert_eq!(parse_effort("45").unwrap(), 45);
    assert_eq!(parse_effort("2w").unwrap(), 4800);
    assert_eq!(parse_effort("  3 days  ").unwrap(), 1440);
    assert_eq!(parse_effort("0.25h").unwrap(), 15);
    assert_eq!(parse_effort(".5h").unwrap(), 30);
    assert_eq!(parse_effort("2.h").unwrap(), 120);
}

#[test]
fn effort_errors() {
    assert_eq!(parse_effort(""), Err(EffortError::Empty));
    assert_eq!(parse_effort("   "), Err(EffortError::Empty));
    assert_eq!(parse_effort("abc"), Err(EffortError::NoNumber));
    assert_eq!(parse_effort("1.2.3h"), Err(EffortError::BadNumber));
    assert_eq!(parse_effort("."), Err(EffortError::BadNumber));
    assert_eq!(parse_effort("3 fortnights"), Err(EffortError::UnknownUnit));
}

#[test]
fn effort_saturates_at_the_type_limit() {
    assert_eq!(parse_effort("99999999999999999999h").unwrap(), u32::MAX);
}
