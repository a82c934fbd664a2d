use log_scanner::Severity;

#[test]
fn test_from_str() {
    assert_eq!(Severity::from_str("critical"), Severity::Critical);
    assert_eq!(Severity::from_str("HIGH"), Severity::High);
    assert_eq!(Severity::from_str("unknown"), Severity::Unknown);
    assert_eq!(Severity::from_str("foo"), Severity::Unknown);
}

#[test]
fn test_ordering() {
    let mut levels = vec![Severity::Low, Severity::Critical, Severity::Medium];
    levels.sort();
    assert_eq!(
        levels,
        vec![Severity::Low, Severity::Medium, Severity::Critical]
    );
}

#[test]
fn test_from_str_case_insensitive() {
    assert_eq!(Severity::from_str("CrItIcAl"), Severity::Critical);
    assert_eq!(Severity::from_str("LOW"), Severity::Low);
    assert_eq!(Severity::from_str("Medium"), Severity::Medium);
    assert_eq!(Severity::from_str("hIgH"), Severity::High);
}

#[test]
fn test_from_str_empty_is_unknown() {
    assert_eq!(Severity::from_str(""), Severity::Unknown);
}

#[test]
fn test_rank_values() {
    assert_eq!(Severity::Critical.rank(), 5);
    assert_eq!(Severity::High.rank(), 4);
    assert_eq!(Severity::Medium.rank(), 3);
    assert_eq!(Severity::Low.rank(), 2);
    assert_eq!(Severity::Unknown.rank(), 1);
}

#[test]
fn test_as_str() {
    assert_eq!(Severity::Critical.as_str(), "critical");
    assert_eq!(Severity::High.as_str(), "high");
    assert_eq!(Severity::Medium.as_str(), "medium");
    assert_eq!(Severity::Low.as_str(), "low");
    assert_eq!(Severity::Unknown.as_str(), "unknown");
}
