use log_scanner::Match;
use log_scanner::Rule;
use log_scanner::Severity;
use log_scanner::rule_fires;
use log_scanner::scan_lines;
use log_scanner::sort_matches;

fn rule(description: &str, pattern: &str, severity: Severity) -> Rule {
    Rule {
        description: description.to_string(),
        pattern: pattern.to_string(),
        severity,
    }
}

#[test]
fn test_scan_log_basic() {
    let rules = vec![rule("Token", "tok_[0-9]+", Severity::High)];

    let log_content = "info tok_123\nerror nothing\nwarn tok_456";
    let lines: Vec<String> = log_content.lines().map(|l| l.to_string()).collect();

    scan_lines(&lines, &rules);
}

#[test]
fn test_scan_log_ordering_by_severity() {
    let matches = vec![
        Match {
            line_num: 1,
            description: "low item".to_string(),
            severity: Severity::Low,
            line: "line1".to_string(),
        },
        Match {
            line_num: 2,
            description: "critical item".to_string(),
            severity: Severity::Critical,
            line: "line2".to_string(),
        },
        Match {
            line_num: 3,
            description: "high item".to_string(),
            severity: Severity::High,
            line: "line3".to_string(),
        },
    ];

    let sorted = sort_matches(matches.clone());

    let expected = vec![Severity::Critical, Severity::High, Severity::Low];

    let result: Vec<_> = sorted.iter().map(|m| m.severity.clone()).collect();

    assert_eq!(result, expected);
}

#[test]
fn test_rule_fires_on_substring() {
    let r = rule("Token", "tok_[0-9]+", Severity::High);
    assert!(rule_fires(&r, "prefix tok_123 suffix"));
    assert!(!rule_fires(&r, "nothing here"));
}

#[test]
fn test_rule_fires_lookaround() {
    let r = rule("Bare word", "(?<!tok_)123", Severity::Low);
    assert!(rule_fires(&r, "number 123"));
    assert!(!rule_fires(&r, "tok_123"));
}

#[test]
fn test_scan_one_match_per_line_rule_pair() {
    let rules = vec![
        rule("Token", "tok_[0-9]+", Severity::High),
        rule("Info line", "info", Severity::Low),
    ];
    let lines = vec!["info tok_123".to_string(), "quiet".to_string()];

    let matches = scan_lines(&lines, &rules);
    assert_eq!(matches.len(), 2);
    assert!(matches.iter().all(|m| m.line_num == 1));
    assert_eq!(matches[0].description, "Token");
    assert_eq!(matches[1].description, "Info line");
}

#[test]
fn test_scan_order_by_severity_then_line() {
    let rules = vec![
        rule("low rule", "tok_1", Severity::Low),
        rule("critical rule", "tok_2", Severity::Critical),
        rule("high rule", "tok_3", Severity::High),
    ];
    let lines = vec![
        "tok_1".to_string(),
        "tok_2".to_string(),
        "tok_3".to_string(),
    ];

    let matches = scan_lines(&lines, &rules);
    assert_eq!(matches.len(), 3);
    assert_eq!(matches[0].line_num, 2);
    assert_eq!(matches[0].severity, Severity::Critical);
    assert_eq!(matches[1].line_num, 3);
    assert_eq!(matches[1].severity, Severity::High);
    assert_eq!(matches[2].line_num, 1);
    assert_eq!(matches[2].severity, Severity::Low);
}

#[test]
fn test_scan_line_order_within_severity() {
    let rules = vec![rule("Token", "tok_[0-9]+", Severity::Medium)];
    let lines = vec![
        "tok_9".to_string(),
        "none".to_string(),
        "tok_8".to_string(),
        "tok_7".to_string(),
    ];

    let matches = scan_lines(&lines, &rules);
    let line_nums: Vec<usize> = matches.iter().map(|m| m.line_num).collect();
    assert_eq!(line_nums, vec![1, 3, 4]);
}

#[test]
fn test_scan_no_rules_no_matches() {
    let rules: Vec<Rule> = Vec::new();
    let lines = vec!["tok_123".to_string()];
    assert_eq!(scan_lines(&lines, &rules).len(), 0);
}

#[test]
fn test_scan_keeps_line_text() {
    let rules = vec![rule("Token", "tok_[0-9]+", Severity::High)];
    let lines = vec!["info tok_123".to_string()];

    let matches = scan_lines(&lines, &rules);
    assert_eq!(matches.len(), 1);
    assert_eq!(matches[0].line, "info tok_123");
    assert_eq!(matches[0].description, "Token");
}
