use log_scanner::LoadAction;
use log_scanner::LoadError;
use log_scanner::Loader;
use log_scanner::Rule;
use log_scanner::Severity;
use log_scanner::rule_fires;

/// Drives a load whose files are given as (canonical path, content) pairs:
/// each requested path is answered with the content recorded under it,
/// taking the path itself as canonical.
fn run_load(root: &str, files: &[(&str, &str)]) -> LoadAction {
    let (mut loader, mut action) = Loader::begin(root);
    loop {
        match action {
            LoadAction::Read(path) => {
                let content = files
                    .iter()
                    .find(|(p, _)| *p == path.as_str())
                    .map(|(_, c)| *c);
                match content {
                    Some(c) => {
                        action = loader.on_file(&path, c);
                    }
                    None => {
                        return loader.on_read_error();
                    }
                }
            }
            other => {
                return other;
            }
        }
    }
}

fn done_rules(action: LoadAction) -> Vec<Rule> {
    match action {
        LoadAction::Done(rules) => rules,
        LoadAction::Fail(e) => panic!("load failed: {:?}", e),
        LoadAction::Read(p) => panic!("load stopped at read of {}", p),
    }
}

#[test]
fn test_load_rules_basic() {
    let toml_str = r#"
        [[rules]]
        description = "Test Token"
        regex = "tok_[0-9]+"
        severity = "high"
        "#;

    let rules = done_rules(run_load("test_rules.toml", &[("test_rules.toml", toml_str)]));
    assert_eq!(rules.len(), 1);
    assert_eq!(rules[0].description, "Test Token");
    assert_eq!(rules[0].severity, Severity::High);
    assert!(rule_fires(&rules[0], "tok_123"));
}

#[test]
fn test_load_rules_with_includes() {
    let base_toml = r#"
        [[rules]]
        description = "Base Rule"
        regex = "base_[0-9]+"
        severity = "low"
        "#;

    let child_toml = r#"
        includes = ["base_rules.toml"]

        [[rules]]
        description = "Child Rule"
        regex = "child_[0-9]+"
        severity = "high"
        "#;

    let rules = done_rules(run_load(
        "lsa_test_includes/child_rules.toml",
        &[
            ("lsa_test_includes/child_rules.toml", child_toml),
            ("lsa_test_includes/base_rules.toml", base_toml),
        ],
    ));
    assert_eq!(rules.len(), 2);
    assert_eq!(rules[0].description, "Base Rule");
    assert_eq!(rules[1].description, "Child Rule");
}

#[test]
fn test_load_rules_circular_include() {
    let a_toml = r#"
        includes = ["b.toml"]

        [[rules]]
        description = "Rule A"
        regex = "a_[0-9]+"
        severity = "low"
        "#;

    let b_toml = r#"
        includes = ["a.toml"]

        [[rules]]
        description = "Rule B"
        regex = "b_[0-9]+"
        severity = "low"
        "#;

    let result = run_load(
        "lsa_test_circular/a.toml",
        &[
            ("lsa_test_circular/a.toml", a_toml),
            ("lsa_test_circular/b.toml", b_toml),
        ],
    );
    assert!(matches!(result, LoadAction::Fail(_)));
    match result {
        LoadAction::Fail(LoadError::CircularInclude(path)) => {
            assert_eq!(path, "lsa_test_circular/a.toml");
        }
        other => panic!("expected a circular-include failure, got {:?}", other),
    }
}

#[test]
fn test_load_diamond_include_fails() {
    let a_toml = r#"
        includes = ["b.toml", "c.toml"]
        "#;
    let b_toml = r#"
        includes = ["d.toml"]
        "#;
    let c_toml = r#"
        includes = ["d.toml"]
        "#;
    let d_toml = r#"
        [[rules]]
        description = "Shared"
        regex = "shared_[0-9]+"
        "#;

    let result = run_load(
        "a.toml",
        &[
            ("a.toml", a_toml),
            ("b.toml", b_toml),
            ("c.toml", c_toml),
            ("d.toml", d_toml),
        ],
    );
    assert!(matches!(
        result,
        LoadAction::Fail(LoadError::CircularInclude(_))
    ));
}

#[test]
fn test_load_skips_malformed_entries() {
    let toml_str = r#"
        [[rules]]
        description = "No Pattern"

        [[rules]]
        regex = "no_description_[0-9]+"

        [[rules]]
        description = "Kept"
        regex = "kept_[0-9]+"
        severity = "medium"

        [[rules]]
        description = "Odd Severity"
        regex = "odd_[0-9]+"
        severity = "serious"
        "#;

    let rules = done_rules(run_load("r.toml", &[("r.toml", toml_str)]));
    assert_eq!(rules.len(), 2);
    assert_eq!(rules[0].description, "Kept");
    assert_eq!(rules[0].severity, Severity::Medium);
    assert_eq!(rules[1].description, "Odd Severity");
    assert_eq!(rules[1].severity, Severity::Unknown);
}

#[test]
fn test_load_invalid_regex_skipped() {
    let toml_str = r#"
        [[rules]]
        description = "Broken"
        regex = "(unclosed"

        [[rules]]
        description = "Valid"
        regex = "tok_[0-9]+"
        severity = "low"
        "#;

    let rules = done_rules(run_load("r.toml", &[("r.toml", toml_str)]));
    assert_eq!(rules.len(), 1);
    assert_eq!(rules[0].description, "Valid");
}

#[test]
fn test_load_parse_error() {
    let result = run_load("broken.toml", &[("broken.toml", "this is [not valid toml")]);
    match result {
        LoadAction::Fail(LoadError::ConfigParseError(path)) => {
            assert_eq!(path, "broken.toml");
        }
        other => panic!("expected a parse failure, got {:?}", other),
    }
}

#[test]
fn test_load_read_error() {
    let result = run_load("missing.toml", &[]);
    match result {
        LoadAction::Fail(LoadError::IoError(path)) => {
            assert_eq!(path, "missing.toml");
        }
        other => panic!("expected a read failure, got {:?}", other),
    }
}

#[test]
fn test_load_absolute_include_kept_as_is() {
    let child_toml = r#"
        includes = ["/abs/base.toml"]
        "#;
    let base_toml = r#"
        [[rules]]
        description = "Abs"
        regex = "abs_[0-9]+"
        "#;

    let rules = done_rules(run_load(
        "dir/child.toml",
        &[("dir/child.toml", child_toml), ("/abs/base.toml", base_toml)],
    ));
    assert_eq!(rules.len(), 1);
    assert_eq!(rules[0].description, "Abs");
}
