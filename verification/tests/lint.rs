use mds_lint::config::LintConfig;
use mds_lint::diagnostic::Severity;
use mds_lint::error::MdsError;
use mds_lint::lint::{is_partial_by_name, lint_source};

fn lint_str(source: &str) -> Result<mds_lint::diagnostic::LintResult, MdsError> {
    lint_source(source, "test.mds", &LintConfig::default())
}

#[test]
fn lint_source_valid_returns_no_diagnostics_for_plain_text() {
    let result = lint_str("Hello!\n").unwrap();
    assert!(result.diagnostics.is_empty());
    assert!(!result.truncated);
}

#[test]
fn lint_source_invalid_source_returns_err() {
    let result = lint_str("@if x:\nhello\n");
    assert!(result.is_err(), "should fail for invalid source");
}

#[test]
fn is_partial_by_name_detects_underscore_prefix() {
    assert!(is_partial_by_name("_header.mds"));
    assert!(is_partial_by_name("dir/_partial.mds"));
    assert!(!is_partial_by_name("header.mds"));
    assert!(!is_partial_by_name("dir/main.mds"));
}

#[test]
fn lint_source_reports_findings_of_several_rules_sorted() {
    let src = "---\nname: x\n---\n@if \"a\" == \"b\":\nhello\n@end\n@for i in items:\n@end\n";
    let result = lint_str(src).unwrap();
    let rules: Vec<&str> = result.diagnostics.iter().map(|d| d.rule.as_str()).collect();
    assert!(rules.contains(&"unused-variable"), "got {rules:?}");
    assert!(rules.contains(&"unreachable-branch"), "got {rules:?}");
    assert!(rules.contains(&"empty-block"), "got {rules:?}");
    for d in &result.diagnostics {
        assert_eq!(d.file.as_deref(), Some("test.mds"));
        assert_ne!(d.severity, Severity::Off);
    }
    let offsets: Vec<usize> = result.diagnostics.iter().filter_map(|d| d.span.map(|s| s.offset)).collect();
    assert!(offsets.windows(2).all(|w| w[0] <= w[1]), "got {offsets:?}");
    assert!(result.is_standalone);
}

#[test]
fn lint_source_respects_off_override() {
    let config = LintConfig::from_rules(vec![("empty-block".to_string(), Severity::Off)]);
    let result = lint_source("@for i in items:\n@end\n", "t.mds", &config).unwrap();
    assert!(result.diagnostics.iter().all(|d| d.rule != "empty-block"));
}

#[test]
fn lint_source_with_import_is_not_standalone() {
    let result = lint_str("@import \"./a.mds\" as a\n{{ a.f() }}\n").unwrap();
    assert!(!result.is_standalone);
}

#[test]
fn partial_file_quiets_unused_variable() {
    let result = lint_source("---\nname: x\n---\nHi\n", "_p.mds", &LintConfig::default()).unwrap();
    assert!(result.diagnostics.iter().all(|d| d.rule != "unused-variable"));
}
