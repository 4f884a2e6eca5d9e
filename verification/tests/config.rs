use mds_lint::config::{
    find_unknown_rule_names, format_unknown_rule_names_warning, LintConfig, UnknownRuleNames,
    KNOWN_LINT_RULES,
};
use mds_lint::diagnostic::Severity;

fn unknowns(names: &[&str]) -> UnknownRuleNames {
    let rules: Vec<(String, Severity)> = names.iter().map(|n| ((*n).to_string(), Severity::Warn)).collect();
    find_unknown_rule_names(&rules).expect("names must be unknown")
}

#[test]
fn warning_singular_names_rule_and_full_registry() {
    let msg = format_unknown_rule_names_warning(&unknowns(&["no-such-rule"]));
    assert_eq!(
        msg,
        format!(
            "unknown lint rule 'no-such-rule'; recognised rules are: {}; ignoring",
            KNOWN_LINT_RULES.join(", ")
        )
    );
    for rule in KNOWN_LINT_RULES {
        assert!(msg.contains(rule), "message must list {rule}; got: {msg}");
    }
}

#[test]
fn warning_plural_sorts_offenders() {
    let msg = format_unknown_rule_names_warning(&unknowns(&["zzz-bad", "aaa-bad", "mmm-bad"]));
    assert!(
        msg.starts_with("unknown lint rules: 'aaa-bad', 'mmm-bad', 'zzz-bad'; "),
        "offenders must be sorted lexicographically; got: {msg}"
    );
}

#[test]
fn warning_wire_escapes_hostile_rule_name() {
    let hostile = format!("{}[31mEVIL{}X\nClean: totally-real.mds", '\u{1b}', '\u{202e}');
    let msg = format_unknown_rule_names_warning(&unknowns(&[&hostile]));
    assert!(!msg.chars().any(|c| c.is_control()), "no raw control character may survive; got: {msg:?}");
    for escaped in ["\\u001B", "\\u202E", "\\u000A"] {
        assert!(msg.contains(escaped), "{escaped} must appear in the escaped warning; got: {msg}");
    }
    assert!(msg.contains("EVIL"), "the rule name must reach the message; got: {msg}");
}

#[test]
fn known_names_report_nothing() {
    let rules = vec![("empty-block".to_string(), Severity::Off), ("unused-import".to_string(), Severity::Error)];
    assert!(find_unknown_rule_names(&rules).is_none());
    let (config, unknown) = LintConfig::from_rules_checked(rules);
    assert!(unknown.is_none());
    assert_eq!(config.severity_for("empty-block"), Some(Severity::Off));
}

#[test]
fn unknown_names_are_deduplicated_and_sorted() {
    let u = unknowns(&["b-rule", "a-rule", "b-rule", "empty-block"]);
    assert_eq!(u.names(), &vec!["a-rule".to_string(), "b-rule".to_string()]);
}

#[test]
fn severity_for_last_entry_wins_and_absent_is_none() {
    let config = LintConfig::from_rules(vec![
        ("empty-block".to_string(), Severity::Off),
        ("empty-block".to_string(), Severity::Error),
    ]);
    assert_eq!(config.severity_for("empty-block"), Some(Severity::Error));
    assert_eq!(config.severity_for("unused-import"), None);
    assert_eq!(LintConfig::default().severity_for("empty-block"), None);
}

#[test]
fn warning_is_the_same_for_any_order_of_the_same_names() {
    let a = unknowns(&["zzz-bad", "empty-block", "aaa-bad"]);
    let b = unknowns(&["aaa-bad", "zzz-bad", "aaa-bad", "empty-block"]);
    assert_eq!(a.names(), b.names());
    assert_eq!(a.names(), &vec!["aaa-bad".to_string(), "zzz-bad".to_string()]);
    assert_eq!(format_unknown_rule_names_warning(&a), format_unknown_rule_names_warning(&b));
}
