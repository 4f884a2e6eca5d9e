use mds_lint::config::{first_occurrence, KNOWN_LINT_RULES};
use mds_lint::rules::ALL_RULE_NAMES;
use mds_lint::tier::{is_fixable, is_output_neutral, rule_tier, FixTier};

#[test]
fn registry_and_tier_table_are_bidirectionally_consistent() {
    const EXPECTED: &[(&str, FixTier)] = &[
        ("duplicate-export", FixTier::A),
        ("duplicate-import", FixTier::A),
        ("empty-block", FixTier::A),
        ("legacy-interpolation", FixTier::A),
        ("unreachable-branch", FixTier::A),
        ("unused-function", FixTier::B),
        ("unused-import", FixTier::B),
        ("redundant-else", FixTier::C),
        ("shadow-variable", FixTier::C),
        ("unused-variable", FixTier::C),
    ];
    assert_eq!(EXPECTED.len(), 10);
    assert_eq!(ALL_RULE_NAMES.len(), 10);
    assert_eq!(KNOWN_LINT_RULES.len(), 10);
    for &name in ALL_RULE_NAMES.iter() {
        let got = rule_tier(name);
        let entry = EXPECTED.iter().find(|(n, _)| *n == name);
        let expected_tier = entry
            .unwrap_or_else(|| panic!("rule {name:?} is in the registry but missing from EXPECTED"))
            .1
            .clone();
        assert_eq!(got, expected_tier, "rule_tier({name:?}) should be {expected_tier:?} per EXPECTED");
    }
    for &(name, ref _tier) in EXPECTED {
        assert!(ALL_RULE_NAMES.contains(&name), "rule {name:?} is in EXPECTED but missing from ALL_RULE_NAMES");
    }
}

#[test]
fn output_neutral_classification() {
    assert!(!is_output_neutral("legacy-interpolation"));
    for rule in &[
        "duplicate-import",
        "duplicate-export",
        "unreachable-branch",
        "empty-block",
        "unused-import",
        "unused-function",
        "unused-variable",
        "redundant-else",
        "shadow-variable",
    ] {
        assert!(is_output_neutral(rule), "{rule} should be output-neutral");
    }
    assert!(is_output_neutral("unknown-rule"));
}

#[test]
fn first_occurrence_new_key_returns_true() {
    let mut seen: Vec<(String, usize)> = Vec::new();
    assert!(first_occurrence(&mut seen, "a".to_string(), 0));
    assert_eq!(seen.iter().find(|(k, _)| k == "a").map(|(_, v)| v), Some(&0));
}

#[test]
fn first_occurrence_duplicate_key_returns_false() {
    let mut seen: Vec<(String, usize)> = Vec::new();
    first_occurrence(&mut seen, "a".to_string(), 0);
    assert!(!first_occurrence(&mut seen, "a".to_string(), 99));
    assert_eq!(seen.iter().find(|(k, _)| k == "a").map(|(_, v)| v), Some(&0));
    assert_eq!(seen.len(), 1);
}

#[test]
fn registry_names_are_sorted_and_match_known_rules() {
    assert_eq!(ALL_RULE_NAMES, KNOWN_LINT_RULES);
    assert!(ALL_RULE_NAMES.windows(2).all(|w| w[0] < w[1]));
}

#[test]
fn tier_b_fixable_only_when_standalone_and_tier_c_never() {
    assert!(is_fixable("unused-import", true));
    assert!(!is_fixable("unused-import", false));
    assert!(is_fixable("empty-block", false));
    assert!(!is_fixable("shadow-variable", true));
    assert_eq!(rule_tier("no-such-rule"), FixTier::C);
}
