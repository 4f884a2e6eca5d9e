use mds_lint::config::LintConfig;
use mds_lint::diagnostic::{LintDiagnostic, LintResultBuilder, Severity};
use mds_lint::facts::collect_facts;
use mds_lint::lexer::tokenize;
use mds_lint::parser::parse_with_ctx;
use mds_lint::rules::redundant_else::{check, RULE};

fn lint_src(src: &str) -> Vec<LintDiagnostic> {
    let tokens = tokenize(src).unwrap();
    let module = parse_with_ctx(&tokens, src).unwrap();
    let ctx = collect_facts(&module, false, src).unwrap();
    let mut builder = LintResultBuilder::new();
    check(&module, &ctx, "test.mds", &LintConfig::default(), &mut builder);
    builder.build(false).diagnostics
}

fn assert_rule_off_suppresses(src: &str) {
    let tokens = tokenize(src).unwrap();
    let module = parse_with_ctx(&tokens, src).unwrap();
    let ctx = collect_facts(&module, false, src).unwrap();
    let mut builder = LintResultBuilder::new();
    let config = LintConfig { rules: [(RULE.to_string(), Severity::Off)].into_iter().collect() };
    check(&module, &ctx, "test.mds", &config, &mut builder);
    assert!(builder.build(false).diagnostics.is_empty());
}

#[test]
fn identical_then_else_fires() {
    let diags = lint_src("@if x:\nhello\n@else:\nhello\n@end\n");
    assert!(diags.iter().any(|d| d.rule == RULE), "got: {:?}", diags);
}

#[test]
fn different_then_else_does_not_fire() {
    let diags = lint_src("@if x:\nhello\n@else:\nworld\n@end\n");
    assert!(!diags.iter().any(|d| d.rule == RULE), "got: {:?}", diags);
}

#[test]
fn no_else_does_not_fire() {
    let diags = lint_src("@if x:\nhello\n@end\n");
    assert!(!diags.iter().any(|d| d.rule == RULE));
}

#[test]
fn identical_then_else_with_elseif_does_not_fire() {
    let diags = lint_src("@if x:\nhello\n@elseif y:\nworld\n@else:\nhello\n@end\n");
    assert!(!diags.iter().any(|d| d.rule == RULE), "got: {:?}", diags);
}

#[test]
fn structural_eq_ignores_offsets() {
    let diags = lint_src("@if x:\nhello\n@else:\nhello\n@end\n");
    assert!(diags.iter().any(|d| d.rule == RULE), "offset difference must not affect structural equality");
}

#[test]
fn redundant_else_rule_off_suppresses() {
    assert_rule_off_suppresses("@if x:\nhello\n@else:\nhello\n@end\n");
}

#[test]
fn redundant_else_finding_is_report_only_warning() {
    let diags = lint_src("@if x:\nhello {{ name }}\n@else:\nhello {{ name }}\n@end\n");
    let d = diags.iter().find(|d| d.rule == RULE).expect("finding");
    assert_eq!(d.severity, Severity::Warn);
    assert!(d.fix_removals.is_none() && d.fix_edits.is_none());
}

#[test]
fn different_interpolations_are_not_redundant() {
    let diags = lint_src("@if x:\n{{ a }}\n@else:\n{{ b }}\n@end\n");
    assert!(!diags.iter().any(|d| d.rule == RULE), "got: {:?}", diags);
}
