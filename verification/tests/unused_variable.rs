use mds_lint::lint::lint_source;
use mds_lint::config::LintConfig;
use mds_lint::diagnostic::{LintDiagnostic, LintResultBuilder, Severity};
use mds_lint::facts::collect_facts;
use mds_lint::lexer::tokenize;
use mds_lint::parser::parse_with_ctx;
use mds_lint::rules::unused_variable::{check, RULE};

fn lint_src(src: &str) -> Vec<LintDiagnostic> {
    let tokens = tokenize(src).unwrap();
    let module = parse_with_ctx(&tokens, src).unwrap();
    let ctx = collect_facts(&module, false, src).unwrap();
    let mut builder = LintResultBuilder::new();
    check(&module, &ctx, "test.mds", &LintConfig::default(), &mut builder);
    builder.build(false).diagnostics
}

fn assert_rule_off_suppresses(src: &str) {
    let tokens = tokenize(src).unwrap();
    let module = parse_with_ctx(&tokens, src).unwrap();
    let ctx = collect_facts(&module, false, src).unwrap();
    let mut builder = LintResultBuilder::new();
    let config = LintConfig { rules: [(RULE.to_string(), Severity::Off)].into_iter().collect() };
    check(&module, &ctx, "test.mds", &config, &mut builder);
    assert!(builder.build(false).diagnostics.is_empty());
}

fn lint_src_partial(src: &str) -> Vec<LintDiagnostic> {
    let tokens = tokenize(src).unwrap();
    let module = parse_with_ctx(&tokens, src).unwrap();
    let ctx = collect_facts(&module, true, src).unwrap();
    let mut builder = LintResultBuilder::new();
    check(&module, &ctx, "_partial.mds", &LintConfig::default(), &mut builder);
    builder.build(false).diagnostics
}

#[test]
fn unused_fm_key_fires() {
    let diags = lint_src("---\nname: World\n---\nHello!\n");
    assert!(diags.iter().any(|d| d.rule == RULE), "got: {:?}", diags);
}

#[test]
fn used_fm_key_with_double_brace_does_not_fire() {
    let diags = lint_src("---\nname: World\n---\nHello {{name}}!\n");
    assert!(!diags.iter().any(|d| d.rule == RULE), "got: {:?}", diags);
}

#[test]
fn reserved_keys_not_flagged() {
    let diags = lint_src("---\ntype: mds\nimports: []\nprompt: hi\n---\nHello!\n");
    assert!(!diags.iter().any(|d| d.rule == RULE), "got: {:?}", diags);
}

#[test]
fn fm_var_used_in_condition_not_flagged() {
    let diags = lint_src("---\nrole: admin\n---\n@if role == \"admin\":\nhello\n@end\n");
    assert!(!diags.iter().any(|d| d.rule == RULE), "got: {:?}", diags);
}

#[test]
fn fm_var_used_as_for_iterable_not_flagged() {
    let diags = lint_src("---\nitems: []\n---\n@for item in items:\n{item}\n@end\n");
    assert!(!diags.iter().any(|d| d.rule == RULE), "got: {:?}", diags);
}

#[test]
fn partial_suppresses_unused_variable() {
    let diags = lint_src_partial("---\nname: World\n---\nHello!\n");
    assert!(!diags.iter().any(|d| d.rule == RULE), "got: {:?}", diags);
}

#[test]
fn unused_variable_rule_off_suppresses() {
    assert_rule_off_suppresses("---\nname: World\n---\nHello!\n");
}

#[test]
fn unused_variable_span_points_at_key_in_frontmatter() {
    let src = "---\ntitle: T\nname: World\n---\nHello {{ title }}!\n";
    let diags = lint_src(src);
    let found: Vec<_> = diags.iter().filter(|d| d.rule == RULE).collect();
    assert_eq!(found.len(), 1, "got: {:?}", diags);
    assert!(found[0].message.contains("'name'"));
    assert_eq!(found[0].span.as_ref().unwrap().offset, src.find("name:").unwrap());
    assert_eq!(found[0].severity, Severity::Warn);
}

#[test]
fn single_brace_use_of_fm_key_is_legacy_text() {
    let diags = lint_src("---\nname: World\n---\nHello {name}!\n");
    assert!(diags.iter().any(|d| d.rule == RULE), "got: {:?}", diags);
    let full = lint_source("---\nname: World\n---\nHello {name}!\n", "t.mds", &LintConfig::default()).unwrap();
    assert!(full.diagnostics.iter().any(|d| d.rule == "legacy-interpolation"), "got: {:?}", full.diagnostics);
}
