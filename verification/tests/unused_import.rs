use mds_lint::config::LintConfig;
use mds_lint::diagnostic::{LintDiagnostic, LintResultBuilder, Severity};
use mds_lint::facts::collect_facts;
use mds_lint::lexer::tokenize;
use mds_lint::parser::parse_with_ctx;
use mds_lint::rules::unused_import::{check, RULE};

fn lint_src(src: &str) -> Vec<LintDiagnostic> {
    let tokens = tokenize(src).unwrap();
    let module = parse_with_ctx(&tokens, src).unwrap();
    let ctx = collect_facts(&module, false, src).unwrap();
    let mut builder = LintResultBuilder::new();
    check(&module, &ctx, "test.mds", &LintConfig::default(), &mut builder);
    builder.build(false).diagnostics
}

fn assert_rule_off_suppresses(src: &str) {
    let tokens = tokenize(src).unwrap();
    let module = parse_with_ctx(&tokens, src).unwrap();
    let ctx = collect_facts(&module, false, src).unwrap();
    let mut builder = LintResultBuilder::new();
    let config = LintConfig { rules: [(RULE.to_string(), Severity::Off)].into_iter().collect() };
    check(&module, &ctx, "test.mds", &config, &mut builder);
    assert!(builder.build(false).diagnostics.is_empty());
}

#[test]
fn unused_alias_import_fires() {
    let diags = lint_src("@import \"./lib.mds\" as lib\nHello!\n");
    assert!(diags.iter().any(|d| d.rule == RULE), "got: {:?}", diags);
}

#[test]
fn used_alias_via_qualified_call_does_not_fire() {
    let diags = lint_src("@import \"./lib.mds\" as lib\n{{lib.greet(\"world\")}}\n");
    assert!(!diags.iter().any(|d| d.rule == RULE), "got: {:?}", diags);
}

#[test]
fn used_alias_via_include_does_not_fire() {
    let diags = lint_src("@import \"./lib.mds\" as lib\n@include lib\n");
    assert!(!diags.iter().any(|d| d.rule == RULE), "got: {:?}", diags);
}

#[test]
fn unused_selective_import_fires() {
    let diags = lint_src("@import { greet } from \"./lib.mds\"\nHello!\n");
    assert!(diags.iter().any(|d| d.rule == RULE && d.message.contains("greet")), "got: {:?}", diags);
}

#[test]
fn used_selective_import_does_not_fire() {
    let diags = lint_src("@import { greet } from \"./lib.mds\"\n{{greet(\"world\")}}\n");
    assert!(!diags.iter().any(|d| d.rule == RULE), "got: {:?}", diags);
}

#[test]
fn merge_import_always_used() {
    let diags = lint_src("@import \"./lib.mds\"\nHello!\n");
    assert!(!diags.iter().any(|d| d.rule == RULE), "got: {:?}", diags);
}

#[test]
fn selective_name_reexported_not_flagged() {
    let diags = lint_src("@import { greet } from \"./lib.mds\"\n@export greet\n");
    assert!(!diags.iter().any(|d| d.rule == RULE), "got: {:?}", diags);
}

#[test]
fn partial_suppresses_unused_import() {
    let src = "@import \"./lib.mds\" as lib\nHello!\n";
    let tokens = tokenize(src).unwrap();
    let module = parse_with_ctx(&tokens, src).unwrap();
    let ctx = collect_facts(&module, true, src).unwrap();
    let mut builder = LintResultBuilder::new();
    check(&module, &ctx, "_partial.mds", &LintConfig::default(), &mut builder);
    assert!(builder.build(false).diagnostics.is_empty(), "partial should suppress unused-import");
}

#[test]
fn wildcard_reexport_does_not_exempt_unused_import() {
    let diags = lint_src("@import { greet } from \"./lib.mds\"\n@export * from \"./other.mds\"\n");
    assert!(diags.iter().any(|d| d.rule == RULE && d.message.contains("greet")), "got: {:?}", diags);
}

#[test]
fn unused_import_rule_off_suppresses() {
    assert_rule_off_suppresses("@import \"./lib.mds\" as lib\nHello!\n");
}

#[test]
fn selective_span_anchors_at_name_not_at_import_keyword() {
    let diags = lint_src("@import { greet } from \"./lib.mds\"\nHello!\n");
    let diag = diags.iter().find(|d| d.rule == RULE && d.message.contains("greet")).expect("must fire");
    let span = diag.span.as_ref().expect("span must be present");
    assert_eq!(span.offset, "@import { ".len());
    assert_eq!(span.length, "greet".len());
}

#[test]
fn selective_multi_name_each_span_anchored_independently() {
    let diags = lint_src("@import { foo, bar } from \"./lib.mds\"\nHello!\n");
    let foo_diag = diags.iter().find(|d| d.rule == RULE && d.message.contains("'foo'")).expect("foo");
    let bar_diag = diags.iter().find(|d| d.rule == RULE && d.message.contains("'bar'")).expect("bar");
    let foo_span = foo_diag.span.as_ref().expect("span for 'foo'");
    let bar_span = bar_diag.span.as_ref().expect("span for 'bar'");
    assert_eq!(foo_span.offset, "@import { ".len());
    assert_eq!(foo_span.length, "foo".len());
    assert_eq!(bar_span.offset, "@import { foo, ".len());
    assert_eq!(bar_span.length, "bar".len());
}

#[test]
fn alias_span_anchors_at_import_keyword() {
    let diags = lint_src("@import \"./lib.mds\" as lib\nHello!\n");
    let diag = diags.iter().find(|d| d.rule == RULE).expect("must fire");
    let span = diag.span.as_ref().expect("span must be present");
    assert_eq!(span.offset, 0);
    assert_eq!(span.length, "@import".len());
}

#[test]
fn unused_import_is_report_only_warning() {
    let src = "Hi\n@import \"./lib.mds\" as lib\nHello!\n";
    let diags = lint_src(src);
    let d = diags.iter().find(|d| d.rule == RULE).expect("must fire");
    assert!(d.fix_removals.is_none());
    assert!(d.fix_edits.is_none());
    assert_eq!(d.span.as_ref().unwrap().offset, 3);
    assert_eq!(d.severity, Severity::Warn);
}
