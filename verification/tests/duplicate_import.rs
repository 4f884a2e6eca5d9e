use mds_lint::config::LintConfig;
use mds_lint::diagnostic::{LintDiagnostic, LintResultBuilder, Severity};
use mds_lint::facts::collect_facts;
use mds_lint::lexer::tokenize;
use mds_lint::parser::parse_with_ctx;
use mds_lint::rules::duplicate_import::{check, normalize_import_path, RULE};

fn lint_src(src: &str) -> Vec<LintDiagnostic> {
    let tokens = tokenize(src).unwrap();
    let module = parse_with_ctx(&tokens, src).unwrap();
    let ctx = collect_facts(&module, false, src).unwrap();
    let mut builder = LintResultBuilder::new();
    check(&module, &ctx, "test.mds", &LintConfig::default(), &mut builder);
    builder.build(false).diagnostics
}

fn assert_rule_off_suppresses(src: &str) {
    let tokens = tokenize(src).unwrap();
    let module = parse_with_ctx(&tokens, src).unwrap();
    let ctx = collect_facts(&module, false, src).unwrap();
    let mut builder = LintResultBuilder::new();
    let config = LintConfig { rules: [(RULE.to_string(), Severity::Off)].into_iter().collect() };
    check(&module, &ctx, "test.mds", &config, &mut builder);
    assert!(builder.build(false).diagnostics.is_empty());
}

#[test]
fn normalize_leading_dot_slash() {
    assert_eq!(normalize_import_path("./utils.mds"), "utils.mds");
}

#[test]
fn normalize_no_prefix() {
    assert_eq!(normalize_import_path("utils.mds"), "utils.mds");
}

#[test]
fn normalize_interior_dot() {
    assert_eq!(normalize_import_path("a/./b.mds"), "a/b.mds");
}

#[test]
fn normalize_interior_dotdot() {
    assert_eq!(normalize_import_path("a/../b.mds"), "b.mds");
}

#[test]
fn normalize_leading_dotdot_preserved() {
    assert_eq!(normalize_import_path("../lib/utils.mds"), "../lib/utils.mds");
}

#[test]
fn normalize_multiple_leading_dotdot() {
    assert_eq!(normalize_import_path("../../lib/utils.mds"), "../../lib/utils.mds");
}

#[test]
fn normalize_complex_path() {
    assert_eq!(normalize_import_path("a/b/../c/./d.mds"), "a/c/d.mds");
}

#[test]
fn same_path_twice_fires() {
    let diags = lint_src("@import \"./utils.mds\" as u1\n@import \"./utils.mds\" as u2\n");
    assert!(diags.iter().any(|d| d.rule == RULE), "got: {:?}", diags);
}

#[test]
fn dot_slash_vs_bare_is_duplicate() {
    let diags = lint_src("@import \"./utils.mds\" as u1\n@import \"utils.mds\" as u2\n");
    assert!(diags.iter().any(|d| d.rule == RULE), "got: {:?}", diags);
}

#[test]
fn different_paths_do_not_fire() {
    let diags = lint_src("@import \"./utils.mds\" as u1\n@import \"./other.mds\" as u2\n");
    assert!(!diags.iter().any(|d| d.rule == RULE), "got: {:?}", diags);
}

#[test]
fn different_forms_same_path_fires() {
    let diags = lint_src("@import \"./utils.mds\" as u\n@import \"./utils.mds\"\n");
    assert!(diags.iter().any(|d| d.rule == RULE), "got: {:?}", diags);
}

#[test]
fn duplicate_import_rule_off_suppresses() {
    assert_rule_off_suppresses("@import \"./utils.mds\" as u1\n@import \"./utils.mds\" as u2\n");
}

#[test]
fn normalize_is_idempotent_on_samples() {
    for p in ["./a/./b/../c.mds", "../x/../y.mds", "a/b/c", "./../z.mds", "a/.."] {
        let once = normalize_import_path(p);
        assert_eq!(normalize_import_path(&once), once, "not idempotent on {p:?}");
    }
}

#[test]
fn normalize_dotdot_beyond_root_is_kept() {
    assert_eq!(normalize_import_path("a/../../b.mds"), "../b.mds");
}

#[test]
fn duplicate_import_anchors_second_occurrence_with_line_fix() {
    let src = "@import \"./utils.mds\" as u1\n@import \"./utils.mds\" as u2\n";
    let diags = lint_src(src);
    let found: Vec<_> = diags.iter().filter(|d| d.rule == RULE).collect();
    assert_eq!(found.len(), 1);
    let second = src.rfind("@import").unwrap();
    assert_eq!(found[0].span.as_ref().unwrap().offset, second);
    assert_eq!(found[0].severity, Severity::Error);
    let spans = found[0].fix_removals.as_ref().expect("auto-fixable");
    assert_eq!(spans[0].from, second);
    assert!(spans[0].to_inclusive);
}
