use mds_lint::config::LintConfig;
use mds_lint::diagnostic::{LintDiagnostic, LintResultBuilder, Severity};
use mds_lint::facts::collect_facts;
use mds_lint::lexer::tokenize;
use mds_lint::parser::parse_with_ctx;
use mds_lint::rules::duplicate_export::{check, RULE};

fn lint_src(src: &str) -> Vec<LintDiagnostic> {
    let tokens = tokenize(src).unwrap();
    let module = parse_with_ctx(&tokens, src).unwrap();
    let ctx = collect_facts(&module, false, src).unwrap();
    let mut builder = LintResultBuilder::new();
    check(&module, &ctx, "test.mds", &LintConfig::default(), &mut builder);
    builder.build(false).diagnostics
}

fn assert_rule_off_suppresses(src: &str) {
    let tokens = tokenize(src).unwrap();
    let module = parse_with_ctx(&tokens, src).unwrap();
    let ctx = collect_facts(&module, false, src).unwrap();
    let mut builder = LintResultBuilder::new();
    let config = LintConfig { rules: [(RULE.to_string(), Severity::Off)].into_iter().collect() };
    check(&module, &ctx, "test.mds", &config, &mut builder);
    assert!(builder.build(false).diagnostics.is_empty());
}

#[test]
fn l_u_de1_export_offsets_are_real() {
    let src = "@define greet():\nhello\n@end\n@export greet\n";
    let tokens = tokenize(src).unwrap();
    let module = parse_with_ctx(&tokens, src).unwrap();
    let ctx = collect_facts(&module, false, src).unwrap();
    assert_eq!(ctx.exports.len(), 1, "should have exactly one export");
    let exp = &ctx.exports[0];
    let expected_offset = src.find("@export").expect("@export must appear in source");
    assert_eq!(exp.offset, expected_offset);
    let at_offset = &src[exp.offset..exp.offset + "@export".len()];
    assert_eq!(at_offset, "@export", "bytes at offset must be '@export'");
}

#[test]
fn duplicate_named_export_fires() {
    let diags = lint_src("@define greet():\nhello\n@end\n@export greet\n@export greet\n");
    assert!(diags.iter().any(|d| d.rule == RULE), "got: {:?}", diags);
}

#[test]
fn distinct_exports_do_not_fire() {
    let diags = lint_src("@define greet():\nhello\n@end\n@define bye():\ngoodbye\n@end\n@export greet\n@export bye\n");
    assert!(!diags.iter().any(|d| d.rule == RULE), "got: {:?}", diags);
}

#[test]
fn duplicate_wildcard_export_fires() {
    let diags = lint_src("@export * from \"./lib.mds\"\n@export * from \"./lib.mds\"\n");
    assert!(diags.iter().any(|d| d.rule == RULE), "got: {:?}", diags);
}

#[test]
fn duplicate_export_rule_off_suppresses() {
    assert_rule_off_suppresses("@define greet():\nhello\n@end\n@export greet\n@export greet\n");
}

#[test]
fn duplicate_export_anchors_second_and_removes_its_line() {
    let src = "@define greet():\nhello\n@end\n@export greet\n@export greet\n";
    let diags = lint_src(src);
    let found: Vec<_> = diags.iter().filter(|d| d.rule == RULE).collect();
    assert_eq!(found.len(), 1);
    let second = src.rfind("@export").unwrap();
    assert_eq!(found[0].span.as_ref().unwrap().offset, second);
    assert_eq!(found[0].severity, Severity::Error);
    let spans = found[0].fix_removals.as_ref().expect("auto-fixable");
    assert_eq!(spans.len(), 1);
    assert_eq!(spans[0].from, second);
}
