use mds_lint::config::LintConfig;
use mds_lint::diagnostic::{LintDiagnostic, LintResultBuilder, Severity};
use mds_lint::facts::collect_facts;
use mds_lint::lexer::tokenize;
use mds_lint::parser::parse_with_ctx;
use mds_lint::rules::unused_function::{check, RULE};

fn lint_src(src: &str) -> Vec<LintDiagnostic> {
    let tokens = tokenize(src).unwrap();
    let module = parse_with_ctx(&tokens, src).unwrap();
    let ctx = collect_facts(&module, false, src).unwrap();
    let mut builder = LintResultBuilder::new();
    check(&module, &ctx, "test.mds", &LintConfig::default(), &mut builder);
    builder.build(false).diagnostics
}

fn assert_rule_off_suppresses(src: &str) {
    let tokens = tokenize(src).unwrap();
    let module = parse_with_ctx(&tokens, src).unwrap();
    let ctx = collect_facts(&module, false, src).unwrap();
    let mut builder = LintResultBuilder::new();
    let config = LintConfig { rules: [(RULE.to_string(), Severity::Off)].into_iter().collect() };
    check(&module, &ctx, "test.mds", &config, &mut builder);
    assert!(builder.build(false).diagnostics.is_empty());
}

#[test]
fn unexported_uncalled_fires_when_module_has_exports() {
    let src = "@define greet():\nhello\n@end\n@define format_name(x):\n{x}!\n@end\n@export greet\n";
    let diags = lint_src(src);
    assert!(diags.iter().any(|d| d.rule == RULE && d.message.contains("format_name")), "got: {:?}", diags);
}

#[test]
fn no_exports_does_not_fire() {
    let diags = lint_src("@define greet():\nhello\n@end\n");
    assert!(!diags.iter().any(|d| d.rule == RULE), "got: {:?}", diags);
}

#[test]
fn exported_function_does_not_fire() {
    let diags = lint_src("@define greet():\nhello\n@end\n@export greet\n");
    assert!(!diags.iter().any(|d| d.rule == RULE), "got: {:?}", diags);
}

#[test]
fn called_function_does_not_fire() {
    let src = "@define greet():\nhello\n@end\n@define helper():\n@end\n@export greet\n{greet()}\n";
    let diags = lint_src(src);
    assert!(!diags.iter().any(|d| d.rule == RULE && d.message.contains("greet")), "got: {:?}", diags);
}

#[test]
fn partial_suppresses_unused_function() {
    let src = "@define greet():\nhello\n@end\n@export other\n@define other():\nhello\n@end\n";
    let tokens = tokenize(src).unwrap();
    let module = parse_with_ctx(&tokens, src).unwrap();
    let ctx = collect_facts(&module, true, src).unwrap();
    let mut builder = LintResultBuilder::new();
    check(&module, &ctx, "_partial.mds", &LintConfig::default(), &mut builder);
    assert!(builder.build(false).diagnostics.is_empty(), "partial should suppress unused-function");
}

#[test]
fn unused_function_rule_off_suppresses() {
    assert_rule_off_suppresses("@define greet():\nhello\n@end\n@define dead():\n@end\n@export greet\n");
}

#[test]
fn self_recursive_function_with_double_brace_call_not_flagged() {
    let src = "@define count(n):\n{{count(n)}}\n@end\n@export greet\n@define greet():\nhello\n@end\n";
    let diags = lint_src(src);
    assert!(!diags.iter().any(|d| d.rule == RULE && d.message.contains("count")), "got: {:?}", diags);
}

#[test]
fn called_function_via_interpolation_not_flagged_but_unused_one_is() {
    let src = "@define greet():\nhello\n@end\n@define helper():\nx\n@end\n@define dead():\ny\n@end\n@export greet\n{{ helper() }}\n";
    let diags = lint_src(src);
    let names: Vec<_> = diags.iter().filter(|d| d.rule == RULE).map(|d| d.message.clone()).collect();
    assert_eq!(names.len(), 1, "got: {names:?}");
    assert!(names[0].contains("dead"));
    let d = diags.iter().find(|d| d.rule == RULE).unwrap();
    let off = src.find("@define dead").unwrap();
    assert_eq!(d.span.as_ref().unwrap().offset, off);
    assert_eq!(d.fix_removals.as_ref().unwrap()[0].from, off);
}
