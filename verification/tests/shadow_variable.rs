use mds_lint::config::LintConfig;
use mds_lint::diagnostic::{LintDiagnostic, LintResultBuilder, Severity};
use mds_lint::facts::collect_facts;
use mds_lint::lexer::tokenize;
use mds_lint::parser::parse_with_ctx;
use mds_lint::rules::shadow_variable::{check, RULE};

fn lint_with_config(src: &str, config: &LintConfig) -> Vec<LintDiagnostic> {
    let tokens = tokenize(src).unwrap();
    let module = parse_with_ctx(&tokens, src).unwrap();
    let ctx = collect_facts(&module, false, src).unwrap();
    let mut builder = LintResultBuilder::new();
    check(&module, &ctx, "test.mds", config, &mut builder);
    builder.build(false).diagnostics
}

fn enabled_config() -> LintConfig {
    LintConfig { rules: [(RULE.to_string(), Severity::Info)].into_iter().collect() }
}

#[test]
fn default_off_produces_no_diagnostics() {
    let src = "---\nname: World\n---\n@for name in items:\n{name}\n@end\n";
    let diags = lint_with_config(src, &LintConfig::default());
    assert!(!diags.iter().any(|d| d.rule == RULE), "got: {:?}", diags);
}

#[test]
fn enabled_for_var_over_fm_key_fires() {
    let src = "---\nname: World\n---\n@for name in items:\n{name}\n@end\n";
    let diags = lint_with_config(src, &enabled_config());
    assert!(diags.iter().any(|d| d.rule == RULE && d.message.contains("name")), "got: {:?}", diags);
}

#[test]
fn enabled_define_param_over_fm_key_fires() {
    let src = "---\nuser: Alice\n---\n@define greet(user):\nhello {user}\n@end\n";
    let diags = lint_with_config(src, &enabled_config());
    assert!(diags.iter().any(|d| d.rule == RULE && d.message.contains("user")), "got: {:?}", diags);
}

#[test]
fn no_shadow_no_diagnostic() {
    let src = "---\nname: World\n---\n@for item in items:\n{item}\n@end\n";
    let diags = lint_with_config(src, &enabled_config());
    assert!(!diags.iter().any(|d| d.rule == RULE), "got: {:?}", diags);
}

#[test]
fn shadow_variable_rule_off_suppresses() {
    let src = "---\nname: World\n---\n@for name in items:\n{name}\n@end\n";
    let config = LintConfig { rules: [(RULE.to_string(), Severity::Off)].into_iter().collect() };
    let diags = lint_with_config(src, &config);
    assert!(!diags.iter().any(|d| d.rule == RULE), "got: {:?}", diags);
}

#[test]
fn enabled_shadow_anchors_at_for_and_uses_configured_severity() {
    let src = "---\nname: World\n---\n@for name in items:\n{{ name }}\n@end\n";
    let config = LintConfig { rules: [(RULE.to_string(), Severity::Warn)].into_iter().collect() };
    let diags = lint_with_config(src, &config);
    let d = diags.iter().find(|d| d.rule == RULE).expect("finding");
    assert_eq!(d.severity, Severity::Warn);
    assert_eq!(d.span.as_ref().unwrap().offset, src.find("@for").unwrap());
}
