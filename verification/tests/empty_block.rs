use mds_lint::ast::Node;
use mds_lint::config::LintConfig;
use mds_lint::diagnostic::{LintDiagnostic, LintResultBuilder, Severity};
use mds_lint::facts::collect_facts;
use mds_lint::lexer::tokenize;
use mds_lint::parser::parse_with_ctx;
use mds_lint::rules::empty_block::{check, RULE};

fn lint_src(src: &str) -> Vec<LintDiagnostic> {
    let tokens = tokenize(src).unwrap();
    let module = parse_with_ctx(&tokens, src).unwrap();
    let ctx = collect_facts(&module, false, src).unwrap();
    let mut builder = LintResultBuilder::new();
    check(&module, &ctx, "test.mds", &LintConfig::default(), &mut builder);
    builder.build(false).diagnostics
}

#[test]
fn f2_whitespace_body_is_text_node() {
    let src = "@if x:\n   \n@end\n";
    let tokens = tokenize(src).unwrap();
    let module = parse_with_ctx(&tokens, src).unwrap();
    let Node::If(block) = &module.body[0] else {
        panic!("expected If block");
    };
    assert_eq!(block.then_body.len(), 1, "whitespace-only body should have exactly one Text node");
    let Node::Text(t) = &block.then_body[0] else {
        panic!("expected Text node in whitespace-only body, got: {:?}", block.then_body[0]);
    };
    assert!(t.text.chars().all(char::is_whitespace), "body Text node should be all whitespace, got: {:?}", t.text);
}

#[test]
fn if_empty_body_fires() {
    let diags = lint_src("@if x:\n@end\n");
    assert!(diags.iter().any(|d| d.rule == RULE), "got: {:?}", diags);
}

#[test]
fn if_whitespace_only_body_fires() {
    let diags = lint_src("@if x:\n   \n@end\n");
    assert!(diags.iter().any(|d| d.rule == RULE), "got: {:?}", diags);
}

#[test]
fn if_with_content_does_not_fire() {
    let diags = lint_src("@if x:\nhello\n@end\n");
    assert!(!diags.iter().any(|d| d.rule == RULE));
}

#[test]
fn for_empty_body_fires() {
    let diags = lint_src("@for x in items:\n@end\n");
    assert!(diags.iter().any(|d| d.rule == RULE), "got: {:?}", diags);
}

#[test]
fn define_empty_body_fires() {
    let diags = lint_src("@define greet():\n@end\n");
    assert!(diags.iter().any(|d| d.rule == RULE), "got: {:?}", diags);
}

#[test]
fn message_empty_body_fires() {
    let diags = lint_src("@message user:\n@end\n");
    assert!(diags.iter().any(|d| d.rule == RULE), "got: {:?}", diags);
}

#[test]
fn block_empty_body_does_not_fire() {
    let diags = lint_src("@block tools:\n@end\n");
    assert!(!diags.iter().any(|d| d.rule == RULE), "got: {:?}", diags);
}

#[test]
fn elseif_empty_body_fires() {
    let diags = lint_src("@if x:\nhello\n@elseif y:\n@end\n");
    assert!(diags.iter().any(|d| d.rule == RULE && d.message.contains("@elseif")), "got: {:?}", diags);
}

#[test]
fn else_empty_body_fires() {
    let diags = lint_src("@if x:\nhello\n@else:\n@end\n");
    assert!(diags.iter().any(|d| d.rule == RULE), "got: {:?}", diags);
}

#[test]
fn elseif_empty_body_span_at_elseif_offset() {
    let src = "@if x:\nhello\n@elseif y:\n@end\n";
    let diags = lint_src(src);
    let elseif_diag = diags
        .iter()
        .find(|d| d.rule == RULE && d.message.contains("@elseif"))
        .expect("expected an @elseif empty-body diagnostic");
    let span = elseif_diag.span.as_ref().expect("diagnostic must carry a span");
    assert_eq!(span.offset, 13, "got offset {}", span.offset);
}

#[test]
fn else_empty_body_span_at_else_offset() {
    let src = "@if x:\nhello\n@else:\n@end\n";
    let diags = lint_src(src);
    let else_diag = diags
        .iter()
        .find(|d| d.rule == RULE && d.message.contains("@else"))
        .expect("expected an @else empty-body diagnostic");
    let span = else_diag.span.as_ref().expect("diagnostic must carry a span");
    assert_eq!(span.offset, 13, "got offset {}", span.offset);
}

#[test]
fn rule_off_suppresses_all() {
    let src = "@if x:\n@end\n";
    let tokens = tokenize(src).unwrap();
    let module = parse_with_ctx(&tokens, src).unwrap();
    let ctx = collect_facts(&module, false, src).unwrap();
    let mut builder = LintResultBuilder::new();
    let config = LintConfig { rules: [("empty-block".to_string(), Severity::Off)].into_iter().collect() };
    check(&module, &ctx, "test.mds", &config, &mut builder);
    let result = builder.build(false);
    assert!(result.diagnostics.is_empty(), "rule=off should produce no diagnostics");
}

#[test]
fn a3_case1_empty_for_fix_removals_is_whole_block_inclusive() {
    let diags = lint_src("@for x in items:\n@end\n");
    let d = diags.iter().find(|d| d.rule == RULE && d.message.contains("@for")).expect("expected empty @for diagnostic");
    let spans = d.fix_removals.as_ref().expect("case 1: fix_removals = Some(...)");
    assert_eq!(spans.len(), 1, "got: {spans:?}");
    assert!(spans[0].to_inclusive, "got: {spans:?}");
}

#[test]
fn a3_case2_empty_define_fix_removals_is_whole_block_inclusive() {
    let diags = lint_src("@define greet():\n@end\n");
    let d = diags.iter().find(|d| d.rule == RULE && d.message.contains("@define")).expect("expected empty @define diagnostic");
    let spans = d.fix_removals.as_ref().expect("case 2: fix_removals = Some(...)");
    assert_eq!(spans.len(), 1, "got: {spans:?}");
    assert!(spans[0].to_inclusive, "got: {spans:?}");
}

#[test]
fn a3_case3_empty_if_no_branches_fix_removals_is_whole_block_inclusive() {
    let diags = lint_src("@if x:\n@end\n");
    let d = diags.iter().find(|d| d.rule == RULE && d.message.contains("@if")).expect("expected empty @if diagnostic");
    let spans = d.fix_removals.as_ref().expect("case 3: fix_removals = Some(...)");
    assert_eq!(spans.len(), 1, "got: {spans:?}");
    assert!(spans[0].to_inclusive, "got: {spans:?}");
}

#[test]
fn a3_case4_empty_then_body_with_other_branches_fix_removals_is_none() {
    let diags = lint_src("@if x:\n@else:\nhello\n@end\n");
    let d = diags.iter().find(|d| d.rule == RULE && d.message.contains("@if")).expect("expected empty @if diagnostic");
    assert!(d.fix_removals.is_none(), "got: {:?}", d.fix_removals);
}

#[test]
fn a3_case5_empty_else_fix_removals_is_exclusive() {
    let diags = lint_src("@if x:\nhello\n@else:\n@end\n");
    let d = diags.iter().find(|d| d.rule == RULE && d.message.contains("@else")).expect("expected empty @else diagnostic");
    let spans = d.fix_removals.as_ref().expect("case 5: fix_removals = Some(...)");
    assert_eq!(spans.len(), 1, "got: {spans:?}");
    assert!(!spans[0].to_inclusive, "got: {spans:?}");
}

#[test]
fn a3_case6_terminal_empty_elseif_fix_removals_is_exclusive() {
    let diags = lint_src("@if x:\nhello\n@elseif y:\n@end\n");
    let d = diags.iter().find(|d| d.rule == RULE && d.message.contains("@elseif")).expect("expected empty @elseif diagnostic");
    let spans = d.fix_removals.as_ref().expect("case 6: fix_removals = Some(...)");
    assert_eq!(spans.len(), 1, "got: {spans:?}");
    assert!(!spans[0].to_inclusive, "got: {spans:?}");
}

#[test]
fn a3_case7_nonterminal_empty_elseif_fix_removals_is_none() {
    let diags = lint_src("@if x:\nhello\n@elseif y:\n@elseif z:\nworld\n@end\n");
    let d = diags.iter().find(|d| d.rule == RULE && d.message.contains("@elseif")).expect("expected empty @elseif diagnostic");
    assert!(d.fix_removals.is_none(), "got: {:?}", d.fix_removals);
}

#[test]
fn a3_case8_empty_message_fix_removals_is_none() {
    let diags = lint_src("@message user:\n@end\n");
    let d = diags.iter().find(|d| d.rule == RULE && d.message.contains("@message")).expect("expected empty @message diagnostic");
    assert!(d.fix_removals.is_none(), "got: {:?}", d.fix_removals);
}

#[test]
fn empty_for_removal_spans_open_to_end_line() {
    let src = "a\n@for x in items:\n@end\nb\n";
    let diags = lint_src(src);
    let d = diags.iter().find(|d| d.rule == RULE).expect("diagnostic");
    let spans = d.fix_removals.as_ref().expect("fix");
    assert_eq!(spans[0].from, 2);
    assert_eq!(spans[0].to, 19);
    assert_eq!(d.severity, Severity::Warn);
    assert_eq!(d.file.as_deref(), Some("test.mds"));
}
