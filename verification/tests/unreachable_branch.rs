use mds_lint::config::LintConfig;
use mds_lint::diagnostic::{FixLineSpan, LintDiagnostic, LintResultBuilder, Severity, MAX_DIAGNOSTICS};
use mds_lint::facts::collect_facts;
use mds_lint::lexer::tokenize;
use mds_lint::parser::parse_with_ctx;
use mds_lint::ast::{Condition, Expr};
use mds_lint::rules::unreachable_branch::{check, classify_condition, ConditionClass, RULE};

fn lint_src(src: &str) -> Vec<LintDiagnostic> {
    let tokens = tokenize(src).unwrap();
    let module = parse_with_ctx(&tokens, src).unwrap();
    let ctx = collect_facts(&module, false, src).unwrap();
    let mut builder = LintResultBuilder::new();
    check(&module, &ctx, "test.mds", &LintConfig::default(), &mut builder);
    builder.build(false).diagnostics
}

#[test]
fn always_true_literal_eq_fires_when_later_branches_present() {
    let src = "@if \"x\" == \"x\":\nhello\n@else:\nworld\n@end\n";
    let diags = lint_src(src);
    assert!(
        diags.iter().any(|d| d.rule == RULE),
        "should fire for always-true literal condition with @else; got: {:?}",
        diags
    );
}

#[test]
fn always_true_no_later_branches_does_not_fire() {
    let diags = lint_src("@if \"yes\" == \"yes\":\nbody\n@end\n");
    assert!(
        !diags.iter().any(|d| d.rule == RULE),
        "must NOT fire when always-true @if has no @elseif/@else (nothing is unreachable); \
         got: {:?}",
        diags
    );
}

#[test]
fn always_false_literal_eq_fires() {
    let diags = lint_src("@if \"x\" == \"y\":\nhello\n@end\n");
    assert!(
        diags.iter().any(|d| d.rule == RULE),
        "should fire for always-false literal condition; got: {:?}",
        diags
    );
}

#[test]
fn always_true_literal_neq_fires_when_later_branches_present() {
    let src = "@if \"a\" != \"b\":\nhello\n@elseif x == \"c\":\nworld\n@end\n";
    let diags = lint_src(src);
    assert!(
        diags.iter().any(|d| d.rule == RULE),
        "should fire for always-true != condition with @elseif; got: {:?}",
        diags
    );
}

#[test]
fn variable_comparison_does_not_fire() {
    let diags = lint_src("@if role == \"admin\":\nhello\n@end\n");
    assert!(
        !diags.iter().any(|d| d.rule == RULE),
        "should NOT fire for variable comparison; got: {:?}",
        diags
    );
}

#[test]
fn duplicate_elseif_condition_fires() {
    let src = "@if x == \"a\":\nfoo\n@elseif x == \"a\":\nbar\n@end\n";
    let diags = lint_src(src);
    assert!(
        diags.iter().any(|d| d.rule == RULE),
        "should fire for duplicate @elseif condition; got: {:?}",
        diags
    );
}

#[test]
fn distinct_elseif_condition_does_not_fire() {
    let src = "@if x == \"a\":\nfoo\n@elseif x == \"b\":\nbar\n@end\n";
    let diags = lint_src(src);
    assert!(
        !diags.iter().any(|d| d.rule == RULE),
        "should NOT fire for distinct @elseif conditions; got: {:?}",
        diags
    );
}

#[test]
fn number_literal_always_true_fires_with_later_branches() {
    let src = "@if 1 == 1:\nhello\n@else:\nworld\n@end\n";
    let diags = lint_src(src);
    assert!(
        diags.iter().any(|d| d.rule == RULE),
        "should fire for 1 == 1 with @else; got: {:?}",
        diags
    );
}

#[test]
fn triple_report_dedup_yields_at_most_two_findings() {
    let src = "@if \"a\" == \"a\":\nfoo\n@elseif \"a\" == \"a\":\nbar\n@end\n";
    let diags = lint_src(src);
    let count = diags.iter().filter(|d| d.rule == RULE).count();
    assert_eq!(
        count, 2,
        "duplicate always-true @elseif must yield exactly 2 findings \
         (not 3 — always-true and duplicate are the same dead code); got {count}: {:?}",
        diags
    );
}

#[test]
fn duplicate_elseif_diagnostic_anchored_at_elseif() {
    let src = "---\nx: hello\n---\n@if x == \"a\":\nfoo\n@elseif x == \"a\":\nbar\n@end\n";
    let diags = lint_src(src);
    let dup_diag = diags
        .iter()
        .find(|d| d.rule == RULE && d.message.contains("structurally identical"))
        .expect("expected a duplicate-@elseif diagnostic");
    let span = dup_diag
        .span
        .as_ref()
        .expect("diagnostic must carry a span");
    assert_ne!(
        span.offset, 17,
        "duplicate @elseif diagnostic must NOT be anchored at @if opener (byte 17)"
    );
    assert_eq!(
        span.offset, 35,
        "duplicate @elseif diagnostic must be at the @elseif directive (byte 35); \
         got offset {}",
        span.offset
    );
}

#[test]
fn unreachable_branch_rule_off_suppresses() {
    let src = "@if \"x\" == \"x\":\nhello\n@end\n";
    let tokens = tokenize(src).unwrap();
    let module = parse_with_ctx(&tokens, src).unwrap();
    let ctx = collect_facts(&module, false, src).unwrap();
    let mut builder = LintResultBuilder::new();
    let config = LintConfig {
        rules: [(RULE.to_string(), Severity::Off)].into_iter().collect(),
    };
    check(&module, &ctx, "test.mds", &config, &mut builder);
    assert!(builder.build(false).diagnostics.is_empty());
}

#[test]
fn a3_case_a_always_true_with_later_branches_fix_removals_is_two_span() {
    let diags = lint_src("@if \"x\" == \"x\":\nhello\n@else:\nworld\n@end\n");
    let d = diags
        .iter()
        .find(|d| d.rule == RULE && d.message.contains("always true"))
        .expect("expected always-true @if diagnostic (case A)");
    let spans = d.fix_removals.as_ref().expect(
        "case A: always-true @if with later branches must have fix_removals = Some(...)",
    );
    assert_eq!(
        spans.len(),
        2,
        "case A: expected exactly two removal spans (directive line + later-branches+@end); \
         got: {spans:?}"
    );
    assert!(
        spans[0].to_inclusive && spans[0].from == spans[0].to,
        "case A: span 1 must be a single-line inclusive removal \
         (from == to, to_inclusive = true); got: {:?}",
        spans[0]
    );
    assert!(
        spans[1].to_inclusive,
        "case A: span 2 (later branches + @end) must be inclusive; got: {:?}",
        spans[1]
    );
}

#[test]
fn a3_case_b_always_false_no_branches_fix_removals_is_whole_block_inclusive() {
    let diags = lint_src("@if \"x\" == \"y\":\nhello\n@end\n");
    let d = diags
        .iter()
        .find(|d| d.rule == RULE && d.message.contains("always false"))
        .expect("expected always-false @if diagnostic (case B)");
    let spans = d
        .fix_removals
        .as_ref()
        .expect("case B: always-false @if (no branches) must have fix_removals = Some(...)");
    assert_eq!(
        spans.len(),
        1,
        "case B: expected exactly one removal span; got: {spans:?}"
    );
    assert!(
        spans[0].to_inclusive,
        "case B: whole-block removal must be inclusive; got: {:?}",
        spans[0]
    );
}

#[test]
fn a3_case_c_always_false_with_only_else_fix_removals_is_two_span() {
    let diags = lint_src("@if \"x\" == \"y\":\nhello\n@else:\nworld\n@end\n");
    let d = diags
        .iter()
        .find(|d| d.rule == RULE && d.message.contains("always false"))
        .expect("expected always-false @if with @else diagnostic (case C)");
    let spans = d
        .fix_removals
        .as_ref()
        .expect("case C: always-false @if with @else must have fix_removals = Some(...)");
    assert_eq!(
        spans.len(),
        2,
        "case C: expected exactly two removal spans (@if+@else directive, @end line); \
         got: {spans:?}"
    );
    assert!(
        spans[0].to_inclusive,
        "case C: span 1 (@if..@else: inclusive) must be inclusive; got: {:?}",
        spans[0]
    );
    assert!(
        spans[1].to_inclusive && spans[1].from == spans[1].to,
        "case C: span 2 must be a single-line inclusive removal of @end \
         (from == to, to_inclusive = true); got: {:?}",
        spans[1]
    );
}

#[test]
fn a3_case_d_always_false_with_elseif_fix_removals_is_none() {
    let diags = lint_src("@if \"x\" == \"y\":\nhello\n@elseif z == \"a\":\nworld\n@end\n");
    let d = diags
        .iter()
        .find(|d| d.rule == RULE && d.message.contains("always false"))
        .expect("expected always-false @if with @elseif diagnostic (case D)");
    assert!(
        d.fix_removals.is_none(),
        "case D: always-false @if with @elseif must have fix_removals = None \
         (too complex to auto-fix safely); got: {:?}",
        d.fix_removals
    );
}

#[test]
fn a3_case_e_always_false_elseif_fix_removals_is_exclusive() {
    let diags = lint_src("@if z == \"a\":\nhello\n@elseif \"x\" == \"y\":\nworld\n@end\n");
    let d = diags
        .iter()
        .find(|d| d.rule == RULE && d.message.contains("always false"))
        .expect("expected always-false @elseif diagnostic (case E)");
    let spans = d
        .fix_removals
        .as_ref()
        .expect("case E: always-false @elseif must have fix_removals = Some(...)");
    assert_eq!(
        spans.len(),
        1,
        "case E: expected exactly one removal span; got: {spans:?}"
    );
    assert!(
        !spans[0].to_inclusive,
        "case E: @elseif removal must be exclusive (to_inclusive = false); got: {:?}",
        spans[0]
    );
}

#[test]
fn a3_case_f_always_true_elseif_fix_removals_is_none() {
    let diags = lint_src("@if z == \"a\":\nhello\n@elseif \"x\" == \"x\":\nworld\n@end\n");
    let d = diags
        .iter()
        .find(|d| d.rule == RULE && d.message.contains("always true"))
        .expect("expected always-true @elseif diagnostic (case F)");
    assert!(
        d.fix_removals.is_none(),
        "case F: always-true @elseif must have fix_removals = None \
         (restructuring required, not auto-fixable); got: {:?}",
        d.fix_removals
    );
}

#[test]
fn a3_case_g_duplicate_elseif_fix_removals_is_exclusive() {
    let diags = lint_src("@if x == \"a\":\nfoo\n@elseif x == \"a\":\nbar\n@end\n");
    let d = diags
        .iter()
        .find(|d| d.rule == RULE && d.message.contains("structurally identical"))
        .expect("expected duplicate @elseif diagnostic (case G)");
    let spans = d
        .fix_removals
        .as_ref()
        .expect("case G: duplicate @elseif must have fix_removals = Some(...)");
    assert_eq!(
        spans.len(),
        1,
        "case G: expected exactly one removal span; got: {spans:?}"
    );
    assert!(
        !spans[0].to_inclusive,
        "case G: duplicate @elseif removal must be exclusive (to_inclusive = false); \
         got: {:?}",
        spans[0]
    );
}

const MSG_IF_TRUE: &str =
    "@if condition is always true — @elseif/@else branches are unreachable.";
const HELP_IF_TRUE: &str =
    "Replace the constant condition with a variable or remove later branches.";
const MSG_IF_FALSE: &str = "@if condition is always false — the then-body is dead code.";
const HELP_DEAD: &str =
    "Replace the constant condition with a variable or remove the dead branch.";
const MSG_ELSEIF_FALSE: &str = "@elseif condition is always false — this branch is dead code.";
const MSG_ELSEIF_TRUE: &str = "@elseif condition is always true.";
const HELP_ELSEIF_TRUE: &str = "Replace the constant condition with a variable.";
const MSG_DUPLICATE: &str = "@elseif condition is structurally identical to an earlier \
                             branch — this branch can never be reached.";
const HELP_DUPLICATE: &str = "Remove the duplicate @elseif branch or change its condition.";
const IF_LEN: usize = 3;
const ELSEIF_LEN: usize = 7;

type Golden = (
    &'static str,
    &'static str,
    usize,
    usize,
    Option<&'static [(usize, usize, bool)]>,
);

type Fields<'a> = (
    &'a str,
    Option<&'a str>,
    usize,
    usize,
    Option<Vec<(usize, usize, bool)>>,
);

fn span_tuples(spans: &[FixLineSpan]) -> Vec<(usize, usize, bool)> {
    spans
        .iter()
        .map(|s| (s.from, s.to, s.to_inclusive))
        .collect()
}

fn ub_fields(diags: &[LintDiagnostic]) -> Vec<Fields<'_>> {
    diags
        .iter()
        .filter(|d| d.rule == RULE)
        .map(|d| {
            let span = d.span.as_ref().expect("every finding carries a span");
            let fix = d.fix_removals.as_deref().map(span_tuples);
            (
                d.message.as_str(),
                d.help.as_deref(),
                span.offset,
                span.length,
                fix,
            )
        })
        .collect()
}

fn expected(golden: &[Golden]) -> Vec<Fields<'static>> {
    golden
        .iter()
        .map(|&(message, help, offset, length, fix)| {
            (message, Some(help), offset, length, fix.map(<[_]>::to_vec))
        })
        .collect()
}

const GOLDEN_CASES: &[(&str, &str, &[Golden])] = &[
    (
        "A: always-true @if, @elseif then @else",
        "@if \"x\" == \"x\":\nthen\n@elseif z == \"b\":\nmid\n@else:\nlast\n@end\n",
        &[(MSG_IF_TRUE, HELP_IF_TRUE, 0, IF_LEN, Some(&[(0, 0, true), (21, 55, true)]))],
    ),
    (
        "A: always-true @if, @else only",
        "@if \"x\" == \"x\":\nthen\n@else:\nlast\n@end\n",
        &[(MSG_IF_TRUE, HELP_IF_TRUE, 0, IF_LEN, Some(&[(0, 0, true), (21, 33, true)]))],
    ),
    (
        "B: always-false @if, no other branch",
        "@if \"x\" == \"y\":\nthen\n@end\n",
        &[(MSG_IF_FALSE, HELP_DEAD, 0, IF_LEN, Some(&[(0, 21, true)]))],
    ),
    (
        "B: nested always-false @if",
        "@if z == \"a\":\n@if \"x\" == \"y\":\ninner\n@end\n@end\n",
        &[(MSG_IF_FALSE, HELP_DEAD, 14, IF_LEN, Some(&[(14, 36, true)]))],
    ),
    (
        "C: always-false @if, @else only",
        "@if \"x\" == \"y\":\nthen\n@else:\nlast\n@end\n",
        &[(MSG_IF_FALSE, HELP_DEAD, 0, IF_LEN, Some(&[(0, 21, true), (33, 33, true)]))],
    ),
    (
        "D: always-false @if, @elseif",
        "@if \"x\" == \"y\":\nthen\n@elseif z == \"b\":\nmid\n@end\n",
        &[(MSG_IF_FALSE, HELP_DEAD, 0, IF_LEN, None)],
    ),
    (
        "D: always-false @if, @elseif then @else",
        "@if \"x\" == \"y\":\nthen\n@elseif z == \"b\":\nmid\n@else:\nlast\n@end\n",
        &[(MSG_IF_FALSE, HELP_DEAD, 0, IF_LEN, None)],
    ),
    (
        "E: always-false @elseif, another @elseif follows",
        "@if z == \"a\":\nA\n@elseif \"x\" == \"y\":\nB\n@elseif z == \"c\":\nC\n@else:\nD\n@end\n",
        &[(MSG_ELSEIF_FALSE, HELP_DEAD, 16, ELSEIF_LEN, Some(&[(16, 38, false)]))],
    ),
    (
        "E: always-false last @elseif, @else follows",
        "@if z == \"a\":\nA\n@elseif \"x\" == \"y\":\nB\n@else:\nC\n@end\n",
        &[(MSG_ELSEIF_FALSE, HELP_DEAD, 16, ELSEIF_LEN, Some(&[(16, 38, false)]))],
    ),
    (
        "E: always-false last @elseif, no @else",
        "@if z == \"a\":\nA\n@elseif \"x\" == \"y\":\nB\n@end\n",
        &[(MSG_ELSEIF_FALSE, HELP_DEAD, 16, ELSEIF_LEN, Some(&[(16, 38, false)]))],
    ),
    (
        "F: always-true @elseif",
        "@if z == \"a\":\nA\n@elseif \"x\" == \"x\":\nB\n@else:\nC\n@end\n",
        &[(MSG_ELSEIF_TRUE, HELP_ELSEIF_TRUE, 16, ELSEIF_LEN, None)],
    ),
    (
        "G: duplicate last @elseif, no @else",
        "@if x == \"a\":\nA\n@elseif x == \"a\":\nB\n@end\n",
        &[(MSG_DUPLICATE, HELP_DUPLICATE, 16, ELSEIF_LEN, Some(&[(16, 36, false)]))],
    ),
    (
        "G: duplicate @elseif, another @elseif follows",
        "@if x == \"a\":\nA\n@elseif x == \"a\":\nB\n@elseif x == \"c\":\nC\n@else:\nD\n@end\n",
        &[(MSG_DUPLICATE, HELP_DUPLICATE, 16, ELSEIF_LEN, Some(&[(16, 36, false)]))],
    ),
    (
        "A + G: always-true @if with an identical @elseif",
        "@if \"a\" == \"a\":\nA\n@elseif \"a\" == \"a\":\nB\n@end\n",
        &[
            (MSG_IF_TRUE, HELP_IF_TRUE, 0, IF_LEN, Some(&[(0, 0, true), (18, 40, true)])),
            (MSG_DUPLICATE, HELP_DUPLICATE, 18, ELSEIF_LEN, Some(&[(18, 40, false)])),
        ],
    ),
];

#[test]
fn ub_golden_exact_fields() {
    for &(label, src, golden) in GOLDEN_CASES {
        let diags = lint_src(src);
        for d in diags.iter().filter(|d| d.rule == RULE) {
            assert_eq!(d.severity, Severity::Error, "{label}: severity");
            assert_eq!(d.file.as_deref(), Some("test.mds"), "{label}: file");
            assert!(d.fix_edits.is_none(), "{label}: fix_edits must be None");
            let span = d.span.as_ref().expect("every finding carries a span");
            assert_eq!(
                (span.line, span.column),
                (None, None),
                "{label}: line/column"
            );
        }
        assert_eq!(
            ub_fields(&diags),
            expected(golden),
            "{label}\nsource: {src:?}"
        );
    }
}

#[test]
fn ub_seen_conditions_include_classified_nonduplicates() {
    let src =
        "@if z == \"a\":\nA\n@elseif \"x\" == \"y\":\nB\n@elseif \"x\" == \"y\":\nC\n@end\n";
    assert_eq!(
        ub_fields(&lint_src(src)),
        expected(&[
            (
                MSG_ELSEIF_FALSE,
                HELP_DEAD,
                16,
                ELSEIF_LEN,
                Some(&[(16, 38, false)])
            ),
            (
                MSG_DUPLICATE,
                HELP_DUPLICATE,
                38,
                ELSEIF_LEN,
                Some(&[(38, 60, false)])
            ),
        ])
    );
}

#[test]
fn ub_seen_conditions_cover_every_earlier_branch() {
    let repeat = "@if x == \"a\":\nA\n@elseif x == \"b\":\nB\n@elseif x == \"b\":\nC\n@end\n";
    assert_eq!(
        ub_fields(&lint_src(repeat)),
        expected(&[(
            MSG_DUPLICATE,
            HELP_DUPLICATE,
            36,
            ELSEIF_LEN,
            Some(&[(36, 56, false)])
        )])
    );

    let distinct = "@if x == \"a\":\nA\n@elseif x == \"b\":\nB\n@elseif x == \"c\":\nC\n@end\n";
    assert_eq!(ub_fields(&lint_src(distinct)), expected(&[]));
}

#[test]
fn ub_triple_identical_yields_two_duplicates() {
    let src = "@if x == \"a\":\nA\n@elseif x == \"a\":\nB\n@elseif x == \"a\":\nC\n@end\n";
    assert_eq!(
        ub_fields(&lint_src(src)),
        expected(&[
            (
                MSG_DUPLICATE,
                HELP_DUPLICATE,
                16,
                ELSEIF_LEN,
                Some(&[(16, 36, false)])
            ),
            (
                MSG_DUPLICATE,
                HELP_DUPLICATE,
                36,
                ELSEIF_LEN,
                Some(&[(36, 56, false)])
            ),
        ])
    );
}

fn filler_diag() -> LintDiagnostic {
    LintDiagnostic {
        rule: "filler".to_string(),
        severity: Severity::Warn,
        message: String::new(),
        help: None,
        span: None,
        file: None,
        fix_removals: None,
        fix_edits: None,
    }
}

fn lint_src_prefilled(src: &str, prefill: usize) -> (Vec<LintDiagnostic>, bool) {
    let tokens = tokenize(src).unwrap();
    let module = parse_with_ctx(&tokens, src).unwrap();
    let ctx = collect_facts(&module, false, src).unwrap();
    let mut builder = LintResultBuilder::new();
    for _ in 0..prefill {
        assert!(
            builder.push(filler_diag()),
            "prefill must fit under the cap"
        );
    }
    let config = LintConfig::default();
    check(&module, &ctx, "test.mds", &config, &mut builder);
    let result = builder.build(false);
    (result.diagnostics, result.truncated)
}

#[test]
fn ub_respects_diagnostic_cap() {

    let src = "@if \"x\" == \"y\":\nA\n@elseif x == \"b\":\nB\n@elseif x == \"b\":\nC\n@end\n";
    let all: [Golden; 2] = [
        (MSG_IF_FALSE, HELP_DEAD, 0, IF_LEN, None),
        (
            MSG_DUPLICATE,
            HELP_DUPLICATE,
            38,
            ELSEIF_LEN,
            Some(&[(38, 58, false)]),
        ),
    ];
    assert_eq!(
        ub_fields(&lint_src(src)),
        expected(&all),
        "uncapped control"
    );

    for headroom in 0..=all.len() + 1 {
        let (diags, truncated) = lint_src_prefilled(src, MAX_DIAGNOSTICS - headroom);
        let kept = headroom.min(all.len());
        let label = format!("headroom {headroom}");
        assert_eq!(
            diags.len(),
            MAX_DIAGNOSTICS - headroom + kept,
            "{label}: total"
        );
        assert_eq!(ub_fields(&diags), expected(&all[..kept]), "{label}: kept");
        assert_eq!(truncated, headroom < all.len(), "{label}: truncated");
    }
}


#[test]
fn literal_condition_classes() {
    let s = |x: &str| Expr::StringLiteral(x.to_string());
    assert!(matches!(classify_condition(&Condition::Eq(s("a"), s("a"))), ConditionClass::AlwaysTrue));
    assert!(matches!(classify_condition(&Condition::Eq(s("a"), s("b"))), ConditionClass::AlwaysFalse));
    assert!(matches!(classify_condition(&Condition::NotEq(s("a"), s("b"))), ConditionClass::AlwaysTrue));
    assert!(matches!(
        classify_condition(&Condition::Eq(Expr::Var("x".to_string()), s("b"))),
        ConditionClass::Unknown
    ));
}
