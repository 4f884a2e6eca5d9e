use mds_lint::config::LintConfig;
use mds_lint::diagnostic::{FixLineSpan, LintDiagnostic, LintResult, Severity, TextEdit};
use mds_lint::error::{MdsError, SerializedSpan};
use mds_lint::fix::{
    apply_fixes_incremental, apply_plan_unchecked, diag_to_edits, extend_to_line_end, fix_line_span_to_edit,
    plan_fixes, plan_fixes_with_options, ByteEdit, FixOutcome, FixPlan, FALLBACK_MAX_EDITS,
};
use mds_lint::lint::lint_source;
use mds_lint::tier::{is_fixable, rule_tier, FixTier};

fn lint_str(source: &str) -> Result<LintResult, MdsError> {
    lint_source(source, "input.mds", &LintConfig::default())
}

fn make_diag(rule: &str, offset: usize, length: usize) -> LintDiagnostic {
    LintDiagnostic {
        rule: rule.to_string(),
        severity: Severity::Error,
        message: format!("test {rule}"),
        help: None,
        span: Some(SerializedSpan {
            offset,
            length,
            line: None,
            column: None,
        }),
        file: Some("test.mds".to_string()),
        fix_removals: Some(vec![FixLineSpan::single(offset)]),
        fix_edits: None,
    }
}

fn make_result(diags: Vec<LintDiagnostic>) -> LintResult {
    LintResult {
        diagnostics: diags,
        truncated: false,
        is_standalone: false,
    }
}

const OVERLAP_REASON: &str =
    "Overlapping fix spans detected \u{2014} batch rejected to avoid data corruption.";
const SORTEDNESS_REASON: &str = "Fix edits are not sorted ascending by start offset; \
     refusing to apply to prevent source corruption (avoids PF-005).";
const A5_PREFIX: &str =
    "could not verify fix \u{2014} the edited source did not re-parse cleanly (";
const A5_SUFFIX: &str = "); leaving the file unchanged";
const NEW_EMPTY_BLOCK_REASON: &str =
    "Reverify produced new untargeted diagnostics: [\"empty-block\"]. Edit reverted.";

fn residual_for(rule: &str, candidate: &str) -> LintResult {
    let mut diag = make_diag(rule, 0, 1);
    diag.message = candidate.to_string();
    make_result(vec![diag])
}

#[test]
fn tier_a_rules_are_fixable() {
    for rule in &[
        "duplicate-import",
        "duplicate-export",
        "unreachable-branch",
        "empty-block",
    ] {
        assert_eq!(rule_tier(rule), FixTier::A, "expected Tier A for {rule}");
        assert!(is_fixable(rule, false), "{rule} should be fixable (Tier A)");
    }
}

#[test]
fn tier_b_rules_fixable_only_standalone() {
    for rule in &["unused-import", "unused-function"] {
        assert_eq!(rule_tier(rule), FixTier::B, "expected Tier B for {rule}");
        assert!(is_fixable(rule, true), "{rule} fixable when standalone");
        assert!(
            !is_fixable(rule, false),
            "{rule} not fixable when non-standalone"
        );
    }
}

#[test]
fn tier_c_rules_never_fixable() {
    for rule in &["unused-variable", "redundant-else", "shadow-variable"] {
        assert_eq!(rule_tier(rule), FixTier::C, "expected Tier C for {rule}");
        assert!(!is_fixable(rule, true), "{rule} should never be fixable");
        assert!(!is_fixable(rule, false), "{rule} should never be fixable");
    }
}

#[test]
fn extend_to_line_end_lf() {
    let source = "hello\nworld\n";
    let end = extend_to_line_end(source, 0);
    assert_eq!(end, 6, "LF: should consume hello\\n (6 bytes)");
}

#[test]
fn extend_to_line_end_crlf() {
    let source = "hello\r\nworld\r\n";
    let end = extend_to_line_end(source, 0);
    assert_eq!(end, 7, "CRLF: should consume hello\\r\\n (7 bytes)");
}

#[test]
fn extend_to_line_end_cr_only() {
    let source = "hello\rworld\r";
    let end = extend_to_line_end(source, 0);
    assert_eq!(end, 6, "CR: should consume hello\\r (6 bytes)");
}

#[test]
fn extend_to_line_end_past_end_returns_source_len() {
    let source = "hello\n"; // 6 bytes
    assert_eq!(
        extend_to_line_end(source, source.len() + 10),
        source.len(),
        "pos past end must return source.len(), not pos"
    );
    assert_eq!(
        extend_to_line_end(source, source.len()),
        source.len(),
        "pos == source.len() must return source.len()"
    );
}

#[test]
fn l_fix_crlf1_fix_removes_complete_crlf_terminator() {
    let source = "@import \"./utils.mds\" as u1\r\n@import \"./utils.mds\" as u2\r\n";

    let second_import_offset: usize = 29;
    assert_eq!(
        &source[second_import_offset..second_import_offset + 7],
        "@import",
        "sanity: offset should point to second @import"
    );

    let diag = make_diag("duplicate-import", second_import_offset, "@import".len());
    let result = make_result(vec![diag]);

    let plan = plan_fixes(&result, source);
    assert!(
        !plan.overlap_rejected,
        "should not reject non-overlapping edits"
    );
    assert!(!plan.edits.is_empty(), "should produce at least one edit");

    let fixed = apply_plan_unchecked(source, &plan);

    let bytes = fixed.as_bytes();
    for (i, &b) in bytes.iter().enumerate() {
        if b == b'\r' {
            assert!(
                i + 1 < bytes.len() && bytes[i + 1] == b'\n',
                "CRLF fix: stray \\r at position {i} in fixed source: {:?}",
                fixed
            );
        }
    }

    assert!(
        fixed.contains("as u1"),
        "CRLF fix: first import should survive; got: {:?}",
        fixed
    );
    assert!(
        !fixed.contains("as u2"),
        "CRLF fix: second (duplicate) import should be removed; got: {:?}",
        fixed
    );
}

#[test]
fn l_fix_ovl1_identical_same_line_edits_are_deduped_not_rejected() {
    let source =
        "@import \"./a.mds\" as a\n@import \"./b.mds\" as b\n@import \"./a.mds\" as c\n";
    let diag1 = make_diag("duplicate-import", 0, "@import".len());
    let diag2 = make_diag("duplicate-import", 2, "@import".len());

    let result = make_result(vec![diag1, diag2]);
    let plan = plan_fixes(&result, source);

    assert!(
        !plan.overlap_rejected,
        "identical same-line edits must be deduped, not rejected; edits: {:?}",
        plan.edits
    );
    assert_eq!(
        plan.edits.len(),
        1,
        "exactly one edit must survive dedup of identical ranges; edits: {:?}",
        plan.edits
    );
}

#[test]
fn non_overlapping_edits_not_rejected() {
    let source = "@import \"./a.mds\" as a\n@import \"./a.mds\" as b\n";
    let diag = make_diag("duplicate-import", 23, "@import".len());
    let result = make_result(vec![diag]);

    let plan = plan_fixes(&result, source);
    assert!(
        !plan.overlap_rejected,
        "non-overlapping edits should not be rejected"
    );
}

#[test]
fn a4_identical_ranges_are_deduped_to_one() {
    let source = "@import \"./a.mds\" as a\n";
    let diag_a = LintDiagnostic {
        rule: "duplicate-import".to_string(),
        severity: Severity::Error,
        message: "dup".to_string(),
        help: None,
        span: Some(SerializedSpan {
            offset: 0,
            length: 1,
            line: None,
            column: None,
        }),
        file: None,
        fix_removals: Some(vec![FixLineSpan::single(0)]),
        fix_edits: None,
    };
    let diag_b = LintDiagnostic {
        rule: "duplicate-export".to_string(),
        severity: Severity::Error,
        message: "dup".to_string(),
        help: None,
        span: Some(SerializedSpan {
            offset: 0,
            length: 1,
            line: None,
            column: None,
        }),
        file: None,
        fix_removals: Some(vec![FixLineSpan::single(0)]),
        fix_edits: None,
    };
    let result = LintResult {
        diagnostics: vec![diag_a, diag_b],
        truncated: false,
        is_standalone: false,
    };
    let plan = plan_fixes(&result, source);
    assert!(
        !plan.overlap_rejected,
        "identical-range edits must be deduped, not rejected; edits: {:?}",
        plan.edits
    );
    assert_eq!(
        plan.edits.len(),
        1,
        "exactly one edit must survive dedup; edits: {:?}",
        plan.edits
    );
}

#[test]
fn a4_contained_edit_is_dropped_wider_edit_kept() {
    let source = "@if x:\nhello\n@else:\n\n@end\n";
    let wide_edit = LintDiagnostic {
        rule: "unreachable-branch".to_string(),
        severity: Severity::Error,
        message: "x".to_string(),
        help: None,
        span: None,
        file: None,
        fix_removals: Some(vec![FixLineSpan {
            from: 13, // @else: offset
            to: 21,   // @end offset
            to_inclusive: true,
        }]),
        fix_edits: None,
    };
    let narrow_edit = LintDiagnostic {
        rule: "empty-block".to_string(),
        severity: Severity::Warn,
        message: "x".to_string(),
        help: None,
        span: None,
        file: None,
        fix_removals: Some(vec![FixLineSpan {
            from: 13,
            to: 21,
            to_inclusive: false,
        }]),
        fix_edits: None,
    };
    let result = LintResult {
        diagnostics: vec![wide_edit, narrow_edit],
        truncated: false,
        is_standalone: false,
    };
    let plan = plan_fixes(&result, source);
    assert!(
        !plan.overlap_rejected,
        "contained edit must be deduped, not rejected; edits: {:?}",
        plan.edits
    );
    assert_eq!(
        plan.edits.len(),
        1,
        "exactly one (wide) edit must survive dedup; edits: {:?}",
        plan.edits
    );
    assert_eq!(
        plan.edits[0].start, 13,
        "surviving edit must start at @else:"
    );
    assert_eq!(
        plan.edits[0].end, 26,
        "surviving edit must end after @end newline"
    );
}

#[test]
fn a4_partial_overlap_still_rejected_after_dedup() {
    let source = "line0\nline1\nline2\n";

    let diag_a = LintDiagnostic {
        rule: "duplicate-import".to_string(),
        severity: Severity::Error,
        message: "a".to_string(),
        help: None,
        span: None,
        file: None,
        fix_removals: Some(vec![FixLineSpan {
            from: 0, // offset inside line0
            to: 6,   // offset inside line1; extend_to_line_end(6) = 12
            to_inclusive: true,
        }]),
        fix_edits: None,
    };
    let diag_b = LintDiagnostic {
        rule: "empty-block".to_string(),
        severity: Severity::Warn,
        message: "b".to_string(),
        help: None,
        span: None,
        file: None,
        fix_removals: Some(vec![FixLineSpan {
            from: 6, // offset inside line1
            to: 12,  // offset inside line2; extend_to_line_end(12) = 18
            to_inclusive: true,
        }]),
        fix_edits: None,
    };
    let result = LintResult {
        diagnostics: vec![diag_a, diag_b],
        truncated: false,
        is_standalone: false,
    };

    let plan = plan_fixes(&result, source);
    assert!(
        plan.overlap_rejected,
        "partial overlap must drive overlap_rejected=true via the real planner; \
         edits after dedup: {:?}",
        plan.edits
    );
    assert!(
        plan.edits.is_empty(),
        "overlap_rejected must clear all edits; got: {:?}",
        plan.edits
    );

    let outcome = apply_fixes_incremental(source, plan, &result, |_| {
        unreachable!("reverify must not be called for an overlap-rejected plan")
    });
    match outcome {
        FixOutcome::Rejected {
            source: unchanged,
            reason,
        } => {
            assert_eq!(reason, OVERLAP_REASON);
            assert_eq!(
                unchanged, source,
                "a rejected plan returns the source unchanged"
            );
        }
        other => panic!("overlap_rejected plan must surface Rejected; got: {other:?}"),
    }
}

#[test]
fn block_span_single_line_to_inclusive() {
    let source = "line0\nline1\nline2\n";
    let span = FixLineSpan::single(6); // any offset on "line1"
    let edit = fix_line_span_to_edit(&span, source, "test-rule")
        .expect("valid single-line span should produce an edit");
    assert_eq!(edit.start, 6, "start must be BOL of line1");
    assert_eq!(edit.end, 12, "end must include the trailing \\n of line1");
    assert_eq!(&source[edit.start..edit.end], "line1\n");
}

#[test]
fn block_span_multi_line_to_inclusive() {
    let source = "open\nbody\nend\n";
    let span = FixLineSpan {
        from: 0, // first char of "open"
        to: 10,  // first char of "end"
        to_inclusive: true,
    };
    let edit = fix_line_span_to_edit(&span, source, "empty-block")
        .expect("valid multi-line span should produce an edit");
    assert_eq!(edit.start, 0);
    assert_eq!(edit.end, source.len(), "should consume the entire source");
}

#[test]
fn block_span_to_exclusive_stops_at_to_line_start() {
    let source = "header\nbody\nkeep\n";
    let span = FixLineSpan {
        from: 0,
        to: 12, // start of "keep"
        to_inclusive: false,
    };
    let edit = fix_line_span_to_edit(&span, source, "unreachable-branch")
        .expect("valid span should produce an edit");
    assert_eq!(edit.start, 0);
    assert_eq!(
        edit.end, 12,
        "should stop at start of 'keep' line, not consume it"
    );
    assert_eq!(
        &source[edit.end..],
        "keep\n",
        "keep line must be intact after edit"
    );
}

#[test]
fn block_span_none_fix_removals_emits_no_edits() {
    let diag = LintDiagnostic {
        rule: "unused-import".to_string(),
        severity: Severity::Error,
        message: "unused".to_string(),
        help: None,
        span: Some(SerializedSpan {
            offset: 0,
            length: 5,
            line: None,
            column: None,
        }),
        file: Some("test.mds".to_string()),
        fix_removals: None, // Tier B unused-import: no edit emitted
        fix_edits: None,
    };
    let result = make_result(vec![diag]);
    let plan = plan_fixes_with_options(&result, "hello\n", true);
    assert!(
        plan.edits.is_empty(),
        "fix_removals: None must emit no ByteEdit; got: {:?}",
        plan.edits
    );
}

#[test]
fn block_span_two_disjoint_spans_produce_two_edits() {
    let source = "line0\n@if:\nline2\n@else:\n@end\n";
    let diag = LintDiagnostic {
        rule: "unreachable-branch".to_string(),
        severity: Severity::Error,
        message: "always-true".to_string(),
        help: None,
        span: Some(SerializedSpan {
            offset: 6,
            length: 4,
            line: None,
            column: None,
        }),
        file: Some("test.mds".to_string()),
        fix_removals: Some(vec![
            FixLineSpan::single(6),
            FixLineSpan {
                from: 17,
                to: 24,
                to_inclusive: true,
            },
        ]),
        fix_edits: None,
    };
    let result = make_result(vec![diag]);
    let plan = plan_fixes(&result, source);
    assert!(
        !plan.overlap_rejected,
        "disjoint spans must not trigger overlap rejection"
    );
    assert_eq!(plan.edits.len(), 2, "two disjoint spans → two edits");
    assert_eq!(plan.edits[0].start, 6);
    assert_eq!(plan.edits[0].end, 11);
    assert_eq!(plan.edits[1].start, 17);
    assert_eq!(plan.edits[1].end, 29);
}

#[test]
fn rel1_non_char_boundary_offset_does_not_panic() {
    let source = "é\n"; // 3 bytes: 0xC3 0xA9 0x0A
    let diag = make_diag("duplicate-import", 1, 1);
    let result = make_result(vec![diag]);

    let plan = plan_fixes(&result, source);
    assert!(
        plan.edits.is_empty(),
        "non-char-boundary offset must produce no edit; got: {:?}",
        plan.edits
    );
    assert!(
        !plan.overlap_rejected,
        "no overlap rejection expected when there are no valid edits"
    );
}

#[test]
fn rel1_out_of_range_offset_does_not_panic() {
    let source = "hello\n"; // 6 bytes
    let diag = make_diag("duplicate-import", 100, 1);
    let result = make_result(vec![diag]);

    let plan = plan_fixes(&result, source);
    assert!(
        plan.edits.is_empty(),
        "out-of-range offset must produce no edit; got: {:?}",
        plan.edits
    );
    assert!(
        !plan.overlap_rejected,
        "no overlap rejection expected when there are no valid edits"
    );
}

#[test]
fn l_fix_rev1_a5_rejection_message_pins_stable_prefix_and_suffix() {
    const ERR: &str = "simulated compile failure after fix";
    let source = "@import \"./a.mds\" as a\n@import \"./a.mds\" as b\n";
    let diag = make_diag("duplicate-import", 23, "@import".len());
    let result = make_result(vec![diag]);
    let plan = plan_fixes(&result, source);
    assert_eq!(plan.edits.len(), 1, "non-vacuity: exactly one edit planned");

    let calls = std::cell::Cell::new(0usize);
    let outcome = apply_fixes_incremental(source, plan, &result, |_fixed| {
        calls.set(calls.get() + 1);
        Err(MdsError::syntax(ERR.to_string()))
    });

    let reason = match outcome {
        FixOutcome::Rejected { reason, .. } => reason,
        other => panic!("expected Rejected, got: {other:?}"),
    };

    assert!(
        reason.starts_with(A5_PREFIX),
        "A5 reason must start with the stable prefix;\n  reason: {reason:?}\n  prefix: {A5_PREFIX:?}"
    );
    assert!(
        reason.ends_with(A5_SUFFIX),
        "A5 reason must end with the stable suffix;\n  reason: {reason:?}\n  suffix: {A5_SUFFIX:?}"
    );
    let embedded = &reason[A5_PREFIX.len()..reason.len() - A5_SUFFIX.len()];
    assert_eq!(
        embedded,
        MdsError::syntax(ERR.to_string()).to_display_string(),
        "A5 reason must embed the reverify error's Display between the stable \
         prefix and suffix; got: {reason:?}"
    );
    assert!(embedded.contains(ERR), "non-vacuity: {embedded:?}");
    assert_eq!(calls.get(), 2, "batch(1) + per-edit(1) reverify calls");
}

#[test]
fn l_fix_rev1_a5_two_edit_rejection_joins_with_count_prefix() {
    const ERR: &str = "simulated compile failure after fix";
    let source = "LineA\nLineB\n";
    let original = make_result(vec![
        make_diag("duplicate-import", 0, "LineA".len()),
        make_diag("duplicate-import", "LineA\n".len(), "LineB".len()),
    ]);
    let plan = plan_fixes(&original, source);
    assert_eq!(plan.edits.len(), 2, "non-vacuity: two edits planned");

    let calls = std::cell::Cell::new(0usize);
    let outcome = apply_fixes_incremental(source, plan, &original, |_fixed| {
        calls.set(calls.get() + 1);
        Err(MdsError::syntax(ERR.to_string()))
    });

    let one = format!("{A5_PREFIX}{}{A5_SUFFIX}", MdsError::syntax(ERR.to_string()).to_display_string());
    match outcome {
        FixOutcome::Rejected {
            source: unchanged,
            reason,
        } => {
            assert_eq!(reason, format!("All 2 fix edits rejected: {one}; {one}"));
            assert_eq!(
                unchanged, source,
                "a rejected plan returns the source unchanged"
            );
        }
        other => panic!("expected Rejected, got: {other:?}"),
    }
    assert_eq!(calls.get(), 3, "batch(1) + per-edit(2) reverify calls");
}

fn hostile_reverify_error() -> MdsError {
    MdsError::syntax(format!(
        "unexpected token{}[2J at{}line{}mark{}Clean: real.mds",
        '\u{1b}', '\u{202E}', '\u{061C}', '\n'
    ))
}

#[test]
fn incremental_rejection_reason_escapes_embedded_error_display() {
    let source = "@import \"./a.mds\" as a\n@import \"./a.mds\" as b\n";
    let diag = make_diag("duplicate-import", 23, "@import".len());
    let result = make_result(vec![diag]);
    let plan = plan_fixes(&result, source);
    assert!(
        !plan.edits.is_empty(),
        "non-vacuity: the plan must have edits or the fallback never runs"
    );

    let outcome =
        apply_fixes_incremental(
            source,
            plan,
            &result,
            |_fixed| Err(hostile_reverify_error()),
        );
    let reason = match outcome {
        FixOutcome::Rejected { reason, .. } => reason,
        other => panic!("expected Rejected, got: {other:?}"),
    };

    assert_reason_is_display_safe(&reason);
}

#[test]
fn incremental_multi_rejection_reason_escapes_each_error() {
    let source = "LineA\nLineB\n";
    let original = make_result(vec![
        make_diag("duplicate-import", 0, "LineA".len()),
        make_diag("duplicate-import", "LineA\n".len(), "LineB".len()),
    ]);
    let plan = plan_fixes(&original, source);
    assert_eq!(plan.edits.len(), 2, "non-vacuity: two edits planned");

    let outcome = apply_fixes_incremental(source, plan, &original, |_fixed| {
        Err(hostile_reverify_error())
    });
    let reason = match outcome {
        FixOutcome::Rejected { reason, .. } => reason,
        other => panic!("expected Rejected, got: {other:?}"),
    };

    assert!(
        reason.starts_with("All 2 fix edits rejected: "),
        "multi-rejection reason must carry the count prefix; got: {reason:?}"
    );
    assert_reason_is_display_safe(&reason);
    for cp in [0x1B_u32, 0x202E, 0x061C, 0x0A] {
        let escaped = format!("\\u{cp:04X}");
        assert_eq!(
            reason.matches(escaped.as_str()).count(),
            2,
            "{escaped} must appear once per rejected edit; got: {reason:?}"
        );
    }
}

fn assert_reason_is_display_safe(reason: &str) {
    assert!(
        reason.contains("syntax error") && reason.contains("unexpected token"),
        "non-vacuity: the embedded error text must be present; got: {reason:?}"
    );
    for raw in ['\u{1b}', '\u{202E}', '\u{061C}', '\n'] {
        assert!(
            !reason.contains(raw),
            "raw U+{:04X} must not appear in a rejection reason; got: {reason:?}",
            raw as u32
        );
    }
    for escaped in ["\\u001B", "\\u202E", "\\u061C", "\\u000A"] {
        assert!(
            reason.contains(escaped),
            "{escaped} must appear in the rejection reason; got: {reason:?}"
        );
    }
    assert_eq!(
        reason.lines().count(),
        1,
        "a rejection reason must be single-line; got: {reason:?}"
    );
}

#[test]
fn reverify_preexisting_untargeted_survives_and_fix_applies() {
    let source = "@import \"./a.mds\" as a\n@import \"./a.mds\" as b\nHello!\n";
    let dup = make_diag("duplicate-import", 23, "@import".len()); // Tier A → targeted
    let unused = make_diag("unused-variable", 0, 1); // Tier C → untargeted, pre-existing
    let result = make_result(vec![dup, unused]);
    let plan = plan_fixes(&result, source);
    assert!(!plan.overlap_rejected && !plan.edits.is_empty());

    let calls = std::cell::Cell::new(0usize);
    let outcome = apply_fixes_incremental(source, plan, &result, |_fixed| {
        calls.set(calls.get() + 1);
        Ok(make_result(vec![make_diag("unused-variable", 0, 1)]))
    });
    match outcome {
        FixOutcome::Fixed { residual, .. } => assert!(
            residual
                .diagnostics
                .iter()
                .any(|d| d.rule == "unused-variable"),
            "the pre-existing finding must survive into the residual; got: {residual:?}"
        ),
        other => panic!(
            "a surviving pre-existing untargeted diagnostic must not refuse the fix; \
             got: {other:?}"
        ),
    }
    assert_eq!(calls.get(), 1, "the batch attempt alone accepts the fix");
}

#[test]
fn reverify_new_untargeted_diagnostic_is_rejected() {
    let source = "@import \"./a.mds\" as a\n@import \"./a.mds\" as b\nHello!\n";
    let dup = make_diag("duplicate-import", 23, "@import".len());
    let result = make_result(vec![dup]); // no untargeted diagnostics in the baseline
    let plan = plan_fixes(&result, source);
    assert!(!plan.overlap_rejected && !plan.edits.is_empty());

    let calls = std::cell::Cell::new(0usize);
    let outcome = apply_fixes_incremental(source, plan, &result, |_fixed| {
        calls.set(calls.get() + 1);
        Ok(make_result(vec![make_diag("empty-block", 0, 1)]))
    });
    match outcome {
        FixOutcome::Rejected {
            source: unchanged,
            reason,
        } => {
            assert_eq!(reason, NEW_EMPTY_BLOCK_REASON);
            assert_eq!(
                unchanged, source,
                "a rejected plan returns the source unchanged"
            );
        }
        other => panic!("a new untargeted diagnostic must refuse the fix; got: {other:?}"),
    }
    assert_eq!(calls.get(), 2, "batch(1) + per-edit(1) reverify calls");
}

#[test]
fn fix_is_idempotent_on_non_truncated_results() {
    let source = "@import \"./a.mds\" as a\nHello!\n";
    let empty_result = LintResult {
        diagnostics: vec![],
        truncated: false,
        is_standalone: false,
    };
    let plan = plan_fixes(&empty_result, source);
    assert!(plan.edits.is_empty(), "no edits on already-clean source");
}

#[test]
fn truncated_plan_notes_truncation() {
    let truncated_result = LintResult {
        diagnostics: vec![],
        truncated: true,
        is_standalone: false,
    };
    let plan = plan_fixes(&truncated_result, "Hello!\n");
    assert!(plan.truncated, "truncated flag should propagate to plan");
}

#[test]
fn tier_b_unused_function_standalone_apply_succeeds() {
    let source =
        "@define greet():\nHello!\n@end\n@define dead():\nWorld!\n@end\n@export greet\n";

    let lint_result = lint_str(source).expect("source should lint without error");
    assert!(
        lint_result
            .diagnostics
            .iter()
            .any(|d| d.rule == "unused-function"),
        "unused-function must fire for `dead`; diagnostics: {:?}",
        lint_result.diagnostics
    );

    let plan = plan_fixes_with_options(&lint_result, source, /* include_tier_b= */ true);
    assert!(
        !plan.overlap_rejected,
        "no overlap expected on a single Tier B edit"
    );
    assert!(
        !plan.edits.is_empty(),
        "plan must be non-empty for Tier B unused-function; edits: {:?}",
        plan.edits
    );
    assert!(
        plan.edits.iter().any(|e| e.rule == "unused-function"),
        "edit must target the unused-function rule; edits: {:?}",
        plan.edits
    );

    let calls = std::cell::Cell::new(0usize);
    let outcome = apply_fixes_incremental(source, plan, &lint_result, |fixed| {
        calls.set(calls.get() + 1);
        lint_str(fixed)
    });

    assert!(
        matches!(outcome, FixOutcome::Fixed { .. }),
        "Tier B unused-function fix must succeed with block-span fix_removals; \
         got: {outcome:?}"
    );
    if let FixOutcome::Fixed { source: fixed, .. } = outcome {
        assert!(
            !fixed.contains("@define dead():"),
            "fixed source must not contain the removed @define dead(); got: {fixed:?}"
        );
        assert!(
            fixed.contains("@define greet():"),
            "fixed source must retain the exported @define greet(); got: {fixed:?}"
        );
    }
    assert_eq!(calls.get(), 1, "the batch attempt alone accepts the fix");
}

#[test]
fn incremental_nothing_to_fix() {
    let source = "Hello!\n";
    let original = make_result(vec![]);
    let plan = FixPlan {
        edits: vec![],
        overlap_rejected: false,
        truncated: false,
    };
    let outcome = apply_fixes_incremental(source, plan, &original, |_| {
        unreachable!("no calls expected")
    });
    assert!(
        matches!(outcome, FixOutcome::NothingToFix),
        "empty plan must return NothingToFix; got: {outcome:?}"
    );
}

#[test]
fn incremental_overlap_immediate_reject() {
    let source = "Hello!\n";
    let original = make_result(vec![]);
    let plan = FixPlan {
        edits: vec![],
        overlap_rejected: true,
        truncated: false,
    };
    let outcome = apply_fixes_incremental(source, plan, &original, |_| {
        unreachable!("no calls expected")
    });
    match outcome {
        FixOutcome::Rejected { reason, .. } => assert_eq!(reason, OVERLAP_REASON),
        other => panic!("overlap must return Rejected; got: {other:?}"),
    }
}

#[test]
fn incremental_batch_success_single_call() {
    let source = "LineA\nLineB\nKeep!\n";
    let original = make_result(vec![
        make_diag("duplicate-import", 0, "LineA".len()),
        make_diag("duplicate-import", "LineA\n".len(), "LineB".len()),
    ]);
    let plan = plan_fixes_with_options(&original, source, false);
    assert!(!plan.overlap_rejected);
    assert_eq!(plan.edits.len(), 2, "both edits must be planned");

    let call_count = std::cell::Cell::new(0usize);
    let outcome = apply_fixes_incremental(source, plan, &original, |_fixed| {
        call_count.set(call_count.get() + 1);
        Ok(make_result(vec![]))
    });

    assert!(
        matches!(outcome, FixOutcome::Fixed { .. }),
        "batch success must return Fixed; got: {outcome:?}"
    );
    assert_eq!(
        call_count.get(),
        1,
        "batch success must use exactly 1 reverify call; got: {}",
        call_count.get()
    );
}

#[test]
fn incremental_partial_batch_fail_per_edit_fallback() {
    let source = "LineA\nLineB\n";
    let original = make_result(vec![
        make_diag("duplicate-import", 0, "LineA".len()),
        make_diag("duplicate-import", "LineA\n".len(), "LineB".len()),
    ]);
    let plan = plan_fixes_with_options(&original, source, false);
    assert!(!plan.overlap_rejected);
    assert_eq!(plan.edits.len(), 2);

    let call_count = std::cell::Cell::new(0usize);
    let outcome = apply_fixes_incremental(source, plan, &original, |fixed| {
        call_count.set(call_count.get() + 1);
        if fixed.trim().is_empty() {
            Err(MdsError::syntax("empty source rejected".to_string()))
        } else {
            Ok(make_result(vec![]))
        }
    });

    match &outcome {
        FixOutcome::PartiallyFixed {
            source: fixed_src,
            rejected,
            ..
        } => {
            assert_eq!(
                fixed_src, "LineA\n",
                "accepted edit (LineB removal) should yield 'LineA\\n'; got: {fixed_src:?}"
            );
            assert_eq!(rejected.len(), 1, "exactly one edit should be rejected");
            assert_eq!(
                rejected[0].edit.rule, "duplicate-import",
                "rejected edit must be the LineA removal"
            );
        }
        other => panic!("expected PartiallyFixed; got: {other:?}"),
    }

    assert_eq!(
        call_count.get(),
        3,
        "batch(1) + per-edit(2) = 3 calls for 2 edits; got: {}",
        call_count.get()
    );
}

#[test]
fn incremental_all_rejected() {
    let source = "LineA\nLineB\n";
    let original = make_result(vec![
        make_diag("duplicate-import", 0, "LineA".len()),
        make_diag("duplicate-import", "LineA\n".len(), "LineB".len()),
    ]);
    let plan = plan_fixes_with_options(&original, source, false);
    assert_eq!(plan.edits.len(), 2);

    let call_count = std::cell::Cell::new(0usize);
    let outcome = apply_fixes_incremental(source, plan, &original, |_fixed| {
        call_count.set(call_count.get() + 1);
        Err(MdsError::syntax("always-fail".to_string()))
    });

    assert!(
        matches!(outcome, FixOutcome::Rejected { .. }),
        "all-rejected must return Rejected; got: {outcome:?}"
    );
    assert_eq!(
        call_count.get(),
        3,
        "call count must be edits.len()+1 = 3; got: {}",
        call_count.get()
    );
}

#[test]
fn incremental_call_count_bounded() {
    let source = "A\nB\nC\n";
    let original = make_result(vec![
        make_diag("duplicate-import", 0, 1),
        make_diag("duplicate-import", 2, 1),
        make_diag("duplicate-import", 4, 1),
    ]);
    let plan = plan_fixes_with_options(&original, source, false);
    assert_eq!(plan.edits.len(), 3, "all three edits must be planned");

    let call_count = std::cell::Cell::new(0usize);
    let first_call = std::cell::Cell::new(true);
    let outcome = apply_fixes_incremental(source, plan, &original, |_fixed| {
        call_count.set(call_count.get() + 1);
        if first_call.get() {
            first_call.set(false);
            Err(MdsError::syntax("batch-fail".to_string()))
        } else {
            Ok(make_result(vec![]))
        }
    });

    assert_eq!(
        call_count.get(),
        3 + 1,
        "call count must be edits.len()+1 = 4; got: {}",
        call_count.get()
    );
    assert!(
        matches!(outcome, FixOutcome::Fixed { .. }),
        "all edits accepted → Fixed; got: {outcome:?}"
    );
}

#[test]
fn incremental_right_to_left_accumulation() {
    let source = "AAAA\nBBBB\nKeep!\n";
    let original = make_result(vec![
        make_diag("duplicate-import", 0, "AAAA".len()),
        make_diag("duplicate-import", "AAAA\n".len(), "BBBB".len()),
    ]);
    let plan = plan_fixes_with_options(&original, source, false);
    assert_eq!(plan.edits.len(), 2);

    let first_call = std::cell::Cell::new(true);
    let outcome = apply_fixes_incremental(source, plan, &original, |_fixed| {
        if first_call.get() {
            first_call.set(false);
            Err(MdsError::syntax("batch-fail".to_string()))
        } else {
            Ok(make_result(vec![]))
        }
    });

    match &outcome {
        FixOutcome::Fixed {
            source: fixed_src, ..
        } => {
            assert_eq!(
                fixed_src, "Keep!\n",
                "both edits accepted right-to-left must yield 'Keep!\\n'; got: {fixed_src:?}"
            );
        }
        other => panic!("expected Fixed; got: {other:?}"),
    }
}

#[test]
fn incremental_batch_success_above_cap_is_fixed() {
    let lines: Vec<String> = (0..=FALLBACK_MAX_EDITS)
        .map(|i| format!("L{i}\n"))
        .collect();
    let source = lines.concat();
    let mut offset = 0usize;
    let mut diags = Vec::new();
    for line in &lines {
        diags.push(make_diag("duplicate-import", offset, 1));
        offset += line.len();
    }
    let original = make_result(diags);
    let plan = plan_fixes_with_options(&original, &source, false);
    assert_eq!(
        plan.edits.len(),
        FALLBACK_MAX_EDITS + 1,
        "one edit over the cap"
    );

    let calls = std::cell::Cell::new(0usize);
    let outcome = apply_fixes_incremental(&source, plan, &original, |_fixed| {
        calls.set(calls.get() + 1);
        Ok(make_result(vec![]))
    });

    match outcome {
        FixOutcome::Fixed { source: fixed, .. } => {
            assert_eq!(fixed, "", "every line was removed by the batch")
        }
        other => panic!("a passing batch above the cap must be Fixed; got: {other:?}"),
    }
    assert_eq!(calls.get(), 1, "the batch attempt alone accepts the fix");
}

#[test]
fn incremental_per_edit_uses_full_targeted_set() {
    let source = "LineA\nLineB\nKeep!\n";
    let original = make_result(vec![
        make_diag("duplicate-export", 0, "LineA".len()),
        make_diag("empty-block", "LineA\n".len(), "LineB".len()),
    ]);
    let plan = plan_fixes_with_options(&original, source, false);
    assert_eq!(plan.edits.len(), 2, "non-vacuity: one edit per rule");

    let calls = std::cell::Cell::new(0usize);
    let outcome = apply_fixes_incremental(source, plan, &original, |_fixed| {
        calls.set(calls.get() + 1);
        if calls.get() == 1 {
            return Err(MdsError::syntax("batch-fail".to_string()));
        }
        Ok(make_result(vec![
            make_diag("duplicate-export", 0, 1),
            make_diag("empty-block", 0, 1),
        ]))
    });

    match outcome {
        FixOutcome::Fixed { source: fixed, .. } => assert_eq!(fixed, "Keep!\n"),
        other => panic!("both per-edit retries must be accepted; got: {other:?}"),
    }
    assert_eq!(calls.get(), 3, "batch(1) + per-edit(2) reverify calls");
}

#[test]
fn incremental_residual_is_from_last_accepted_edit() {
    let source = "AAAA\nBBBB\nKeep!\n";
    let original = make_result(vec![
        make_diag("duplicate-import", 0, "AAAA".len()),
        make_diag("duplicate-import", "AAAA\n".len(), "BBBB".len()),
    ]);
    let plan = plan_fixes_with_options(&original, source, false);
    assert_eq!(plan.edits.len(), 2);

    let calls = std::cell::Cell::new(0usize);
    let outcome = apply_fixes_incremental(source, plan, &original, |fixed| {
        calls.set(calls.get() + 1);
        if calls.get() == 1 {
            return Err(MdsError::syntax("batch-fail".to_string()));
        }
        Ok(residual_for("duplicate-import", fixed))
    });

    match outcome {
        FixOutcome::Fixed {
            source: fixed,
            residual,
        } => {
            assert_eq!(fixed, "Keep!\n");
            assert_eq!(
                residual.diagnostics[0].message, "Keep!\n",
                "the residual must come from the last accepted candidate"
            );
        }
        other => panic!("expected Fixed; got: {other:?}"),
    }
    assert_eq!(calls.get(), 3, "batch(1) + per-edit(2) reverify calls");
}

#[test]
fn incremental_regressed_last_call_keeps_prior_residual() {
    let source = "LineA\nLineB\n";
    let original = make_result(vec![
        make_diag("duplicate-import", 0, "LineA".len()),
        make_diag("duplicate-import", "LineA\n".len(), "LineB".len()),
    ]);
    let plan = plan_fixes_with_options(&original, source, false);
    assert_eq!(plan.edits.len(), 2);

    let calls = std::cell::Cell::new(0usize);
    let outcome = apply_fixes_incremental(source, plan, &original, |fixed| {
        calls.set(calls.get() + 1);
        match calls.get() {
            1 => Err(MdsError::syntax("batch-fail".to_string())),
            2 => Ok(residual_for("duplicate-import", fixed)),
            _ => Ok(residual_for("empty-block", fixed)),
        }
    });

    match outcome {
        FixOutcome::PartiallyFixed {
            source: fixed,
            residual,
            rejected,
        } => {
            assert_eq!(fixed, "LineA\n");
            assert_eq!(residual.diagnostics.len(), 1);
            assert_eq!(residual.diagnostics[0].rule, "duplicate-import");
            assert_eq!(
                residual.diagnostics[0].message, "LineA\n",
                "the residual must come from the accepted call, not the regressed one"
            );
            assert_eq!(rejected.len(), 1);
            assert_eq!((rejected[0].edit.start, rejected[0].edit.end), (0, 6));
            assert_eq!(rejected[0].reason, NEW_EMPTY_BLOCK_REASON);
        }
        other => panic!("expected PartiallyFixed; got: {other:?}"),
    }
    assert_eq!(calls.get(), 3, "batch(1) + per-edit(2) reverify calls");
}

#[test]
fn pf005_unsorted_edits_rejected_in_incremental() {
    let source = "LineA\nLineB\n";
    let original = make_result(vec![]);
    let plan = FixPlan {
        edits: vec![
            ByteEdit {
                start: 6,
                end: 12,
                rule: "duplicate-import".to_string(),
                replacement: String::new(),
            },
            ByteEdit {
                start: 0,
                end: 6,
                rule: "duplicate-import".to_string(),
                replacement: String::new(),
            },
        ],
        overlap_rejected: false,
        truncated: false,
    };
    let outcome = apply_fixes_incremental(source, plan, &original, |_| {
        unreachable!("reverify must not be called when edits are unsorted")
    });
    match outcome {
        FixOutcome::Rejected {
            source: unchanged,
            reason,
        } => {
            assert_eq!(reason, SORTEDNESS_REASON);
            assert_eq!(
                unchanged, source,
                "a rejected plan returns the source unchanged"
            );
        }
        other => {
            panic!("unsorted edits must be rejected, not silently applied; got: {other:?}")
        }
    }
}

#[test]
fn fallback_max_edits_cap_rejects_large_plan() {
    let lines: Vec<String> = (0..=FALLBACK_MAX_EDITS)
        .map(|i| format!("L{i}\n"))
        .collect();
    let source = lines.concat();
    let mut offset = 0usize;
    let mut diags = Vec::new();
    for line in &lines {
        diags.push(make_diag("duplicate-import", offset, 1));
        offset += line.len();
    }
    let original = make_result(diags);
    let plan = plan_fixes_with_options(&original, &source, false);
    assert_eq!(
        plan.edits.len(),
        FALLBACK_MAX_EDITS + 1,
        "plan must have FALLBACK_MAX_EDITS+1 edits for this test to be valid"
    );

    let call_count = std::cell::Cell::new(0usize);
    let outcome = apply_fixes_incremental(&source, plan, &original, |_fixed| {
        call_count.set(call_count.get() + 1);
        Err(MdsError::syntax("batch-fail".to_string()))
    });

    match outcome {
        FixOutcome::Rejected {
            source: unchanged,
            reason,
        } => {
            assert_eq!(
                reason,
                format!(
                    "Fix plan has {} edits; per-edit fallback cap is {} \u{2014} batch was \
                     rejected by the reverify gate. Re-run --fix after manually reducing \
                     the issue count (avoids PF-004).",
                    FALLBACK_MAX_EDITS + 1,
                    FALLBACK_MAX_EDITS
                )
            );
            assert_eq!(
                unchanged, source,
                "a rejected plan returns the source unchanged"
            );
        }
        other => panic!(
            "plan exceeding FALLBACK_MAX_EDITS must be Rejected fail-closed; got: {other:?}"
        ),
    }
    assert_eq!(
        call_count.get(),
        1,
        "only the batch reverify call must be made when cap is exceeded; got: {}",
        call_count.get()
    );
}

#[test]
fn fix_path_preserves_raw_bytes_in_new_text() {
    let esc = '\u{001B}';
    let rlo = '\u{202E}';
    let nl = '\n';
    let hostile = format!("{{{{{esc}name{rlo}{nl}}}}}");

    let source = format!("{{{esc}name{rlo}{nl}}}");
    let edit_start = 0;
    let edit_end = source.len();

    assert!(source.is_char_boundary(edit_start));
    assert!(source.is_char_boundary(edit_end));

    let diag = LintDiagnostic {
        rule: "legacy-interpolation".to_string(),
        severity: Severity::Warn,
        message: "test".to_string(),
        help: None,
        span: None,
        file: Some("t.mds".to_string()),
        fix_removals: None,
        fix_edits: Some(vec![TextEdit {
            start: edit_start,
            end: edit_end,
            new_text: hostile.clone(),
        }]),
    };

    let edits = diag_to_edits(&diag, &source);
    assert_eq!(edits.len(), 1, "non-vacuity: one edit must be produced");

    assert_eq!(
        edits[0].replacement, hostile,
        "diag_to_edits must clone new_text raw into ByteEdit.replacement; \
         sanitizing here would corrupt the file written by apply_plan_unchecked"
    );

    assert!(
        edits[0].replacement.contains(esc),
        "raw ESC must survive in ByteEdit.replacement (fix path, not JSON wire)"
    );
    assert!(
        edits[0].replacement.contains(rlo),
        "raw RLO must survive in ByteEdit.replacement (fix path, not JSON wire)"
    );
    assert!(
        edits[0].replacement.contains(nl),
        "raw newline must survive in ByteEdit.replacement (fix path, not JSON wire)"
    );
}

#[test]
fn rejected_reason_includes_per_edit_failure_details() {
    let source = "LineA\n";
    let original = make_result(vec![make_diag("duplicate-import", 0, "LineA".len())]);
    let plan = plan_fixes_with_options(&original, source, false);
    assert_eq!(
        plan.edits.len(),
        1,
        "must have exactly 1 edit for this test"
    );

    let outcome = apply_fixes_incremental(source, plan, &original, |_| {
        Err(MdsError::syntax("distinctive-rejection-message".to_string()))
    });

    match &outcome {
        FixOutcome::Rejected { reason, .. } => {
            assert!(
                reason.contains("distinctive-rejection-message"),
                "rejection reason must include the actual per-edit failure message \
                 (applies ADR-004); got reason: {reason:?}"
            );
        }
        other => panic!("expected Rejected; got: {other:?}"),
    }
}


#[test]
fn identical_ranges_keep_the_first_finding_and_both_planners_agree() {
    let source = "@import \"./a.mds\" as a\n@import \"./a.mds\" as a\nHello!\n";
    let first = make_diag("duplicate-import", 23, 1);
    let second = make_diag("duplicate-export", 23, 1);
    let result = make_result(vec![first, second]);
    let plan = plan_fixes(&result, source);
    assert!(!plan.overlap_rejected);
    assert_eq!(plan.edits.len(), 1);
    assert_eq!((plan.edits[0].start, plan.edits[0].end), (23, 46));
    assert_eq!(plan.edits[0].rule, "duplicate-import");
    let other = plan_fixes_with_options(&result, source, false);
    assert_eq!(other.overlap_rejected, plan.overlap_rejected);
    assert_eq!(other.truncated, plan.truncated);
    assert_eq!(other.edits.len(), plan.edits.len());
    assert_eq!((other.edits[0].start, other.edits[0].end), (plan.edits[0].start, plan.edits[0].end));
    assert_eq!(other.edits[0].rule, plan.edits[0].rule);
}
