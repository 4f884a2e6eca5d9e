use mds_lint::diagnostic::{
    sanitize_control_chars, FixLineSpan, LintDiagnostic, LintResult, LintResultBuilder, Severity,
    TextEdit, MAX_DIAGNOSTICS,
};
use mds_lint::error::SerializedSpan;
use mds_lint::report::canonical_report;

fn full_diag(rule: &str, severity: Severity, message: String, help: Option<String>,
    span: Option<SerializedSpan>, file: Option<&str>) -> LintDiagnostic
{
    LintDiagnostic {
        rule: rule.to_string(),
        severity,
        message,
        help,
        span,
        file: file.map(|f| f.to_string()),
        fix_removals: None,
        fix_edits: None,
    }
}

fn make_span_diag(file: Option<&str>, offset: Option<usize>, rule: &str) -> LintDiagnostic {
    let mut d = LintDiagnostic::new(rule.to_string(), Severity::Warn, format!("{rule} at {offset:?}"));
    if let Some(o) = offset {
        d = d.with_span(SerializedSpan::at(o, 1));
    }
    if let Some(f) = file {
        d = d.with_file(f.to_string());
    }
    d
}

#[test]
fn to_canonical_json_sanitizes_diagnostic_message() {
    let hostile_name = "a\x1Bb";
    let result = LintResult {
        diagnostics: vec![full_diag(
            "unused-variable",
            Severity::Warn,
            format!("Variable '{}' is defined in frontmatter but never referenced in the body.", hostile_name),
            Some(format!("Remove the key '{}' from frontmatter or reference it in the template body.", hostile_name)),
            Some(SerializedSpan { offset: 4, length: 3, line: None, column: None }),
            Some("test.mds"),
        )],
        truncated: false,
        is_standalone: false,
    };
    let report = canonical_report(&result);
    assert_eq!(report.version, 1, "version field must be 1");
    assert!(!report.truncated, "truncated must be false");
    assert_eq!(report.files[0].file, "test.mds");
    let diag = &report.files[0].diagnostics[0];
    let msg = &diag.message;
    assert!(!msg.contains('\x1B'), "raw ESC byte must not appear in the message; got: {msg:?}");
    assert!(msg.contains("\\u001B"), "sanitized literal must appear in the message; got: {msg:?}");
    assert!(!msg.contains("\\u001b"), "lowercase hex must not appear; got: {msg:?}");
    let help = diag.help.as_ref().unwrap();
    assert!(!help.contains('\x1B'), "raw ESC byte must not appear in help; got: {help:?}");
    assert!(help.contains("\\u001B"), "sanitized literal must appear in help; got: {help:?}");
    let span = diag.span.unwrap();
    assert_eq!(span.offset, 4, "span offset must be unchanged");
    assert_eq!(span.length, 3, "span length must be unchanged");
}

#[test]
fn to_canonical_json_escapes_bidi_override() {
    let hostile_path = "./fo\u{202E}gnp.mds";
    let result = LintResult {
        diagnostics: vec![full_diag(
            "duplicate-import",
            Severity::Error,
            format!("Module '{hostile_path}' is imported more than once."),
            Some(format!("Remove the duplicate '{hostile_path}' import.")),
            Some(SerializedSpan { offset: 9, length: 16, line: None, column: None }),
            Some("ma\u{202E}in.mds"),
        )],
        truncated: false,
        is_standalone: false,
    };
    let report = canonical_report(&result);
    assert_eq!(report.files.len(), 1, "non-vacuity: exactly one file group");
    let diags = &report.files[0].diagnostics;
    assert_eq!(diags.len(), 1, "non-vacuity: exactly one diagnostic");
    assert_eq!(diags[0].rule, "duplicate-import", "non-vacuity: expected rule must be present");
    for s in [&diags[0].message, diags[0].help.as_ref().unwrap()] {
        assert!(!s.contains('\u{202E}'), "raw U+202E must not appear; got: {s:?}");
        assert!(s.contains("\\u202E"), "escaped \\u202E must appear; got: {s:?}");
    }
    let file_key = &report.files[0].file;
    assert!(!file_key.contains('\u{202E}'), "raw U+202E must not appear in the file key; got: {file_key:?}");
    assert!(file_key.contains("\\u202E"), "escaped \\u202E must appear in the file key; got: {file_key:?}");
    assert_eq!(diags[0].span.unwrap().offset, 9);
    assert_eq!(diags[0].span.unwrap().length, 16);
}

#[test]
fn to_canonical_json_escapes_line_separator() {
    let result = LintResult {
        diagnostics: vec![full_diag(
            "unused-variable",
            Severity::Warn,
            "Variable 'a\u{2028}b' is never referenced.".to_string(),
            None,
            None,
            Some("t.mds"),
        )],
        truncated: false,
        is_standalone: false,
    };
    let report = canonical_report(&result);
    let msg = &report.files[0].diagnostics[0].message;
    assert!(!msg.contains('\u{2028}'), "raw U+2028 must not appear on the wire; got: {msg:?}");
    assert!(msg.contains("\\u2028"), "escaped \\u2028 must appear on the wire; got: {msg:?}");
}

#[test]
fn to_canonical_json_escapes_newline_but_human_mode_preserves_it() {
    let forged = "a\nerror[mds::forged]: FAKE\nb";
    let result = LintResult {
        diagnostics: vec![full_diag(
            "unused-variable",
            Severity::Warn,
            forged.to_string(),
            Some(forged.to_string()),
            None,
            Some("t.mds"),
        )],
        truncated: false,
        is_standalone: false,
    };
    let report = canonical_report(&result);
    let diag = &report.files[0].diagnostics[0];
    for s in [&diag.message, diag.help.as_ref().unwrap()] {
        assert!(!s.contains('\n'), "raw newline must not survive into the wire text; got: {s:?}");
        assert!(s.contains("\\u000A"), "escaped \\u000A must appear in the wire text; got: {s:?}");
        assert!(s.contains("error[mds::forged]"), "message body must be preserved verbatim; got: {s:?}");
    }
    let human = sanitize_control_chars(forged);
    assert!(human.contains('\n'), "human mode must preserve raw newlines; got: {human:?}");
    assert!(!human.contains("\\u000A"), "human mode must not escape newlines; got: {human:?}");
    assert!(sanitize_control_chars("a\tb").contains('\t'), "human mode must preserve tabs");
}

#[test]
fn builder_truncated_canonical_json() {
    let mut builder = LintResultBuilder::new();
    for i in 0..=MAX_DIAGNOSTICS {
        builder.push(full_diag(&format!("r{i}"), Severity::Warn, format!("m{i}"), None, None, Some("f.mds")));
    }
    let result = builder.build(false);
    assert!(result.truncated, "struct truncated flag must be set");
    let report = canonical_report(&result);
    assert!(report.truncated, "serialized truncated field must be true");
    assert_eq!(report.files[0].diagnostics.len(), MAX_DIAGNOSTICS,
        "serialized diagnostics array must be capped at MAX_DIAGNOSTICS");
}

#[test]
fn diagnostic_code_is_namespaced() {
    let diag = full_diag("unused-variable", Severity::Warn, "x".to_string(), None, None, None);
    assert_eq!(diag.code(), "mds::lint::unused-variable");
}

#[test]
fn build_no_span_sorts_to_end() {
    let mut builder = LintResultBuilder::new();
    builder.push(make_span_diag(Some("a.mds"), None, "no-span"));
    builder.push(make_span_diag(Some("a.mds"), Some(3), "has-span"));
    let result = builder.build(false);
    assert_eq!(result.diagnostics[0].rule, "has-span", "spanned diagnostic must sort before no-span");
    assert_eq!(result.diagnostics[1].rule, "no-span", "no-span diagnostic must sort to the end");
    let report = canonical_report(&result);
    let diags = &report.files[0].diagnostics;
    assert!(diags[1].span.is_none(), "the no-span entry reports no span");
    assert!(diags[0].span.is_some(), "the spanned entry reports its span");
}

#[test]
fn lint_result_new_preserves_caller_order_through_to_canonical_json() {
    let diag_offset_50 = make_span_diag(Some("a.mds"), Some(50), "r-50");
    let diag_offset_10 = make_span_diag(Some("a.mds"), Some(10), "r-10");
    let result = LintResult::new(vec![diag_offset_50, diag_offset_10]);
    let report = canonical_report(&result);
    let diags = &report.files[0].diagnostics;
    assert_eq!(diags.len(), 2, "expected exactly two diagnostics");
    assert_eq!(diags[0].rule, "r-50");
    assert_eq!(diags[1].rule, "r-10");
    assert_eq!(diags[0].span.unwrap().offset, 50);
    assert_eq!(diags[1].span.unwrap().offset, 10);
}

#[test]
fn report_groups_files_in_byte_order_with_unknown_key() {
    let result = LintResult::new(vec![
        make_span_diag(Some("b.mds"), Some(1), "r1"),
        make_span_diag(None, Some(2), "r2"),
        make_span_diag(Some("a.mds"), Some(3), "r3"),
        make_span_diag(Some("b.mds"), Some(4), "r4"),
    ]);
    let report = canonical_report(&result);
    let names: Vec<&str> = report.files.iter().map(|f| f.raw_file.as_str()).collect();
    assert_eq!(names, vec!["<unknown>", "a.mds", "b.mds"]);
    let b: Vec<&str> = report.files[2].diagnostics.iter().map(|d| d.rule.as_str()).collect();
    assert_eq!(b, vec!["r1", "r4"]);
    assert_eq!(report.files[0].diagnostics[0].rule, "r2");
}

#[test]
fn report_fixable_follows_tier_and_fix_presence() {
    let with_fix = make_span_diag(Some("a.mds"), Some(0), "duplicate-import")
        .with_fix_removals(vec![FixLineSpan::single(0)]);
    let no_fix = make_span_diag(Some("a.mds"), Some(5), "duplicate-import");
    let tier_b = make_span_diag(Some("a.mds"), Some(7), "unused-import")
        .with_fix_removals(vec![FixLineSpan::single(7)]);
    let edits = make_span_diag(Some("a.mds"), Some(9), "legacy-interpolation")
        .with_fix_edits(vec![TextEdit::new(9, 10, "{{".to_string())]);
    let result = LintResult::new(vec![with_fix, no_fix, edits, tier_b]);
    let report = canonical_report(&result);
    let d = &report.files[0].diagnostics;
    assert!(d[0].fixable);
    assert!(!d[1].fixable);
    assert!(d[2].fixable);
    assert!(!d[3].fixable, "a tier-B fix is not fixable outside a standalone file");
    let e = d[2].fix_edits.as_ref().unwrap();
    assert_eq!((e[0].start, e[0].end, e[0].new_text.as_str()), (9, 10, "{{"));
}
