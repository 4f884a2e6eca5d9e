use mds_lint::diagnostic::{
    neutralize_source_for_render, sanitize_control_chars, sanitize_control_chars_wire, FixLineSpan,
    LintDiagnostic, LintResultBuilder, Severity, TextEdit, MAX_DIAGNOSTICS,
};
use mds_lint::error::SerializedSpan;
use std::borrow::Cow;

fn diag(rule: &str, message: &str) -> LintDiagnostic {
    LintDiagnostic::new(rule.to_string(), Severity::Warn, message.to_string())
}

#[test]
fn sanitize_preserves_normal_text() {
    assert_eq!(sanitize_control_chars("hello world"), "hello world");
}

#[test]
fn sanitize_preserves_newline_and_tab() {
    assert_eq!(sanitize_control_chars("hello\nworld\t!"), "hello\nworld\t!");
}

#[test]
fn sanitize_escapes_nul() {
    assert_eq!(sanitize_control_chars("a\x00b"), "a\\u0000b");
}

#[test]
fn sanitize_escapes_esc() {
    assert_eq!(sanitize_control_chars("a\x1Bb"), "a\\u001Bb");
}

#[test]
fn sanitize_escapes_c1_range() {
    assert_eq!(sanitize_control_chars("a\u{0080}b"), "a\\u0080b");
    assert_eq!(sanitize_control_chars("a\u{009F}b"), "a\\u009Fb");
}

#[test]
fn sanitize_escapes_del() {
    assert_eq!(sanitize_control_chars("a\u{007F}b"), "a\\u007Fb");
}

#[test]
fn sanitize_escapes_multiple_controls() {
    let input = "\x07bell\x0Dcarriage\x1Bescape\u{0085}nel";
    let output = sanitize_control_chars(input);
    assert!(output.contains("\\u0007"));
    assert!(output.contains("\\u000D"));
    assert!(output.contains("\\u001B"));
    assert!(output.contains("\\u0085"));
}

#[test]
fn sanitize_is_idempotent() {
    let cases: &[&str] = &[
        "\x1B",
        "a\x1Bb",
        "a\u{007F}b",
        "a\u{0085}b",
        "\x00\x01\x02\x1F",
        "hello world",
        "",
    ];
    for &input in cases {
        let once = sanitize_control_chars(input);
        let twice = sanitize_control_chars(&once);
        assert_eq!(once, twice, "sanitize_control_chars is not idempotent for input {input:?}");
    }
}

const BIDI_CONTROLS: &[(char, &str)] = &[
    ('\u{061C}', "\\u061C"),
    ('\u{200E}', "\\u200E"),
    ('\u{200F}', "\\u200F"),
    ('\u{202A}', "\\u202A"),
    ('\u{202B}', "\\u202B"),
    ('\u{202C}', "\\u202C"),
    ('\u{202D}', "\\u202D"),
    ('\u{202E}', "\\u202E"),
    ('\u{2066}', "\\u2066"),
    ('\u{2067}', "\\u2067"),
    ('\u{2068}', "\\u2068"),
    ('\u{2069}', "\\u2069"),
];

#[test]
fn sanitize_escapes_bidi_control_chars() {
    assert_eq!(BIDI_CONTROLS.len(), 12, "Unicode defines exactly 12 Bidi_Control=Yes codepoints");
    for &(ch, expected) in BIDI_CONTROLS {
        for out in [
            sanitize_control_chars(&format!("a{ch}b")),
            sanitize_control_chars_wire(&format!("a{ch}b")),
        ] {
            assert!(!out.contains(ch), "raw U+{:04X} must not survive sanitization; got: {out:?}", ch as u32);
            assert_eq!(&*out, format!("a{expected}b"), "U+{:04X} must escape to {expected}", ch as u32);
        }
    }
}

#[test]
fn neutralize_preserves_byte_length_for_every_bidi_control() {
    for &(ch, _) in BIDI_CONTROLS {
        let raw = format!("let x{ch} = 1;");
        let out = neutralize_source_for_render(&raw);
        assert_eq!(out.len(), raw.len(), "U+{:04X} must be replaced by a same-width substitute; got: {out:?}", ch as u32);
        assert!(!out.contains(ch), "raw U+{:04X} must not survive neutralization; got: {out:?}", ch as u32);
        let expected = if ch.len_utf8() == 2 { '\u{00A0}' } else { '\u{FFFD}' };
        assert!(out.contains(expected), "U+{:04X} must neutralize to U+{:04X}; got: {out:?}", ch as u32, expected as u32);
        assert!(out.contains("let x") && out.contains(" = 1;"), "surrounding source must survive; got: {out:?}");
    }
}

#[test]
fn sanitize_escapes_line_and_paragraph_separators() {
    assert_eq!(&*sanitize_control_chars("a\u{2028}b"), "a\\u2028b");
    assert_eq!(&*sanitize_control_chars("a\u{2029}b"), "a\\u2029b");
}

#[test]
fn sanitize_escapes_bom() {
    assert_eq!(&*sanitize_control_chars("a\u{FEFF}b"), "a\\uFEFFb");
}

#[test]
fn neutralize_source_replaces_bidi_and_separators_byte_for_byte() {
    let raw = "let x\u{202E} = 1;\u{2028}next\u{FEFF}line\u{2066}end";
    let out = neutralize_source_for_render(raw);
    assert_eq!(out.len(), raw.len(), "byte length must be preserved; raw={raw:?} out={out:?}");
    for ch in ['\u{202E}', '\u{2028}', '\u{FEFF}', '\u{2066}'] {
        assert!(!out.contains(ch), "raw U+{:04X} must not survive neutralization; got: {out:?}", ch as u32);
    }
    assert_eq!(out.matches('\u{FFFD}').count(), 4, "each format char must become U+FFFD; got: {out:?}");
    assert!(out.contains("let x"), "clean source must survive: {out:?}");
    assert!(out.contains("next"), "clean source must survive: {out:?}");
}

#[test]
fn wire_and_human_modes_differ_only_on_newline() {
    assert_eq!(&*sanitize_control_chars_wire("a\nb"), "a\\u000Ab");
    assert_eq!(&*sanitize_control_chars("a\nb"), "a\nb");
    assert_eq!(&*sanitize_control_chars_wire("a\tb"), "a\tb");
    assert_eq!(&*sanitize_control_chars("a\tb"), "a\tb");
    for probe in [
        "a\x00b",
        "a\x1Bb",
        "a\u{007F}b",
        "a\u{0085}b",
        "a\u{200E}b",
        "a\u{202E}b",
        "a\u{2028}b",
        "a\u{2029}b",
        "a\u{2069}b",
        "a\u{FEFF}b",
        "plain text",
    ] {
        assert_eq!(sanitize_control_chars(probe), sanitize_control_chars_wire(probe), "modes must agree on {probe:?}");
    }
}

/// The sanitizers return an owned `String`; on clean input the result is the
/// input unchanged.
#[test]
fn wire_mode_is_borrowed_when_clean_and_idempotent() {
    assert_eq!(sanitize_control_chars_wire("normal text"), "normal text");
    for input in ["\x1B", "a\nb", "a\u{202E}b", "a\u{FEFF}b", "clean", ""] {
        let once = sanitize_control_chars_wire(input);
        let twice = sanitize_control_chars_wire(&once);
        assert_eq!(once, twice, "wire mode not idempotent for {input:?}");
    }
}

#[test]
fn builder_truncates_at_max_diagnostics() {
    let mut builder = LintResultBuilder::new();
    for i in 0..MAX_DIAGNOSTICS {
        let accepted = builder.push(diag(&format!("r{i}"), &format!("m{i}")));
        assert!(accepted, "diagnostic {i} should be accepted");
    }
    let rejected = builder.push(diag("overflow", "overflow"));
    assert!(!rejected, "push beyond cap should return false");
    let result = builder.build(false);
    assert_eq!(result.diagnostics.len(), MAX_DIAGNOSTICS);
    assert!(result.truncated, "truncated must be true when cap was hit");
}

#[test]
fn sanitized_for_render_escapes_esc_preserves_newline() {
    let d = LintDiagnostic::new(
        "unused-variable".to_string(),
        Severity::Warn,
        "line one\x1Bline two\nline three".to_string(),
    )
    .with_help("help\x1Btext\nwith newline".to_string());
    let rendered = d.sanitized_for_render();
    assert!(!rendered.message.contains('\x1B'), "raw ESC must not appear; got: {:?}", rendered.message);
    assert!(rendered.message.contains("\\u001B"), "\\u001B literal must appear; got: {:?}", rendered.message);
    assert!(rendered.message.contains('\n'), "newline must be preserved; got: {:?}", rendered.message);
    let help = rendered.help.as_deref().expect("help must be Some");
    assert!(!help.contains('\x1B'), "raw ESC must not appear in help");
    assert!(help.contains("\\u001B"), "\\u001B must appear in sanitized help");
    assert!(help.contains('\n'), "newline must be preserved in help");
}

#[test]
fn sanitized_for_render_span_file_unchanged_fix_nulled() {
    let span = SerializedSpan { offset: 42, length: 7, line: Some(3), column: Some(1) };
    let hostile_file = "a\u{1B}/b\u{202E}.mds".to_string();
    let d = LintDiagnostic::new("duplicate-import".to_string(), Severity::Error, "msg".to_string())
        .with_span(span)
        .with_file(hostile_file.clone())
        .with_fix_removals(vec![FixLineSpan::single(42)])
        .with_fix_edits(vec![TextEdit::new(0, 3, "x".to_string())]);
    let rendered = d.sanitized_for_render();
    let rendered_span = rendered.span.as_ref().expect("span must survive");
    assert_eq!(rendered_span.offset, 42);
    assert_eq!(rendered_span.length, 7);
    assert_eq!(rendered_span.line, Some(3));
    assert_eq!(rendered_span.column, Some(1));
    assert_eq!(rendered.file.as_deref(), Some(hostile_file.as_str()));
    assert!(rendered.fix_removals.is_none());
    assert!(rendered.fix_edits.is_none());
}

fn make_span_diag(file: Option<&str>, offset: Option<usize>, rule: &str) -> LintDiagnostic {
    let mut d = LintDiagnostic::new(rule.to_string(), Severity::Warn, format!("{rule} at {offset:?}"));
    if let Some(o) = offset {
        d = d.with_span(SerializedSpan::at(o, 1));
    }
    if let Some(f) = file {
        d = d.with_file(f.to_string());
    }
    d
}

#[test]
fn build_sorts_diagnostics_by_offset() {
    let mut builder = LintResultBuilder::new();
    builder.push(make_span_diag(Some("a.mds"), Some(20), "r1"));
    builder.push(make_span_diag(Some("a.mds"), Some(5), "r2"));
    builder.push(make_span_diag(Some("a.mds"), Some(10), "r3"));
    let result = builder.build(false);
    let offsets: Vec<_> = result.diagnostics.iter().map(|d| d.span.as_ref().map(|s| s.offset)).collect();
    assert_eq!(offsets, vec![Some(5), Some(10), Some(20)], "got: {:?}", offsets);
}

#[test]
fn build_sorts_multi_file_diagnostics() {
    let mut builder = LintResultBuilder::new();
    builder.push(make_span_diag(Some("b.mds"), Some(1), "r1"));
    builder.push(make_span_diag(Some("a.mds"), Some(10), "r2"));
    builder.push(make_span_diag(Some("a.mds"), Some(3), "r3"));
    let result = builder.build(false);
    let keys: Vec<_> = result
        .diagnostics
        .iter()
        .map(|d| (d.file.as_deref(), d.span.as_ref().map(|s| s.offset)))
        .collect();
    assert_eq!(
        keys,
        vec![(Some("a.mds"), Some(3)), (Some("a.mds"), Some(10)), (Some("b.mds"), Some(1))],
        "got: {:?}",
        keys
    );
}

#[test]
fn build_stable_sort_preserves_insertion_order_for_equal_offsets() {
    let mut builder = LintResultBuilder::new();
    builder.push(make_span_diag(Some("a.mds"), Some(5), "first"));
    builder.push(make_span_diag(Some("a.mds"), Some(5), "second"));
    builder.push(make_span_diag(Some("a.mds"), Some(5), "third"));
    let result = builder.build(false);
    let rules: Vec<_> = result.diagnostics.iter().map(|d| d.rule.as_str()).collect();
    assert_eq!(rules, vec!["first", "second", "third"], "got: {:?}", rules);
}

#[test]
fn build_file_less_diagnostic_sorts_after_astral_plane_filename() {
    let mut builder = LintResultBuilder::new();
    builder.push(make_span_diag(None, Some(0), "no-file"));
    builder.push(make_span_diag(Some("\u{1F600}.mds"), Some(0), "astral-file"));
    let result = builder.build(false);
    let rules: Vec<_> = result.diagnostics.iter().map(|d| d.rule.as_str()).collect();
    assert_eq!(rules, vec!["astral-file", "no-file"], "got: {rules:?}");
}

#[test]
fn truncation_selects_by_insertion_order_not_by_offset() {
    let mut builder = LintResultBuilder::new();
    for i in 0..MAX_DIAGNOSTICS {
        let offset = MAX_DIAGNOSTICS - i;
        assert!(builder.push(make_span_diag(Some("a.mds"), Some(offset), "kept")), "diagnostic {i} should be accepted");
    }
    let rejected = builder.push(make_span_diag(Some("a.mds"), Some(0), "rejected"));
    assert!(!rejected, "push beyond the cap must return false");
    let result = builder.build(false);
    assert_eq!(result.diagnostics.len(), MAX_DIAGNOSTICS);
    assert!(result.truncated);
    assert!(!result.diagnostics.iter().any(|d| d.rule == "rejected"));
    let offsets: Vec<usize> = result.diagnostics.iter().filter_map(|d| d.span.as_ref().map(|s| s.offset)).collect();
    assert_eq!(offsets.first().copied(), Some(1));
    assert!(offsets.windows(2).all(|w| w[0] <= w[1]));
}

// ── further cases ─────────────────────────────────────────────────────────────

#[test]
fn severity_wire_names() {
    assert_eq!(Severity::Off.as_str(), "off");
    assert_eq!(Severity::Info.as_str(), "info");
    assert_eq!(Severity::Warn.as_str(), "warn");
    assert_eq!(Severity::Error.as_str(), "error");
}

#[test]
fn diagnostic_code_prefixes_rule() {
    assert_eq!(diag("unused-variable", "x").code(), "mds::lint::unused-variable");
}

#[test]
fn sanitize_twice_equals_once_on_mixed_input() {
    let input = "x\u{1b}y\nz\u{202e}\u{2028}";
    let once = sanitize_control_chars_wire(input);
    assert_eq!(once, "x\\u001By\\u000Az\\u202E\\u2028");
    assert_eq!(sanitize_control_chars_wire(&once), once);
}

#[test]
fn neutralize_maps_each_width_class() {
    assert_eq!(neutralize_source_for_render("a\u{1b}b\u{85}c\u{202e}d\n\t"), "a?b\u{a0}c\u{fffd}d\n\t");
}

#[test]
fn builder_push_after_truncation_keeps_flag() {
    let mut builder = LintResultBuilder::new();
    for i in 0..MAX_DIAGNOSTICS {
        builder.push(diag(&format!("r{i}"), "m"));
    }
    assert!(!builder.truncated);
    assert!(!builder.push(diag("x", "x")));
    assert!(builder.truncated);
    assert!(!builder.push(diag("y", "y")));
    assert_eq!(builder.diagnostics.len(), MAX_DIAGNOSTICS);
}

#[test]
fn sanitizers_borrow_clean_text_and_own_escaped_text() {
    assert!(matches!(sanitize_control_chars("hello\nworld\t!"), Cow::Borrowed(_)));
    assert!(matches!(sanitize_control_chars_wire("normal text"), Cow::Borrowed(_)));
    assert!(matches!(sanitize_control_chars_wire("a\nb"), Cow::Owned(_)));
    assert!(matches!(sanitize_control_chars("a\x1Bb"), Cow::Owned(_)));
    assert!(matches!(neutralize_source_for_render("let x = 1;\n\t"), Cow::Borrowed(_)));
    assert!(matches!(neutralize_source_for_render("a\u{202E}b"), Cow::Owned(_)));
}
