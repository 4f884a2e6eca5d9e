use mds_lint::config::LintConfig;
use mds_lint::diagnostic::{LintDiagnostic, LintResultBuilder, Severity};
use mds_lint::lexer::tokenize;
use mds_lint::rules::legacy_interpolation::{check, RULE};

fn check_src(src: &str) -> Vec<LintDiagnostic> {
    let tokens = tokenize(src).unwrap();
    let mut builder = LintResultBuilder::new();
    check(&tokens, src, "test.mds", &LintConfig::default(), &mut builder);
    builder.build(true).diagnostics
}

#[test]
fn detects_single_brace_identifier() {
    let diags = check_src("Hello {name}!");
    assert_eq!(diags.len(), 1, "should detect one legacy interpolation");
    assert_eq!(diags[0].rule, RULE);
    assert!(diags[0].fix_edits.is_some(), "should have fix_edits");
}

#[test]
fn does_not_flag_double_brace() {
    let diags = check_src("Hello {{name}}!");
    assert!(diags.is_empty(), "double-brace must not be flagged");
}

#[test]
fn does_not_flag_json_like_braces() {
    let diags = check_src(r#"JSON: {"key": 1}"#);
    assert!(diags.is_empty(), "JSON-like brace content must not be flagged");
}

#[test]
fn detects_old_backslash_escape() {
    let diags = check_src(r"Text \{name}");
    assert!(!diags.is_empty(), "legacy \\{{ escape should be flagged");
    assert!(diags[0].fix_edits.is_some());
}

#[test]
fn detects_dot_path() {
    let diags = check_src("Value: {user.name}");
    assert_eq!(diags.len(), 1);
    assert_eq!(diags[0].rule, RULE);
}

#[test]
fn detects_function_call() {
    let diags = check_src("Hello {greet()}");
    assert_eq!(diags.len(), 1);
}

#[test]
fn no_flag_inside_code_fence() {
    let diags = check_src("```\n{name}\n```\n");
    assert!(diags.is_empty(), "inside code fence must not be flagged");
}

#[test]
fn detects_message_dynamic_role_directive() {
    let diags = check_src("@message {role}:\nhi\n@end\n");
    assert_eq!(diags.len(), 1, "single-brace @message role should be flagged");
    assert_eq!(diags[0].rule, RULE);
    let edits = diags[0].fix_edits.as_ref().unwrap();
    assert_eq!(edits.len(), 1, "single atomic edit for @message role");
    assert_eq!(edits[0].start, 9);
    assert_eq!(edits[0].end, 15);
    assert_eq!(edits[0].new_text, "{{role}}");
}

#[test]
fn does_not_flag_double_brace_message_role() {
    let diags = check_src("@message {{role}}:\nhi\n@end\n");
    assert!(diags.is_empty(), "double-brace @message role must not be flagged");
}

#[test]
fn does_not_flag_bareword_message_role() {
    let diags = check_src("@message system:\nhi\n@end\n");
    assert!(diags.is_empty(), "bare-word @message role must not be flagged");
}

#[test]
fn multibyte_prefix_offsets_are_byte_accurate() {
    let src = "café {name}!";
    let diags = check_src(src);
    assert_eq!(diags.len(), 1);
    let edits = diags[0].fix_edits.as_ref().unwrap();
    assert_eq!(edits[0].start, 6);
    assert_eq!(edits[0].end, 12);
    assert_eq!(edits[0].new_text, "{{name}}");
    assert!(src.is_char_boundary(edits[0].start));
    assert!(src.is_char_boundary(edits[0].end));
    let mut applied = src.to_string();
    applied.replace_range(edits[0].start..edits[0].end, &edits[0].new_text);
    assert_eq!(applied, "café {{name}}!");
}

#[test]
fn fix_edits_single_atomic_replacement() {
    let diags = check_src("Hello {name}!");
    let edits = diags[0].fix_edits.as_ref().unwrap();
    assert_eq!(edits.len(), 1, "single atomic edit");
    assert_eq!(edits[0].start, 6);
    assert_eq!(edits[0].end, 12);
    assert_eq!(edits[0].new_text, "{{name}}");
}

#[test]
fn legacy_interpolation_rule_off_suppresses() {
    let src = "Hello {name}! Value: {user.id}. Old escape: \\{x}.";
    let tokens = tokenize(src).unwrap();
    let mut builder = LintResultBuilder::new();
    let config = LintConfig { rules: [(RULE.to_string(), Severity::Off)].into_iter().collect() };
    check(&tokens, src, "test.mds", &config, &mut builder);
    assert!(builder.build(true).diagnostics.is_empty());
}

#[test]
fn old_escape_fix_removes_the_backslash() {
    let src = r"Text \{name}";
    let diags = check_src(src);
    assert_eq!(diags.len(), 1);
    let edits = diags[0].fix_edits.as_ref().unwrap();
    let mut applied = src.to_string();
    for e in edits.iter().rev() {
        applied.replace_range(e.start..e.end, &e.new_text);
    }
    assert_eq!(applied, "Text {name}");
}

#[test]
fn several_findings_in_one_line_are_each_reported() {
    let diags = check_src("{a} and {b.c} and {f()}");
    assert_eq!(diags.len(), 3);
    let starts: Vec<usize> = diags.iter().map(|d| d.fix_edits.as_ref().unwrap()[0].start).collect();
    assert_eq!(starts, vec![0, 8, 18]);
}

#[test]
fn interpolation_finding_is_exact() {
    let diags = check_src("Hello {name}!");
    assert_eq!(diags.len(), 1);
    let d = &diags[0];
    assert_eq!(d.message, "legacy single-brace interpolation `{name}` — use `{{name}}` (double braces)");
    assert_eq!(d.help.as_deref(), Some("Run `mds lint --fix` to migrate to `{{x}}` syntax automatically."));
    let span = d.span.unwrap();
    assert_eq!((span.offset, span.length), (6, 6));
    let e = &d.fix_edits.as_ref().unwrap()[0];
    assert_eq!((e.start, e.end, e.new_text.as_str()), (6, 12, "{{name}}"));
}

#[test]
fn escape_finding_is_exact() {
    let diags = check_src("ab \\} cd");
    assert_eq!(diags.len(), 1);
    let d = &diags[0];
    assert_eq!(d.message, "legacy escape `\\}` — single-brace escapes are no longer needed; remove the backslash");
    let span = d.span.unwrap();
    assert_eq!((span.offset, span.length), (3, 2));
    let e = &d.fix_edits.as_ref().unwrap()[0];
    assert_eq!((e.start, e.end, e.new_text.as_str()), (3, 4, ""));
}

#[test]
fn dollar_brace_is_skipped_and_quoted_brace_is_not_a_close() {
    assert!(check_src("cost ${price} here").is_empty());
    let diags = check_src("x {greet(\"}\")} y");
    assert_eq!(diags.len(), 1);
    let e = &diags[0].fix_edits.as_ref().unwrap()[0];
    assert_eq!(e.new_text, "{{greet(\"}\")}}");
}

#[test]
fn qualified_call_and_dot_path_are_legacy_but_bad_paths_are_not() {
    assert_eq!(check_src("{lib.greet(x)}").len(), 1);
    assert_eq!(check_src("{a.b.c}").len(), 1);
    assert!(check_src("{a..b}").is_empty());
    assert!(check_src("{a.}").is_empty());
    assert!(check_src("{1abc}").is_empty());
}

#[test]
fn message_role_finding_is_exact() {
    let src = "@message {role}:\nhi\n@end\n";
    let diags = check_src(src);
    assert_eq!(diags.len(), 1);
    let d = &diags[0];
    assert_eq!(d.message, "legacy single-brace `@message` role `{role}` — use `{{role}}` (double braces)");
    let span = d.span.unwrap();
    assert_eq!((span.offset, span.length), (9, 6));
    let e = &d.fix_edits.as_ref().unwrap()[0];
    assert_eq!((e.start, e.end, e.new_text.as_str()), (9, 15, "{{role}}"));
}
