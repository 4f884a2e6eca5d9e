use mds_lint::ast::{Condition, Expr, IfBlock, Module, Node, TextNode};
use mds_lint::facts::{
    collect_facts, contains_str, find_frontmatter_content_start, find_yaml_key_in_source, AnalysisContext, ImportKind, ShadowKind,
};
use mds_lint::lexer::tokenize;
use mds_lint::limits::MAX_NESTING_DEPTH;
use mds_lint::lint::is_partial_by_name;
use mds_lint::parser::parse_with_ctx;

fn parse(src: &str) -> Module {
    let tokens = tokenize(src).unwrap();
    parse_with_ctx(&tokens, src).unwrap()
}

fn facts(src: &str) -> AnalysisContext {
    let module = parse(src);
    let is_partial = is_partial_by_name("test.mds");
    let is_extends = module.extends.is_some();
    collect_facts(&module, is_partial || is_extends, src).unwrap()
}

#[test]
fn collect_facts_empty_module() {
    let module = parse("Hello!\n");
    let ctx = collect_facts(&module, false, "Hello!\n").unwrap();
    assert!(!ctx.has_explicit_exports);
    assert!(!ctx.is_partial_or_extends);
    assert!(ctx.imports.is_empty());
    assert!(ctx.exports.is_empty());
}

#[test]
fn collect_facts_detects_explicit_exports() {
    let src = "@define greet():\nhello\n@end\n@export greet\n";
    let module = parse(src);
    let ctx = collect_facts(&module, false, src).unwrap();
    assert!(ctx.has_explicit_exports, "should detect @export directive");
    assert_eq!(ctx.exports.len(), 1);
    assert_eq!(ctx.exports[0].name.as_deref(), Some("greet"));
}

#[test]
fn collect_facts_partial_flag_propagated() {
    let module = parse("Hello!\n");
    let ctx = collect_facts(&module, true, "Hello!\n").unwrap();
    assert!(ctx.is_partial_or_extends);
}

#[test]
fn collect_facts_depth_limit_enforced() {
    let depth = MAX_NESTING_DEPTH + 1;
    let mut inner: Vec<Node> = vec![Node::Text(TextNode { text: "deep\n".to_string(), offset: 0 })];
    for _ in 0..depth {
        inner = vec![Node::If(IfBlock {
            condition: Condition::Truthy(Expr::Var("x".to_string())),
            then_body: inner,
            elseif_branches: vec![],
            else_body: None,
            offset: 0,
            else_offset: None,
            end_offset: 0,
        })];
    }
    let module = Module { frontmatter: None, extends: None, body: inner };
    let result = collect_facts(&module, false, "");
    assert!(result.is_err(), "nesting depth {depth} should exceed MAX_NESTING_DEPTH={MAX_NESTING_DEPTH}");
    let err = result.unwrap_err();
    assert!(err.to_display_string().contains("nesting"), "error should mention nesting, got: {}", err.to_display_string());
}

#[test]
fn collects_alias_import() {
    let ctx = facts("@import \"./utils.mds\" as utils\n");
    assert_eq!(ctx.imports.len(), 1);
    assert_eq!(ctx.imports[0].kind, ImportKind::Alias);
    assert_eq!(ctx.imports[0].alias.as_deref(), Some("utils"));
    assert_eq!(ctx.imports[0].path, "./utils.mds");
}

#[test]
fn collects_merge_import() {
    let ctx = facts("@import \"./utils.mds\"\n");
    assert_eq!(ctx.imports.len(), 1);
    assert_eq!(ctx.imports[0].kind, ImportKind::Merge);
    assert!(ctx.imports[0].alias.is_none());
}

#[test]
fn collects_selective_import() {
    let ctx = facts("@import { greet, farewell } from \"./utils.mds\"\n");
    assert_eq!(ctx.imports.len(), 1);
    assert_eq!(ctx.imports[0].kind, ImportKind::Selective);
    assert_eq!(ctx.imports[0].names, vec!["greet", "farewell"]);
}

#[test]
fn collects_define_facts() {
    let ctx = facts("@define greet(name, suffix):\nhello {name}{suffix}\n@end\n");
    assert_eq!(ctx.defines.len(), 1);
    assert_eq!(ctx.defines[0].name, "greet");
}

#[test]
fn collects_var_uses_from_double_brace_interpolation() {
    let ctx = facts("{{name}}\n");
    assert!(contains_str(&ctx.used_vars, "name"), "should collect Expr::Var ref");
}

#[test]
fn collects_call_from_double_brace_interpolation() {
    let ctx = facts("{{greet(\"world\")}}\n");
    assert!(contains_str(&ctx.used_calls, "greet"), "should collect Call ref");
}

#[test]
fn collects_namespace_from_double_brace_qualified_call() {
    let ctx = facts("@import \"./lib.mds\" as lib\n{{lib.greet(\"world\")}}\n");
    assert!(contains_str(&ctx.used_namespaces, "lib"), "should collect QualifiedCall namespace");
}

#[test]
fn collects_var_uses_from_condition() {
    let ctx = facts("@if role == \"admin\":\nhello\n@end\n");
    assert!(ctx.used_vars.iter().any(|v| v == "role"), "should collect var ref from condition");
}

#[test]
fn collects_var_uses_from_for_iterable() {
    let ctx = facts("@define greet(items):\n@for item in items:\n{item}\n@end\n@end\n");
    assert!(ctx.used_vars.iter().any(|v| v == "items"), "should collect @for iterable as var use");
}

#[test]
fn collects_include_aliases() {
    let ctx = facts("@import \"./lib.mds\" as lib\n@include lib\n");
    assert!(ctx.used_include_aliases.iter().any(|v| v == "lib"), "should collect @include alias");
}

#[test]
fn detects_for_var_shadowing_fm_key() {
    let ctx = facts("---\nname: World\n---\n@for name in items:\n{name}\n@end\n");
    let shadow = ctx
        .shadow_pairs
        .iter()
        .find(|p| p.name == "name" && p.inner_kind == ShadowKind::ForVar && p.outer_kind == ShadowKind::FmVar);
    assert!(shadow.is_some(), "should detect @for var shadowing FM key");
}

#[test]
fn detects_define_param_shadowing_fm_key() {
    let ctx = facts("---\nuser: Alice\n---\n@define greet(user):\nhello {user}\n@end\n");
    let shadow = ctx
        .shadow_pairs
        .iter()
        .find(|p| p.name == "user" && p.inner_kind == ShadowKind::DefineParam && p.outer_kind == ShadowKind::FmVar);
    assert!(shadow.is_some(), "should detect @define param shadowing FM key");
}

#[test]
fn collects_frontmatter_vars_excludes_reserved() {
    let ctx = facts("---\nname: World\ntype: mds\nimports: []\nextends: base\nprompt: hi\n---\nHello!\n");
    assert!(ctx.frontmatter_vars.iter().any(|v| v.name == "name"), "should collect 'name' var");
    for reserved in &["type", "imports", "extends", "prompt"] {
        assert!(!ctx.frontmatter_vars.iter().any(|v| &v.name == reserved), "should exclude reserved key '{reserved}'");
    }
}

#[test]
fn non_ascii_frontmatter_key_does_not_panic() {
    let ctx = facts("---\nintro: \"say évar: now\"\névar: 1\n---\nHello\n");
    assert!(ctx.frontmatter_vars.iter().any(|v| v.name == "évar"));
}

#[test]
fn frontmatter_key_offset_skips_quoted_value() {
    let src = "---\nintro: \"say évar: now\"\névar: 1\n---\nHello\n";
    let ctx = facts(src);
    let v = ctx.frontmatter_vars.iter().find(|v| v.name == "évar").unwrap();
    assert_eq!(v.approx_offset, Some(src.find("\névar").unwrap() + 1));
}

#[test]
fn used_names_are_collected_once() {
    let ctx = facts("{{ a }}{{ a }}{{ f() }}{{ f() }}\n");
    assert_eq!(ctx.used_vars.iter().filter(|v| *v == "a").count(), 1);
    assert_eq!(ctx.used_calls.iter().filter(|v| *v == "f").count(), 1);
}

#[test]
fn nesting_at_the_limit_is_accepted() {
    let mut inner: Vec<Node> = vec![Node::Text(TextNode { text: "deep\n".to_string(), offset: 0 })];
    for _ in 0..MAX_NESTING_DEPTH {
        inner = vec![Node::If(IfBlock {
            condition: Condition::Truthy(Expr::Var("x".to_string())),
            then_body: inner,
            elseif_branches: vec![],
            else_body: None,
            offset: 0,
            else_offset: None,
            end_offset: 0,
        })];
    }
    let module = Module { frontmatter: None, extends: None, body: inner };
    assert!(collect_facts(&module, false, "").is_ok());
}

#[test]
fn collect_facts_walks_nested_bodies_in_order() {
    let src = "@define outer():\n@if flag:\n@define inner():\nx\n@end\n@export inner\n@end\n@end\n@for item in items:\n{{ item }}\n@end\n";
    let ctx = facts(src);
    assert_eq!(ctx.defines.len(), 2);
    assert_eq!(ctx.defines[0].name, "outer");
    assert_eq!(ctx.defines[1].name, "inner");
    assert_eq!(ctx.exports.len(), 1);
    assert!(ctx.has_explicit_exports);
    assert!(contains_str(&ctx.used_vars, "flag"));
    assert!(contains_str(&ctx.used_vars, "items"));
    assert!(contains_str(&ctx.used_vars, "item"));
    assert_eq!(ctx.used_vars.len(), 3);
}

#[test]
fn collect_facts_usage_sets_hold_each_name_once() {
    let src = "{{ greet(name, name) }}\n{{ greet(name) }}\n{{ lib.f(x) }}\n@include part\n@include part\n";
    let ctx = facts(src);
    assert_eq!(ctx.used_calls, vec!["greet".to_string()]);
    assert_eq!(ctx.used_vars, vec!["name".to_string(), "x".to_string()]);
    assert_eq!(ctx.used_namespaces, vec!["lib".to_string()]);
    assert_eq!(ctx.used_include_aliases, vec!["part".to_string()]);
}

#[test]
fn frontmatter_content_starts_after_first_fence() {
    assert_eq!(find_frontmatter_content_start("---\nname: x\n---\n"), Some(4));
    assert_eq!(find_frontmatter_content_start("---\r\nname: x\r\n---\r\n"), Some(5));
    assert_eq!(find_frontmatter_content_start("no fence here"), None);
}

#[test]
fn yaml_key_found_only_at_line_start() {
    let src = "---\nxname: 1\nname: 2\n---\n";
    assert_eq!(find_yaml_key_in_source(src, 4, "name"), Some(13));
    assert_eq!(find_yaml_key_in_source(src, 4, "missing"), None);
}

#[test]
fn frontmatter_vars_skip_reserved_keys_and_record_offsets() {
    let src = "---\ntype: mds\nname: World\n---\nHello {{ name }}\n";
    let ctx = facts(src);
    assert_eq!(ctx.frontmatter_vars.len(), 1);
    assert_eq!(ctx.frontmatter_vars[0].name, "name");
    assert_eq!(ctx.frontmatter_vars[0].approx_offset, Some(14));
}

#[test]
fn for_variable_shadowing_takes_first_outer_binding() {
    let src = "---\nitem: 1\n---\n@for item in items:\n@for item in more:\nx\n@end\n@end\n";
    let ctx = facts(src);
    assert_eq!(ctx.shadow_pairs.len(), 2);
    assert_eq!(ctx.shadow_pairs[0].outer_kind, ShadowKind::FmVar);
    assert_eq!(ctx.shadow_pairs[0].offset, 16);
    assert_eq!(ctx.shadow_pairs[1].outer_kind, ShadowKind::FmVar);
    assert_eq!(ctx.shadow_pairs[1].offset, 36);
}

#[test]
fn single_brace_name_is_legacy_text_not_a_variable_use() {
    let ctx = facts("{name}\n");
    assert!(!contains_str(&ctx.used_vars, "name"));
    let ctx = facts("{greet(\"world\")}\n");
    assert!(!contains_str(&ctx.used_calls, "greet"));
}
