use mds_lint::ast::{Expr, Node};
use mds_lint::error::MdsError;
use mds_lint::lexer::tokenize;
use mds_lint::parser::parse_with_ctx;

fn parse_err(src: &str) -> (String, Option<(usize, usize)>) {
    let tokens = tokenize(src).unwrap();
    match parse_with_ctx(&tokens, src) {
        Err(MdsError::Syntax { message, span }) => (message, span.map(|s| (s.offset, s.length))),
        other => panic!("expected a syntax error, got {:?}", other),
    }
}

#[test]
fn parser_nested_message_is_rejected_at_inner_line() {
    let src = "@message user:\n@message system:\nx\n@end\n@end\n";
    let (m, span) = parse_err(src);
    assert_eq!(m, "@message blocks cannot be nested inside another @message block");
    assert_eq!(span, Some((15, 16)));
}

#[test]
fn parser_block_inside_if_is_rejected() {
    let src = "@if a:\n@block b:\nx\n@end\n@end\n";
    let (m, span) = parse_err(src);
    assert_eq!(m, "@block is top-level only — it cannot appear inside @if, @for, or @define");
    assert_eq!(span, Some((7, 9)));
}

#[test]
fn parser_unclosed_if_points_at_keyword() {
    let (m, span) = parse_err("@if a:\nhi\n");
    assert_eq!(m, "unclosed @if block (missing @end)");
    assert_eq!(span, Some((0, 3)));
}

#[test]
fn parser_nesting_past_limit_fails() {
    let mut src = String::new();
    for _ in 0..65 {
        src.push_str("@if a:\n");
    }
    for _ in 0..65 {
        src.push_str("@end\n");
    }
    let (m, span) = parse_err(&src);
    assert_eq!(m, "nesting depth exceeds maximum of 64");
    assert_eq!(span, None);
}

#[test]
fn parser_nesting_at_limit_succeeds() {
    let mut src = String::new();
    for _ in 0..64 {
        src.push_str("@if a:\n");
    }
    for _ in 0..64 {
        src.push_str("@end\n");
    }
    let tokens = tokenize(&src).unwrap();
    assert!(parse_with_ctx(&tokens, &src).is_ok());
}

#[test]
fn parser_else_without_colon() {
    let (m, span) = parse_err("@if a:\n@else\n@end\n");
    assert_eq!(m, "found '@else' without colon — use '@else:' (with trailing colon)");
    assert_eq!(span, Some((7, 5)));
}

#[test]
fn parser_unknown_directive_lists_valid_ones() {
    let (m, span) = parse_err("@foo\n");
    assert_eq!(
        m,
        "unknown directive: @foo. Valid directives: @if, @elseif, @else:, @end, @for, @define, @import, @export, @include, @message, @block, @extends"
    );
    assert_eq!(span, Some((0, 4)));
}

#[test]
fn parser_missing_colon_on_if() {
    let (m, _) = parse_err("@if a\n@end\n");
    assert_eq!(m, "@if directive must end with ':'");
}

#[test]
fn parser_if_elseif_else_offsets() {
    let src = "@if a:\nA\n@elseif b:\nB\n@else:\nC\n@end\n";
    let tokens = tokenize(src).unwrap();
    let module = parse_with_ctx(&tokens, src).unwrap();
    assert_eq!(module.body.len(), 1);
    match &module.body[0] {
        Node::If(b) => {
            assert_eq!(b.offset, 0);
            assert_eq!(b.elseif_branches.len(), 1);
            assert_eq!(b.elseif_branches[0].offset, 9);
            assert_eq!(b.else_offset, Some(22));
            assert_eq!(b.end_offset, 31);
            assert!(b.else_body.is_some());
        }
        other => panic!("expected @if, got {:?}", other),
    }
}

#[test]
fn parser_for_with_key_variable() {
    let src = "@for k, v in items:\nx\n@end\n";
    let tokens = tokenize(src).unwrap();
    let module = parse_with_ctx(&tokens, src).unwrap();
    match &module.body[0] {
        Node::For(f) => {
            assert_eq!(f.key_var.as_deref(), Some("k"));
            assert_eq!(f.var, "v");
            assert!(matches!(&f.iterable, Expr::Var(n) if n == "items"));
            assert_eq!(f.offset, 0);
            assert_eq!(f.end_offset, 22);
        }
        other => panic!("expected @for, got {:?}", other),
    }
}

#[test]
fn parser_for_over_literal_is_rejected() {
    let (m, span) = parse_err("@for x in 3:\n@end\n");
    assert_eq!(m, "cannot use a literal value as @for iterable: '3' — use a variable or function call");
    assert_eq!(span, Some((0, 12)));
}

#[test]
fn parser_define_name_and_params() {
    let src = "@define greet(name, greeting = \"hi\"):\nx\n@end\n";
    let tokens = tokenize(src).unwrap();
    let module = parse_with_ctx(&tokens, src).unwrap();
    match &module.body[0] {
        Node::Define(d) => {
            assert_eq!(d.name, "greet");
            assert_eq!(d.params.len(), 2);
            assert_eq!(d.params[0].name, "name");
            assert!(d.params[0].default.is_none());
            assert_eq!(d.params[1].name, "greeting");
            assert!(matches!(&d.params[1].default, Some(Expr::StringLiteral(s)) if s == "hi"));
        }
        other => panic!("expected @define, got {:?}", other),
    }
}

#[test]
fn parser_define_without_parens() {
    let (m, _) = parse_err("@define greet:\n@end\n");
    assert_eq!(m, "@define must have parameter list: @define name(params):");
}

#[test]
fn parser_message_role_literal_and_expression() {
    let src = "@message system:\nx\n@end\n@message {role}:\ny\n@end\n";
    let tokens = tokenize(src).unwrap();
    let module = parse_with_ctx(&tokens, src).unwrap();
    assert_eq!(module.body.len(), 2);
    assert!(matches!(&module.body[0], Node::Message(m) if matches!(&m.role, Expr::StringLiteral(s) if s == "system")));
    assert!(matches!(&module.body[1], Node::Message(m) if matches!(&m.role, Expr::Var(s) if s == "role") && m.offset == 24));
}

#[test]
fn parser_extends_after_content_is_an_extends_error() {
    let src = "hi\n@extends \"a.mds\"\n";
    let tokens = tokenize(src).unwrap();
    match parse_with_ctx(&tokens, src) {
        Err(MdsError::Extends { message, span }) => {
            assert!(message.starts_with("@extends must be the first directive"));
            assert_eq!(span.map(|s| s.offset), Some(3));
        }
        other => panic!("expected an extends error, got {:?}", other),
    }
}

#[test]
fn parser_leading_extends_is_recorded() {
    let src = "@extends \"./base.mds\"\nbody\n";
    let tokens = tokenize(src).unwrap();
    let module = parse_with_ctx(&tokens, src).unwrap();
    let ext = module.extends.unwrap();
    assert_eq!(ext.path, "./base.mds");
    assert_eq!(ext.offset, 0);
}

#[test]
fn parser_include_alias_must_be_identifier() {
    let (m, span) = parse_err("@include 9x\n");
    assert_eq!(m, "invalid include alias: '9x'");
    assert_eq!(span, Some((0, 11)));
}
