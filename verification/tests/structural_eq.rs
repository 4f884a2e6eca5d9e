use mds_lint::ast::{Condition, ElseifBranch, Expr, IfBlock, ImportDirective, Node, TextNode};
use mds_lint::number::{parse_number, NumberValue, ParsedNumber};
use mds_lint::rules::structural_eq::{exprs_eq, imports_eq, is_literal, node_eq, nodes_eq};

fn num(s: &str) -> NumberValue {
    match parse_number(s) {
        ParsedNumber::Finite(n) => n,
        other => panic!("{s:?} is not a finite number: {other:?}"),
    }
}

#[test]
fn exprs_eq_var() {
    let a = Expr::Var("x".to_string());
    let b = Expr::Var("x".to_string());
    let c = Expr::Var("y".to_string());
    assert!(exprs_eq(&a, &b));
    assert!(!exprs_eq(&a, &c));
}

#[test]
fn nodes_eq_text_same() {
    let a = Node::Text(TextNode { text: "hello".to_string(), offset: 0 });
    let b = Node::Text(TextNode { text: "hello".to_string(), offset: 99 });
    assert!(node_eq(&a, &b));
}

#[test]
fn nodes_eq_text_different() {
    let a = Node::Text(TextNode { text: "hello".to_string(), offset: 0 });
    let b = Node::Text(TextNode { text: "world".to_string(), offset: 0 });
    assert!(!node_eq(&a, &b));
}

#[test]
fn is_literal_detects_literals() {
    assert!(is_literal(&Expr::StringLiteral("x".to_string())));
    assert!(is_literal(&Expr::NumberLiteral(num("42.0"))));
    assert!(is_literal(&Expr::BooleanLiteral(true)));
    assert!(is_literal(&Expr::NullLiteral));
    assert!(!is_literal(&Expr::Var("x".to_string())));
}

#[test]
fn selective_name_offsets_excluded_from_imports_eq() {
    let a = ImportDirective::Selective {
        names: vec!["foo".to_string(), "bar".to_string()],
        path: "./lib.mds".to_string(),
        offset: 0,
        name_offsets: vec![10, 15],
    };
    let b = ImportDirective::Selective {
        names: vec!["foo".to_string(), "bar".to_string()],
        path: "./lib.mds".to_string(),
        offset: 42,
        name_offsets: vec![53, 58],
    };
    assert!(imports_eq(&a, &b));
    let c = ImportDirective::Selective {
        names: vec!["foo".to_string(), "baz".to_string()],
        path: "./lib.mds".to_string(),
        offset: 0,
        name_offsets: vec![10, 15],
    };
    assert!(!imports_eq(&a, &c));
}

#[test]
fn elseif_branch_offset_excluded_from_structural_eq() {
    let make_if = |elseif_offset: usize| {
        Node::If(IfBlock {
            condition: Condition::Truthy(Expr::Var("a".to_string())),
            then_body: vec![Node::Text(TextNode { text: "A".to_string(), offset: 0 })],
            elseif_branches: vec![ElseifBranch {
                condition: Condition::Truthy(Expr::Var("b".to_string())),
                body: vec![Node::Text(TextNode { text: "B".to_string(), offset: 0 })],
                offset: elseif_offset,
            }],
            else_body: None,
            offset: 0,
            else_offset: None,
            end_offset: 0,
        })
    };
    let a = make_if(9);
    let b = make_if(999);
    assert!(node_eq(&a, &b));
}

#[test]
fn number_literals_compare_by_value() {
    assert!(exprs_eq(&Expr::NumberLiteral(num("42")), &Expr::NumberLiteral(num("42.0"))));
    assert!(exprs_eq(&Expr::NumberLiteral(num("4.2e1")), &Expr::NumberLiteral(num("42"))));
    assert!(!exprs_eq(&Expr::NumberLiteral(num("0")), &Expr::NumberLiteral(num("-0"))));
    assert!(!exprs_eq(&Expr::NumberLiteral(num("42")), &Expr::NumberLiteral(num("43"))));
}

#[test]
fn nodes_eq_requires_same_length() {
    let a = vec![Node::Text(TextNode { text: "a".to_string(), offset: 0 })];
    let b = vec![
        Node::Text(TextNode { text: "a".to_string(), offset: 0 }),
        Node::Text(TextNode { text: "a".to_string(), offset: 1 }),
    ];
    assert!(!nodes_eq(&a, &b));
    assert!(nodes_eq(&a, &a));
}

#[test]
fn imports_of_different_kinds_differ() {
    let a = ImportDirective::Merge { path: "./x.mds".to_string(), offset: 0 };
    let b = ImportDirective::Alias { path: "./x.mds".to_string(), alias: "x".to_string(), offset: 0 };
    assert!(!imports_eq(&a, &b));
    assert!(imports_eq(&a, &ImportDirective::Merge { path: "./x.mds".to_string(), offset: 7 }));
}

#[test]
fn nested_positions_do_not_matter() {
    let make_if = |base: usize, inner: &str| {
        Node::If(IfBlock {
            condition: Condition::Truthy(Expr::Var("a".to_string())),
            then_body: vec![Node::Text(TextNode { text: inner.to_string(), offset: base + 5 })],
            elseif_branches: vec![ElseifBranch {
                condition: Condition::Truthy(Expr::Var("b".to_string())),
                body: vec![Node::Text(TextNode { text: "B".to_string(), offset: base + 20 })],
                offset: base + 12,
            }],
            else_body: Some(vec![Node::Text(TextNode { text: "C".to_string(), offset: base + 40 })]),
            offset: base,
            else_offset: Some(base + 30),
            end_offset: base + 50,
        })
    };
    assert!(node_eq(&make_if(0, "A"), &make_if(700, "A")));
    assert!(!node_eq(&make_if(0, "A"), &make_if(700, "Z")));
    assert!(!node_eq(&make_if(3, "A"), &make_if(3, "Z")));
}
