//! The syntax tree of an MDS template.
//!
//! Offsets are byte offsets into the source. Number literals are exact decimals.
use vstd::prelude::*;
use crate::number::NumberValue;

verus! {

/// An expression in a directive condition, iterable, role or interpolation.
#[derive(Debug)]
pub enum Expr {
    Var(String),
    StringLiteral(String),
    NumberLiteral(NumberValue),
    BooleanLiteral(bool),
    NullLiteral,
    Call { name: String, args: Vec<Arg> },
    QualifiedCall { namespace: String, name: String, args: Vec<Arg> },
    MemberAccess { object: String, fields: Vec<String> },
}

/// A function-call argument.
#[derive(Debug)]
pub enum Arg {
    StringLiteral(String),
    NumberLiteral(NumberValue),
    BooleanLiteral(bool),
    NullLiteral,
    Var(String),
    Call { name: String, args: Vec<Arg> },
    MemberAccess { object: String, fields: Vec<String> },
}

/// An `@if` / `@elseif` condition.
#[derive(Debug)]
pub enum Condition {
    Truthy(Expr),
    Not(Expr),
    Eq(Expr, Expr),
    NotEq(Expr, Expr),
    And(Vec<Condition>),
    Or(Vec<Condition>),
}

/// Plain text.
#[derive(Debug)]
pub struct TextNode {
    pub text: String,
    pub offset: usize,
}

/// A `{{ expr }}` interpolation.
#[derive(Debug)]
pub struct Interpolation {
    pub expr: Expr,
    pub offset: usize,
    pub len: usize,
}

/// An `@elseif` arm.
#[derive(Debug)]
pub struct ElseifBranch {
    pub condition: Condition,
    pub body: Vec<Node>,
    pub offset: usize,
}

/// An `@if` block.
#[derive(Debug)]
pub struct IfBlock {
    pub condition: Condition,
    pub elseif_branches: Vec<ElseifBranch>,
    pub then_body: Vec<Node>,
    pub else_body: Option<Vec<Node>>,
    pub offset: usize,
    pub else_offset: Option<usize>,
    pub end_offset: usize,
}

/// An `@for` loop.
#[derive(Debug)]
pub struct ForBlock {
    pub var: String,
    pub key_var: Option<String>,
    pub iterable: Expr,
    pub body: Vec<Node>,
    pub offset: usize,
    pub end_offset: usize,
}

/// A `@define` parameter with its optional literal default.
#[derive(Debug)]
pub struct Param {
    pub name: String,
    pub default: Option<Expr>,
}

/// A `@define` function.
#[derive(Debug)]
pub struct DefineBlock {
    pub name: String,
    pub params: Vec<Param>,
    pub body: Vec<Node>,
    pub offset: usize,
    pub end_offset: usize,
}

/// An `@import` directive.
#[derive(Debug)]
pub enum ImportDirective {
    Alias { path: String, alias: String, offset: usize },
    Merge { path: String, offset: usize },
    Selective { names: Vec<String>, name_offsets: Vec<usize>, path: String, offset: usize },
}

/// An `@export` directive.
#[derive(Debug)]
pub enum ExportDirective {
    Named { name: String, offset: usize },
    ReExport { name: String, path: String, offset: usize },
    Wildcard { path: String, offset: usize },
}

/// An `@include alias` directive.
#[derive(Debug)]
pub struct IncludeDirective {
    pub alias: String,
    pub offset: usize,
}

/// A `@message role:` block.
#[derive(Debug)]
pub struct MessageBlock {
    pub role: Expr,
    pub body: Vec<Node>,
    pub offset: usize,
}

/// A top-level `@block name:` placeholder.
#[derive(Debug)]
pub struct BlockNode {
    pub name: String,
    pub body: Vec<Node>,
    pub offset: usize,
}

/// A leading `@extends "path"`.
#[derive(Debug)]
pub struct ExtendsDirective {
    pub path: String,
    pub offset: usize,
}

/// The raw YAML frontmatter.
#[derive(Debug)]
pub struct Frontmatter {
    pub raw: String,
}

/// A body node.
#[derive(Debug)]
pub enum Node {
    Text(TextNode),
    Interpolation(Interpolation),
    EscapedBrace { offset: usize },
    If(IfBlock),
    For(ForBlock),
    Define(DefineBlock),
    Import(ImportDirective),
    Export(ExportDirective),
    Include(IncludeDirective),
    Message(MessageBlock),
    Block(BlockNode),
}

/// A parsed template.
#[derive(Debug)]
pub struct Module {
    pub frontmatter: Option<Frontmatter>,
    pub extends: Option<ExtendsDirective>,
    pub body: Vec<Node>,
}

/// `n` is `m` itself or a node inside one of `m`'s bodies (then, `@elseif`,
/// `@else`, `@for`, `@define`, `@message`, `@block`), at any depth.
pub open spec fn node_within(m: Node, n: Node) -> bool
    decreases m,
{
    m == n || match m {
        Node::If(b) => nodes_within(b.then_body@, n) || arms_within(b.elseif_branches@, n)
            || match b.else_body {
                Some(e) => nodes_within(e@, n),
                None => false,
            },
        Node::For(b) => nodes_within(b.body@, n),
        Node::Define(b) => nodes_within(b.body@, n),
        Node::Message(b) => nodes_within(b.body@, n),
        Node::Block(b) => nodes_within(b.body@, n),
        _ => false,
    }
}

/// `n` is one of the nodes of `v` or inside one of them, at any depth.
pub open spec fn nodes_within(v: Seq<Node>, n: Node) -> bool
    decreases v,
{
    exists|k: int| 0 <= k < v.len() && node_within(#[trigger] v[k], n)
}

/// `n` is inside the body of one of the `@elseif` arms `v`, at any depth.
pub open spec fn arms_within(v: Seq<ElseifBranch>, n: Node) -> bool
    decreases v,
{
    exists|k: int| 0 <= k < v.len() && nodes_within((#[trigger] v[k]).body@, n)
}

} // verus!
