//! Structural equality of syntax trees: positions (offsets and lengths) are
//! ignored, everything else is compared. Used to find an `@else` identical to its
//! `@if` body and an `@elseif` condition that repeats an earlier one.
use vstd::prelude::*;
use crate::ast::{
    Arg, BlockNode, Condition, DefineBlock, ElseifBranch, ExportDirective, Expr, ForBlock, IfBlock, ImportDirective,
    IncludeDirective, Interpolation, MessageBlock, Node, Param, TextNode,
};
use crate::number::NumberValue;
use crate::text::str_eq;

pub use crate::parser_helpers::is_literal;

verus! {

/// Two string lists hold equal strings in order.
pub open spec fn strs_equiv(a: Seq<String>, b: Seq<String>) -> bool {
    a.len() == b.len() && forall|k: int| 0 <= k < a.len() ==> (#[trigger] a[k])@ == b[k]@
}

/// Two optional strings are both absent or equal.
pub open spec fn opt_str_equiv(a: Option<String>, b: Option<String>) -> bool {
    match (a, b) {
        (None, None) => true,
        (Some(x), Some(y)) => x@ == y@,
        _ => false,
    }
}

/// Two numbers are the same decimal.
pub open spec fn num_equiv(x: NumberValue, y: NumberValue) -> bool {
    x.negative == y.negative && x.digits@ == y.digits@ && x.exponent == y.exponent
}

/// Structural equality of expressions.
pub open spec fn expr_equiv(a: Expr, b: Expr) -> bool
    decreases a,
{
    match (a, b) {
        (Expr::Var(x), Expr::Var(y)) => x@ == y@,
        (Expr::StringLiteral(x), Expr::StringLiteral(y)) => x@ == y@,
        (Expr::NumberLiteral(x), Expr::NumberLiteral(y)) => num_equiv(x, y),
        (Expr::BooleanLiteral(x), Expr::BooleanLiteral(y)) => x == y,
        (Expr::NullLiteral, Expr::NullLiteral) => true,
        (Expr::Call { name: n1, args: a1 }, Expr::Call { name: n2, args: a2 }) => n1@ == n2@ && args_equiv(a1@, a2@),
        (Expr::QualifiedCall { namespace: s1, name: n1, args: a1 }, Expr::QualifiedCall { namespace: s2, name: n2, args: a2 }) =>
            s1@ == s2@ && n1@ == n2@ && args_equiv(a1@, a2@),
        (Expr::MemberAccess { object: o1, fields: f1 }, Expr::MemberAccess { object: o2, fields: f2 }) =>
            o1@ == o2@ && strs_equiv(f1@, f2@),
        _ => false,
    }
}

/// Structural equality of argument lists.
pub open spec fn args_equiv(a: Seq<Arg>, b: Seq<Arg>) -> bool
    decreases a,
{
    a.len() == b.len() && forall|k: int| 0 <= k < a.len() ==> arg_equiv(#[trigger] a[k], b[k])
}

/// Structural equality of arguments.
pub open spec fn arg_equiv(a: Arg, b: Arg) -> bool
    decreases a,
{
    match (a, b) {
        (Arg::StringLiteral(x), Arg::StringLiteral(y)) => x@ == y@,
        (Arg::NumberLiteral(x), Arg::NumberLiteral(y)) => num_equiv(x, y),
        (Arg::BooleanLiteral(x), Arg::BooleanLiteral(y)) => x == y,
        (Arg::NullLiteral, Arg::NullLiteral) => true,
        (Arg::Var(x), Arg::Var(y)) => x@ == y@,
        (Arg::Call { name: n1, args: a1 }, Arg::Call { name: n2, args: a2 }) => n1@ == n2@ && args_equiv(a1@, a2@),
        (Arg::MemberAccess { object: o1, fields: f1 }, Arg::MemberAccess { object: o2, fields: f2 }) =>
            o1@ == o2@ && strs_equiv(f1@, f2@),
        _ => false,
    }
}

/// Structural equality of conditions.
pub open spec fn cond_equiv(a: Condition, b: Condition) -> bool
    decreases a,
{
    match (a, b) {
        (Condition::Truthy(x), Condition::Truthy(y)) => expr_equiv(x, y),
        (Condition::Not(x), Condition::Not(y)) => expr_equiv(x, y),
        (Condition::Eq(l1, r1), Condition::Eq(l2, r2)) => expr_equiv(l1, l2) && expr_equiv(r1, r2),
        (Condition::NotEq(l1, r1), Condition::NotEq(l2, r2)) => expr_equiv(l1, l2) && expr_equiv(r1, r2),
        (Condition::And(v1), Condition::And(v2)) => conds_equiv(v1@, v2@),
        (Condition::Or(v1), Condition::Or(v2)) => conds_equiv(v1@, v2@),
        _ => false,
    }
}

/// Structural equality of condition lists.
pub open spec fn conds_equiv(a: Seq<Condition>, b: Seq<Condition>) -> bool
    decreases a,
{
    a.len() == b.len() && forall|k: int| 0 <= k < a.len() ==> cond_equiv(#[trigger] a[k], b[k])
}

/// Structural equality of imports.
pub open spec fn import_equiv(a: ImportDirective, b: ImportDirective) -> bool {
    match (a, b) {
        (ImportDirective::Alias { path: p1, alias: a1, .. }, ImportDirective::Alias { path: p2, alias: a2, .. }) =>
            p1@ == p2@ && a1@ == a2@,
        (ImportDirective::Merge { path: p1, .. }, ImportDirective::Merge { path: p2, .. }) => p1@ == p2@,
        (ImportDirective::Selective { names: n1, path: p1, .. }, ImportDirective::Selective { names: n2, path: p2, .. }) =>
            p1@ == p2@ && strs_equiv(n1@, n2@),
        _ => false,
    }
}

/// The parameter names agree in order.
pub open spec fn param_names_equiv(a: Seq<Param>, b: Seq<Param>) -> bool {
    a.len() == b.len() && forall|k: int| 0 <= k < a.len() ==> (#[trigger] a[k]).name@ == b[k].name@
}

/// Structural equality of node lists.
pub open spec fn nodes_equiv(a: Seq<Node>, b: Seq<Node>) -> bool
    decreases a,
{
    a.len() == b.len() && forall|k: int| 0 <= k < a.len() ==> node_equiv(#[trigger] a[k], b[k])
}

/// Structural equality of `@elseif` arm lists.
pub open spec fn branches_equiv(a: Seq<ElseifBranch>, b: Seq<ElseifBranch>) -> bool
    decreases a,
{
    a.len() == b.len() && forall|k: int| 0 <= k < a.len() ==> cond_equiv((#[trigger] a[k]).condition, b[k].condition)
        && nodes_equiv(a[k].body@, b[k].body@)
}

/// Structural equality of nodes: positions are ignored and exports never compare
/// equal.
pub open spec fn node_equiv(a: Node, b: Node) -> bool
    decreases a,
{
    match (a, b) {
        (Node::Text(t1), Node::Text(t2)) => t1.text@ == t2.text@,
        (Node::EscapedBrace { .. }, Node::EscapedBrace { .. }) => true,
        (Node::Interpolation(i1), Node::Interpolation(i2)) => expr_equiv(i1.expr, i2.expr),
        (Node::If(b1), Node::If(b2)) => cond_equiv(b1.condition, b2.condition) && nodes_equiv(b1.then_body@, b2.then_body@)
            && branches_equiv(b1.elseif_branches@, b2.elseif_branches@)
            && match (b1.else_body, b2.else_body) {
                (None, None) => true,
                (Some(n1), Some(n2)) => nodes_equiv(n1@, n2@),
                _ => false,
            },
        (Node::For(f1), Node::For(f2)) => f1.var@ == f2.var@ && opt_str_equiv(f1.key_var, f2.key_var)
            && expr_equiv(f1.iterable, f2.iterable) && nodes_equiv(f1.body@, f2.body@),
        (Node::Define(d1), Node::Define(d2)) => d1.name@ == d2.name@ && param_names_equiv(d1.params@, d2.params@)
            && nodes_equiv(d1.body@, d2.body@),
        (Node::Import(i1), Node::Import(i2)) => import_equiv(i1, i2),
        (Node::Include(i1), Node::Include(i2)) => i1.alias@ == i2.alias@,
        (Node::Message(m1), Node::Message(m2)) => expr_equiv(m1.role, m2.role) && nodes_equiv(m1.body@, m2.body@),
        (Node::Block(b1), Node::Block(b2)) => b1.name@ == b2.name@ && nodes_equiv(b1.body@, b2.body@),
        _ => false,
    }
}

/// Two lists of strings hold equal strings in order.
fn strings_eq(a: &Vec<String>, b: &Vec<String>) -> (r: bool)
    ensures
        r == (a@.len() == b@.len() && forall|k: int| 0 <= k < a@.len() ==> (#[trigger] a@[k])@ == b@[k]@),
{
    if a.len() != b.len() {
        return false;
    }
    let mut i: usize = 0;
    while i < a.len()
        invariant
            i <= a@.len() == b@.len(),
            forall|k: int| 0 <= k < i ==> (#[trigger] a@[k])@ == b@[k]@,
        decreases a@.len() - i,
    {
        if !str_eq(a[i].as_str(), b[i].as_str()) {
            return false;
        }
        i = i + 1;
    }
    true
}

/// Two optional strings are both absent or equal.
fn opt_str_eq(a: &Option<String>, b: &Option<String>) -> (r: bool)
    ensures
        r == opt_str_equiv(*a, *b),
{
    match (a, b) {
        (None, None) => true,
        (Some(x), Some(y)) => str_eq(x.as_str(), y.as_str()),
        _ => false,
    }
}

/// Structural equality of expressions.
pub fn exprs_eq(a: &Expr, b: &Expr) -> (r: bool)
    ensures
        r == expr_equiv(*a, *b),
        r ==> (a is Var <==> b is Var) && (a is Call <==> b is Call) && (a is StringLiteral <==> b is StringLiteral),
        a matches Expr::Var(x) ==> (r <==> (b matches Expr::Var(y) && x@ == y@)),
        a matches Expr::StringLiteral(x) ==> (r <==> (b matches Expr::StringLiteral(y) && x@ == y@)),
        a matches Expr::BooleanLiteral(x) ==> (r <==> (b matches Expr::BooleanLiteral(y) && x == y)),
        a is NullLiteral ==> (r <==> b is NullLiteral),
        a matches Expr::NumberLiteral(x) ==> (r <==> (b matches Expr::NumberLiteral(y)
            && x.negative == y.negative && x.digits@ == y.digits@ && x.exponent == y.exponent)),
    decreases a,
{
    match (a, b) {
        (Expr::Var(x), Expr::Var(y)) => str_eq(x.as_str(), y.as_str()),
        (Expr::StringLiteral(x), Expr::StringLiteral(y)) => str_eq(x.as_str(), y.as_str()),
        (Expr::NumberLiteral(x), Expr::NumberLiteral(y)) => x.same(y),
        (Expr::BooleanLiteral(x), Expr::BooleanLiteral(y)) => *x == *y,
        (Expr::NullLiteral, Expr::NullLiteral) => true,
        (Expr::Call { name: n1, args: a1 }, Expr::Call { name: n2, args: a2 }) => {
            str_eq(n1.as_str(), n2.as_str()) && args_eq(a1, a2)
        },
        (Expr::QualifiedCall { namespace: s1, name: n1, args: a1 }, Expr::QualifiedCall { namespace: s2, name: n2, args: a2 }) => {
            str_eq(s1.as_str(), s2.as_str()) && str_eq(n1.as_str(), n2.as_str()) && args_eq(a1, a2)
        },
        (Expr::MemberAccess { object: o1, fields: f1 }, Expr::MemberAccess { object: o2, fields: f2 }) => {
            str_eq(o1.as_str(), o2.as_str()) && strings_eq(f1, f2)
        },
        _ => false,
    }
}

/// Structural equality of argument lists.
pub fn args_eq(a: &Vec<Arg>, b: &Vec<Arg>) -> (r: bool)
    ensures
        r == args_equiv(a@, b@),
    decreases a,
{
    if a.len() != b.len() {
        return false;
    }
    let mut i: usize = 0;
    while i < a.len()
        invariant
            i <= a@.len() == b@.len(),
            forall|k: int| 0 <= k < i ==> arg_equiv(#[trigger] a@[k], b@[k]),
        decreases a@.len() - i,
    {
        proof { assert(decreases_to!(a => a@[i as int])); }
        if !arg_eq(&a[i], &b[i]) {
            return false;
        }
        i = i + 1;
    }
    true
}

/// Structural equality of arguments.
fn arg_eq(a: &Arg, b: &Arg) -> (r: bool)
    ensures
        r == arg_equiv(*a, *b),
    decreases a,
{
    match (a, b) {
        (Arg::StringLiteral(x), Arg::StringLiteral(y)) => str_eq(x.as_str(), y.as_str()),
        (Arg::NumberLiteral(x), Arg::NumberLiteral(y)) => x.same(y),
        (Arg::BooleanLiteral(x), Arg::BooleanLiteral(y)) => *x == *y,
        (Arg::NullLiteral, Arg::NullLiteral) => true,
        (Arg::Var(x), Arg::Var(y)) => str_eq(x.as_str(), y.as_str()),
        (Arg::Call { name: n1, args: a1 }, Arg::Call { name: n2, args: a2 }) => {
            str_eq(n1.as_str(), n2.as_str()) && args_eq(a1, a2)
        },
        (Arg::MemberAccess { object: o1, fields: f1 }, Arg::MemberAccess { object: o2, fields: f2 }) => {
            str_eq(o1.as_str(), o2.as_str()) && strings_eq(f1, f2)
        },
        _ => false,
    }
}

/// Structural equality of conditions.
pub fn conditions_eq(a: &Condition, b: &Condition) -> (r: bool)
    ensures
        r == cond_equiv(*a, *b),
    decreases a,
{
    match (a, b) {
        (Condition::Truthy(x), Condition::Truthy(y)) => exprs_eq(x, y),
        (Condition::Not(x), Condition::Not(y)) => exprs_eq(x, y),
        (Condition::Eq(l1, r1), Condition::Eq(l2, r2)) => exprs_eq(l1, l2) && exprs_eq(r1, r2),
        (Condition::NotEq(l1, r1), Condition::NotEq(l2, r2)) => exprs_eq(l1, l2) && exprs_eq(r1, r2),
        (Condition::And(v1), Condition::And(v2)) => condition_lists_eq(v1, v2),
        (Condition::Or(v1), Condition::Or(v2)) => condition_lists_eq(v1, v2),
        _ => false,
    }
}

/// Structural equality of condition lists.
fn condition_lists_eq(a: &Vec<Condition>, b: &Vec<Condition>) -> (r: bool)
    ensures
        r == conds_equiv(a@, b@),
    decreases a,
{
    if a.len() != b.len() {
        return false;
    }
    let mut i: usize = 0;
    while i < a.len()
        invariant
            i <= a@.len() == b@.len(),
            forall|k: int| 0 <= k < i ==> cond_equiv(#[trigger] a@[k], b@[k]),
        decreases a@.len() - i,
    {
        proof { assert(decreases_to!(a => a@[i as int])); }
        if !conditions_eq(&a[i], &b[i]) {
            return false;
        }
        i = i + 1;
    }
    true
}

/// Structural equality of node lists.
pub fn nodes_eq(a: &Vec<Node>, b: &Vec<Node>) -> (r: bool)
    ensures
        r == nodes_equiv(a@, b@),
    decreases a,
{
    if a.len() != b.len() {
        return false;
    }
    let mut i: usize = 0;
    while i < a.len()
        invariant
            i <= a@.len() == b@.len(),
            forall|k: int| 0 <= k < i ==> node_equiv(#[trigger] a@[k], b@[k]),
        decreases a@.len() - i,
    {
        proof { assert(decreases_to!(a => a@[i as int])); }
        if !node_eq(&a[i], &b[i]) {
            return false;
        }
        i = i + 1;
    }
    true
}

/// The `@elseif` arms agree in condition and body.
fn branches_eq(a: &Vec<ElseifBranch>, b: &Vec<ElseifBranch>) -> (r: bool)
    ensures
        r == branches_equiv(a@, b@),
    decreases a,
{
    if a.len() != b.len() {
        return false;
    }
    let mut i: usize = 0;
    while i < a.len()
        invariant
            i <= a@.len() == b@.len(),
            forall|k: int| 0 <= k < i ==> cond_equiv((#[trigger] a@[k]).condition, b@[k].condition)
                && nodes_equiv(a@[k].body@, b@[k].body@),
        decreases a@.len() - i,
    {
        proof {
            assert(decreases_to!(a => a@[i as int]));
            assert(decreases_to!(a@[i as int] => a@[i as int].body));
        }
        if !(conditions_eq(&a[i].condition, &b[i].condition) && nodes_eq(&a[i].body, &b[i].body)) {
            return false;
        }
        i = i + 1;
    }
    true
}

/// The parameter names agree in order.
fn param_names_eq(a: &Vec<Param>, b: &Vec<Param>) -> (r: bool)
    ensures
        r == param_names_equiv(a@, b@),
{
    if a.len() != b.len() {
        return false;
    }
    let mut i: usize = 0;
    while i < a.len()
        invariant
            i <= a@.len() == b@.len(),
            forall|k: int| 0 <= k < i ==> (#[trigger] a@[k]).name@ == b@[k].name@,
        decreases a@.len() - i,
    {
        if !str_eq(a[i].name.as_str(), b[i].name.as_str()) {
            return false;
        }
        i = i + 1;
    }
    true
}

/// Structural equality of nodes. Exports never compare equal.
pub fn node_eq(a: &Node, b: &Node) -> (r: bool)
    ensures
        r == node_equiv(*a, *b),
        a is Export ==> !r,
        a matches Node::Text(t1) ==> (r <==> (b matches Node::Text(t2) && t1.text@ == t2.text@)),
    decreases a,
{
    match (a, b) {
        (Node::Text(t1), Node::Text(t2)) => str_eq(t1.text.as_str(), t2.text.as_str()),
        (Node::EscapedBrace { .. }, Node::EscapedBrace { .. }) => true,
        (Node::Interpolation(i1), Node::Interpolation(i2)) => exprs_eq(&i1.expr, &i2.expr),
        (Node::If(b1), Node::If(b2)) => {
            conditions_eq(&b1.condition, &b2.condition) && nodes_eq(&b1.then_body, &b2.then_body)
                && branches_eq(&b1.elseif_branches, &b2.elseif_branches)
                && match (&b1.else_body, &b2.else_body) {
                    (None, None) => true,
                    (Some(n1), Some(n2)) => nodes_eq(n1, n2),
                    _ => false,
                }
        },
        (Node::For(f1), Node::For(f2)) => {
            str_eq(f1.var.as_str(), f2.var.as_str()) && opt_str_eq(&f1.key_var, &f2.key_var)
                && exprs_eq(&f1.iterable, &f2.iterable) && nodes_eq(&f1.body, &f2.body)
        },
        (Node::Define(d1), Node::Define(d2)) => {
            str_eq(d1.name.as_str(), d2.name.as_str()) && param_names_eq(&d1.params, &d2.params)
                && nodes_eq(&d1.body, &d2.body)
        },
        (Node::Import(i1), Node::Import(i2)) => imports_eq(i1, i2),
        (Node::Include(i1), Node::Include(i2)) => str_eq(i1.alias.as_str(), i2.alias.as_str()),
        (Node::Message(m1), Node::Message(m2)) => exprs_eq(&m1.role, &m2.role) && nodes_eq(&m1.body, &m2.body),
        (Node::Block(b1), Node::Block(b2)) => str_eq(b1.name.as_str(), b2.name.as_str()) && nodes_eq(&b1.body, &b2.body),
        _ => false,
    }
}

/// Structural equality of imports: kinds, paths, aliases and names agree; offsets are ignored.
pub fn imports_eq(a: &ImportDirective, b: &ImportDirective) -> (r: bool)
    ensures
        r == import_equiv(*a, *b),
        r <==> match (*a, *b) {
            (ImportDirective::Alias { path: p1, alias: a1, .. }, ImportDirective::Alias { path: p2, alias: a2, .. }) =>
                p1@ == p2@ && a1@ == a2@,
            (ImportDirective::Merge { path: p1, .. }, ImportDirective::Merge { path: p2, .. }) => p1@ == p2@,
            (ImportDirective::Selective { names: n1, path: p1, .. }, ImportDirective::Selective { names: n2, path: p2, .. }) =>
                p1@ == p2@ && n1@.len() == n2@.len() && forall|k: int| 0 <= k < n1@.len() ==> (#[trigger] n1@[k])@ == n2@[k]@,
            _ => false,
        },
{
    match (a, b) {
        (ImportDirective::Alias { path: p1, alias: a1, .. }, ImportDirective::Alias { path: p2, alias: a2, .. }) => {
            str_eq(p1.as_str(), p2.as_str()) && str_eq(a1.as_str(), a2.as_str())
        },
        (ImportDirective::Merge { path: p1, .. }, ImportDirective::Merge { path: p2, .. }) => str_eq(p1.as_str(), p2.as_str()),
        (ImportDirective::Selective { names: n1, path: p1, .. }, ImportDirective::Selective { names: n2, path: p2, .. }) => {
            strings_eq(n1, n2) && str_eq(p1.as_str(), p2.as_str())
        },
        _ => false,
    }
}

// ── Positions do not matter ──────────────────────────────────────────────────

/// `i` with its offset set to `o` and every name offset set to `o`.
pub open spec fn import_at(i: ImportDirective, o: usize, names_at: Vec<usize>) -> ImportDirective {
    match i {
        ImportDirective::Alias { path, alias, .. } => ImportDirective::Alias { path, alias, offset: o },
        ImportDirective::Merge { path, .. } => ImportDirective::Merge { path, offset: o },
        ImportDirective::Selective { names, path, .. } => ImportDirective::Selective { names, name_offsets: names_at, path, offset: o },
    }
}

/// `n` with every position it records itself (offsets, closing offsets, the
/// `@else:` offset, the interpolation length) set to `o`; its children unchanged.
pub open spec fn node_at(n: Node, o: usize, names_at: Vec<usize>) -> Node {
    match n {
        Node::Text(t) => Node::Text(TextNode { text: t.text, offset: o }),
        Node::Interpolation(x) => Node::Interpolation(Interpolation { expr: x.expr, offset: o, len: o }),
        Node::EscapedBrace { .. } => Node::EscapedBrace { offset: o },
        Node::If(b) => Node::If(IfBlock {
            condition: b.condition,
            elseif_branches: b.elseif_branches,
            then_body: b.then_body,
            else_body: b.else_body,
            offset: o,
            else_offset: match b.else_offset { Some(_) => Some(o), None => None },
            end_offset: o,
        }),
        Node::For(f) => Node::For(ForBlock { var: f.var, key_var: f.key_var, iterable: f.iterable, body: f.body, offset: o, end_offset: o }),
        Node::Define(d) => Node::Define(DefineBlock { name: d.name, params: d.params, body: d.body, offset: o, end_offset: o }),
        Node::Import(i) => Node::Import(import_at(i, o, names_at)),
        Node::Export(e) => Node::Export(e),
        Node::Include(i) => Node::Include(IncludeDirective { alias: i.alias, offset: o }),
        Node::Message(m) => Node::Message(MessageBlock { role: m.role, body: m.body, offset: o }),
        Node::Block(b) => Node::Block(BlockNode { name: b.name, body: b.body, offset: o }),
    }
}

/// Structural equality of imports ignores their offsets and name offsets.
pub proof fn law_import_equiv_ignores_offsets(a: ImportDirective, b: ImportDirective, o1: usize, o2: usize, n1: Vec<usize>, n2: Vec<usize>)
    ensures
        import_equiv(import_at(a, o1, n1), import_at(b, o2, n2)) == import_equiv(a, b),
{
}

/// Structural equality of nodes ignores the positions they record: moving either
/// node anywhere (and its import names anywhere) changes nothing.
pub proof fn law_node_equiv_ignores_offsets(a: Node, b: Node, o1: usize, o2: usize, n1: Vec<usize>, n2: Vec<usize>)
    ensures
        node_equiv(node_at(a, o1, n1), node_at(b, o2, n2)) == node_equiv(a, b),
{
    match (a, b) {
        (Node::Import(i1), Node::Import(i2)) => {
            law_import_equiv_ignores_offsets(i1, i2, o1, o2, n1, n2);
        },
        _ => {},
    }
}

/// `j` is the import `i` with its offset and name offsets possibly changed.
pub open spec fn import_moved(i: ImportDirective, j: ImportDirective) -> bool {
    match (i, j) {
        (ImportDirective::Alias { path: p1, alias: a1, .. }, ImportDirective::Alias { path: p2, alias: a2, .. }) => p1 == p2 && a1 == a2,
        (ImportDirective::Merge { path: p1, .. }, ImportDirective::Merge { path: p2, .. }) => p1 == p2,
        (ImportDirective::Selective { names: n1, path: p1, .. }, ImportDirective::Selective { names: n2, path: p2, .. }) => n1 == n2 && p1 == p2,
        _ => false,
    }
}

/// `f` is the export `e` with its offset possibly changed.
pub open spec fn export_moved(e: ExportDirective, f: ExportDirective) -> bool {
    match (e, f) {
        (ExportDirective::Named { name: n1, .. }, ExportDirective::Named { name: n2, .. }) => n1 == n2,
        (ExportDirective::ReExport { name: n1, path: p1, .. }, ExportDirective::ReExport { name: n2, path: p2, .. }) => n1 == n2 && p1 == p2,
        (ExportDirective::Wildcard { path: p1, .. }, ExportDirective::Wildcard { path: p2, .. }) => p1 == p2,
        _ => false,
    }
}

/// `m` is the node `n` with any of the positions it holds, at any depth, possibly
/// changed: offsets, closing offsets, the `@else:` offset, `@elseif` offsets,
/// interpolation lengths and import name offsets. Everything else is the same.
pub open spec fn node_moved(n: Node, m: Node) -> bool
    decreases n,
{
    match (n, m) {
        (Node::Text(t1), Node::Text(t2)) => t1.text == t2.text,
        (Node::Interpolation(x), Node::Interpolation(y)) => x.expr == y.expr,
        (Node::EscapedBrace { .. }, Node::EscapedBrace { .. }) => true,
        (Node::If(b1), Node::If(b2)) => b1.condition == b2.condition && nodes_moved(b1.then_body@, b2.then_body@)
            && branches_moved(b1.elseif_branches@, b2.elseif_branches@)
            && (b1.else_offset is Some <==> b2.else_offset is Some)
            && match (b1.else_body, b2.else_body) {
                (None, None) => true,
                (Some(x), Some(y)) => nodes_moved(x@, y@),
                _ => false,
            },
        (Node::For(f1), Node::For(f2)) => f1.var == f2.var && f1.key_var == f2.key_var && f1.iterable == f2.iterable
            && nodes_moved(f1.body@, f2.body@),
        (Node::Define(d1), Node::Define(d2)) => d1.name == d2.name && d1.params == d2.params && nodes_moved(d1.body@, d2.body@),
        (Node::Import(i1), Node::Import(i2)) => import_moved(i1, i2),
        (Node::Export(e1), Node::Export(e2)) => export_moved(e1, e2),
        (Node::Include(i1), Node::Include(i2)) => i1.alias == i2.alias,
        (Node::Message(m1), Node::Message(m2)) => m1.role == m2.role && nodes_moved(m1.body@, m2.body@),
        (Node::Block(b1), Node::Block(b2)) => b1.name == b2.name && nodes_moved(b1.body@, b2.body@),
        _ => false,
    }
}

/// The node lists agree element by element up to positions.
pub open spec fn nodes_moved(a: Seq<Node>, b: Seq<Node>) -> bool
    decreases a,
{
    a.len() == b.len() && forall|k: int| 0 <= k < a.len() ==> node_moved(#[trigger] a[k], b[k])
}

/// The `@elseif` arm lists agree element by element up to positions.
pub open spec fn branches_moved(a: Seq<ElseifBranch>, b: Seq<ElseifBranch>) -> bool
    decreases a,
{
    a.len() == b.len() && forall|k: int| 0 <= k < a.len() ==> (#[trigger] a[k]).condition == b[k].condition
        && nodes_moved(a[k].body@, b[k].body@)
}

/// Structural equality of nodes ignores positions at every depth: moving any
/// positions inside either node changes nothing.
pub proof fn law_node_equiv_ignores_nested_positions(a: Node, a2: Node, b: Node, b2: Node)
    requires
        node_moved(a, a2),
        node_moved(b, b2),
    ensures
        node_equiv(a2, b2) == node_equiv(a, b),
    decreases a,
{
    match (a, b) {
        (Node::If(x1), Node::If(y1)) => {
            if let (Node::If(x2), Node::If(y2)) = (a2, b2) {
                law_nodes_equiv_ignores_nested_positions(x1.then_body@, x2.then_body@, y1.then_body@, y2.then_body@);
                law_branches_equiv_ignores_nested_positions(x1.elseif_branches@, x2.elseif_branches@, y1.elseif_branches@, y2.elseif_branches@);
                match (x1.else_body, y1.else_body, x2.else_body, y2.else_body) {
                    (Some(p1), Some(q1), Some(p2), Some(q2)) => {
                        law_nodes_equiv_ignores_nested_positions(p1@, p2@, q1@, q2@);
                    },
                    _ => {},
                }
            }
        },
        (Node::For(x1), Node::For(y1)) => {
            if let (Node::For(x2), Node::For(y2)) = (a2, b2) {
                law_nodes_equiv_ignores_nested_positions(x1.body@, x2.body@, y1.body@, y2.body@);
            }
        },
        (Node::Define(x1), Node::Define(y1)) => {
            if let (Node::Define(x2), Node::Define(y2)) = (a2, b2) {
                law_nodes_equiv_ignores_nested_positions(x1.body@, x2.body@, y1.body@, y2.body@);
            }
        },
        (Node::Message(x1), Node::Message(y1)) => {
            if let (Node::Message(x2), Node::Message(y2)) = (a2, b2) {
                law_nodes_equiv_ignores_nested_positions(x1.body@, x2.body@, y1.body@, y2.body@);
            }
        },
        (Node::Block(x1), Node::Block(y1)) => {
            if let (Node::Block(x2), Node::Block(y2)) = (a2, b2) {
                law_nodes_equiv_ignores_nested_positions(x1.body@, x2.body@, y1.body@, y2.body@);
            }
        },
        _ => {},
    }
}

/// Structural equality of node lists ignores positions at every depth.
pub proof fn law_nodes_equiv_ignores_nested_positions(a: Seq<Node>, a2: Seq<Node>, b: Seq<Node>, b2: Seq<Node>)
    requires
        nodes_moved(a, a2),
        nodes_moved(b, b2),
    ensures
        nodes_equiv(a2, b2) == nodes_equiv(a, b),
    decreases a,
{
    if a.len() == b.len() {
        assert forall|k: int| 0 <= k < a.len() implies node_equiv(#[trigger] a2[k], b2[k]) == node_equiv(a[k], b[k]) by {
            law_node_equiv_ignores_nested_positions(a[k], a2[k], b[k], b2[k]);
        }
    }
}

/// Structural equality of `@elseif` arm lists ignores positions at every depth.
pub proof fn law_branches_equiv_ignores_nested_positions(a: Seq<ElseifBranch>, a2: Seq<ElseifBranch>, b: Seq<ElseifBranch>, b2: Seq<ElseifBranch>)
    requires
        branches_moved(a, a2),
        branches_moved(b, b2),
    ensures
        branches_equiv(a2, b2) == branches_equiv(a, b),
    decreases a,
{
    if a.len() == b.len() {
        assert forall|k: int| 0 <= k < a.len() implies nodes_equiv((#[trigger] a2[k]).body@, b2[k].body@) == nodes_equiv(a[k].body@, b[k].body@) by {
            law_nodes_equiv_ignores_nested_positions(a[k].body@, a2[k].body@, b[k].body@, b2[k].body@);
        }
    }
}

} // verus!
