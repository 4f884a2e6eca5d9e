//! The facts walk: one traversal of the module that collects what the semantic
//! rules need (imports, exports, definitions, frontmatter variables, the names
//! the body uses, and the bindings that shadow others).
//!
//! The walk stops with a resource-limit error past `MAX_NESTING_DEPTH`.
use vstd::prelude::*;
use vstd::string::*;
use crate::ast::{arms_within, node_within, nodes_within, Arg, Condition, DefineBlock, ElseifBranch, Expr, Param, ExportDirective, ForBlock, Frontmatter, IfBlock, ImportDirective, Module, Node};
use crate::error::MdsError;
use crate::limits::MAX_NESTING_DEPTH;
use crate::text::{cut_point, lemma_after_ascii_is_cut, lemma_str_valid, str_eq, utf8};

verus! {

broadcast use vstd::seq::group_seq_axioms, vstd::seq_lib::group_seq_properties;

/// The kind of an import.
#[derive(Debug, Clone, Copy, PartialEq, Eq, Structural)]
pub enum ImportKind {
    Alias,
    Merge,
    Selective,
}

/// One `@import`.
#[derive(Debug)]
pub struct ImportFact {
    /// The path as written.
    pub path: String,
    pub kind: ImportKind,
    /// The alias of `@import "path" as alias`.
    pub alias: Option<String>,
    /// The names of `@import { a, b } from "path"`.
    pub names: Vec<String>,
    /// The byte offset of each name.
    pub name_offsets: Vec<usize>,
    /// The byte offset of the `@import`.
    pub offset: usize,
}

/// The kind of an export.
#[derive(Debug, Clone, Copy, PartialEq, Eq, Structural)]
pub enum ExportKind {
    Named,
    ReExport,
    Wildcard,
}

/// One `@export`.
#[derive(Debug)]
pub struct ExportFact {
    pub kind: ExportKind,
    /// The exported name (named and re-exports).
    pub name: Option<String>,
    /// The source path (re-exports and wildcards).
    pub path: Option<String>,
    /// The byte offset of the `@export`.
    pub offset: usize,
}

/// One `@define`.
#[derive(Debug)]
pub struct DefineFact {
    pub name: String,
    /// The byte offset of the `@define`.
    pub offset: usize,
    /// The byte offset of the block's closing `@end`.
    pub end_offset: usize,
}

/// A frontmatter variable.
#[derive(Debug)]
pub struct FmVarFact {
    pub name: String,
    /// Where `name:` starts a line of the frontmatter, when found.
    pub approx_offset: Option<usize>,
}

/// What kind of binding takes part in a shadowing.
#[derive(Debug, Clone, Copy, PartialEq, Eq, Structural)]
pub enum ShadowKind {
    FmVar,
    ImportAlias,
    ForVar,
    DefineParam,
}

/// An inner binding that hides an outer one of the same name.
#[derive(Debug)]
pub struct ShadowPair {
    pub name: String,
    pub inner_kind: ShadowKind,
    pub outer_kind: ShadowKind,
    /// The byte offset of the inner binding's directive.
    pub offset: usize,
}

/// Everything the semantic rules read.
#[derive(Debug)]
pub struct AnalysisContext {
    /// The module has an explicit `@export`.
    pub has_explicit_exports: bool,
    /// The module is a partial or extends another (the unused-* rules stay quiet).
    pub is_partial_or_extends: bool,
    pub imports: Vec<ImportFact>,
    pub exports: Vec<ExportFact>,
    pub defines: Vec<DefineFact>,
    /// Frontmatter variables, reserved keys excluded.
    pub frontmatter_vars: Vec<FmVarFact>,
    /// Names used as variables (each once).
    pub used_vars: Vec<String>,
    /// Names of called functions (each once).
    pub used_calls: Vec<String>,
    /// Namespaces of qualified calls (each once).
    pub used_namespaces: Vec<String>,
    /// Aliases of `@include` (each once).
    pub used_include_aliases: Vec<String>,
    pub shadow_pairs: Vec<ShadowPair>,
}

/// The strings of `v`, as a set.
pub open spec fn name_set(v: Seq<String>) -> Set<Seq<char>> {
    Set::new(|s: Seq<char>| exists|k: int| 0 <= k < v.len() && (#[trigger] v[k])@ == s)
}

/// No string of `v` occurs twice.
pub open spec fn distinct_names(v: Seq<String>) -> bool {
    forall|i: int, j: int| 0 <= i < j < v.len() ==> (#[trigger] v[i])@ != (#[trigger] v[j])@
}

/// Whether `v` holds `s`.
pub fn contains_str(v: &Vec<String>, s: &str) -> (r: bool)
    ensures
        r == name_set(v@).contains(s@),
{
    let mut i: usize = 0;
    while i < v.len()
        invariant
            i <= v@.len(),
            forall|k: int| 0 <= k < i ==> (#[trigger] v@[k])@ != s@,
        decreases v@.len() - i,
    {
        if str_eq(v[i].as_str(), s) {
            assert(name_set(v@).contains(s@)) by {
                assert(v@[i as int]@ == s@);
            }
            return true;
        }
        i = i + 1;
    }
    false
}

/// Add `s` to the set `v`.
pub fn insert_name(v: &mut Vec<String>, s: &str)
    requires
        distinct_names(old(v)@),
    ensures
        distinct_names(final(v)@),
        name_set(final(v)@) == name_set(old(v)@).insert(s@),
{
    if contains_str(v, s) {
        assert(name_set(v@) =~= name_set(v@).insert(s@));
        return;
    }
    let ghost before = v@;
    v.push(s.to_owned());
    proof {
        assert forall|x: Seq<char>| name_set(v@).contains(x) <==> name_set(before).insert(s@).contains(x) by {
            if name_set(v@).contains(x) {
                let k = choose|k: int| 0 <= k < v@.len() && (#[trigger] v@[k])@ == x;
                if k < before.len() {
                    assert(before[k] == v@[k]);
                }
            }
            if name_set(before).contains(x) {
                let k = choose|k: int| 0 <= k < before.len() && (#[trigger] before[k])@ == x;
                assert(v@[k] == before[k]);
            }
            if x == s@ {
                assert(v@[before.len() as int]@ == s@);
            }
        }
        assert(name_set(v@) =~= name_set(before).insert(s@));
        assert forall|i: int, j: int| 0 <= i < j < v@.len() implies (#[trigger] v@[i])@ != (#[trigger] v@[j])@ by {
            if j == before.len() {
                assert(v@[i] == before[i]);
                assert(!name_set(before).contains(s@));
            } else {
                assert(v@[i] == before[i] && v@[j] == before[j]);
            }
        }
    }
}

/// The binding sets of the walk.
struct WalkScope {
    fm_keys: Vec<String>,
    import_aliases: Vec<String>,
    for_var_stack: Vec<String>,
    for_key_stack: Vec<String>,
}

/// The frontmatter keys the walk knows.
spec fn fm_of(sc: WalkScope) -> Set<Seq<char>> {
    name_set(sc.fm_keys@)
}

/// The import aliases the walk knows.
spec fn al_of(sc: WalkScope) -> Set<Seq<char>> {
    name_set(sc.import_aliases@)
}

/// The variables of the loops that enclose the walk's position.
spec fn loop_vars(sc: WalkScope) -> Set<Seq<char>> {
    name_set(sc.for_var_stack@).union(name_set(sc.for_key_stack@))
}

/// `a` and `b` bind the same names.
spec fn same_scope(a: WalkScope, b: WalkScope) -> bool {
    &&& a.fm_keys@ == b.fm_keys@
    &&& a.import_aliases@ == b.import_aliases@
    &&& a.for_var_stack@ == b.for_var_stack@
    &&& a.for_key_stack@ == b.for_key_stack@
}

/// Pushing `x` adds its text to the names of `v`.
proof fn lemma_name_set_push(v: Seq<String>, x: String)
    ensures
        name_set(v.push(x)) == name_set(v).insert(x@),
{
    assert forall|a: Seq<char>| name_set(v.push(x)).contains(a) <==> name_set(v).insert(x@).contains(a) by {
        if name_set(v.push(x)).contains(a) {
            let k = choose|k: int| 0 <= k < v.push(x).len() && (#[trigger] v.push(x)[k])@ == a;
            if k < v.len() {
                assert(v[k] == v.push(x)[k]);
            }
        }
        if name_set(v).contains(a) {
            let k = choose|k: int| 0 <= k < v.len() && (#[trigger] v[k])@ == a;
            assert(v.push(x)[k] == v[k]);
        }
        if a == x@ {
            assert(v.push(x)[v.len() as int]@ == a);
        }
    }
    assert(name_set(v.push(x)) =~= name_set(v).insert(x@));
}

proof fn lemma_shadows_chain(a: AnalysisContext, b: AnalysisContext, c: AnalysisContext, x: Seq<Shadow>, y: Seq<Shadow>)
    requires
        shadows_of(b) == shadows_of(a) + x,
        shadows_of(c) == shadows_of(b) + y,
    ensures
        shadows_of(c) == shadows_of(a) + (x + y),
{
    assert(shadows_of(a) + x + y =~= shadows_of(a) + (x + y));
}

proof fn lemma_shadows_same(a: AnalysisContext, b: AnalysisContext)
    requires
        a.shadow_pairs@ == b.shadow_pairs@,
    ensures
        shadows_of(b) == shadows_of(a) + Seq::<Shadow>::empty(),
{
    assert(shadows_of(b) =~= shadows_of(a) + Seq::<Shadow>::empty());
}

/// The usage sets of `ctx` hold no duplicates.
pub open spec fn ctx_wf(ctx: AnalysisContext) -> bool {
    &&& distinct_names(ctx.used_vars@)
    &&& distinct_names(ctx.used_calls@)
    &&& distinct_names(ctx.used_namespaces@)
    &&& distinct_names(ctx.used_include_aliases@)
}

// ── The names a module uses ──────────────────────────────────────────────────

/// `name` when `w` is the kind `which`, else nothing.
pub open spec fn one_name(which: u8, name: Seq<char>, w: u8) -> Set<Seq<char>> {
    if w == which { set![name] } else { Set::empty() }
}

/// The names of kind `w` (0 variables, 1 called functions, 2 namespaces, 3 include
/// aliases) an argument uses.
pub open spec fn arg_uses(a: Arg, w: u8) -> Set<Seq<char>>
    decreases a,
{
    match a {
        Arg::Var(n) => one_name(0, n@, w),
        Arg::MemberAccess { object, .. } => one_name(0, object@, w),
        Arg::Call { name, args } => one_name(1, name@, w).union(args_uses(args@, w)),
        _ => Set::empty(),
    }
}

/// The names of kind `w` a list of arguments uses.
pub open spec fn args_uses(v: Seq<Arg>, w: u8) -> Set<Seq<char>>
    decreases v,
{
    if v.len() == 0 {
        Set::empty()
    } else {
        args_uses(v.subrange(0, v.len() - 1), w).union(arg_uses(v[v.len() - 1], w))
    }
}

/// The names of kind `w` an expression uses.
pub open spec fn expr_uses(e: Expr, w: u8) -> Set<Seq<char>> {
    match e {
        Expr::Var(n) => one_name(0, n@, w),
        Expr::MemberAccess { object, .. } => one_name(0, object@, w),
        Expr::Call { name, args } => one_name(1, name@, w).union(args_uses(args@, w)),
        Expr::QualifiedCall { namespace, args, .. } => one_name(2, namespace@, w).union(args_uses(args@, w)),
        _ => Set::empty(),
    }
}

/// The names of kind `w` a condition uses.
pub open spec fn cond_uses(c: Condition, w: u8) -> Set<Seq<char>>
    decreases c,
{
    match c {
        Condition::Truthy(e) => expr_uses(e, w),
        Condition::Not(e) => expr_uses(e, w),
        Condition::Eq(l, r) => expr_uses(l, w).union(expr_uses(r, w)),
        Condition::NotEq(l, r) => expr_uses(l, w).union(expr_uses(r, w)),
        Condition::And(v) => conds_uses(v@, w),
        Condition::Or(v) => conds_uses(v@, w),
    }
}

/// The names of kind `w` a list of conditions uses.
pub open spec fn conds_uses(v: Seq<Condition>, w: u8) -> Set<Seq<char>>
    decreases v,
{
    if v.len() == 0 {
        Set::empty()
    } else {
        conds_uses(v.subrange(0, v.len() - 1), w).union(cond_uses(v[v.len() - 1], w))
    }
}

/// The names of kind `w` a node uses: in interpolations, `@if`/`@elseif`
/// conditions, `@for` iterables, `@include` aliases, and the bodies of blocks.
pub open spec fn node_uses(n: Node, w: u8) -> Set<Seq<char>>
    decreases n,
{
    match n {
        Node::Interpolation(x) => expr_uses(x.expr, w),
        Node::Include(x) => one_name(3, x.alias@, w),
        Node::Define(b) => nodes_uses(b.body@, w),
        Node::Message(b) => nodes_uses(b.body@, w),
        Node::Block(b) => nodes_uses(b.body@, w),
        Node::For(b) => expr_uses(b.iterable, w).union(nodes_uses(b.body@, w)),
        Node::If(b) => cond_uses(b.condition, w).union(nodes_uses(b.then_body@, w)).union(arms_uses(b.elseif_branches@, w)).union(
            match b.else_body {
                Some(e) => nodes_uses(e@, w),
                None => Set::empty(),
            }),
        _ => Set::empty(),
    }
}

/// The names of kind `w` a list of nodes uses.
pub open spec fn nodes_uses(v: Seq<Node>, w: u8) -> Set<Seq<char>>
    decreases v,
{
    if v.len() == 0 {
        Set::empty()
    } else {
        nodes_uses(v.subrange(0, v.len() - 1), w).union(node_uses(v[v.len() - 1], w))
    }
}

/// The names of kind `w` a list of `@elseif` arms uses.
pub open spec fn arms_uses(v: Seq<ElseifBranch>, w: u8) -> Set<Seq<char>>
    decreases v,
{
    if v.len() == 0 {
        Set::empty()
    } else {
        arms_uses(v.subrange(0, v.len() - 1), w).union(cond_uses(v[v.len() - 1].condition, w)).union(
            nodes_uses(v[v.len() - 1].body@, w))
    }
}

/// The usage set of kind `w` of `ctx` (empty past the four kinds).
pub open spec fn used(ctx: AnalysisContext, w: u8) -> Set<Seq<char>> {
    if w == 0 {
        name_set(ctx.used_vars@)
    } else if w == 1 {
        name_set(ctx.used_calls@)
    } else if w == 2 {
        name_set(ctx.used_namespaces@)
    } else if w == 3 {
        name_set(ctx.used_include_aliases@)
    } else {
        Set::empty()
    }
}

/// `new_ctx` uses exactly the names `old_ctx` used and those of `x`.
pub open spec fn grew_by(old_ctx: AnalysisContext, new_ctx: AnalysisContext, x: spec_fn(u8) -> Set<Seq<char>>) -> bool {
    forall|w: u8, s: Seq<char>|
        #![trigger used(new_ctx, w).contains(s)]
        #![trigger used(old_ctx, w).contains(s), x(w).contains(s)]
        used(new_ctx, w).contains(s) <==> (used(old_ctx, w).contains(s) || x(w).contains(s))
}

/// The usage sets of `a` and `b` are the same lists.
pub open spec fn same_uses(a: AnalysisContext, b: AnalysisContext) -> bool {
    &&& a.used_vars@ == b.used_vars@
    &&& a.used_calls@ == b.used_calls@
    &&& a.used_namespaces@ == b.used_namespaces@
    &&& a.used_include_aliases@ == b.used_include_aliases@
}

// ── The definitions and exports a module declares ───────────────────────────

/// A declaration by its name, source path, offset, closing offset, kind (0
/// definition, 1 named export, 2 re-export, 3 wildcard export, 4 aliased import,
/// 5 merged import, 6 selective import), and the imported names with their offsets.
pub type Decl = (Seq<char>, Option<Seq<char>>, usize, usize, u8, Seq<Seq<char>>, Seq<usize>);

/// The declaration of an `@import`.
pub open spec fn import_decl(i: ImportDirective) -> Decl {
    match i {
        ImportDirective::Alias { path, alias, offset } => (alias@, Some(path@), offset, 0, 4u8, Seq::empty(), Seq::empty()),
        ImportDirective::Merge { path, offset } => (Seq::empty(), Some(path@), offset, 0, 5u8, Seq::empty(), Seq::empty()),
        ImportDirective::Selective { names, name_offsets, path, offset } =>
            (Seq::empty(), Some(path@), offset, 0, 6u8, names@.map_values(|n: String| n@), name_offsets@),
    }
}

/// The declaration an import fact records.
pub open spec fn import_fact_decl(f: ImportFact) -> Decl {
    (match f.alias { Some(a) => a@, None => Seq::empty() },
     Some(f.path@),
     f.offset, 0,
     match f.kind { ImportKind::Alias => 4u8, ImportKind::Merge => 5u8, ImportKind::Selective => 6u8 },
     f.names@.map_values(|n: String| n@),
     f.name_offsets@)
}

/// The declaration of an `@export`.
pub open spec fn export_decl(e: ExportDirective) -> Decl {
    match e {
        ExportDirective::Named { name, offset } => (name@, None, offset, 0, 1u8, Seq::empty(), Seq::empty()),
        ExportDirective::ReExport { name, path, offset } => (name@, Some(path@), offset, 0, 2u8, Seq::empty(), Seq::empty()),
        ExportDirective::Wildcard { path, offset } => (Seq::empty(), Some(path@), offset, 0, 3u8, Seq::empty(), Seq::empty()),
    }
}

/// The declaration an export fact records.
pub open spec fn export_fact_decl(f: ExportFact) -> Decl {
    (match f.name { Some(n) => n@, None => Seq::empty() },
     match f.path { Some(p) => Some(p@), None => None },
     f.offset, 0,
     match f.kind { ExportKind::Named => 1u8, ExportKind::ReExport => 2u8, ExportKind::Wildcard => 3u8 },
     Seq::empty(), Seq::empty())
}

/// The declaration a definition fact records.
pub open spec fn define_fact_decl(f: DefineFact) -> Decl {
    (f.name@, None, f.offset, f.end_offset, 0u8, Seq::empty(), Seq::empty())
}

/// The declarations of a node in walk order: its definitions (`k` = 0), its
/// exports (`k` = 1) or its imports (`k` = 2), those in nested bodies included.
pub open spec fn node_decls(n: Node, k: u8) -> Seq<Decl>
    decreases n,
{
    match n {
        Node::Define(b) => (if k == 0 { seq![(b.name@, None, b.offset, b.end_offset, 0u8, Seq::empty(), Seq::empty())] } else { Seq::empty() })
            + nodes_decls(b.body@, k),
        Node::Export(e) => if k == 1 { seq![export_decl(e)] } else { Seq::empty() },
        Node::Import(i) => if k == 2 { seq![import_decl(i)] } else { Seq::empty() },
        Node::Message(b) => nodes_decls(b.body@, k),
        Node::Block(b) => nodes_decls(b.body@, k),
        Node::For(b) => nodes_decls(b.body@, k),
        Node::If(b) => nodes_decls(b.then_body@, k) + arms_decls(b.elseif_branches@, k) + match b.else_body {
            Some(e) => nodes_decls(e@, k),
            None => Seq::empty(),
        },
        _ => Seq::empty(),
    }
}

/// The declarations of a list of nodes in walk order.
pub open spec fn nodes_decls(v: Seq<Node>, k: u8) -> Seq<Decl>
    decreases v,
{
    if v.len() == 0 {
        Seq::empty()
    } else {
        nodes_decls(v.subrange(0, v.len() - 1), k) + node_decls(v[v.len() - 1], k)
    }
}

/// The declarations in the bodies of a list of `@elseif` arms.
pub open spec fn arms_decls(v: Seq<ElseifBranch>, k: u8) -> Seq<Decl>
    decreases v,
{
    if v.len() == 0 {
        Seq::empty()
    } else {
        arms_decls(v.subrange(0, v.len() - 1), k) + nodes_decls(v[v.len() - 1].body@, k)
    }
}

/// The definitions of `ctx`, as declarations.
pub open spec fn defines_of(ctx: AnalysisContext) -> Seq<Decl> {
    ctx.defines@.map_values(|f: DefineFact| define_fact_decl(f))
}

/// The exports of `ctx`, as declarations.
pub open spec fn exports_of(ctx: AnalysisContext) -> Seq<Decl> {
    ctx.exports@.map_values(|f: ExportFact| export_fact_decl(f))
}

/// The imports of `ctx`, as declarations.
pub open spec fn imports_of(ctx: AnalysisContext) -> Seq<Decl> {
    ctx.imports@.map_values(|f: ImportFact| import_fact_decl(f))
}

/// `new_ctx` holds the definitions, exports and imports of `old_ctx` followed by
/// `d`, `x` and `m`, and has an explicit export when `old_ctx` had one or `x` is
/// not empty.
pub open spec fn grew_decls(old_ctx: AnalysisContext, new_ctx: AnalysisContext, d: Seq<Decl>, x: Seq<Decl>, m: Seq<Decl>) -> bool {
    &&& defines_of(new_ctx) == defines_of(old_ctx) + d
    &&& exports_of(new_ctx) == exports_of(old_ctx) + x
    &&& imports_of(new_ctx) == imports_of(old_ctx) + m
    &&& new_ctx.has_explicit_exports == (old_ctx.has_explicit_exports || x.len() > 0)
}

/// `a` and `b` hold the same definitions, exports and imports.
pub open spec fn same_decls(a: AnalysisContext, b: AnalysisContext) -> bool {
    &&& a.defines@ == b.defines@
    &&& a.imports@ == b.imports@
    &&& a.exports@ == b.exports@
    &&& a.has_explicit_exports == b.has_explicit_exports
}

proof fn lemma_decls_same(a: AnalysisContext, b: AnalysisContext)
    requires
        same_decls(a, b),
    ensures
        grew_decls(a, b, Seq::empty(), Seq::empty(), Seq::empty()),
{
    assert(defines_of(b) =~= defines_of(a) + Seq::<Decl>::empty());
    assert(exports_of(b) =~= exports_of(a) + Seq::<Decl>::empty());
    assert(imports_of(b) =~= imports_of(a) + Seq::<Decl>::empty());
}

proof fn lemma_decls_chain(a: AnalysisContext, b: AnalysisContext, c: AnalysisContext,
    d0: Seq<Decl>, x0: Seq<Decl>, m0: Seq<Decl>, d1: Seq<Decl>, x1: Seq<Decl>, m1: Seq<Decl>)
    requires
        grew_decls(a, b, d0, x0, m0),
        grew_decls(b, c, d1, x1, m1),
    ensures
        grew_decls(a, c, d0 + d1, x0 + x1, m0 + m1),
{
    assert(imports_of(a) + m0 + m1 =~= imports_of(a) + (m0 + m1));
    assert(defines_of(a) + d0 + d1 =~= defines_of(a) + (d0 + d1));
    assert(exports_of(a) + x0 + x1 =~= exports_of(a) + (x0 + x1));
}

// ── The bindings that shadow others ─────────────────────────────────────────

/// A shadowing by its name, inner kind, outer kind and offset.
pub type Shadow = (Seq<char>, ShadowKind, ShadowKind, usize);

/// The shadowing a pair records.
pub open spec fn shadow_of(p: ShadowPair) -> Shadow {
    (p.name@, p.inner_kind, p.outer_kind, p.offset)
}

/// The shadowings of `ctx`.
pub open spec fn shadows_of(ctx: AnalysisContext) -> Seq<Shadow> {
    ctx.shadow_pairs@.map_values(|p: ShadowPair| shadow_of(p))
}

/// The shadowing by the `@for` variable `var` at `offset`, given the frontmatter
/// keys `fm`, the import aliases `al` and the variables of the enclosing loops `st`:
/// the first of these that holds `var`.
pub open spec fn for_var_shadow(var: Seq<char>, offset: usize, fm: Set<Seq<char>>, al: Set<Seq<char>>, st: Set<Seq<char>>) -> Seq<Shadow> {
    if fm.contains(var) {
        seq![(var, ShadowKind::ForVar, ShadowKind::FmVar, offset)]
    } else if al.contains(var) {
        seq![(var, ShadowKind::ForVar, ShadowKind::ImportAlias, offset)]
    } else if st.contains(var) {
        seq![(var, ShadowKind::ForVar, ShadowKind::ForVar, offset)]
    } else {
        Seq::empty()
    }
}

/// The shadowings by the parameters `ps` of the `@define` at `offset`: each may
/// shadow a frontmatter key and an enclosing loop variable.
pub open spec fn param_shadows(ps: Seq<Param>, offset: usize, fm: Set<Seq<char>>, st: Set<Seq<char>>) -> Seq<Shadow>
    decreases ps.len(),
{
    if ps.len() == 0 {
        Seq::empty()
    } else {
        let n = ps[ps.len() - 1].name@;
        param_shadows(ps.subrange(0, ps.len() - 1), offset, fm, st)
            + (if fm.contains(n) { seq![(n, ShadowKind::DefineParam, ShadowKind::FmVar, offset)] } else { Seq::empty() })
            + (if st.contains(n) { seq![(n, ShadowKind::DefineParam, ShadowKind::ForVar, offset)] } else { Seq::empty() })
    }
}

/// The shadowings inside a node in walk order, the enclosing loops binding `st`.
pub open spec fn node_shadows(n: Node, fm: Set<Seq<char>>, al: Set<Seq<char>>, st: Set<Seq<char>>) -> Seq<Shadow>
    decreases n,
{
    match n {
        Node::Define(b) => param_shadows(b.params@, b.offset, fm, st) + nodes_shadows(b.body@, fm, al, st),
        Node::For(b) => for_var_shadow(b.var@, b.offset, fm, al, st)
            + (match b.key_var { Some(k) => for_var_shadow(k@, b.offset, fm, al, st), None => Seq::empty() })
            + nodes_shadows(b.body@, fm, al, match b.key_var { Some(k) => st.insert(b.var@).insert(k@), None => st.insert(b.var@) }),
        Node::Message(b) => nodes_shadows(b.body@, fm, al, st),
        Node::Block(b) => nodes_shadows(b.body@, fm, al, st),
        Node::If(b) => nodes_shadows(b.then_body@, fm, al, st) + arms_shadows(b.elseif_branches@, fm, al, st) + match b.else_body {
            Some(e) => nodes_shadows(e@, fm, al, st),
            None => Seq::empty(),
        },
        _ => Seq::empty(),
    }
}

/// The shadowings inside a list of nodes in walk order.
pub open spec fn nodes_shadows(v: Seq<Node>, fm: Set<Seq<char>>, al: Set<Seq<char>>, st: Set<Seq<char>>) -> Seq<Shadow>
    decreases v,
{
    if v.len() == 0 {
        Seq::empty()
    } else {
        nodes_shadows(v.subrange(0, v.len() - 1), fm, al, st) + node_shadows(v[v.len() - 1], fm, al, st)
    }
}

/// The shadowings inside the bodies of a list of `@elseif` arms.
pub open spec fn arms_shadows(v: Seq<ElseifBranch>, fm: Set<Seq<char>>, al: Set<Seq<char>>, st: Set<Seq<char>>) -> Seq<Shadow>
    decreases v,
{
    if v.len() == 0 {
        Seq::empty()
    } else {
        arms_shadows(v.subrange(0, v.len() - 1), fm, al, st) + nodes_shadows(v[v.len() - 1].body@, fm, al, st)
    }
}

/// The alias of an `@import "path" as alias` node.
pub open spec fn alias_of(n: Node) -> Option<Seq<char>> {
    match n {
        Node::Import(ImportDirective::Alias { alias, .. }) => Some(alias@),
        _ => None,
    }
}

/// The aliases of the top-level `@import "path" as alias` directives among `v`.
pub open spec fn top_aliases(v: Seq<Node>) -> Set<Seq<char>> {
    Set::new(|a: Seq<char>| exists|k: int| 0 <= k < v.len() && alias_of(#[trigger] v[k]) == Some(a))
}

/// The names of frontmatter variable facts.
pub open spec fn fm_names(v: Seq<FmVarFact>) -> Set<Seq<char>> {
    Set::new(|a: Seq<char>| exists|k: int| 0 <= k < v.len() && (#[trigger] v[k]).name@ == a)
}

// ── Nesting ─────────────────────────────────────────────────────────────────

/// The error of a walk that nests past the limit.
pub open spec fn nesting_error(e: MdsError) -> bool {
    e matches MdsError::ResourceLimit { message } && message@ == "template nesting exceeds maximum depth of 64"@
}

/// The bodies inside a node at nesting `d` stay within the walk's depth limit.
pub open spec fn node_nest_ok(n: Node, d: int) -> bool
    decreases n,
{
    match n {
        Node::Define(b) => nodes_nest_ok(b.body@, d + 1),
        Node::Message(b) => nodes_nest_ok(b.body@, d + 1),
        Node::Block(b) => nodes_nest_ok(b.body@, d + 1),
        Node::For(b) => nodes_nest_ok(b.body@, d + 1),
        Node::If(b) => nodes_nest_ok(b.then_body@, d + 1) && arms_nest_ok(b.elseif_branches@, d + 1) && match b.else_body {
            Some(e) => nodes_nest_ok(e@, d + 1),
            None => true,
        },
        _ => true,
    }
}

/// A list of nodes at nesting `d` stays within the walk's depth limit.
pub open spec fn nodes_nest_ok(v: Seq<Node>, d: int) -> bool
    decreases v,
{
    if v.len() == 0 {
        d <= MAX_NESTING_DEPTH
    } else {
        nodes_nest_ok(v.subrange(0, v.len() - 1), d) && node_nest_ok(v[v.len() - 1], d)
    }
}

/// The bodies of a list of `@elseif` arms at nesting `d` stay within the limit.
pub open spec fn arms_nest_ok(v: Seq<ElseifBranch>, d: int) -> bool
    decreases v,
{
    if v.len() == 0 {
        true
    } else {
        arms_nest_ok(v.subrange(0, v.len() - 1), d) && nodes_nest_ok(v[v.len() - 1].body@, d)
    }
}

/// A list within the limit is at a depth within it, and so is each of its nodes.
proof fn lemma_nodes_nest_parts(v: Seq<Node>, d: int, i: int)
    requires
        nodes_nest_ok(v, d),
    ensures
        d <= MAX_NESTING_DEPTH,
        0 <= i < v.len() ==> node_nest_ok(v[i], d),
    decreases v.len(),
{
    if v.len() > 0 {
        let p = v.subrange(0, v.len() - 1);
        lemma_nodes_nest_parts(p, d, i);
        if 0 <= i < v.len() - 1 {
            assert(p[i] == v[i]);
        }
    }
}

/// Each arm of a list of arms within the limit is within it.
proof fn lemma_arms_nest_parts(v: Seq<ElseifBranch>, d: int, i: int)
    requires
        arms_nest_ok(v, d),
        0 <= i < v.len(),
    ensures
        nodes_nest_ok(v[i].body@, d),
    decreases v.len(),
{
    let p = v.subrange(0, v.len() - 1);
    if i < v.len() - 1 {
        lemma_arms_nest_parts(p, d, i);
        assert(p[i] == v[i]);
    }
}

/// The frontmatter keys that are not variables.
fn is_reserved_key(k: &str) -> (r: bool)
    ensures
        r == (k@ == "imports"@ || k@ == "type"@ || k@ == "extends"@ || k@ == "prompt"@),
{
    str_eq(k, "imports") || str_eq(k, "type") || str_eq(k, "extends") || str_eq(k, "prompt")
}

/// The top-level keys of the YAML document `raw`, in document order, as
/// `serde_yaml_ng` reads them (`None` for a key that is not a string); `None` when
/// the document does not parse or is not a mapping.
pub uninterp spec fn yaml_mapping_keys(raw: Seq<char>) -> Option<Seq<Option<Seq<char>>>>;

/// The view of an optional key.
pub open spec fn key_view(k: Option<String>) -> Option<Seq<char>> {
    match k {
        Some(s) => Some(s@),
        None => None,
    }
}

/// Read the top-level keys of a YAML document with `serde_yaml_ng::from_str`.
#[verifier::external_body]
fn yaml_keys(raw: &str) -> (r: Option<Vec<Option<String>>>)
    ensures
        match r {
            None => yaml_mapping_keys(raw@) is None,
            Some(v) => yaml_mapping_keys(raw@) is Some && v@.len() == yaml_mapping_keys(raw@)->0.len()
                && forall|k: int| 0 <= k < v@.len() ==> key_view(#[trigger] v@[k]) == yaml_mapping_keys(raw@)->0[k],
        },
{
    match serde_yaml_ng::from_str::<serde_yaml_ng::Value>(raw) {
        Ok(serde_yaml_ng::Value::Mapping(m)) => {
            let mut out = Vec::new();
            for k in m.keys() {
                out.push(match k {
                    serde_yaml_ng::Value::String(s) => Some(s.clone()),
                    _ => None,
                });
            }
            Some(out)
        },
        _ => None,
    }
}

/// The offset just after the first fence `f` (of `len` bytes, ending in `\n`) in
/// `b` at or after `i`.
pub open spec fn fence_end(b: Seq<u8>, i: int, crlf: bool) -> Option<int>
    decreases b.len() - i,
{
    let len: int = if crlf { 5 } else { 4 };
    if i < 0 || i + len > b.len() {
        None
    } else if b[i] == 45u8 && b[i + 1] == 45u8 && b[i + 2] == 45u8
        && (if crlf { b[i + 3] == 13u8 && b[i + 4] == 10u8 } else { b[i + 3] == 10u8 }) {
        Some(i + len)
    } else {
        fence_end(b, i + 1, crlf)
    }
}

/// A fence found from `i` ends at least four bytes past `i`, within `b`.
proof fn lemma_fence_end_bound(b: Seq<u8>, i: int, crlf: bool)
    requires
        0 <= i,
    ensures
        fence_end(b, i, crlf) matches Some(q) ==> i + 4 <= q <= b.len(),
    decreases b.len() - i,
{
    let len: int = if crlf { 5 } else { 4 };
    if i + len <= b.len() {
        lemma_fence_end_bound(b, i + 1, crlf);
    }
}

/// The offset just after the first `---\n` of `b`, or else after its first `---\r\n`.
pub open spec fn frontmatter_content_start(b: Seq<u8>) -> Option<int> {
    match fence_end(b, 0, false) {
        Some(p) => Some(p),
        None => fence_end(b, 0, true),
    }
}

/// The offset just after the first `---\n` of `source` (or after the first `---\r\n`).
pub fn find_frontmatter_content_start(source: &str) -> (r: Option<usize>)
    ensures
        r matches Some(p) ==> 4 <= p <= source.spec_bytes().len(),
        match r { Some(p) => Some(p as int), None => None::<int> } == frontmatter_content_start(source.spec_bytes()),
{
    proof {
        lemma_fence_end_bound(source.spec_bytes(), 0, false);
        lemma_fence_end_bound(source.spec_bytes(), 0, true);
    }
    let b = source.as_bytes();
    let n = b.len();
    let mut i: usize = 0;
    while n >= 4 && i <= n - 4
        invariant
            n == b@.len(),
            b@ == source.spec_bytes(),
            fence_end(b@, i as int, false) == fence_end(b@, 0, false),
        decreases n - i,
    {
        if b[i] == 45 && b[i + 1] == 45 && b[i + 2] == 45 && b[i + 3] == 10 {
            return Some(i + 4);
        }
        i = i + 1;
    }
    let mut j: usize = 0;
    while n >= 5 && j <= n - 5
        invariant
            n == b@.len(),
            b@ == source.spec_bytes(),
            fence_end(b@, 0, false) is None,
            fence_end(b@, j as int, true) == fence_end(b@, 0, true),
        decreases n - j,
    {
        if b[j] == 45 && b[j + 1] == 45 && b[j + 2] == 45 && b[j + 3] == 13 && b[j + 4] == 10 {
            return Some(j + 5);
        }
        j = j + 1;
    }
    None
}

/// `b` holds `pat` at `i`.
fn bytes_at(b: &[u8], i: usize, pat: &[u8]) -> (r: bool)
    requires
        i <= b@.len(),
    ensures
        r == (i + pat@.len() <= b@.len() && b@.subrange(i as int, i + pat@.len()) == pat@),
{
    let n = b.len();
    if n - i < pat.len() {
        return false;
    }
    let mut k: usize = 0;
    while k < pat.len()
        invariant
            k <= pat@.len(),
            i + pat@.len() <= n == b@.len(),
            forall|t: int| 0 <= t < k ==> b@[i + t] == pat@[t],
        decreases pat@.len() - k,
    {
        if b[i + k] != pat[k] {
            assert(b@.subrange(i as int, i + pat@.len())[k as int] != pat@[k as int]);
            return false;
        }
        k = k + 1;
    }
    assert(b@.subrange(i as int, i + pat@.len()) =~= pat@);
    true
}

/// The scan for `k:` at the start of a line of `b` from `i`, the region starting at
/// `s`: a match that does not start a line is skipped whole.
pub open spec fn yaml_key_scan(b: Seq<u8>, s: int, k: Seq<u8>, i: int) -> Option<int>
    decreases b.len() - i,
{
    if i < 0 || i >= b.len() {
        None
    } else if i + k.len() <= b.len() && b.subrange(i, i + k.len()) == k && i + k.len() < b.len() && b[i + k.len()] == 58u8 {
        if i == s || b[i - 1] == 10u8 {
            Some(i)
        } else {
            yaml_key_scan(b, s, k, i + k.len() + 1)
        }
    } else {
        yaml_key_scan(b, s, k, i + 1)
    }
}

/// Where `key:` starts a line of the frontmatter region that begins at `fm_start`.
pub fn find_yaml_key_in_source(source: &str, fm_start: usize, key: &str) -> (r: Option<usize>)
    ensures
        match r { Some(p) => Some(p as int), None => None::<int> }
            == yaml_key_scan(source.spec_bytes(), fm_start as int, key.spec_bytes(), fm_start as int),
        r matches Some(p) ==> fm_start <= p < source.spec_bytes().len()
            && (p == fm_start || source.spec_bytes()[p - 1] == 10u8)
            && source.spec_bytes().subrange(p as int, p + key.spec_bytes().len()) == key.spec_bytes()
            && source.spec_bytes()[p + key.spec_bytes().len()] == 58u8,
{
    let b = source.as_bytes();
    let n = b.len();
    if fm_start >= n {
        return None;
    }
    let kb = key.as_bytes();
    let mut i = fm_start;
    while i < n
        invariant
            fm_start <= i <= n == b@.len(),
            b@ == source.spec_bytes(),
            kb@ == key.spec_bytes(),
            yaml_key_scan(b@, fm_start as int, kb@, i as int) == yaml_key_scan(b@, fm_start as int, kb@, fm_start as int),
        decreases n - i,
    {
        if bytes_at(b, i, kb) && i + kb.len() < n && b[i + kb.len()] == 58 {
            if i == fm_start || b[i - 1] == 10 {
                return Some(i);
            }
            i = i + kb.len() + 1;
        } else {
            i = i + 1;
        }
    }
    None
}

/// A frontmatter key that names no variable.
pub open spec fn reserved_key(k: Seq<char>) -> bool {
    k == "imports"@ || k == "type"@ || k == "extends"@ || k == "prompt"@
}

/// The frontmatter variables of the document keys `keys`: each string key that is
/// not reserved, with where `key:` starts a line of the frontmatter region of `src`
/// (which starts at `start`).
pub open spec fn fm_vars_spec(keys: Seq<Option<Seq<char>>>, src: Seq<u8>, start: Option<int>) -> Seq<(Seq<char>, Option<int>)>
    decreases keys.len(),
{
    if keys.len() == 0 {
        Seq::empty()
    } else {
        fm_vars_spec(keys.subrange(0, keys.len() - 1), src, start) + match keys[keys.len() - 1] {
            Some(k) => if reserved_key(k) {
                Seq::empty()
            } else {
                seq![(k, match start { Some(s) => yaml_key_scan(src, s, utf8(k), s), None => None })]
            },
            None => Seq::empty(),
        }
    }
}

/// The frontmatter variables of the frontmatter `raw` of `src`.
pub open spec fn frontmatter_vars_spec(raw: Seq<char>, src: Seq<u8>) -> Seq<(Seq<char>, Option<int>)> {
    match yaml_mapping_keys(raw) {
        Some(keys) => fm_vars_spec(keys, src, frontmatter_content_start(src)),
        None => Seq::empty(),
    }
}

/// The frontmatter variables of `ctx`, by name and offset.
pub open spec fn fm_vars_of(ctx: AnalysisContext) -> Seq<(Seq<char>, Option<int>)> {
    ctx.frontmatter_vars@.map_values(|f: FmVarFact| (f.name@, match f.approx_offset { Some(p) => Some(p as int), None => None }))
}

/// Collect the frontmatter variables of `fm` (reserved keys excluded).
fn collect_frontmatter_vars(fm: &Frontmatter, source: &str, ctx: &mut AnalysisContext)
    ensures
        final(ctx).imports@ == old(ctx).imports@,
        final(ctx).used_vars@ == old(ctx).used_vars@,
        final(ctx).used_calls@ == old(ctx).used_calls@,
        final(ctx).used_namespaces@ == old(ctx).used_namespaces@,
        final(ctx).used_include_aliases@ == old(ctx).used_include_aliases@,
        final(ctx).is_partial_or_extends == old(ctx).is_partial_or_extends,
        same_decls(*old(ctx), *final(ctx)),
        final(ctx).shadow_pairs@ == old(ctx).shadow_pairs@,
        fm_vars_of(*final(ctx)) == fm_vars_of(*old(ctx)) + frontmatter_vars_spec(fm.raw@, source.spec_bytes()),
{
    let keys = match yaml_keys(fm.raw.as_str()) {
        Some(k) => k,
        None => {
            assert(fm_vars_of(*ctx) =~= fm_vars_of(*old(ctx)) + Seq::<(Seq<char>, Option<int>)>::empty());
            return;
        },
    };
    let ghost ks = yaml_mapping_keys(fm.raw@)->0;
    let ghost src = source.spec_bytes();
    let start = find_frontmatter_content_start(source);
    let ghost st = frontmatter_content_start(src);
    assert(fm_vars_of(*ctx) =~= fm_vars_of(*old(ctx)) + fm_vars_spec(ks.subrange(0, 0), src, st));
    let mut i: usize = 0;
    while i < keys.len()
        invariant
            i <= keys@.len(),
            ctx.imports@ == old(ctx).imports@,
            ctx.used_vars@ == old(ctx).used_vars@,
            ctx.used_calls@ == old(ctx).used_calls@,
            ctx.used_namespaces@ == old(ctx).used_namespaces@,
            ctx.used_include_aliases@ == old(ctx).used_include_aliases@,
            ctx.is_partial_or_extends == old(ctx).is_partial_or_extends,
            same_decls(*old(ctx), *ctx),
            ctx.shadow_pairs@ == old(ctx).shadow_pairs@,
            ks.len() == keys@.len(),
            forall|t: int| 0 <= t < keys@.len() ==> key_view(#[trigger] keys@[t]) == ks[t],
            src == source.spec_bytes(),
            st == frontmatter_content_start(src),
            match start { Some(p) => Some(p as int), None => None::<int> } == st,
            fm_vars_of(*ctx) == fm_vars_of(*old(ctx)) + fm_vars_spec(ks.subrange(0, i as int), src, st),
        decreases keys@.len() - i,
    {
        let ghost before = *ctx;
        assert(ks.subrange(0, i + 1).subrange(0, i as int) =~= ks.subrange(0, i as int));
        assert(ks.subrange(0, i + 1)[i as int] == ks[i as int]);
        assert(key_view(keys@[i as int]) == ks[i as int]);
        if let Some(k) = &keys[i] {
            if !is_reserved_key(k.as_str()) {
                let approx_offset = match start {
                    Some(s) => find_yaml_key_in_source(source, s, k.as_str()),
                    None => None,
                };
                ctx.frontmatter_vars.push(FmVarFact { name: k.clone(), approx_offset });
                assert(fm_vars_of(*ctx) =~= fm_vars_of(before) + seq![(k@, match approx_offset { Some(p) => Some(p as int), None => None::<int> })]);
            } else {
                assert(fm_vars_of(*ctx) =~= fm_vars_of(before) + Seq::<(Seq<char>, Option<int>)>::empty());
            }
        } else {
            assert(fm_vars_of(*ctx) =~= fm_vars_of(before) + Seq::<(Seq<char>, Option<int>)>::empty());
        }
        assert(fm_vars_of(*ctx) =~= fm_vars_of(*old(ctx)) + fm_vars_spec(ks.subrange(0, i + 1), src, st));
        i = i + 1;
    }
    assert(ks.subrange(0, i as int) =~= ks);
}

/// `ctx` holds exactly the facts of `module` (of the source `src`) that
/// [`collect_facts`] states.
pub open spec fn facts_of(module: Module, is_partial_or_extends: bool, src: Seq<u8>, ctx: AnalysisContext) -> bool {
    &&& ctx.is_partial_or_extends == is_partial_or_extends
    &&& ctx_wf(ctx)
    &&& forall|w: u8| #[trigger] used(ctx, w) == nodes_uses(module.body@, w)
    &&& defines_of(ctx) == nodes_decls(module.body@, 0)
    &&& exports_of(ctx) == nodes_decls(module.body@, 1)
    &&& imports_of(ctx) == nodes_decls(module.body@, 2)
    &&& ctx.has_explicit_exports == (nodes_decls(module.body@, 1).len() > 0)
    &&& fm_vars_of(ctx) == match module.frontmatter {
        Some(fm) => frontmatter_vars_spec(fm.raw@, src),
        None => Seq::empty(),
    }
    &&& shadows_of(ctx) == nodes_shadows(module.body@, fm_names(ctx.frontmatter_vars@), top_aliases(module.body@), Set::empty())
}

/// Collect the facts of `module`.
///
/// The usage sets are exactly the names the body uses ([`nodes_uses`]); the
/// definitions, exports and imports are those the body declares, in walk order
/// ([`nodes_decls`]); the module has an explicit export when it has any export;
/// the frontmatter variables are its non-reserved keys ([`frontmatter_vars_spec`]);
/// the shadowings are those of [`nodes_shadows`]. Fails exactly when a body nests
/// past the limit ([`nodes_nest_ok`]).
pub fn collect_facts(module: &Module, is_partial_or_extends: bool, source: &str) -> (r: Result<AnalysisContext, MdsError>)
    ensures
        r is Ok <==> nodes_nest_ok(module.body@, 0),
        r matches Ok(ctx) ==> facts_of(*module, is_partial_or_extends, source.spec_bytes(), ctx),
        r matches Ok(ctx) ==> ctx.is_partial_or_extends == is_partial_or_extends && ctx_wf(ctx),
        r matches Ok(ctx) ==> forall|w: u8| #[trigger] used(ctx, w) == nodes_uses(module.body@, w),
        r matches Ok(ctx) ==> defines_of(ctx) == nodes_decls(module.body@, 0) && exports_of(ctx) == nodes_decls(module.body@, 1)
            && imports_of(ctx) == nodes_decls(module.body@, 2)
            && ctx.has_explicit_exports == (nodes_decls(module.body@, 1).len() > 0),
        r matches Ok(ctx) ==> fm_vars_of(ctx) == match module.frontmatter {
            Some(fm) => frontmatter_vars_spec(fm.raw@, source.spec_bytes()),
            None => Seq::empty(),
        },
        r matches Ok(ctx) ==> shadows_of(ctx) == nodes_shadows(module.body@, fm_names(ctx.frontmatter_vars@), top_aliases(module.body@), Set::empty()),
        r matches Err(e) ==> nesting_error(e),
{
    let mut ctx = AnalysisContext {
        has_explicit_exports: false,
        is_partial_or_extends,
        imports: Vec::new(),
        exports: Vec::new(),
        defines: Vec::new(),
        frontmatter_vars: Vec::new(),
        used_vars: Vec::new(),
        used_calls: Vec::new(),
        used_namespaces: Vec::new(),
        used_include_aliases: Vec::new(),
        shadow_pairs: Vec::new(),
    };
    assert(fm_vars_of(ctx) =~= Seq::<(Seq<char>, Option<int>)>::empty());
    if let Some(fm) = &module.frontmatter {
        collect_frontmatter_vars(fm, source, &mut ctx);
        assert(fm_vars_of(ctx) =~= frontmatter_vars_spec(fm.raw@, source.spec_bytes()));
    }
    let ghost fm_done = fm_vars_of(ctx);
    let mut scope = WalkScope {
        fm_keys: Vec::new(),
        import_aliases: Vec::new(),
        for_var_stack: Vec::new(),
        for_key_stack: Vec::new(),
    };
    let ghost fvs = ctx.frontmatter_vars@;
    let ghost body = module.body@;
    let mut i: usize = 0;
    assert(name_set(scope.fm_keys@) =~= fm_names(fvs.subrange(0, 0)));
    while i < ctx.frontmatter_vars.len()
        invariant
            i <= ctx.frontmatter_vars@.len(),
            fvs == ctx.frontmatter_vars@,
            distinct_names(scope.fm_keys@),
            scope.import_aliases@.len() == 0,
            scope.for_var_stack@.len() == 0,
            scope.for_key_stack@.len() == 0,
            name_set(scope.fm_keys@) == fm_names(fvs.subrange(0, i as int)),
        decreases ctx.frontmatter_vars@.len() - i,
    {
        insert_name(&mut scope.fm_keys, ctx.frontmatter_vars[i].name.as_str());
        proof {
            let a0 = fvs.subrange(0, i as int);
            let a1 = fvs.subrange(0, i + 1);
            assert forall|x: Seq<char>| fm_names(a1).contains(x) <==> fm_names(a0).insert(fvs[i as int].name@).contains(x) by {
                if fm_names(a1).contains(x) {
                    let k = choose|k: int| 0 <= k < a1.len() && (#[trigger] a1[k]).name@ == x;
                    if k < i {
                        assert(a0[k] == a1[k]);
                    }
                }
                if fm_names(a0).contains(x) {
                    let k = choose|k: int| 0 <= k < a0.len() && (#[trigger] a0[k]).name@ == x;
                    assert(a1[k] == a0[k]);
                }
                if x == fvs[i as int].name@ {
                    assert(a1[i as int] == fvs[i as int]);
                }
            }
            assert(fm_names(a1) =~= fm_names(a0).insert(fvs[i as int].name@));
        }
        i = i + 1;
    }
    assert(fvs.subrange(0, i as int) =~= fvs);
    let mut j: usize = 0;
    assert(name_set(scope.import_aliases@) =~= top_aliases(body.subrange(0, 0)));
    while j < module.body.len()
        invariant
            j <= module.body@.len(),
            body == module.body@,
            distinct_names(scope.import_aliases@),
            scope.for_var_stack@.len() == 0,
            scope.for_key_stack@.len() == 0,
            name_set(scope.fm_keys@) == fm_names(fvs),
            name_set(scope.import_aliases@) == top_aliases(body.subrange(0, j as int)),
        decreases module.body@.len() - j,
    {
        let ghost old_al = name_set(scope.import_aliases@);
        if let Node::Import(ImportDirective::Alias { alias, .. }) = &module.body[j] {
            insert_name(&mut scope.import_aliases, alias.as_str());
            assert(alias_of(body[j as int]) == Some(alias@));
            assert(forall|x: Seq<char>| #[trigger] name_set(scope.import_aliases@).contains(x)
                <==> (old_al.contains(x) || alias_of(body[j as int]) == Some(x)));
        } else {
            assert(alias_of(body[j as int]) is None);
        }
        proof {
            let a0 = body.subrange(0, j as int);
            let a1 = body.subrange(0, j + 1);
            assert forall|x: Seq<char>| top_aliases(a1).contains(x) <==> (old_al.contains(x) || alias_of(body[j as int]) == Some(x)) by {
                if top_aliases(a1).contains(x) {
                    let k = choose|k: int| 0 <= k < a1.len() && alias_of(#[trigger] a1[k]) == Some(x);
                    if k < j {
                        assert(a0[k] == a1[k]);
                    }
                }
                if top_aliases(a0).contains(x) {
                    let k = choose|k: int| 0 <= k < a0.len() && alias_of(#[trigger] a0[k]) == Some(x);
                    assert(a1[k] == a0[k]);
                }
                if alias_of(body[j as int]) == Some(x) {
                    assert(a1[j as int] == body[j as int]);
                }
            }
            assert(name_set(scope.import_aliases@) =~= top_aliases(a1));
        }
        j = j + 1;
    }
    assert(body.subrange(0, j as int) =~= body);
    assert(loop_vars(scope) =~= Set::<Seq<char>>::empty());
    assert(shadows_of(ctx) =~= Seq::<Shadow>::empty());
    assert(ctx_wf(ctx));
    let ghost start = ctx;
    assert forall|w: u8| #[trigger] used(start, w) == Set::<Seq<char>>::empty() by {
        assert(used(start, w) =~= Set::<Seq<char>>::empty());
    }
    assert(defines_of(start) =~= Seq::<Decl>::empty());
    assert(exports_of(start) =~= Seq::<Decl>::empty());
    assert(imports_of(start) =~= Seq::<Decl>::empty());
    walk_nodes(&module.body, &mut ctx, &mut scope, 0)?;
    assert(fm_vars_of(ctx) == fm_done);
    assert(defines_of(ctx) =~= nodes_decls(module.body@, 0));
    assert(exports_of(ctx) =~= nodes_decls(module.body@, 1));
    assert(imports_of(ctx) =~= nodes_decls(module.body@, 2));
    assert(shadows_of(ctx) =~= nodes_shadows(module.body@, fm_names(ctx.frontmatter_vars@), top_aliases(module.body@), Set::empty()));
    assert forall|w: u8| #[trigger] used(ctx, w) == nodes_uses(module.body@, w) by {
        assert(used(ctx, w) =~= nodes_uses(module.body@, w));
    }
    Ok(ctx)
}

/// The walk's invariant on the context: the usage sets stay duplicate-free and the
/// partial flag is kept.
pub open spec fn walk_keeps(old_ctx: AnalysisContext, new_ctx: AnalysisContext) -> bool {
    new_ctx.is_partial_or_extends == old_ctx.is_partial_or_extends && ctx_wf(new_ctx)
        && new_ctx.frontmatter_vars@ == old_ctx.frontmatter_vars@
}

/// Walk `nodes` at nesting `depth`.
#[verifier::spinoff_prover]
#[verifier::rlimit(50)]
fn walk_nodes(nodes: &Vec<Node>, ctx: &mut AnalysisContext, scope: &mut WalkScope, depth: usize) -> (r: Result<(), MdsError>)
    requires
        ctx_wf(*old(ctx)),
    ensures
        walk_keeps(*old(ctx), *final(ctx)),
        r is Ok <==> nodes_nest_ok(nodes@, depth as int),
        r is Ok ==> shadows_of(*final(ctx)) == shadows_of(*old(ctx)) + nodes_shadows(nodes@, fm_of(*old(scope)), al_of(*old(scope)), loop_vars(*old(scope))),
        same_scope(*old(scope), *final(scope)),
        r is Ok ==> grew_decls(*old(ctx), *final(ctx), nodes_decls(nodes@, 0), nodes_decls(nodes@, 1), nodes_decls(nodes@, 2)),
        r matches Err(e) ==> nesting_error(e),
        r is Ok ==> grew_by(*old(ctx), *final(ctx), |w: u8| nodes_uses(nodes@, w)),
    decreases MAX_NESTING_DEPTH + 1 - depth, 1int,
{
    if depth > MAX_NESTING_DEPTH {
        proof {
            if nodes_nest_ok(nodes@, depth as int) {
                lemma_nodes_nest_parts(nodes@, depth as int, 0);
            }
        }
        return Err(MdsError::resource_limit(String::from_str("template nesting exceeds maximum depth of 64")));
    }
    let mut i: usize = 0;
    assert(nodes@.subrange(0, 0).len() == 0);
    proof {
        lemma_decls_same(*old(ctx), *ctx);
        lemma_shadows_same(*old(ctx), *ctx);
    }
    while i < nodes.len()
        invariant
            i <= nodes@.len(),
            depth <= MAX_NESTING_DEPTH,
            walk_keeps(*old(ctx), *ctx),
            nodes_nest_ok(nodes@.subrange(0, i as int), depth as int),
            shadows_of(*ctx) == shadows_of(*old(ctx)) + nodes_shadows(nodes@.subrange(0, i as int), fm_of(*old(scope)), al_of(*old(scope)), loop_vars(*old(scope))),
            same_scope(*old(scope), *scope),
            grew_decls(*old(ctx), *ctx, nodes_decls(nodes@.subrange(0, i as int), 0), nodes_decls(nodes@.subrange(0, i as int), 1), nodes_decls(nodes@.subrange(0, i as int), 2)),
            grew_by(*old(ctx), *ctx, |w: u8| nodes_uses(nodes@.subrange(0, i as int), w)),
        decreases nodes@.len() - i,
    {
        let ghost before = *ctx;
        proof {
            if nodes_nest_ok(nodes@, depth as int) {
                lemma_nodes_nest_parts(nodes@, depth as int, i as int);
            }
        }
        assert(nodes@.subrange(0, i + 1).subrange(0, i as int) =~= nodes@.subrange(0, i as int));
        assert(nodes@.subrange(0, i + 1)[i as int] == nodes@[i as int]);
        match &nodes[i] {
            Node::Import(imp) => {
                collect_import_fact(imp, ctx);
                assert(imports_of(*ctx) =~= imports_of(before) + seq![import_decl(*imp)]);
                assert(defines_of(*ctx) =~= defines_of(before) + Seq::<Decl>::empty());
                assert(exports_of(*ctx) =~= exports_of(before) + Seq::<Decl>::empty());
            },
            Node::Export(exp) => {
                ctx.has_explicit_exports = true;
                collect_export_fact(exp, ctx);
                assert(exports_of(*ctx) =~= exports_of(before) + seq![export_decl(*exp)]);
                assert(defines_of(*ctx) =~= defines_of(before) + Seq::<Decl>::empty());
                assert(imports_of(*ctx) =~= imports_of(before) + Seq::<Decl>::empty());
            },
            Node::Define(b) => collect_define_fact(b, ctx, scope, depth)?,
            Node::If(b) => walk_if_block(b, ctx, scope, depth)?,
            Node::For(b) => walk_for_block(b, ctx, scope, depth)?,
            Node::Message(b) => walk_nodes(&b.body, ctx, scope, depth + 1)?,
            Node::Block(b) => walk_nodes(&b.body, ctx, scope, depth + 1)?,
            Node::Interpolation(x) => extract_expr_refs(&x.expr, ctx),
            Node::Include(x) => {
                use_name(ctx, 3, x.alias.as_str());
            },
            Node::Text(_) | Node::EscapedBrace { .. } => {},
        }
        proof {
            assert forall|w: u8, s: Seq<char>| #[trigger] used(*ctx, w).contains(s)
                <==> (used(before, w).contains(s) || node_uses(nodes@[i as int], w).contains(s)) by {}
            if same_decls(before, *ctx) {
                lemma_decls_same(before, *ctx);
            }
            if nodes@[i as int] is Export {
                assert(defines_of(*ctx) =~= defines_of(before) + Seq::<Decl>::empty());
            }
            assert(grew_decls(before, *ctx, node_decls(nodes@[i as int], 0), node_decls(nodes@[i as int], 1), node_decls(nodes@[i as int], 2)));
            let fm = fm_of(*old(scope));
            let al = al_of(*old(scope));
            let st = loop_vars(*old(scope));
            if before.shadow_pairs@ == ctx.shadow_pairs@ {
                lemma_shadows_same(before, *ctx);
            }
            assert(shadows_of(*ctx) == shadows_of(before) + node_shadows(nodes@[i as int], fm, al, st));
            lemma_shadows_chain(*old(ctx), before, *ctx, nodes_shadows(nodes@.subrange(0, i as int), fm, al, st), node_shadows(nodes@[i as int], fm, al, st));
            assert(node_nest_ok(nodes@[i as int], depth as int));
            assert(nodes_nest_ok(nodes@.subrange(0, i + 1), depth as int));
            lemma_decls_chain(*old(ctx), before, *ctx, nodes_decls(nodes@.subrange(0, i as int), 0),
                nodes_decls(nodes@.subrange(0, i as int), 1), nodes_decls(nodes@.subrange(0, i as int), 2), node_decls(nodes@[i as int], 0), node_decls(nodes@[i as int], 1), node_decls(nodes@[i as int], 2));
        }
        i = i + 1;
    }
    assert(nodes@.subrange(0, i as int) =~= nodes@);
    Ok(())
}

fn collect_import_fact(imp: &ImportDirective, ctx: &mut AnalysisContext)
    requires
        ctx_wf(*old(ctx)),
    ensures
        walk_keeps(*old(ctx), *final(ctx)),
        final(ctx).shadow_pairs@ == old(ctx).shadow_pairs@,
        final(ctx).defines@ == old(ctx).defines@ && final(ctx).exports@ == old(ctx).exports@
            && final(ctx).has_explicit_exports == old(ctx).has_explicit_exports,
        imports_of(*final(ctx)) == imports_of(*old(ctx)).push(import_decl(*imp)),
        same_uses(*old(ctx), *final(ctx)),
        final(ctx).imports@.len() == old(ctx).imports@.len() + 1,
{
    let fact = match imp {
        ImportDirective::Alias { path, alias, offset } => ImportFact {
            path: path.clone(), kind: ImportKind::Alias, alias: Some(alias.clone()), names: Vec::new(),
            name_offsets: Vec::new(), offset: *offset,
        },
        ImportDirective::Merge { path, offset } => ImportFact {
            path: path.clone(), kind: ImportKind::Merge, alias: None, names: Vec::new(),
            name_offsets: Vec::new(), offset: *offset,
        },
        ImportDirective::Selective { names, name_offsets, path, offset } => ImportFact {
            path: path.clone(), kind: ImportKind::Selective, alias: None, names: names.clone(),
            name_offsets: name_offsets.clone(), offset: *offset,
        },
    };
    proof {
        if let ImportDirective::Selective { names, name_offsets, .. } = imp {
            assert forall|k: int| 0 <= k < names@.len() implies #[trigger] fact.names@[k]@ == names@[k]@ by {
                assert(cloned::<String>(names@[k], fact.names@[k]));
            }
            assert(fact.names@.map_values(|n: String| n@) =~= names@.map_values(|n: String| n@));
            assert forall|k: int| 0 <= k < name_offsets@.len() implies #[trigger] fact.name_offsets@[k] == name_offsets@[k] by {
                assert(cloned::<usize>(name_offsets@[k], fact.name_offsets@[k]));
            }
            assert(fact.name_offsets@ =~= name_offsets@);
        }
        assert(import_fact_decl(fact) == import_decl(*imp));
    }
    ctx.imports.push(fact);
    assert(imports_of(*ctx) =~= imports_of(*old(ctx)).push(import_decl(*imp)));
}

fn collect_export_fact(exp: &ExportDirective, ctx: &mut AnalysisContext)
    requires
        ctx_wf(*old(ctx)),
    ensures
        walk_keeps(*old(ctx), *final(ctx)),
        final(ctx).shadow_pairs@ == old(ctx).shadow_pairs@,
        exports_of(*final(ctx)) == exports_of(*old(ctx)).push(export_decl(*exp)),
        final(ctx).defines@ == old(ctx).defines@ && final(ctx).has_explicit_exports == old(ctx).has_explicit_exports,
        final(ctx).imports@ == old(ctx).imports@,
        same_uses(*old(ctx), *final(ctx)),
        final(ctx).exports@.len() == old(ctx).exports@.len() + 1,
{
    let fact = match exp {
        ExportDirective::Named { name, offset } => ExportFact {
            kind: ExportKind::Named, name: Some(name.clone()), path: None, offset: *offset,
        },
        ExportDirective::ReExport { name, path, offset } => ExportFact {
            kind: ExportKind::ReExport, name: Some(name.clone()), path: Some(path.clone()), offset: *offset,
        },
        ExportDirective::Wildcard { path, offset } => ExportFact {
            kind: ExportKind::Wildcard, name: None, path: Some(path.clone()), offset: *offset,
        },
    };
    ctx.exports.push(fact);
    assert(exports_of(*ctx) =~= exports_of(*old(ctx)).push(export_decl(*exp)));
}

/// Whether `v` holds `s` (a stack of names).
fn stack_has(v: &Vec<String>, s: &str) -> (r: bool)
    ensures
        r == name_set(v@).contains(s@),
{
    contains_str(v, s)
}

fn collect_define_fact(b: &DefineBlock, ctx: &mut AnalysisContext, scope: &mut WalkScope, depth: usize) -> (r: Result<(), MdsError>)
    requires
        ctx_wf(*old(ctx)),
        depth <= MAX_NESTING_DEPTH,
    ensures
        walk_keeps(*old(ctx), *final(ctx)),
        r is Ok <==> node_nest_ok(Node::Define(*b), depth as int),
        r is Ok ==> shadows_of(*final(ctx)) == shadows_of(*old(ctx)) + node_shadows(Node::Define(*b), fm_of(*old(scope)), al_of(*old(scope)), loop_vars(*old(scope))),
        same_scope(*old(scope), *final(scope)),
        r is Ok ==> grew_decls(*old(ctx), *final(ctx), node_decls(Node::Define(*b), 0), node_decls(Node::Define(*b), 1), node_decls(Node::Define(*b), 2)),
        r matches Err(e) ==> nesting_error(e),
        r is Ok ==> grew_by(*old(ctx), *final(ctx), |w: u8| nodes_uses(b.body@, w)),
    decreases MAX_NESTING_DEPTH + 1 - depth, 0int,
{
    ctx.defines.push(DefineFact { name: b.name.clone(), offset: b.offset, end_offset: b.end_offset });
    let ghost c1 = *ctx;
    let ghost own: Seq<Decl> = seq![(b.name@, None, b.offset, b.end_offset, 0u8, Seq::empty(), Seq::empty())];
    assert(defines_of(c1) =~= defines_of(*old(ctx)) + own);
    assert(exports_of(c1) =~= exports_of(*old(ctx)) + Seq::<Decl>::empty());
    assert(imports_of(c1) =~= imports_of(*old(ctx)) + Seq::<Decl>::empty());
    let mut i: usize = 0;
    while i < b.params.len()
        invariant
            i <= b.params@.len(),
            walk_keeps(*old(ctx), *ctx),
            same_uses(*old(ctx), *ctx),
            same_decls(c1, *ctx),
            *scope == *old(scope),
            shadows_of(*ctx) == shadows_of(c1) + param_shadows(b.params@.subrange(0, i as int), b.offset, fm_of(*scope), loop_vars(*scope)),
        decreases b.params@.len() - i,
    {
        let ghost before = *ctx;
        let ghost n = b.params@[i as int].name@;
        let ghost fm = fm_of(*scope);
        let ghost st = loop_vars(*scope);
        assert(b.params@.subrange(0, i + 1).subrange(0, i as int) =~= b.params@.subrange(0, i as int));
        assert(b.params@.subrange(0, i + 1)[i as int] == b.params@[i as int]);
        let pname = b.params[i].name.as_str();
        if contains_str(&scope.fm_keys, pname) {
            ctx.shadow_pairs.push(ShadowPair {
                name: pname.to_owned(), inner_kind: ShadowKind::DefineParam, outer_kind: ShadowKind::FmVar, offset: b.offset,
            });
        }
        let ghost mid = *ctx;
        let ghost part1: Seq<Shadow> = if fm.contains(n) { seq![(n, ShadowKind::DefineParam, ShadowKind::FmVar, b.offset)] } else { Seq::empty() };
        let ghost part2: Seq<Shadow> = if st.contains(n) { seq![(n, ShadowKind::DefineParam, ShadowKind::ForVar, b.offset)] } else { Seq::empty() };
        assert(shadows_of(mid) =~= shadows_of(before) + part1);
        if stack_has(&scope.for_var_stack, pname) || stack_has(&scope.for_key_stack, pname) {
            ctx.shadow_pairs.push(ShadowPair {
                name: pname.to_owned(), inner_kind: ShadowKind::DefineParam, outer_kind: ShadowKind::ForVar, offset: b.offset,
            });
        }
        assert(shadows_of(*ctx) =~= shadows_of(mid) + part2);
        assert(shadows_of(*ctx) =~= shadows_of(c1) + param_shadows(b.params@.subrange(0, i + 1), b.offset, fm, st));
        i = i + 1;
    }
    assert(b.params@.subrange(0, i as int) =~= b.params@);
    let ghost c2 = *ctx;
    proof {
        lemma_decls_same(c1, c2);
        lemma_shadows_same(*old(ctx), c1);
    }
    let r = walk_nodes(&b.body, ctx, scope, depth + 1);
    proof {
        if r is Ok {
            let fm = fm_of(*old(scope));
            let al = al_of(*old(scope));
            let st = loop_vars(*old(scope));
            assert(shadows_of(*ctx) =~= shadows_of(*old(ctx)) + node_shadows(Node::Define(*b), fm, al, st));
            lemma_decls_chain(c1, c2, *ctx, Seq::empty(), Seq::empty(), Seq::empty(), nodes_decls(b.body@, 0), nodes_decls(b.body@, 1), nodes_decls(b.body@, 2));
            assert(Seq::<Decl>::empty() + nodes_decls(b.body@, 0) =~= nodes_decls(b.body@, 0));
            assert(Seq::<Decl>::empty() + nodes_decls(b.body@, 1) =~= nodes_decls(b.body@, 1));
            assert(Seq::<Decl>::empty() + nodes_decls(b.body@, 2) =~= nodes_decls(b.body@, 2));
            lemma_decls_chain(*old(ctx), c1, *ctx, own, Seq::empty(), Seq::empty(), nodes_decls(b.body@, 0), nodes_decls(b.body@, 1), nodes_decls(b.body@, 2));
        }
    }
    r
}

fn walk_if_block(b: &IfBlock, ctx: &mut AnalysisContext, scope: &mut WalkScope, depth: usize) -> (r: Result<(), MdsError>)
    requires
        ctx_wf(*old(ctx)),
        depth <= MAX_NESTING_DEPTH,
    ensures
        walk_keeps(*old(ctx), *final(ctx)),
        r is Ok <==> node_nest_ok(Node::If(*b), depth as int),
        r is Ok ==> shadows_of(*final(ctx)) == shadows_of(*old(ctx)) + node_shadows(Node::If(*b), fm_of(*old(scope)), al_of(*old(scope)), loop_vars(*old(scope))),
        same_scope(*old(scope), *final(scope)),
        r is Ok ==> grew_decls(*old(ctx), *final(ctx), node_decls(Node::If(*b), 0), node_decls(Node::If(*b), 1), node_decls(Node::If(*b), 2)),
        r matches Err(e) ==> nesting_error(e),
        r is Ok ==> grew_by(*old(ctx), *final(ctx), |w: u8| node_uses(Node::If(*b), w)),
    decreases MAX_NESTING_DEPTH + 1 - depth, 0int,
{
    extract_condition_refs(&b.condition, ctx);
    let ghost c0 = *ctx;
    walk_nodes(&b.then_body, ctx, scope, depth + 1)?;
    let ghost head = *ctx;
    proof {
        lemma_decls_same(*old(ctx), c0);
        lemma_decls_chain(*old(ctx), c0, head, Seq::empty(), Seq::empty(), Seq::empty(), nodes_decls(b.then_body@, 0), nodes_decls(b.then_body@, 1), nodes_decls(b.then_body@, 2));
        assert(Seq::<Decl>::empty() + nodes_decls(b.then_body@, 0) =~= nodes_decls(b.then_body@, 0));
        assert(Seq::<Decl>::empty() + nodes_decls(b.then_body@, 1) =~= nodes_decls(b.then_body@, 1));
        assert(Seq::<Decl>::empty() + nodes_decls(b.then_body@, 2) =~= nodes_decls(b.then_body@, 2));
        lemma_decls_same(head, head);
        lemma_shadows_same(head, head);
        assert(shadows_of(head) =~= shadows_of(*old(ctx)) + nodes_shadows(b.then_body@, fm_of(*old(scope)), al_of(*old(scope)), loop_vars(*old(scope))));
    }
    let ghost arms = b.elseif_branches@;
    let ghost fm = fm_of(*old(scope));
    let ghost al = al_of(*old(scope));
    let ghost st = loop_vars(*old(scope));
    let mut i: usize = 0;
    assert(arms.subrange(0, 0).len() == 0);
    while i < b.elseif_branches.len()
        invariant
            i <= b.elseif_branches@.len(),
            arms == b.elseif_branches@,
            depth <= MAX_NESTING_DEPTH,
            walk_keeps(*old(ctx), *ctx),
            arms_nest_ok(arms.subrange(0, i as int), depth + 1),
            nodes_nest_ok(b.then_body@, depth + 1),
            grew_by(*old(ctx), head, |w: u8| cond_uses(b.condition, w).union(nodes_uses(b.then_body@, w))),
            grew_by(head, *ctx, |w: u8| arms_uses(arms.subrange(0, i as int), w)),
            grew_decls(*old(ctx), head, nodes_decls(b.then_body@, 0), nodes_decls(b.then_body@, 1), nodes_decls(b.then_body@, 2)),
            grew_decls(head, *ctx, arms_decls(arms.subrange(0, i as int), 0), arms_decls(arms.subrange(0, i as int), 1), arms_decls(arms.subrange(0, i as int), 2)),
            same_scope(*old(scope), *scope),
            fm == fm_of(*old(scope)) && al == al_of(*old(scope)) && st == loop_vars(*old(scope)),
            shadows_of(head) == shadows_of(*old(ctx)) + nodes_shadows(b.then_body@, fm, al, st),
            shadows_of(*ctx) == shadows_of(head) + arms_shadows(arms.subrange(0, i as int), fm, al, st),
        decreases b.elseif_branches@.len() - i,
    {
        let ghost before = *ctx;
        proof {
            if node_nest_ok(Node::If(*b), depth as int) {
                lemma_arms_nest_parts(arms, depth + 1, i as int);
            }
        }
        assert(arms.subrange(0, i + 1).subrange(0, i as int) =~= arms.subrange(0, i as int));
        assert(arms.subrange(0, i + 1)[i as int] == arms[i as int]);
        extract_condition_refs(&b.elseif_branches[i].condition, ctx);
        let ghost c3 = *ctx;
        walk_nodes(&b.elseif_branches[i].body, ctx, scope, depth + 1)?;
        proof {
            lemma_decls_same(before, c3);
            lemma_decls_chain(before, c3, *ctx, Seq::empty(), Seq::empty(), Seq::empty(), nodes_decls(arms[i as int].body@, 0), nodes_decls(arms[i as int].body@, 1), nodes_decls(arms[i as int].body@, 2));
            assert(Seq::<Decl>::empty() + nodes_decls(arms[i as int].body@, 0) =~= nodes_decls(arms[i as int].body@, 0));
            assert(Seq::<Decl>::empty() + nodes_decls(arms[i as int].body@, 1) =~= nodes_decls(arms[i as int].body@, 1));
            assert(Seq::<Decl>::empty() + nodes_decls(arms[i as int].body@, 2) =~= nodes_decls(arms[i as int].body@, 2));
            lemma_decls_chain(head, before, *ctx, arms_decls(arms.subrange(0, i as int), 0), arms_decls(arms.subrange(0, i as int), 1), arms_decls(arms.subrange(0, i as int), 2),
                nodes_decls(arms[i as int].body@, 0), nodes_decls(arms[i as int].body@, 1), nodes_decls(arms[i as int].body@, 2));
            assert forall|w: u8, s: Seq<char>| #[trigger] used(*ctx, w).contains(s)
                <==> (used(before, w).contains(s) || cond_uses(arms[i as int].condition, w).contains(s)
                    || nodes_uses(arms[i as int].body@, w).contains(s)) by {}
            assert(shadows_of(*ctx) =~= shadows_of(head) + arms_shadows(arms.subrange(0, i + 1), fm, al, st));
        }
        i = i + 1;
    }
    assert(arms.subrange(0, i as int) =~= arms);
    let ghost mid = *ctx;
    let ghost tail0: Seq<Decl> = match &b.else_body { Some(e) => nodes_decls(e@, 0), None => Seq::empty() };
    let ghost tail1: Seq<Decl> = match &b.else_body { Some(e) => nodes_decls(e@, 1), None => Seq::empty() };
    let ghost tail2: Seq<Decl> = match &b.else_body { Some(e) => nodes_decls(e@, 2), None => Seq::empty() };
    if let Some(else_body) = &b.else_body {
        walk_nodes(else_body, ctx, scope, depth + 1)?;
    }
    proof {
        if b.else_body is None {
            lemma_decls_same(mid, *ctx);
        }
        lemma_decls_chain(*old(ctx), head, mid, nodes_decls(b.then_body@, 0), nodes_decls(b.then_body@, 1), nodes_decls(b.then_body@, 2), arms_decls(arms, 0), arms_decls(arms, 1), arms_decls(arms, 2));
        lemma_decls_chain(*old(ctx), mid, *ctx, nodes_decls(b.then_body@, 0) + arms_decls(arms, 0),
            nodes_decls(b.then_body@, 1) + arms_decls(arms, 1), nodes_decls(b.then_body@, 2) + arms_decls(arms, 2), tail0, tail1, tail2);
        assert forall|w: u8, s: Seq<char>| #[trigger] used(*ctx, w).contains(s)
            <==> (used(*old(ctx), w).contains(s) || node_uses(Node::If(*b), w).contains(s)) by {}
        if b.else_body is None {
            lemma_shadows_same(mid, *ctx);
        }
        assert(shadows_of(*ctx) =~= shadows_of(*old(ctx)) + node_shadows(Node::If(*b), fm, al, st));
    }
    Ok(())
}

fn walk_for_block(b: &ForBlock, ctx: &mut AnalysisContext, scope: &mut WalkScope, depth: usize) -> (r: Result<(), MdsError>)
    requires
        ctx_wf(*old(ctx)),
        depth <= MAX_NESTING_DEPTH,
    ensures
        walk_keeps(*old(ctx), *final(ctx)),
        r is Ok <==> node_nest_ok(Node::For(*b), depth as int),
        r is Ok ==> shadows_of(*final(ctx)) == shadows_of(*old(ctx)) + node_shadows(Node::For(*b), fm_of(*old(scope)), al_of(*old(scope)), loop_vars(*old(scope))),
        same_scope(*old(scope), *final(scope)),
        r is Ok ==> grew_decls(*old(ctx), *final(ctx), node_decls(Node::For(*b), 0), node_decls(Node::For(*b), 1), node_decls(Node::For(*b), 2)),
        r matches Err(e) ==> nesting_error(e),
        r is Ok ==> grew_by(*old(ctx), *final(ctx), |w: u8| node_uses(Node::For(*b), w)),
    decreases MAX_NESTING_DEPTH + 1 - depth, 0int,
{
    extract_expr_refs(&b.iterable, ctx);
    let ghost c1 = *ctx;
    let ghost fm = fm_of(*old(scope));
    let ghost al = al_of(*old(scope));
    let ghost st = loop_vars(*old(scope));
    let ghost sc0 = *scope;
    check_for_var_shadow(b.var.as_str(), b.offset, scope, ctx);
    let ghost c2 = *ctx;
    let ghost kpart: Seq<Shadow> = match &b.key_var { Some(k) => for_var_shadow(k@, b.offset, fm, al, st), None => Seq::empty() };
    if let Some(kv) = &b.key_var {
        check_for_var_shadow(kv.as_str(), b.offset, scope, ctx);
    } else {
        assert(shadows_of(*ctx) =~= shadows_of(c2) + kpart);
    }
    scope.for_var_stack.push(b.var.clone());
    if let Some(kv) = &b.key_var {
        scope.for_key_stack.push(kv.clone());
    }
    let ghost inner = match &b.key_var { Some(k) => st.insert(b.var@).insert(k@), None => st.insert(b.var@) };
    proof {
        lemma_name_set_push(sc0.for_var_stack@, b.var);
        if let Some(k) = &b.key_var {
            lemma_name_set_push(sc0.for_key_stack@, *k);
        }
        assert(loop_vars(*scope) =~= inner);
        assert(fm_of(*scope) == fm && al_of(*scope) == al);
    }
    let ghost sc1 = *scope;
    let ghost c3 = *ctx;
    assert(forall|w: u8| #[trigger] used(c3, w) == used(c1, w));
    let r = walk_nodes(&b.body, ctx, scope, depth + 1);
    proof {
        assert(r is Ok ==> forall|w: u8, s: Seq<char>| #[trigger] used(*ctx, w).contains(s)
            <==> (used(*old(ctx), w).contains(s) || node_uses(Node::For(*b), w).contains(s)));
    }
    proof {
        if r is Ok {
            assert(shadows_of(*ctx) =~= shadows_of(*old(ctx)) + node_shadows(Node::For(*b), fm, al, st));
        }
    }
    scope.for_var_stack.pop();
    if b.key_var.is_some() {
        scope.for_key_stack.pop();
    }
    assert(scope.for_var_stack@ =~= sc0.for_var_stack@);
    assert(scope.for_key_stack@ =~= sc0.for_key_stack@);
    r
}

/// Record the binding that `var` of a `@for` shadows, if any: a frontmatter key, an
/// import alias, or an enclosing loop variable (in that order of precedence).
fn check_for_var_shadow(var: &str, offset: usize, scope: &WalkScope, ctx: &mut AnalysisContext)
    requires
        ctx_wf(*old(ctx)),
    ensures
        walk_keeps(*old(ctx), *final(ctx)),
        shadows_of(*final(ctx)) == shadows_of(*old(ctx)) + for_var_shadow(var@, offset, fm_of(*scope), al_of(*scope), loop_vars(*scope)),
        same_decls(*old(ctx), *final(ctx)),
        same_uses(*old(ctx), *final(ctx)),
        final(ctx).shadow_pairs@.len() <= old(ctx).shadow_pairs@.len() + 1,
{
    let outer = if contains_str(&scope.fm_keys, var) {
        Some(ShadowKind::FmVar)
    } else if contains_str(&scope.import_aliases, var) {
        Some(ShadowKind::ImportAlias)
    } else if stack_has(&scope.for_var_stack, var) || stack_has(&scope.for_key_stack, var) {
        Some(ShadowKind::ForVar)
    } else {
        None
    };
    if let Some(k) = outer {
        ctx.shadow_pairs.push(ShadowPair { name: var.to_owned(), inner_kind: ShadowKind::ForVar, outer_kind: k, offset });
        assert(shadows_of(*ctx) =~= shadows_of(*old(ctx)) + seq![(var@, ShadowKind::ForVar, k, offset)]);
    } else {
        assert(shadows_of(*ctx) =~= shadows_of(*old(ctx)) + Seq::<Shadow>::empty());
    }
}

/// Add a name to one of the usage sets of `ctx` (0 variables, 1 calls, 2 namespaces, 3 include aliases).
fn use_name(ctx: &mut AnalysisContext, which: u8, name: &str)
    requires
        ctx_wf(*old(ctx)),
        which < 4,
    ensures
        walk_keeps(*old(ctx), *final(ctx)),
        final(ctx).shadow_pairs@ == old(ctx).shadow_pairs@,
        same_decls(*old(ctx), *final(ctx)),
        grew_by(*old(ctx), *final(ctx), |w: u8| one_name(which, name@, w)),
{
    if which == 0 {
        insert_name(&mut ctx.used_vars, name);
    } else if which == 1 {
        insert_name(&mut ctx.used_calls, name);
    } else if which == 2 {
        insert_name(&mut ctx.used_namespaces, name);
    } else {
        insert_name(&mut ctx.used_include_aliases, name);
    }
}

/// Record the names an expression uses.
fn extract_expr_refs(expr: &Expr, ctx: &mut AnalysisContext)
    requires
        ctx_wf(*old(ctx)),
    ensures
        walk_keeps(*old(ctx), *final(ctx)),
        final(ctx).shadow_pairs@ == old(ctx).shadow_pairs@,
        same_decls(*old(ctx), *final(ctx)),
        grew_by(*old(ctx), *final(ctx), |w: u8| expr_uses(*expr, w)),
{
    match expr {
        Expr::Var(name) => use_name(ctx, 0, name.as_str()),
        Expr::MemberAccess { object, .. } => use_name(ctx, 0, object.as_str()),
        Expr::Call { name, args } => {
            use_name(ctx, 1, name.as_str());
            extract_args_refs(args, ctx);
        },
        Expr::QualifiedCall { namespace, args, .. } => {
            use_name(ctx, 2, namespace.as_str());
            extract_args_refs(args, ctx);
        },
        _ => {
            assert(forall|w: u8| #[trigger] expr_uses(*expr, w) == Set::<Seq<char>>::empty());
        },
    }
}

/// Record the names a list of arguments uses.
fn extract_args_refs(args: &Vec<Arg>, ctx: &mut AnalysisContext)
    requires
        ctx_wf(*old(ctx)),
    ensures
        walk_keeps(*old(ctx), *final(ctx)),
        final(ctx).shadow_pairs@ == old(ctx).shadow_pairs@,
        same_decls(*old(ctx), *final(ctx)),
        grew_by(*old(ctx), *final(ctx), |w: u8| args_uses(args@, w)),
    decreases args,
{
    let mut i: usize = 0;
    assert(args@.subrange(0, 0).len() == 0);
    while i < args.len()
        invariant
            i <= args@.len(),
            walk_keeps(*old(ctx), *ctx),
            ctx.shadow_pairs@ == old(ctx).shadow_pairs@,
            same_decls(*old(ctx), *ctx),
            grew_by(*old(ctx), *ctx, |w: u8| args_uses(args@.subrange(0, i as int), w)),
        decreases args@.len() - i,
    {
        let ghost before = *ctx;
        assert(args@.subrange(0, i + 1).subrange(0, i as int) =~= args@.subrange(0, i as int));
        assert(args@.subrange(0, i + 1)[i as int] == args@[i as int]);
        match &args[i] {
            Arg::Var(name) => use_name(ctx, 0, name.as_str()),
            Arg::MemberAccess { object, .. } => use_name(ctx, 0, object.as_str()),
            Arg::Call { name, args: inner } => {
                use_name(ctx, 1, name.as_str());
                proof {
                    assert(decreases_to!(args => args@[i as int]));
                }
                extract_args_refs(inner, ctx);
            },
            _ => {},
        }
        proof {
            assert forall|w: u8, s: Seq<char>| #[trigger] used(*ctx, w).contains(s)
                <==> (used(before, w).contains(s) || arg_uses(args@[i as int], w).contains(s)) by {}
        }
        i = i + 1;
    }
    assert(args@.subrange(0, i as int) =~= args@);
}

/// Record the names a condition uses.
fn extract_condition_refs(cond: &Condition, ctx: &mut AnalysisContext)
    requires
        ctx_wf(*old(ctx)),
    ensures
        walk_keeps(*old(ctx), *final(ctx)),
        final(ctx).shadow_pairs@ == old(ctx).shadow_pairs@,
        same_decls(*old(ctx), *final(ctx)),
        grew_by(*old(ctx), *final(ctx), |w: u8| cond_uses(*cond, w)),
    decreases cond,
{
    match cond {
        Condition::Truthy(e) => extract_expr_refs(e, ctx),
        Condition::Not(e) => extract_expr_refs(e, ctx),
        Condition::Eq(l, r) => {
            extract_expr_refs(l, ctx);
            extract_expr_refs(r, ctx);
        },
        Condition::NotEq(l, r) => {
            extract_expr_refs(l, ctx);
            extract_expr_refs(r, ctx);
        },
        Condition::And(v) => extract_conditions_refs(v, ctx),
        Condition::Or(v) => extract_conditions_refs(v, ctx),
    }
}

/// Record the names the conditions of `v` use.
fn extract_conditions_refs(v: &Vec<Condition>, ctx: &mut AnalysisContext)
    requires
        ctx_wf(*old(ctx)),
    ensures
        walk_keeps(*old(ctx), *final(ctx)),
        final(ctx).shadow_pairs@ == old(ctx).shadow_pairs@,
        same_decls(*old(ctx), *final(ctx)),
        grew_by(*old(ctx), *final(ctx), |w: u8| conds_uses(v@, w)),
    decreases v,
{
    let mut i: usize = 0;
    assert(v@.subrange(0, 0).len() == 0);
    while i < v.len()
        invariant
            i <= v@.len(),
            walk_keeps(*old(ctx), *ctx),
            ctx.shadow_pairs@ == old(ctx).shadow_pairs@,
            same_decls(*old(ctx), *ctx),
            grew_by(*old(ctx), *ctx, |w: u8| conds_uses(v@.subrange(0, i as int), w)),
        decreases v@.len() - i,
    {
        proof {
            assert(decreases_to!(v => v@[i as int]));
        }
        let ghost before = *ctx;
        assert(v@.subrange(0, i + 1).subrange(0, i as int) =~= v@.subrange(0, i as int));
        assert(v@.subrange(0, i + 1)[i as int] == v@[i as int]);
        extract_condition_refs(&v[i], ctx);
        i = i + 1;
    }
    assert(v@.subrange(0, i as int) =~= v@);
}

// ── Names in conditions are used ─────────────────────────────────────────────

/// `e` is the variable `x`, or a member access on `x`.
pub open spec fn expr_names_var(e: Expr, x: Seq<char>) -> bool {
    ||| e matches Expr::Var(n) && n@ == x
    ||| e matches Expr::MemberAccess { object, .. } && object@ == x
}

/// The condition `c` tests the variable `x` directly: as `x`, `!x`, an operand of
/// `==` or `!=`, or inside one of the parts of `&&` and `||`.
pub open spec fn cond_names_var(c: Condition, x: Seq<char>) -> bool
    decreases c,
{
    match c {
        Condition::Truthy(e) => expr_names_var(e, x),
        Condition::Not(e) => expr_names_var(e, x),
        Condition::Eq(l, r) => expr_names_var(l, x) || expr_names_var(r, x),
        Condition::NotEq(l, r) => expr_names_var(l, x) || expr_names_var(r, x),
        Condition::And(v) => exists|k: int| 0 <= k < v@.len() && cond_names_var(#[trigger] v@[k], x),
        Condition::Or(v) => exists|k: int| 0 <= k < v@.len() && cond_names_var(#[trigger] v@[k], x),
    }
}

/// A name a node of a list uses is used by the list.
proof fn lemma_nodes_uses_has(v: Seq<Node>, k: int, w: u8, s: Seq<char>)
    requires
        0 <= k < v.len(),
        node_uses(v[k], w).contains(s),
    ensures
        nodes_uses(v, w).contains(s),
    decreases v.len(),
{
    let pre = v.subrange(0, v.len() - 1);
    if k < v.len() - 1 {
        assert(pre[k] == v[k]);
        lemma_nodes_uses_has(pre, k, w, s);
    }
}

/// A name an `@elseif` arm's condition or body uses is used by the arms.
proof fn lemma_arms_uses_has(v: Seq<ElseifBranch>, k: int, w: u8, s: Seq<char>)
    requires
        0 <= k < v.len(),
        cond_uses(v[k].condition, w).contains(s) || nodes_uses(v[k].body@, w).contains(s),
    ensures
        arms_uses(v, w).contains(s),
    decreases v.len(),
{
    let pre = v.subrange(0, v.len() - 1);
    if k < v.len() - 1 {
        assert(pre[k] == v[k]);
        lemma_arms_uses_has(pre, k, w, s);
    }
}

/// A name a part of a condition list uses is used by the list.
proof fn lemma_conds_uses_has(v: Seq<Condition>, k: int, w: u8, s: Seq<char>)
    requires
        0 <= k < v.len(),
        cond_uses(v[k], w).contains(s),
    ensures
        conds_uses(v, w).contains(s),
    decreases v.len(),
{
    let pre = v.subrange(0, v.len() - 1);
    if k < v.len() - 1 {
        assert(pre[k] == v[k]);
        lemma_conds_uses_has(pre, k, w, s);
    }
}

/// A variable a condition tests directly is among the variables it uses.
proof fn lemma_cond_names_used(c: Condition, x: Seq<char>)
    requires
        cond_names_var(c, x),
    ensures
        cond_uses(c, 0).contains(x),
    decreases c,
{
    match c {
        Condition::And(v) => {
            let k = choose|k: int| 0 <= k < v@.len() && cond_names_var(#[trigger] v@[k], x);
            lemma_cond_names_used(v@[k], x);
            lemma_conds_uses_has(v@, k, 0, x);
        },
        Condition::Or(v) => {
            let k = choose|k: int| 0 <= k < v@.len() && cond_names_var(#[trigger] v@[k], x);
            lemma_cond_names_used(v@[k], x);
            lemma_conds_uses_has(v@, k, 0, x);
        },
        _ => {},
    }
}

/// The names a node inside `m` uses, at any depth, are used by `m`.
proof fn lemma_node_uses_within(m: Node, n: Node, w: u8, s: Seq<char>)
    requires
        node_within(m, n),
        node_uses(n, w).contains(s),
    ensures
        node_uses(m, w).contains(s),
    decreases m,
{
    if m != n {
        match m {
            Node::If(b) => {
                if nodes_within(b.then_body@, n) {
                    lemma_nodes_uses_within(b.then_body@, n, w, s);
                } else if arms_within(b.elseif_branches@, n) {
                    let k = choose|k: int| 0 <= k < b.elseif_branches@.len()
                        && nodes_within((#[trigger] b.elseif_branches@[k]).body@, n);
                    assert(decreases_to!(m => b.elseif_branches@[k].body@)) by {
                        assert(decreases_to!(m => b));
                        assert(decreases_to!(b => b.elseif_branches));
                        assert(decreases_to!(b.elseif_branches => b.elseif_branches@));
                        assert(decreases_to!(b.elseif_branches@ => b.elseif_branches@[k]));
                        assert(decreases_to!(b.elseif_branches@[k] => b.elseif_branches@[k].body));
                        assert(decreases_to!(b.elseif_branches@[k].body => b.elseif_branches@[k].body@));
                    }
                    lemma_nodes_uses_within(b.elseif_branches@[k].body@, n, w, s);
                    lemma_arms_uses_has(b.elseif_branches@, k, w, s);
                } else {
                    if let Some(e) = b.else_body {
                        lemma_nodes_uses_within(e@, n, w, s);
                    }
                }
            },
            Node::For(b) => { lemma_nodes_uses_within(b.body@, n, w, s); },
            Node::Define(b) => { lemma_nodes_uses_within(b.body@, n, w, s); },
            Node::Message(b) => { lemma_nodes_uses_within(b.body@, n, w, s); },
            Node::Block(b) => { lemma_nodes_uses_within(b.body@, n, w, s); },
            _ => {},
        }
    }
}

/// The names a node inside a list uses, at any depth, are used by the list.
proof fn lemma_nodes_uses_within(v: Seq<Node>, n: Node, w: u8, s: Seq<char>)
    requires
        nodes_within(v, n),
        node_uses(n, w).contains(s),
    ensures
        nodes_uses(v, w).contains(s),
    decreases v,
{
    let k = choose|k: int| 0 <= k < v.len() && node_within(#[trigger] v[k], n);
    lemma_node_uses_within(v[k], n, w, s);
    lemma_nodes_uses_has(v, k, w, s);
}

/// Every variable that an `@if` or `@elseif` condition tests directly (`x`, `!x`,
/// `x == ..`, `x != ..`, or inside `&&` / `||`), for an `@if` anywhere in the
/// template, is among the collected used variables.
pub proof fn law_condition_variables_are_used(
    module: Module,
    is_partial_or_extends: bool,
    src: Seq<u8>,
    ctx: AnalysisContext,
    b: IfBlock,
    x: Seq<char>,
)
    requires
        facts_of(module, is_partial_or_extends, src, ctx),
        nodes_within(module.body@, Node::If(b)),
        cond_names_var(b.condition, x)
            || exists|k: int| 0 <= k < b.elseif_branches@.len() && cond_names_var((#[trigger] b.elseif_branches@[k]).condition, x),
    ensures
        name_set(ctx.used_vars@).contains(x),
{
    if cond_names_var(b.condition, x) {
        lemma_cond_names_used(b.condition, x);
    } else {
        let k = choose|k: int| 0 <= k < b.elseif_branches@.len() && cond_names_var((#[trigger] b.elseif_branches@[k]).condition, x);
        lemma_cond_names_used(b.elseif_branches@[k].condition, x);
        lemma_arms_uses_has(b.elseif_branches@, k, 0, x);
    }
    assert(node_uses(Node::If(b), 0).contains(x));
    lemma_nodes_uses_within(module.body@, Node::If(b), 0, x);
    assert(used(ctx, 0) == nodes_uses(module.body@, 0));
}

/// `e` passes the variable `x` (or a member access on `x`) as an argument of a call.
pub open spec fn expr_passes_var(e: Expr, x: Seq<char>) -> bool {
    let args = match e {
        Expr::Call { args, .. } => args@,
        Expr::QualifiedCall { args, .. } => args@,
        _ => Seq::empty(),
    };
    exists|k: int| 0 <= k < args.len() && arg_names_var(#[trigger] args[k], x)
}

/// The argument `a` is the variable `x`, or a member access on `x`.
pub open spec fn arg_names_var(a: Arg, x: Seq<char>) -> bool {
    ||| a matches Arg::Var(n) && n@ == x
    ||| a matches Arg::MemberAccess { object, .. } && object@ == x
}

/// A name an argument of a list uses is used by the list.
proof fn lemma_args_uses_has(v: Seq<Arg>, k: int, w: u8, s: Seq<char>)
    requires
        0 <= k < v.len(),
        arg_uses(v[k], w).contains(s),
    ensures
        args_uses(v, w).contains(s),
    decreases v.len(),
{
    let pre = v.subrange(0, v.len() - 1);
    if k < v.len() - 1 {
        assert(pre[k] == v[k]);
        lemma_args_uses_has(pre, k, w, s);
    }
}

/// For an interpolation anywhere in the template: a variable it shows or passes
/// to a call is a used variable, the function it calls is a used call, and the
/// namespace of a qualified call is a used namespace.
pub proof fn law_interpolation_names_are_used(
    module: Module,
    is_partial_or_extends: bool,
    src: Seq<u8>,
    ctx: AnalysisContext,
    i: crate::ast::Interpolation,
    x: Seq<char>,
)
    requires
        facts_of(module, is_partial_or_extends, src, ctx),
        nodes_within(module.body@, Node::Interpolation(i)),
    ensures
        expr_names_var(i.expr, x) || expr_passes_var(i.expr, x) ==> name_set(ctx.used_vars@).contains(x),
        (i.expr matches Expr::Call { name, .. } && name@ == x) ==> name_set(ctx.used_calls@).contains(x),
        (i.expr matches Expr::QualifiedCall { namespace, .. } && namespace@ == x) ==> name_set(ctx.used_namespaces@).contains(x),
{
    let n = Node::Interpolation(i);
    if expr_names_var(i.expr, x) || expr_passes_var(i.expr, x) {
        if expr_passes_var(i.expr, x) && !expr_names_var(i.expr, x) {
            match i.expr {
                Expr::Call { args, .. } => {
                    let k = choose|k: int| 0 <= k < args@.len() && arg_names_var(#[trigger] args@[k], x);
                    lemma_args_uses_has(args@, k, 0, x);
                },
                Expr::QualifiedCall { args, .. } => {
                    let k = choose|k: int| 0 <= k < args@.len() && arg_names_var(#[trigger] args@[k], x);
                    lemma_args_uses_has(args@, k, 0, x);
                },
                _ => {},
            }
        }
        assert(node_uses(n, 0).contains(x));
        lemma_nodes_uses_within(module.body@, n, 0, x);
        assert(used(ctx, 0) == nodes_uses(module.body@, 0));
    }
    if i.expr matches Expr::Call { name, .. } && name@ == x {
        assert(node_uses(n, 1).contains(x));
        lemma_nodes_uses_within(module.body@, n, 1, x);
        assert(used(ctx, 1) == nodes_uses(module.body@, 1));
    }
    if i.expr matches Expr::QualifiedCall { namespace, .. } && namespace@ == x {
        assert(node_uses(n, 2).contains(x));
        lemma_nodes_uses_within(module.body@, n, 2, x);
        assert(used(ctx, 2) == nodes_uses(module.body@, 2));
    }
}

// ── Loop variables that hide frontmatter variables ───────────────────────────

/// A shadowing of a list is one of the joined parts' shadowings.
proof fn lemma_shadow_concat(a: Seq<Shadow>, b: Seq<Shadow>, x: Shadow)
    requires
        a.contains(x) || b.contains(x),
    ensures
        (a + b).contains(x),
{
    if a.contains(x) {
        let j = choose|j: int| 0 <= j < a.len() && a[j] == x;
        assert((a + b)[j] == x);
    } else {
        let j = choose|j: int| 0 <= j < b.len() && b[j] == x;
        assert((a + b)[a.len() + j] == x);
    }
}

/// The shadowings of a node of a list are shadowings of the list.
proof fn lemma_nodes_shadows_has(v: Seq<Node>, k: int, fm: Set<Seq<char>>, al: Set<Seq<char>>, st: Set<Seq<char>>, x: Shadow)
    requires
        0 <= k < v.len(),
        node_shadows(v[k], fm, al, st).contains(x),
    ensures
        nodes_shadows(v, fm, al, st).contains(x),
    decreases v.len(),
{
    let pre = v.subrange(0, v.len() - 1);
    if k < v.len() - 1 {
        assert(pre[k] == v[k]);
        lemma_nodes_shadows_has(pre, k, fm, al, st, x);
    }
    lemma_shadow_concat(nodes_shadows(pre, fm, al, st), node_shadows(v[v.len() - 1], fm, al, st), x);
}

/// The shadowings inside the body of arm `k` are shadowings of the arms.
proof fn lemma_arms_shadows_has(v: Seq<ElseifBranch>, k: int, fm: Set<Seq<char>>, al: Set<Seq<char>>, st: Set<Seq<char>>, x: Shadow)
    requires
        0 <= k < v.len(),
        nodes_shadows(v[k].body@, fm, al, st).contains(x),
    ensures
        arms_shadows(v, fm, al, st).contains(x),
    decreases v.len(),
{
    let pre = v.subrange(0, v.len() - 1);
    if k < v.len() - 1 {
        assert(pre[k] == v[k]);
        lemma_arms_shadows_has(pre, k, fm, al, st, x);
    }
    lemma_shadow_concat(arms_shadows(pre, fm, al, st), nodes_shadows(v[v.len() - 1].body@, fm, al, st), x);
}

/// A `@for` inside `m`, whose variable is a frontmatter key, gives its shadowing
/// among those of `m`, whatever loops enclose `m`.
proof fn lemma_for_shadow_within(m: Node, b: ForBlock, fm: Set<Seq<char>>, al: Set<Seq<char>>, st: Set<Seq<char>>)
    requires
        node_within(m, Node::For(b)),
        fm.contains(b.var@),
    ensures
        node_shadows(m, fm, al, st).contains((b.var@, ShadowKind::ForVar, ShadowKind::FmVar, b.offset)),
    decreases m,
{
    let x = (b.var@, ShadowKind::ForVar, ShadowKind::FmVar, b.offset);
    if m == Node::For(b) {
        let f0 = for_var_shadow(b.var@, b.offset, fm, al, st);
        assert(f0[0] == x);
        assert(f0.contains(x));
        let f1 = match b.key_var { Some(k) => for_var_shadow(k@, b.offset, fm, al, st), None => Seq::empty() };
        let st2 = match b.key_var { Some(k) => st.insert(b.var@).insert(k@), None => st.insert(b.var@) };
        lemma_shadow_concat(f0, f1, x);
        lemma_shadow_concat(f0 + f1, nodes_shadows(b.body@, fm, al, st2), x);
    } else {
        match m {
            Node::If(b2) => {
                let p = nodes_shadows(b2.then_body@, fm, al, st);
                let q = arms_shadows(b2.elseif_branches@, fm, al, st);
                let r = match b2.else_body { Some(e) => nodes_shadows(e@, fm, al, st), None => Seq::empty() };
                if nodes_within(b2.then_body@, Node::For(b)) {
                    lemma_for_shadows_within(b2.then_body@, b, fm, al, st);
                    lemma_shadow_concat(p, q, x);
                } else if arms_within(b2.elseif_branches@, Node::For(b)) {
                    let k = choose|k: int| 0 <= k < b2.elseif_branches@.len()
                        && nodes_within((#[trigger] b2.elseif_branches@[k]).body@, Node::For(b));
                    assert(decreases_to!(m => b2.elseif_branches@[k].body@)) by {
                        assert(decreases_to!(m => b2));
                        assert(decreases_to!(b2 => b2.elseif_branches));
                        assert(decreases_to!(b2.elseif_branches => b2.elseif_branches@));
                        assert(decreases_to!(b2.elseif_branches@ => b2.elseif_branches@[k]));
                        assert(decreases_to!(b2.elseif_branches@[k] => b2.elseif_branches@[k].body));
                        assert(decreases_to!(b2.elseif_branches@[k].body => b2.elseif_branches@[k].body@));
                    }
                    lemma_for_shadows_within(b2.elseif_branches@[k].body@, b, fm, al, st);
                    lemma_arms_shadows_has(b2.elseif_branches@, k, fm, al, st, x);
                    lemma_shadow_concat(p, q, x);
                } else {
                    if let Some(e) = b2.else_body {
                        lemma_for_shadows_within(e@, b, fm, al, st);
                    }
                }
                lemma_shadow_concat(p + q, r, x);
            },
            Node::For(b2) => {
                let f0 = for_var_shadow(b2.var@, b2.offset, fm, al, st);
                let f1 = match b2.key_var { Some(k) => for_var_shadow(k@, b2.offset, fm, al, st), None => Seq::empty() };
                let st2 = match b2.key_var { Some(k) => st.insert(b2.var@).insert(k@), None => st.insert(b2.var@) };
                lemma_for_shadows_within(b2.body@, b, fm, al, st2);
                lemma_shadow_concat(f0 + f1, nodes_shadows(b2.body@, fm, al, st2), x);
            },
            Node::Define(b2) => {
                lemma_for_shadows_within(b2.body@, b, fm, al, st);
                lemma_shadow_concat(param_shadows(b2.params@, b2.offset, fm, st), nodes_shadows(b2.body@, fm, al, st), x);
            },
            Node::Message(b2) => { lemma_for_shadows_within(b2.body@, b, fm, al, st); },
            Node::Block(b2) => { lemma_for_shadows_within(b2.body@, b, fm, al, st); },
            _ => {},
        }
    }
}

/// A `@for` inside a list, whose variable is a frontmatter key, gives its shadowing
/// among those of the list.
proof fn lemma_for_shadows_within(v: Seq<Node>, b: ForBlock, fm: Set<Seq<char>>, al: Set<Seq<char>>, st: Set<Seq<char>>)
    requires
        nodes_within(v, Node::For(b)),
        fm.contains(b.var@),
    ensures
        nodes_shadows(v, fm, al, st).contains((b.var@, ShadowKind::ForVar, ShadowKind::FmVar, b.offset)),
    decreases v,
{
    let k = choose|k: int| 0 <= k < v.len() && node_within(#[trigger] v[k], Node::For(b));
    lemma_for_shadow_within(v[k], b, fm, al, st);
    lemma_nodes_shadows_has(v, k, fm, al, st, (b.var@, ShadowKind::ForVar, ShadowKind::FmVar, b.offset));
}

/// A `@for` anywhere in the template whose loop variable is a frontmatter variable
/// is recorded as a loop variable hiding that frontmatter variable, at the `@for`.
pub proof fn law_for_var_hiding_frontmatter_recorded(
    module: Module,
    is_partial_or_extends: bool,
    src: Seq<u8>,
    ctx: AnalysisContext,
    b: ForBlock,
)
    requires
        facts_of(module, is_partial_or_extends, src, ctx),
        nodes_within(module.body@, Node::For(b)),
        fm_names(ctx.frontmatter_vars@).contains(b.var@),
    ensures
        shadows_of(ctx).contains((b.var@, ShadowKind::ForVar, ShadowKind::FmVar, b.offset)),
{
    lemma_for_shadows_within(module.body@, b, fm_names(ctx.frontmatter_vars@), top_aliases(module.body@), Set::empty());
}

} // verus!
