//! Rule `unreachable-branch` (default error, fixable).
//!
//! Two patterns: a condition comparing two literals (`"x" == "x"` is always
//! true, `"x" == "y"` always false), and an `@elseif` whose condition repeats
//! an earlier condition of the same `@if` (it can never be reached).
use vstd::prelude::*;
use crate::ast::{arms_within, node_within, nodes_within, Condition, IfBlock, Module, Node};
use crate::config::LintConfig;
use crate::diagnostic::{FixLineSpan, LintDiagnostic, LintResultBuilder, Severity, MAX_DIAGNOSTICS};
use crate::facts::AnalysisContext;
use crate::parser_helpers::is_literal_expr;
use crate::rules::common::{effective_severity, emit_more, emitted, exclusive_span, finding_of, finding_view,
    inclusive_span, lemma_emitted_saturated, lemma_emitted_start, make_diag, resolve_severity, rule_findings, saturated,
    spanned_finding, FindingView};
use crate::rules::structural_eq::{cond_equiv, conditions_eq, expr_equiv, exprs_eq, is_literal};

verus! {

/// The rule's name.
pub const RULE: &'static str = "unreachable-branch";

/// What is statically known of a condition.
#[derive(Debug, Clone, Copy, PartialEq, Eq, Structural)]
pub enum ConditionClass {
    AlwaysTrue,
    AlwaysFalse,
    Unknown,
}

/// What is known of a condition: `==` / `!=` between two literals is decided by
/// their structural equality; anything else is unknown.
pub open spec fn class_of(cond: Condition) -> ConditionClass {
    match cond {
        Condition::Eq(l, r) => if is_literal_expr(l) && is_literal_expr(r) {
            if expr_equiv(l, r) { ConditionClass::AlwaysTrue } else { ConditionClass::AlwaysFalse }
        } else {
            ConditionClass::Unknown
        },
        Condition::NotEq(l, r) => if is_literal_expr(l) && is_literal_expr(r) {
            if expr_equiv(l, r) { ConditionClass::AlwaysFalse } else { ConditionClass::AlwaysTrue }
        } else {
            ConditionClass::Unknown
        },
        _ => ConditionClass::Unknown,
    }
}

/// Classify a condition: only `==` / `!=` between two literals is known.
pub fn classify_condition(cond: &Condition) -> (r: ConditionClass)
    ensures
        r == class_of(*cond),
{
    match cond {
        Condition::Eq(l, r) => {
            if is_literal(l) && is_literal(r) {
                if exprs_eq(l, r) { ConditionClass::AlwaysTrue } else { ConditionClass::AlwaysFalse }
            } else {
                ConditionClass::Unknown
            }
        },
        Condition::NotEq(l, r) => {
            if is_literal(l) && is_literal(r) {
                if exprs_eq(l, r) { ConditionClass::AlwaysFalse } else { ConditionClass::AlwaysTrue }
            } else {
                ConditionClass::Unknown
            }
        },
        _ => ConditionClass::Unknown,
    }
}

/// A single-line removal at `offset`.
pub open spec fn one_line(offset: usize) -> FixLineSpan {
    FixLineSpan { from: offset, to: offset, to_inclusive: true }
}

/// The offset of `@else:`, or of `@end` when there is no `@else`.
pub open spec fn else_or_end(b: IfBlock) -> usize {
    match b.else_offset { Some(o) => o, None => b.end_offset }
}

/// The fix of an always-true `@if` with later branches.
pub open spec fn true_fix(b: IfBlock) -> Option<Seq<FixLineSpan>> {
    let first_later = if b.elseif_branches@.len() > 0 { b.elseif_branches@[0].offset } else { else_or_end(b) };
    Some(seq![one_line(b.offset), FixLineSpan { from: first_later, to: b.end_offset, to_inclusive: true }])
}

/// The fix of an always-false `@if`.
pub open spec fn false_fix(b: IfBlock) -> Option<Seq<FixLineSpan>> {
    if b.elseif_branches@.len() > 0 {
        None
    } else if b.else_body is None {
        Some(seq![FixLineSpan { from: b.offset, to: b.end_offset, to_inclusive: true }])
    } else {
        Some(seq![FixLineSpan { from: b.offset, to: else_or_end(b), to_inclusive: true }, one_line(b.end_offset)])
    }
}

/// The finding of the `@if` condition itself.
pub open spec fn ub_primary(b: IfBlock, sev: Severity, file: Seq<char>) -> Seq<FindingView> {
    let has_later = b.elseif_branches@.len() > 0 || b.else_body is Some;
    match class_of(b.condition) {
        ConditionClass::AlwaysTrue => if has_later {
            seq![spanned_finding(RULE@, sev, file,
                "@if condition is always true — @elseif/@else branches are unreachable."@,
                "Replace the constant condition with a variable or remove later branches."@, b.offset, 3, true_fix(b))]
        } else {
            Seq::empty()
        },
        ConditionClass::AlwaysFalse => seq![spanned_finding(RULE@, sev, file,
            "@if condition is always false — the then-body is dead code."@,
            "Replace the constant condition with a variable or remove the dead branch."@, b.offset, 3, false_fix(b))],
        ConditionClass::Unknown => Seq::empty(),
    }
}

/// Arm `i` repeats the condition of the `@if` or of an earlier arm.
pub open spec fn repeats(b: IfBlock, i: int) -> bool {
    cond_equiv(b.condition, b.elseif_branches@[i].condition)
        || exists|k: int| 0 <= k < i && cond_equiv(#[trigger] b.elseif_branches@[k].condition, b.elseif_branches@[i].condition)
}

/// Where the removal of arm `i` stops: the next arm, else `@else:`, else `@end`.
pub open spec fn boundary(b: IfBlock, i: int) -> usize {
    if i + 1 < b.elseif_branches@.len() { b.elseif_branches@[i + 1].offset } else { else_or_end(b) }
}

/// The finding of arm `i`: a repeated condition, else a condition that is always
/// true or always false.
pub open spec fn ub_arm(b: IfBlock, i: int, sev: Severity, file: Seq<char>) -> Seq<FindingView> {
    let br = b.elseif_branches@[i];
    let cut = Some(seq![FixLineSpan { from: br.offset, to: boundary(b, i), to_inclusive: false }]);
    if repeats(b, i) {
        seq![spanned_finding(RULE@, sev, file,
            "@elseif condition is structurally identical to an earlier branch — this branch can never be reached."@,
            "Remove the duplicate @elseif branch or change its condition."@, br.offset, 7, cut)]
    } else {
        match class_of(br.condition) {
            ConditionClass::AlwaysTrue => seq![spanned_finding(RULE@, sev, file, "@elseif condition is always true."@,
                "Replace the constant condition with a variable."@, br.offset, 7, None)],
            ConditionClass::AlwaysFalse => seq![spanned_finding(RULE@, sev, file,
                "@elseif condition is always false — this branch is dead code."@,
                "Replace the constant condition with a variable or remove the dead branch."@, br.offset, 7, cut)],
            ConditionClass::Unknown => Seq::empty(),
        }
    }
}

/// The findings of the arms `0..i`.
pub open spec fn ub_arms(b: IfBlock, i: int, sev: Severity, file: Seq<char>) -> Seq<FindingView>
    decreases i,
{
    if i <= 0 || i > b.elseif_branches@.len() { Seq::empty() } else { ub_arms(b, i - 1, sev, file) + ub_arm(b, i - 1, sev, file) }
}

/// The findings of a list of nodes, in order.
pub open spec fn ub_nodes(nodes: Seq<Node>, sev: Severity, file: Seq<char>) -> Seq<FindingView>
    decreases nodes, 2int,
{
    if nodes.len() == 0 {
        Seq::empty()
    } else {
        ub_nodes(nodes.drop_last(), sev, file) + ub_node(nodes.last(), sev, file)
    }
}

/// The findings of one node and the bodies inside it.
pub open spec fn ub_node(n: Node, sev: Severity, file: Seq<char>) -> Seq<FindingView>
    decreases n, 1int,
{
    match n {
        Node::If(b) => ub_if(b, sev, file),
        Node::For(b) => ub_nodes(b.body@, sev, file),
        Node::Define(b) => ub_nodes(b.body@, sev, file),
        Node::Message(b) => ub_nodes(b.body@, sev, file),
        Node::Block(b) => ub_nodes(b.body@, sev, file),
        _ => Seq::empty(),
    }
}

/// The findings inside the bodies of the arms `0..i`.
pub open spec fn ub_arm_bodies(b: IfBlock, i: int, sev: Severity, file: Seq<char>) -> Seq<FindingView>
    decreases b, 0int, i,
{
    if i <= 0 || i > b.elseif_branches@.len() {
        Seq::empty()
    } else {
        ub_arm_bodies(b, i - 1, sev, file) + ub_nodes(b.elseif_branches@[i - 1].body@, sev, file)
    }
}

/// The findings inside the `@else` of `b`.
pub open spec fn ub_else(b: IfBlock, sev: Severity, file: Seq<char>) -> Seq<FindingView>
    decreases b, 0int, 0int,
{
    match b.else_body {
        Some(e) => ub_nodes(e@, sev, file),
        None => Seq::empty(),
    }
}

/// The findings of an `@if`: its condition, its arms, then those inside its
/// then-body, its arms' bodies and its `@else`.
pub open spec fn ub_if(b: IfBlock, sev: Severity, file: Seq<char>) -> Seq<FindingView>
    decreases b, 0int, b.elseif_branches@.len() + 1,
{
    ub_primary(b, sev, file) + ub_arms(b, b.elseif_branches@.len() as int, sev, file) + ub_nodes(b.then_body@, sev, file)
        + ub_arm_bodies(b, b.elseif_branches@.len() as int, sev, file) + ub_else(b, sev, file)
}

/// The findings of the rule over the module body.
pub open spec fn unreachable_branch_findings(module: Module, config: LintConfig, file: Seq<char>) -> Seq<FindingView> {
    let sev = effective_severity(config, RULE@, Severity::Error);
    if sev == Severity::Off { Seq::empty() } else { ub_nodes(module.body@, sev, file) }
}

/// Check every `@if` of the module.
pub fn check(module: &Module, ctx: &AnalysisContext, filename: &str, config: &LintConfig, builder: &mut LintResultBuilder)
    requires
        old(builder).wf(),
    ensures
        final(builder).wf(),
        rule_findings(old(builder).diagnostics@, final(builder).diagnostics@, RULE@,
            effective_severity(*config, RULE@, Severity::Error), filename@),
        emitted(old(builder).diagnostics@, old(builder).truncated, final(builder).diagnostics@, final(builder).truncated,
            unreachable_branch_findings(*module, *config, filename@)),
        effective_severity(*config, RULE@, Severity::Error) == Severity::Off ==> final(builder).diagnostics@ == old(builder).diagnostics@,
{
    let severity = resolve_severity(config, RULE, Severity::Error);
    let ghost start = builder.diagnostics@;
    let ghost st = builder.truncated;
    assert(builder.diagnostics@.subrange(0, start.len() as int) =~= start);
    proof {
        lemma_emitted_start(*builder);
    }
    if severity == Severity::Off {
        return;
    }
    check_nodes(&module.body, filename, severity, builder, Ghost(start), Ghost(st), Ghost(Seq::empty()));
    assert(Seq::<FindingView>::empty() + ub_nodes(module.body@, severity, filename@) =~= ub_nodes(module.body@, severity, filename@));
}

fn check_nodes(nodes: &Vec<Node>, filename: &str, severity: Severity, builder: &mut LintResultBuilder,
    Ghost(start): Ghost<Seq<LintDiagnostic>>, Ghost(st): Ghost<bool>, Ghost(e): Ghost<Seq<FindingView>>)
    requires
        old(builder).wf(),
        start.len() <= MAX_DIAGNOSTICS,
        rule_findings(start, old(builder).diagnostics@, RULE@, severity, filename@),
        emitted(start, st, old(builder).diagnostics@, old(builder).truncated, e),
    ensures
        final(builder).wf(),
        rule_findings(start, final(builder).diagnostics@, RULE@, severity, filename@),
        emitted(start, st, final(builder).diagnostics@, final(builder).truncated, e + ub_nodes(nodes@, severity, filename@)),
    decreases nodes, 1int,
{
    let ghost sev = severity;
    let ghost file = filename@;
    let mut i: usize = 0;
    assert(nodes@.take(0) =~= Seq::<Node>::empty());
    assert(e + ub_nodes(nodes@.take(0), sev, file) =~= e);
    while i < nodes.len()
        invariant
            i <= nodes@.len(),
            builder.wf(),
            start.len() <= MAX_DIAGNOSTICS,
            sev == severity,
            file == filename@,
            rule_findings(start, builder.diagnostics@, RULE@, severity, filename@),
            emitted(start, st, builder.diagnostics@, builder.truncated, e + ub_nodes(nodes@.take(i as int), sev, file)),
        decreases nodes@.len() - i,
    {
        proof { assert(decreases_to!(nodes => nodes@[i as int])); }
        let ghost cur = e + ub_nodes(nodes@.take(i as int), sev, file);
        let ghost node = nodes@[i as int];
        assert(nodes@.take(i + 1).drop_last() =~= nodes@.take(i as int));
        assert(nodes@.take(i + 1).last() == node);
        assert(e + ub_nodes(nodes@.take(i + 1), sev, file) =~= cur + ub_node(node, sev, file));
        match &nodes[i] {
            Node::If(b) => walk_if(b, filename, severity, builder, Ghost(start), Ghost(st), Ghost(cur)),
            Node::For(b) => check_nodes(&b.body, filename, severity, builder, Ghost(start), Ghost(st), Ghost(cur)),
            Node::Define(b) => check_nodes(&b.body, filename, severity, builder, Ghost(start), Ghost(st), Ghost(cur)),
            Node::Message(b) => check_nodes(&b.body, filename, severity, builder, Ghost(start), Ghost(st), Ghost(cur)),
            Node::Block(b) => check_nodes(&b.body, filename, severity, builder, Ghost(start), Ghost(st), Ghost(cur)),
            _ => {
                assert(cur + ub_node(node, sev, file) =~= cur);
            },
        }
        i = i + 1;
    }
    assert(nodes@.take(nodes@.len() as int) =~= nodes@);
}

/// Check an `@if`, then the bodies inside it.
fn walk_if(b: &IfBlock, filename: &str, severity: Severity, builder: &mut LintResultBuilder,
    Ghost(start): Ghost<Seq<LintDiagnostic>>, Ghost(st): Ghost<bool>, Ghost(e): Ghost<Seq<FindingView>>)
    requires
        old(builder).wf(),
        start.len() <= MAX_DIAGNOSTICS,
        rule_findings(start, old(builder).diagnostics@, RULE@, severity, filename@),
        emitted(start, st, old(builder).diagnostics@, old(builder).truncated, e),
    ensures
        final(builder).wf(),
        rule_findings(start, final(builder).diagnostics@, RULE@, severity, filename@),
        emitted(start, st, final(builder).diagnostics@, final(builder).truncated, e + ub_if(*b, severity, filename@)),
    decreases b, 0int,
{
    let ghost sev = severity;
    let ghost file = filename@;
    let n = b.elseif_branches.len();
    let ghost own = ub_primary(*b, sev, file) + ub_arms(*b, n as int, sev, file);
    let ghost then_part = ub_nodes(b.then_body@, sev, file);
    let ghost bodies = ub_arm_bodies(*b, n as int, sev, file);
    let ghost else_part = ub_else(*b, sev, file);
    assert(ub_if(*b, sev, file) =~= own + then_part + bodies + else_part);
    check_if_block(b, filename, severity, builder, Ghost(start), Ghost(st), Ghost(e));
    assert(e + ub_primary(*b, sev, file) + ub_arms(*b, n as int, sev, file) =~= e + own);
    check_nodes(&b.then_body, filename, severity, builder, Ghost(start), Ghost(st), Ghost(e + own));
    let ghost base = e + own + then_part;
    assert(base + ub_arm_bodies(*b, 0, sev, file) =~= base);
    let mut j: usize = 0;
    while j < n
        invariant
            j <= n == b.elseif_branches@.len(),
            builder.wf(),
            start.len() <= MAX_DIAGNOSTICS,
            sev == severity,
            file == filename@,
            rule_findings(start, builder.diagnostics@, RULE@, severity, filename@),
            emitted(start, st, builder.diagnostics@, builder.truncated, base + ub_arm_bodies(*b, j as int, sev, file)),
        decreases n - j,
    {
        proof {
            assert(decreases_to!(b => b.elseif_branches));
            assert(decreases_to!(b.elseif_branches => b.elseif_branches@[j as int]));
        }
        let ghost cur = base + ub_arm_bodies(*b, j as int, sev, file);
        assert(ub_arm_bodies(*b, j + 1, sev, file) == ub_arm_bodies(*b, j as int, sev, file) + ub_nodes(b.elseif_branches@[j as int].body@, sev, file));
        check_nodes(&b.elseif_branches[j].body, filename, severity, builder, Ghost(start), Ghost(st), Ghost(cur));
        assert(cur + ub_nodes(b.elseif_branches@[j as int].body@, sev, file) =~= base + ub_arm_bodies(*b, j + 1, sev, file));
        j = j + 1;
    }
    let ghost cur = base + bodies;
    if let Some(else_body) = &b.else_body {
        check_nodes(else_body, filename, severity, builder, Ghost(start), Ghost(st), Ghost(cur));
        assert(cur + ub_nodes(else_body@, sev, file) =~= e + ub_if(*b, sev, file));
    } else {
        assert(cur + else_part =~= e + ub_if(*b, sev, file));
    }
}

/// The findings of an `@if`'s condition and arms.
fn check_if_block(b: &IfBlock, filename: &str, severity: Severity, builder: &mut LintResultBuilder,
    Ghost(start): Ghost<Seq<LintDiagnostic>>, Ghost(st): Ghost<bool>, Ghost(e): Ghost<Seq<FindingView>>)
    requires
        old(builder).wf(),
        start.len() <= MAX_DIAGNOSTICS,
        rule_findings(start, old(builder).diagnostics@, RULE@, severity, filename@),
        emitted(start, st, old(builder).diagnostics@, old(builder).truncated, e),
    ensures
        final(builder).wf(),
        rule_findings(start, final(builder).diagnostics@, RULE@, severity, filename@),
        emitted(start, st, final(builder).diagnostics@, final(builder).truncated,
            e + ub_primary(*b, severity, filename@) + ub_arms(*b, b.elseif_branches@.len() as int, severity, filename@)),
{
    let ghost arms = ub_arms(*b, b.elseif_branches@.len() as int, severity, filename@);
    if check_primary(b, filename, severity, builder, Ghost(start), Ghost(st), Ghost(e)) {
        proof {
            lemma_emitted_saturated(start, st, builder.diagnostics@, builder.truncated, e + ub_primary(*b, severity, filename@), arms);
        }
        return;
    }
    check_elseifs(b, filename, severity, builder, Ghost(start), Ghost(st), Ghost(e + ub_primary(*b, severity, filename@)));
}

/// The fix of an always-true `@if` with later branches: drop the `@if` line and
/// everything from the first later branch through `@end`.
pub fn primary_true_fix(b: &IfBlock) -> (r: Option<Vec<FixLineSpan>>)
    ensures
        match r { Some(v) => Some(v@), None => None } == true_fix(*b),
{
    let first_later = if b.elseif_branches.len() > 0 {
        b.elseif_branches[0].offset
    } else {
        match b.else_offset {
            Some(o) => o,
            None => b.end_offset,
        }
    };
    let v = vec![FixLineSpan::single(b.offset), inclusive_span(first_later, b.end_offset)];
    assert(v@ =~= true_fix(*b)->0);
    Some(v)
}

/// The fix of an always-false `@if`: the whole block when it has no other branch;
/// the `@if` through `@else:` and the `@end` line when it has only `@else`; none
/// when it has `@elseif` arms.
pub fn primary_false_fix(b: &IfBlock) -> (r: Option<Vec<FixLineSpan>>)
    ensures
        match r { Some(v) => Some(v@), None => None } == false_fix(*b),
{
    if b.elseif_branches.len() > 0 {
        return None;
    }
    if b.else_body.is_none() {
        let v = vec![inclusive_span(b.offset, b.end_offset)];
        assert(v@ =~= false_fix(*b)->0);
        return Some(v);
    }
    let to = match b.else_offset {
        Some(o) => o,
        None => b.end_offset,
    };
    let v = vec![inclusive_span(b.offset, to), FixLineSpan::single(b.end_offset)];
    assert(v@ =~= false_fix(*b)->0);
    Some(v)
}

/// The `@if` condition; `true` when the collector is saturated.
fn check_primary(b: &IfBlock, filename: &str, severity: Severity, builder: &mut LintResultBuilder,
    Ghost(start): Ghost<Seq<LintDiagnostic>>, Ghost(st): Ghost<bool>, Ghost(e): Ghost<Seq<FindingView>>) -> (stop: bool)
    requires
        old(builder).wf(),
        start.len() <= MAX_DIAGNOSTICS,
        rule_findings(start, old(builder).diagnostics@, RULE@, severity, filename@),
        emitted(start, st, old(builder).diagnostics@, old(builder).truncated, e),
    ensures
        final(builder).wf(),
        rule_findings(start, final(builder).diagnostics@, RULE@, severity, filename@),
        emitted(start, st, final(builder).diagnostics@, final(builder).truncated, e + ub_primary(*b, severity, filename@)),
        stop ==> saturated(start, e + ub_primary(*b, severity, filename@)),
{
    let ghost expected = ub_primary(*b, severity, filename@);
    let has_later = b.elseif_branches.len() > 0 || b.else_body.is_some();
    let class = classify_condition(&b.condition);
    let d = match class {
        ConditionClass::AlwaysTrue => {
            if !has_later {
                assert(e + expected =~= e);
                return false;
            }
            make_diag(RULE, severity, filename,
                String::from_str("@if condition is always true — @elseif/@else branches are unreachable."),
                Some(String::from_str("Replace the constant condition with a variable or remove later branches.")),
                b.offset, 3, primary_true_fix(b))
        },
        ConditionClass::AlwaysFalse => make_diag(RULE, severity, filename,
            String::from_str("@if condition is always false — the then-body is dead code."),
            Some(String::from_str("Replace the constant condition with a variable or remove the dead branch.")),
            b.offset, 3, primary_false_fix(b)),
        ConditionClass::Unknown => {
            assert(e + expected =~= e);
            return false;
        },
    };
    assert(expected == seq![finding_view(d)]);
    let accepted = emit_more(builder, d, Ghost(start), Ghost(st), Ghost(e), Ghost(RULE@), Ghost(severity), Ghost(filename@));
    assert(e.push(finding_view(d)) =~= e + expected);
    !accepted
}

/// Where the removal of `@elseif` arm `i` stops: the next arm, else `@else:`, else `@end`.
pub fn next_boundary(b: &IfBlock, i: usize) -> (r: usize)
    ensures
        i + 1 < b.elseif_branches@.len() ==> r == b.elseif_branches@[i + 1].offset,
        i + 1 >= b.elseif_branches@.len() ==> r == match b.else_offset { Some(o) => o, None => b.end_offset },
        i < b.elseif_branches@.len() ==> r == boundary(*b, i as int),
{
    if i < b.elseif_branches.len() && i + 1 < b.elseif_branches.len() {
        return b.elseif_branches[i + 1].offset;
    }
    match b.else_offset {
        Some(o) => o,
        None => b.end_offset,
    }
}

/// Whether the condition of arm `i` equals the condition of the `@if` or of an
/// arm before `i`.
fn repeats_earlier(b: &IfBlock, i: usize) -> (r: bool)
    requires
        i < b.elseif_branches@.len(),
    ensures
        r == repeats(*b, i as int),
{
    let cond = &b.elseif_branches[i].condition;
    if conditions_eq(&b.condition, cond) {
        return true;
    }
    let mut k: usize = 0;
    while k < i
        invariant
            k <= i < b.elseif_branches@.len(),
            *cond == b.elseif_branches@[i as int].condition,
            !cond_equiv(b.condition, b.elseif_branches@[i as int].condition),
            forall|m: int| 0 <= m < k ==> !cond_equiv(#[trigger] b.elseif_branches@[m].condition, b.elseif_branches@[i as int].condition),
        decreases i - k,
    {
        if conditions_eq(&b.elseif_branches[k].condition, cond) {
            return true;
        }
        k = k + 1;
    }
    false
}

/// The finding of `@elseif` arm `i`, if any: a repeated condition, or a
/// condition that is always true or always false.
fn elseif_diag(b: &IfBlock, i: usize, is_duplicate: bool, filename: &str, severity: Severity) -> (r: Option<LintDiagnostic>)
    requires
        i < b.elseif_branches@.len(),
        is_duplicate == repeats(*b, i as int),
    ensures
        r matches Some(d) ==> finding_of(d, RULE@, severity, filename@),
        match r { Some(d) => seq![finding_view(d)], None => Seq::empty() } == ub_arm(*b, i as int, severity, filename@),
{
    let branch = &b.elseif_branches[i];
    let bound = next_boundary(b, i);
    let ghost cut = seq![FixLineSpan { from: branch.offset, to: bound, to_inclusive: false }];
    if is_duplicate {
        let d = make_diag(RULE, severity, filename,
            String::from_str("@elseif condition is structurally identical to an earlier branch — this branch can never be reached."),
            Some(String::from_str("Remove the duplicate @elseif branch or change its condition.")),
            branch.offset, 7, Some(vec![exclusive_span(branch.offset, bound)]));
        assert(d.fix_removals->0@ =~= cut);
        return Some(d);
    }
    match classify_condition(&branch.condition) {
        ConditionClass::AlwaysTrue => Some(make_diag(RULE, severity, filename,
            String::from_str("@elseif condition is always true."),
            Some(String::from_str("Replace the constant condition with a variable.")),
            branch.offset, 7, None)),
        ConditionClass::AlwaysFalse => {
            let d = make_diag(RULE, severity, filename,
                String::from_str("@elseif condition is always false — this branch is dead code."),
                Some(String::from_str("Replace the constant condition with a variable or remove the dead branch.")),
                branch.offset, 7, Some(vec![exclusive_span(branch.offset, bound)]));
            assert(d.fix_removals->0@ =~= cut);
            Some(d)
        },
        ConditionClass::Unknown => None,
    }
}

/// The `@elseif` arms, in order; stops when the collector is saturated.
fn check_elseifs(b: &IfBlock, filename: &str, severity: Severity, builder: &mut LintResultBuilder,
    Ghost(start): Ghost<Seq<LintDiagnostic>>, Ghost(st): Ghost<bool>, Ghost(e): Ghost<Seq<FindingView>>)
    requires
        old(builder).wf(),
        start.len() <= MAX_DIAGNOSTICS,
        rule_findings(start, old(builder).diagnostics@, RULE@, severity, filename@),
        emitted(start, st, old(builder).diagnostics@, old(builder).truncated, e),
    ensures
        final(builder).wf(),
        rule_findings(start, final(builder).diagnostics@, RULE@, severity, filename@),
        emitted(start, st, final(builder).diagnostics@, final(builder).truncated,
            e + ub_arms(*b, b.elseif_branches@.len() as int, severity, filename@)),
{
    let ghost sev = severity;
    let ghost file = filename@;
    let ghost n = b.elseif_branches@.len() as int;
    assert(e + ub_arms(*b, 0, sev, file) =~= e);
    let mut i: usize = 0;
    while i < b.elseif_branches.len()
        invariant
            i <= b.elseif_branches@.len() == n,
            builder.wf(),
            start.len() <= MAX_DIAGNOSTICS,
            sev == severity,
            file == filename@,
            rule_findings(start, builder.diagnostics@, RULE@, severity, filename@),
            emitted(start, st, builder.diagnostics@, builder.truncated, e + ub_arms(*b, i as int, sev, file)),
        decreases b.elseif_branches@.len() - i,
    {
        let ghost cur = e + ub_arms(*b, i as int, sev, file);
        assert(ub_arms(*b, i + 1, sev, file) == ub_arms(*b, i as int, sev, file) + ub_arm(*b, i as int, sev, file));
        let dup = repeats_earlier(b, i);
        if let Some(d) = elseif_diag(b, i, dup, filename, severity) {
            let accepted = emit_more(builder, d, Ghost(start), Ghost(st), Ghost(cur), Ghost(RULE@), Ghost(severity), Ghost(filename@));
            assert(cur.push(finding_view(d)) =~= e + ub_arms(*b, i + 1, sev, file));
            if !accepted {
                proof {
                    lemma_ub_arms_prefix(*b, i + 1, n, sev, file);
                    let pre = ub_arms(*b, i + 1, sev, file);
                    let all = ub_arms(*b, n, sev, file);
                    assert(all =~= pre + all.skip(pre.len() as int));
                    lemma_emitted_saturated(start, st, builder.diagnostics@, builder.truncated, e + pre, all.skip(pre.len() as int));
                    assert(e + pre + all.skip(pre.len() as int) =~= e + all);
                }
                return;
            }
        } else {
            assert(cur =~= e + ub_arms(*b, i + 1, sev, file));
        }
        i = i + 1;
    }
}

proof fn lemma_ub_arms_prefix(b: IfBlock, i: int, n: int, sev: Severity, file: Seq<char>)
    requires
        0 <= i <= n <= b.elseif_branches@.len(),
    ensures
        ub_arms(b, i, sev, file).len() <= ub_arms(b, n, sev, file).len(),
        ub_arms(b, n, sev, file).subrange(0, ub_arms(b, i, sev, file).len() as int) == ub_arms(b, i, sev, file),
    decreases n - i,
{
    if i < n {
        lemma_ub_arms_prefix(b, i, n - 1, sev, file);
        let pre = ub_arms(b, i, sev, file);
        let mid = ub_arms(b, n - 1, sev, file);
        let all = ub_arms(b, n, sev, file);
        assert(all.subrange(0, mid.len() as int) =~= mid);
        assert(all.subrange(0, pre.len() as int) =~= mid.subrange(0, pre.len() as int));
    }
}

// ── Reported at any depth ────────────────────────────────────────────────────

/// The findings of a node of a list are findings of the list.
proof fn lemma_ub_nodes_has(v: Seq<Node>, k: int, x: FindingView, sev: Severity, file: Seq<char>)
    requires
        0 <= k < v.len(),
        ub_node(v[k], sev, file).contains(x),
    ensures
        ub_nodes(v, sev, file).contains(x),
    decreases v.len(),
{
    if k < v.len() - 1 {
        assert(v.drop_last()[k] == v[k]);
        lemma_ub_nodes_has(v.drop_last(), k, x, sev, file);
    }
    crate::rules::common::lemma_concat_has(ub_nodes(v.drop_last(), sev, file), ub_node(v.last(), sev, file), x);
}

/// The findings inside the body of arm `k` are findings of the arm bodies `0..i`.
proof fn lemma_ub_arm_bodies_has(b: IfBlock, k: int, i: int, x: FindingView, sev: Severity, file: Seq<char>)
    requires
        0 <= k < i <= b.elseif_branches@.len(),
        ub_nodes(b.elseif_branches@[k].body@, sev, file).contains(x),
    ensures
        ub_arm_bodies(b, i, sev, file).contains(x),
    decreases i,
{
    if k < i - 1 {
        lemma_ub_arm_bodies_has(b, k, i - 1, x, sev, file);
    }
    crate::rules::common::lemma_concat_has(ub_arm_bodies(b, i - 1, sev, file), ub_nodes(b.elseif_branches@[i - 1].body@, sev, file), x);
}

/// The finding of arm `k` is a finding of the arms `0..i`.
proof fn lemma_ub_arms_has(b: IfBlock, k: int, i: int, x: FindingView, sev: Severity, file: Seq<char>)
    requires
        0 <= k < i <= b.elseif_branches@.len(),
        ub_arm(b, k, sev, file).contains(x),
    ensures
        ub_arms(b, i, sev, file).contains(x),
    decreases i,
{
    if k < i - 1 {
        lemma_ub_arms_has(b, k, i - 1, x, sev, file);
    }
    crate::rules::common::lemma_concat_has(ub_arms(b, i - 1, sev, file), ub_arm(b, i - 1, sev, file), x);
}

/// A finding of any of the five parts of an `@if`'s findings is one of them.
proof fn lemma_ub_if_has(b: IfBlock, x: FindingView, sev: Severity, file: Seq<char>)
    requires
        ub_primary(b, sev, file).contains(x) || ub_arms(b, b.elseif_branches@.len() as int, sev, file).contains(x)
            || ub_nodes(b.then_body@, sev, file).contains(x)
            || ub_arm_bodies(b, b.elseif_branches@.len() as int, sev, file).contains(x) || ub_else(b, sev, file).contains(x),
    ensures
        ub_if(b, sev, file).contains(x),
{
    let p = ub_primary(b, sev, file);
    let q = ub_arms(b, b.elseif_branches@.len() as int, sev, file);
    let r = ub_nodes(b.then_body@, sev, file);
    let t = ub_arm_bodies(b, b.elseif_branches@.len() as int, sev, file);
    let u = ub_else(b, sev, file);
    if p.contains(x) || q.contains(x) {
        crate::rules::common::lemma_concat_has(p, q, x);
    }
    if (p + q).contains(x) || r.contains(x) {
        crate::rules::common::lemma_concat_has(p + q, r, x);
    }
    if (p + q + r).contains(x) || t.contains(x) {
        crate::rules::common::lemma_concat_has(p + q + r, t, x);
    }
    crate::rules::common::lemma_concat_has(p + q + r + t, u, x);
}

/// The findings of an `@if` inside `m`, at any depth, are findings of `m`.
proof fn lemma_ub_node_within(m: Node, b: IfBlock, x: FindingView, sev: Severity, file: Seq<char>)
    requires
        node_within(m, Node::If(b)),
        ub_if(b, sev, file).contains(x),
    ensures
        ub_node(m, sev, file).contains(x),
    decreases m,
{
    if m != Node::If(b) {
        match m {
            Node::If(b2) => {
                if nodes_within(b2.then_body@, Node::If(b)) {
                    lemma_ub_nodes_within(b2.then_body@, b, x, sev, file);
                } else if arms_within(b2.elseif_branches@, Node::If(b)) {
                    let k = choose|k: int| 0 <= k < b2.elseif_branches@.len()
                        && nodes_within((#[trigger] b2.elseif_branches@[k]).body@, Node::If(b));
                    assert(decreases_to!(m => b2.elseif_branches@[k].body@)) by {
                        assert(decreases_to!(m => b2));
                        assert(decreases_to!(b2 => b2.elseif_branches));
                        assert(decreases_to!(b2.elseif_branches => b2.elseif_branches@));
                        assert(decreases_to!(b2.elseif_branches@ => b2.elseif_branches@[k]));
                        assert(decreases_to!(b2.elseif_branches@[k] => b2.elseif_branches@[k].body));
                        assert(decreases_to!(b2.elseif_branches@[k].body => b2.elseif_branches@[k].body@));
                    }
                    lemma_ub_nodes_within(b2.elseif_branches@[k].body@, b, x, sev, file);
                    lemma_ub_arm_bodies_has(b2, k, b2.elseif_branches@.len() as int, x, sev, file);
                } else {
                    if let Some(e) = b2.else_body {
                        lemma_ub_nodes_within(e@, b, x, sev, file);
                    }
                }
                lemma_ub_if_has(b2, x, sev, file);
            },
            Node::For(b2) => { lemma_ub_nodes_within(b2.body@, b, x, sev, file); },
            Node::Define(b2) => { lemma_ub_nodes_within(b2.body@, b, x, sev, file); },
            Node::Message(b2) => { lemma_ub_nodes_within(b2.body@, b, x, sev, file); },
            Node::Block(b2) => { lemma_ub_nodes_within(b2.body@, b, x, sev, file); },
            _ => {},
        }
    }
}

/// The findings of an `@if` inside a list, at any depth, are findings of the list.
proof fn lemma_ub_nodes_within(v: Seq<Node>, b: IfBlock, x: FindingView, sev: Severity, file: Seq<char>)
    requires
        nodes_within(v, Node::If(b)),
        ub_if(b, sev, file).contains(x),
    ensures
        ub_nodes(v, sev, file).contains(x),
    decreases v,
{
    let k = choose|k: int| 0 <= k < v.len() && node_within(#[trigger] v[k], Node::If(b));
    lemma_ub_node_within(v[k], b, x, sev, file);
    lemma_ub_nodes_has(v, k, x, sev, file);
}

/// An `@if` anywhere in the template whose condition compares two literals and is
/// therefore always false (`==` of different literals, `!=` of equal ones) is
/// reported at its offset, unless the rule is off.
pub proof fn law_always_false_if_reported_at_any_depth(module: Module, config: LintConfig, file: Seq<char>, b: IfBlock)
    requires
        nodes_within(module.body@, Node::If(b)),
        match b.condition {
            Condition::Eq(l, r) => is_literal_expr(l) && is_literal_expr(r) && !expr_equiv(l, r),
            Condition::NotEq(l, r) => is_literal_expr(l) && is_literal_expr(r) && expr_equiv(l, r),
            _ => false,
        },
        effective_severity(config, RULE@, Severity::Error) != Severity::Off,
    ensures
        exists|j: int| 0 <= j < unreachable_branch_findings(module, config, file).len()
            && (#[trigger] unreachable_branch_findings(module, config, file)[j]).0 == RULE@
            && unreachable_branch_findings(module, config, file)[j].2 == "@if condition is always false — the then-body is dead code."@
            && (unreachable_branch_findings(module, config, file)[j].4 matches Some(sp) && sp.offset == b.offset),
{
    let sev = effective_severity(config, RULE@, Severity::Error);
    let p = ub_primary(b, sev, file);
    let x = p[0];
    assert(p.contains(x));
    lemma_ub_if_has(b, x, sev, file);
    lemma_ub_nodes_within(module.body@, b, x, sev, file);
    let fs = unreachable_branch_findings(module, config, file);
    let j = choose|j: int| 0 <= j < fs.len() && fs[j] == x;
    assert(fs[j].0 == RULE@);
}

/// An `@elseif` arm, of an `@if` anywhere in the template, whose condition is
/// structurally identical to the `@if`'s condition is reported at the arm's offset,
/// unless the rule is off.
pub proof fn law_repeated_elseif_reported_at_any_depth(module: Module, config: LintConfig, file: Seq<char>, b: IfBlock, i: int)
    requires
        nodes_within(module.body@, Node::If(b)),
        0 <= i < b.elseif_branches@.len(),
        cond_equiv(b.condition, b.elseif_branches@[i].condition),
        effective_severity(config, RULE@, Severity::Error) != Severity::Off,
    ensures
        exists|j: int| 0 <= j < unreachable_branch_findings(module, config, file).len()
            && (#[trigger] unreachable_branch_findings(module, config, file)[j]).0 == RULE@
            && (unreachable_branch_findings(module, config, file)[j].4 matches Some(sp) && sp.offset == b.elseif_branches@[i].offset),
{
    let sev = effective_severity(config, RULE@, Severity::Error);
    let a = ub_arm(b, i, sev, file);
    let x = a[0];
    assert(a.contains(x));
    lemma_ub_arms_has(b, i, b.elseif_branches@.len() as int, x, sev, file);
    lemma_ub_if_has(b, x, sev, file);
    lemma_ub_nodes_within(module.body@, b, x, sev, file);
    let fs = unreachable_branch_findings(module, config, file);
    let j = choose|j: int| 0 <= j < fs.len() && fs[j] == x;
    assert(fs[j].0 == RULE@);
}

} // verus!
