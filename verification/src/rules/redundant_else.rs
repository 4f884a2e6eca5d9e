//! Rule `redundant-else` (default warn, report only): an `@if` without `@elseif`
//! whose `@else` body is structurally identical to its then-body, at any depth.
use vstd::prelude::*;
use crate::ast::{arms_within, node_within, nodes_within, ElseifBranch, IfBlock, Module, Node};
use crate::config::LintConfig;
use crate::diagnostic::{LintDiagnostic, LintResultBuilder, Severity, MAX_DIAGNOSTICS};
use crate::facts::AnalysisContext;
use crate::rules::common::{effective_severity, emit_more, emitted, finding_view, lemma_emitted_saturated,
    lemma_emitted_start, make_diag, resolve_severity, rule_findings, saturated, spanned_finding, FindingView};
use crate::rules::structural_eq::{nodes_eq, nodes_equiv};

verus! {

/// The rule's name.
pub const RULE: &'static str = "redundant-else";

/// The finding of an `@if` without `@elseif` whose `@else` body is structurally
/// identical to its then-body.
pub open spec fn re_own(b: IfBlock, sev: Severity, file: Seq<char>) -> Seq<FindingView> {
    match b.else_body {
        Some(e) => if b.elseif_branches@.len() == 0 && nodes_equiv(b.then_body@, e@) {
            seq![spanned_finding(RULE@, sev, file,
                "The @else body is identical to the @if body — the conditional produces the same output regardless of the condition."@,
                "Remove the @else branch or make its content different from the @if body."@, b.offset, 3, None)]
        } else {
            Seq::empty()
        },
        None => Seq::empty(),
    }
}

/// The findings of a list of nodes, in order.
pub open spec fn re_nodes(nodes: Seq<Node>, sev: Severity, file: Seq<char>) -> Seq<FindingView>
    decreases nodes, 2int,
{
    if nodes.len() == 0 {
        Seq::empty()
    } else {
        re_nodes(nodes.drop_last(), sev, file) + re_node(nodes.last(), sev, file)
    }
}

/// The findings of one node and the bodies inside it.
pub open spec fn re_node(n: Node, sev: Severity, file: Seq<char>) -> Seq<FindingView>
    decreases n, 1int,
{
    match n {
        Node::If(b) => re_if(b, sev, file),
        Node::For(b) => re_nodes(b.body@, sev, file),
        Node::Define(b) => re_nodes(b.body@, sev, file),
        Node::Message(b) => re_nodes(b.body@, sev, file),
        Node::Block(b) => re_nodes(b.body@, sev, file),
        _ => Seq::empty(),
    }
}

/// The findings inside the `@elseif` arms `0..i` of `b`.
pub open spec fn re_elseifs(b: IfBlock, i: int, sev: Severity, file: Seq<char>) -> Seq<FindingView>
    decreases b, 0int, i,
{
    if i <= 0 || i > b.elseif_branches@.len() {
        Seq::empty()
    } else {
        re_elseifs(b, i - 1, sev, file) + re_nodes(b.elseif_branches@[i - 1].body@, sev, file)
    }
}

/// The findings inside the `@else` of `b`.
pub open spec fn re_else(b: IfBlock, sev: Severity, file: Seq<char>) -> Seq<FindingView>
    decreases b, 0int, 0int,
{
    match b.else_body {
        Some(e) => re_nodes(e@, sev, file),
        None => Seq::empty(),
    }
}

/// The findings of an `@if`: its own, then those inside its then-body, its
/// `@elseif` arms and its `@else`.
pub open spec fn re_if(b: IfBlock, sev: Severity, file: Seq<char>) -> Seq<FindingView>
    decreases b, 0int, b.elseif_branches@.len() + 1,
{
    re_own(b, sev, file) + re_nodes(b.then_body@, sev, file) + re_elseifs(b, b.elseif_branches@.len() as int, sev, file)
        + re_else(b, sev, file)
}

/// The findings of the rule over the module body.
pub open spec fn redundant_else_findings(module: Module, config: LintConfig, file: Seq<char>) -> Seq<FindingView> {
    let sev = effective_severity(config, RULE@, Severity::Warn);
    if sev == Severity::Off { Seq::empty() } else { re_nodes(module.body@, sev, file) }
}

proof fn lemma_re_nodes_split(s: Seq<Node>, j: int, sev: Severity, file: Seq<char>)
    requires
        0 <= j <= s.len(),
    ensures
        re_nodes(s, sev, file) == re_nodes(s.take(j), sev, file) + re_nodes(s.skip(j), sev, file),
    decreases s.len(),
{
    if j == s.len() {
        assert(s.take(j) =~= s);
        assert(s.skip(j) =~= Seq::<Node>::empty());
        assert(re_nodes(s, sev, file) + Seq::<FindingView>::empty() =~= re_nodes(s, sev, file));
    } else {
        let dl = s.drop_last();
        lemma_re_nodes_split(dl, j, sev, file);
        assert(dl.take(j) =~= s.take(j));
        assert(s.skip(j).drop_last() =~= dl.skip(j));
        assert(s.skip(j).last() == s.last());
        assert(re_nodes(s.skip(j), sev, file) == re_nodes(dl.skip(j), sev, file) + re_node(s.last(), sev, file));
        assert(re_nodes(s, sev, file) =~= re_nodes(s.take(j), sev, file) + re_nodes(s.skip(j), sev, file));
    }
}

proof fn lemma_re_elseifs_prefix(b: IfBlock, i: int, n: int, sev: Severity, file: Seq<char>)
    requires
        0 <= i <= n <= b.elseif_branches@.len(),
    ensures
        re_elseifs(b, i, sev, file).len() <= re_elseifs(b, n, sev, file).len(),
        re_elseifs(b, n, sev, file).subrange(0, re_elseifs(b, i, sev, file).len() as int) == re_elseifs(b, i, sev, file),
    decreases n - i,
{
    if i < n {
        lemma_re_elseifs_prefix(b, i, n - 1, sev, file);
        let pre = re_elseifs(b, i, sev, file);
        let mid = re_elseifs(b, n - 1, sev, file);
        let all = re_elseifs(b, n, sev, file);
        assert(all.subrange(0, mid.len() as int) =~= mid);
        assert(all.subrange(0, pre.len() as int) =~= mid.subrange(0, pre.len() as int));
    }
}

/// Check every `@if` of the module.
pub fn check(module: &Module, ctx: &AnalysisContext, filename: &str, config: &LintConfig, builder: &mut LintResultBuilder)
    requires
        old(builder).wf(),
    ensures
        final(builder).wf(),
        rule_findings(old(builder).diagnostics@, final(builder).diagnostics@, RULE@,
            effective_severity(*config, RULE@, Severity::Warn), filename@),
        emitted(old(builder).diagnostics@, old(builder).truncated, final(builder).diagnostics@, final(builder).truncated,
            redundant_else_findings(*module, *config, filename@)),
        effective_severity(*config, RULE@, Severity::Warn) == Severity::Off ==> final(builder).diagnostics@ == old(builder).diagnostics@,
{
    let severity = resolve_severity(config, RULE, Severity::Warn);
    let ghost start = builder.diagnostics@;
    let ghost st = builder.truncated;
    assert(builder.diagnostics@.subrange(0, start.len() as int) =~= start);
    proof {
        lemma_emitted_start(*builder);
    }
    if severity == Severity::Off {
        return;
    }
    check_nodes(&module.body, filename, severity, builder, Ghost(start), Ghost(st), Ghost(Seq::empty()));
    assert(Seq::<FindingView>::empty() + re_nodes(module.body@, severity, filename@) =~= re_nodes(module.body@, severity, filename@));
}

/// Check a list of nodes; `true` when the collector is saturated.
fn check_nodes(nodes: &Vec<Node>, filename: &str, severity: Severity, builder: &mut LintResultBuilder,
    Ghost(start): Ghost<Seq<LintDiagnostic>>, Ghost(st): Ghost<bool>, Ghost(e): Ghost<Seq<FindingView>>) -> (stop: bool)
    requires
        old(builder).wf(),
        start.len() <= MAX_DIAGNOSTICS,
        rule_findings(start, old(builder).diagnostics@, RULE@, severity, filename@),
        emitted(start, st, old(builder).diagnostics@, old(builder).truncated, e),
    ensures
        final(builder).wf(),
        rule_findings(start, final(builder).diagnostics@, RULE@, severity, filename@),
        emitted(start, st, final(builder).diagnostics@, final(builder).truncated, e + re_nodes(nodes@, severity, filename@)),
        stop ==> saturated(start, e + re_nodes(nodes@, severity, filename@)),
    decreases nodes, 1int,
{
    let ghost sev = severity;
    let ghost file = filename@;
    let mut i: usize = 0;
    assert(nodes@.take(0) =~= Seq::<Node>::empty());
    assert(e + re_nodes(nodes@.take(0), sev, file) =~= e);
    while i < nodes.len()
        invariant
            i <= nodes@.len(),
            builder.wf(),
            start.len() <= MAX_DIAGNOSTICS,
            sev == severity,
            file == filename@,
            rule_findings(start, builder.diagnostics@, RULE@, severity, filename@),
            emitted(start, st, builder.diagnostics@, builder.truncated, e + re_nodes(nodes@.take(i as int), sev, file)),
        decreases nodes@.len() - i,
    {
        proof { assert(decreases_to!(nodes => nodes@[i as int])); }
        let ghost cur = e + re_nodes(nodes@.take(i as int), sev, file);
        let ghost node = nodes@[i as int];
        assert(nodes@.take(i + 1).drop_last() =~= nodes@.take(i as int));
        assert(nodes@.take(i + 1).last() == node);
        assert(e + re_nodes(nodes@.take(i + 1), sev, file) =~= cur + re_node(node, sev, file));
        let stop = match &nodes[i] {
            Node::If(b) => check_if(b, filename, severity, builder, Ghost(start), Ghost(st), Ghost(cur)),
            Node::For(b) => check_nodes(&b.body, filename, severity, builder, Ghost(start), Ghost(st), Ghost(cur)),
            Node::Define(b) => check_nodes(&b.body, filename, severity, builder, Ghost(start), Ghost(st), Ghost(cur)),
            Node::Message(b) => check_nodes(&b.body, filename, severity, builder, Ghost(start), Ghost(st), Ghost(cur)),
            Node::Block(b) => check_nodes(&b.body, filename, severity, builder, Ghost(start), Ghost(st), Ghost(cur)),
            _ => {
                assert(cur + re_node(node, sev, file) =~= cur);
                false
            },
        };
        if stop {
            proof {
                let next = e + re_nodes(nodes@.take(i + 1), sev, file);
                let rest = re_nodes(nodes@.skip(i + 1), sev, file);
                lemma_re_nodes_split(nodes@, i + 1, sev, file);
                lemma_emitted_saturated(start, st, builder.diagnostics@, builder.truncated, next, rest);
                assert(next + rest =~= e + re_nodes(nodes@, sev, file));
            }
            return true;
        }
        i = i + 1;
    }
    assert(nodes@.take(nodes@.len() as int) =~= nodes@);
    false
}

/// Check one `@if` and the bodies inside it; `true` when the collector is saturated.
fn check_if(b: &IfBlock, filename: &str, severity: Severity, builder: &mut LintResultBuilder,
    Ghost(start): Ghost<Seq<LintDiagnostic>>, Ghost(st): Ghost<bool>, Ghost(e): Ghost<Seq<FindingView>>) -> (stop: bool)
    requires
        old(builder).wf(),
        start.len() <= MAX_DIAGNOSTICS,
        rule_findings(start, old(builder).diagnostics@, RULE@, severity, filename@),
        emitted(start, st, old(builder).diagnostics@, old(builder).truncated, e),
    ensures
        final(builder).wf(),
        rule_findings(start, final(builder).diagnostics@, RULE@, severity, filename@),
        emitted(start, st, final(builder).diagnostics@, final(builder).truncated, e + re_if(*b, severity, filename@)),
        stop ==> saturated(start, e + re_if(*b, severity, filename@)),
    decreases b, 0int,
{
    let ghost sev = severity;
    let ghost file = filename@;
    let ghost own = re_own(*b, sev, file);
    let ghost then_part = re_nodes(b.then_body@, sev, file);
    let ghost else_part = re_else(*b, sev, file);
    let n = b.elseif_branches.len();
    let ghost elseifs = re_elseifs(*b, n as int, sev, file);
    assert(re_if(*b, sev, file) == own + then_part + elseifs + else_part);
    let mut found: Option<LintDiagnostic> = None;
    if let Some(else_body) = &b.else_body {
        if b.elseif_branches.len() == 0 && nodes_eq(&b.then_body, else_body) {
            found = Some(make_diag(RULE, severity, filename,
                String::from_str("The @else body is identical to the @if body — the conditional produces the same output regardless of the condition."),
                Some(String::from_str("Remove the @else branch or make its content different from the @if body.")),
                b.offset, 3, None));
        }
    }
    match found {
        Some(d) => {
            assert(own == seq![finding_view(d)]);
            let accepted = emit_more(builder, d, Ghost(start), Ghost(st), Ghost(e), Ghost(RULE@), Ghost(severity), Ghost(filename@));
            assert(e.push(finding_view(d)) =~= e + own);
            if !accepted {
                proof {
                    lemma_emitted_saturated(start, st, builder.diagnostics@, builder.truncated, e + own, then_part + elseifs + else_part);
                    assert(e + own + (then_part + elseifs + else_part) =~= e + re_if(*b, sev, file));
                }
                return true;
            }
        },
        None => {
            assert(own =~= Seq::<FindingView>::empty());
            assert(e + own =~= e);
        },
    }
    let ghost after_own = e + own;
    if check_nodes(&b.then_body, filename, severity, builder, Ghost(start), Ghost(st), Ghost(after_own)) {
        proof {
            lemma_emitted_saturated(start, st, builder.diagnostics@, builder.truncated, after_own + then_part, elseifs + else_part);
            assert(after_own + then_part + (elseifs + else_part) =~= e + re_if(*b, sev, file));
        }
        return true;
    }
    let ghost base = after_own + then_part;
    let mut j: usize = 0;
    assert(base + re_elseifs(*b, 0, sev, file) =~= base);
    while j < n
        invariant
            j <= n == b.elseif_branches@.len(),
            builder.wf(),
            start.len() <= MAX_DIAGNOSTICS,
            sev == severity,
            file == filename@,
            elseifs == re_elseifs(*b, n as int, sev, file),
            base + elseifs + else_part == e + re_if(*b, sev, file),
            rule_findings(start, builder.diagnostics@, RULE@, severity, filename@),
            emitted(start, st, builder.diagnostics@, builder.truncated, base + re_elseifs(*b, j as int, sev, file)),
        decreases n - j,
    {
        proof {
            assert(decreases_to!(b => b.elseif_branches));
            assert(decreases_to!(b.elseif_branches => b.elseif_branches@[j as int]));
        }
        let ghost cur = base + re_elseifs(*b, j as int, sev, file);
        assert(re_elseifs(*b, j + 1, sev, file) == re_elseifs(*b, j as int, sev, file) + re_nodes(b.elseif_branches@[j as int].body@, sev, file));
        if check_nodes(&b.elseif_branches[j].body, filename, severity, builder, Ghost(start), Ghost(st), Ghost(cur)) {
            proof {
                let done = base + re_elseifs(*b, j + 1, sev, file);
                assert(done =~= cur + re_nodes(b.elseif_branches@[j as int].body@, sev, file));
                lemma_re_elseifs_prefix(*b, j + 1, n as int, sev, file);
                let pre = re_elseifs(*b, j + 1, sev, file);
                let rest = elseifs.skip(pre.len() as int) + else_part;
                assert(elseifs =~= pre + elseifs.skip(pre.len() as int));
                lemma_emitted_saturated(start, st, builder.diagnostics@, builder.truncated, done, rest);
                assert(done + rest =~= base + elseifs + else_part);
            }
            return true;
        }
        assert(cur + re_nodes(b.elseif_branches@[j as int].body@, sev, file) =~= base + re_elseifs(*b, j + 1, sev, file));
        j = j + 1;
    }
    let ghost cur = base + elseifs;
    if let Some(else_body) = &b.else_body {
        let stop = check_nodes(else_body, filename, severity, builder, Ghost(start), Ghost(st), Ghost(cur));
        assert(cur + re_nodes(else_body@, sev, file) =~= e + re_if(*b, sev, file));
        stop
    } else {
        assert(cur + else_part =~= e + re_if(*b, sev, file));
        false
    }
}

// ── Reported at any depth ────────────────────────────────────────────────────

/// The findings of a node of a list are findings of the list.
proof fn lemma_re_nodes_has(v: Seq<Node>, k: int, x: FindingView, sev: Severity, file: Seq<char>)
    requires
        0 <= k < v.len(),
        re_node(v[k], sev, file).contains(x),
    ensures
        re_nodes(v, sev, file).contains(x),
    decreases v.len(),
{
    let a = re_nodes(v.drop_last(), sev, file);
    let c = re_node(v.last(), sev, file);
    if k == v.len() - 1 {
        let j = choose|j: int| 0 <= j < c.len() && c[j] == x;
        assert((a + c)[a.len() + j] == x);
    } else {
        assert(v.drop_last()[k] == v[k]);
        lemma_re_nodes_has(v.drop_last(), k, x, sev, file);
        let j = choose|j: int| 0 <= j < a.len() && a[j] == x;
        assert((a + c)[j] == x);
    }
}

/// The findings inside the body of `@elseif` arm `k` are findings of the arms `0..i`.
proof fn lemma_re_elseifs_has(b: IfBlock, k: int, i: int, x: FindingView, sev: Severity, file: Seq<char>)
    requires
        0 <= k < i <= b.elseif_branches@.len(),
        re_nodes(b.elseif_branches@[k].body@, sev, file).contains(x),
    ensures
        re_elseifs(b, i, sev, file).contains(x),
    decreases i,
{
    let a = re_elseifs(b, i - 1, sev, file);
    let c = re_nodes(b.elseif_branches@[i - 1].body@, sev, file);
    if k == i - 1 {
        let j = choose|j: int| 0 <= j < c.len() && c[j] == x;
        assert((a + c)[a.len() + j] == x);
    } else {
        lemma_re_elseifs_has(b, k, i - 1, x, sev, file);
        let j = choose|j: int| 0 <= j < a.len() && a[j] == x;
        assert((a + c)[j] == x);
    }
}

/// `x` is a finding of one of the four parts of an `@if`'s findings.
proof fn lemma_concat4_has(p: Seq<FindingView>, q: Seq<FindingView>, r: Seq<FindingView>, t: Seq<FindingView>, x: FindingView)
    requires
        p.contains(x) || q.contains(x) || r.contains(x) || t.contains(x),
    ensures
        (p + q + r + t).contains(x),
{
    let all = p + q + r + t;
    if p.contains(x) {
        let j = choose|j: int| 0 <= j < p.len() && p[j] == x;
        assert(all[j] == x);
    } else if q.contains(x) {
        let j = choose|j: int| 0 <= j < q.len() && q[j] == x;
        assert(all[p.len() + j] == x);
    } else if r.contains(x) {
        let j = choose|j: int| 0 <= j < r.len() && r[j] == x;
        assert(all[p.len() + q.len() + j] == x);
    } else {
        let j = choose|j: int| 0 <= j < t.len() && t[j] == x;
        assert(all[p.len() + q.len() + r.len() + j] == x);
    }
}

/// An `@if` inside `m` at any depth has its own finding among those of `m`.
proof fn lemma_re_node_within(m: Node, b: IfBlock, x: FindingView, sev: Severity, file: Seq<char>)
    requires
        node_within(m, Node::If(b)),
        re_own(b, sev, file).contains(x),
    ensures
        re_node(m, sev, file).contains(x),
    decreases m,
{
    if m == Node::If(b) {
        lemma_concat4_has(re_own(b, sev, file), re_nodes(b.then_body@, sev, file),
            re_elseifs(b, b.elseif_branches@.len() as int, sev, file), re_else(b, sev, file), x);
    } else {
        match m {
            Node::If(b2) => {
                if nodes_within(b2.then_body@, Node::If(b)) {
                    lemma_re_nodes_within(b2.then_body@, b, x, sev, file);
                } else if arms_within(b2.elseif_branches@, Node::If(b)) {
                    let k = choose|k: int| 0 <= k < b2.elseif_branches@.len()
                        && nodes_within((#[trigger] b2.elseif_branches@[k]).body@, Node::If(b));
                    assert(decreases_to!(m => b2.elseif_branches@[k].body@)) by {
                        assert(decreases_to!(m => b2));
                        assert(decreases_to!(b2 => b2.elseif_branches));
                        assert(decreases_to!(b2.elseif_branches => b2.elseif_branches@));
                        assert(decreases_to!(b2.elseif_branches@ => b2.elseif_branches@[k]));
                        assert(decreases_to!(b2.elseif_branches@[k] => b2.elseif_branches@[k].body));
                        assert(decreases_to!(b2.elseif_branches@[k].body => b2.elseif_branches@[k].body@));
                    }
                    lemma_re_nodes_within(b2.elseif_branches@[k].body@, b, x, sev, file);
                    lemma_re_elseifs_has(b2, k, b2.elseif_branches@.len() as int, x, sev, file);
                } else {
                    if let Some(e) = b2.else_body {
                        lemma_re_nodes_within(e@, b, x, sev, file);
                    }
                }
                lemma_concat4_has(re_own(b2, sev, file), re_nodes(b2.then_body@, sev, file),
                    re_elseifs(b2, b2.elseif_branches@.len() as int, sev, file), re_else(b2, sev, file), x);
            },
            Node::For(b2) => { lemma_re_nodes_within(b2.body@, b, x, sev, file); },
            Node::Define(b2) => { lemma_re_nodes_within(b2.body@, b, x, sev, file); },
            Node::Message(b2) => { lemma_re_nodes_within(b2.body@, b, x, sev, file); },
            Node::Block(b2) => { lemma_re_nodes_within(b2.body@, b, x, sev, file); },
            _ => {},
        }
    }
}

/// An `@if` inside a list at any depth has its own finding among the list's.
proof fn lemma_re_nodes_within(v: Seq<Node>, b: IfBlock, x: FindingView, sev: Severity, file: Seq<char>)
    requires
        nodes_within(v, Node::If(b)),
        re_own(b, sev, file).contains(x),
    ensures
        re_nodes(v, sev, file).contains(x),
    decreases v,
{
    let k = choose|k: int| 0 <= k < v.len() && node_within(#[trigger] v[k], Node::If(b));
    lemma_re_node_within(v[k], b, x, sev, file);
    lemma_re_nodes_has(v, k, x, sev, file);
}

/// Every `@if` without `@elseif` whose `@else` body is structurally identical to its
/// then-body, anywhere in the template (inside `@if`, `@elseif`, `@else`, `@for`,
/// `@define`, `@message` and `@block` bodies too), is reported by the rule at its
/// offset, unless the rule is off.
pub proof fn law_redundant_else_reported_at_any_depth(module: Module, config: LintConfig, file: Seq<char>, b: IfBlock)
    requires
        nodes_within(module.body@, Node::If(b)),
        b.elseif_branches@.len() == 0,
        (b.else_body matches Some(e) && nodes_equiv(b.then_body@, e@)),
        effective_severity(config, RULE@, Severity::Warn) != Severity::Off,
    ensures
        exists|j: int| 0 <= j < redundant_else_findings(module, config, file).len()
            && (#[trigger] redundant_else_findings(module, config, file)[j]).0 == RULE@
            && (redundant_else_findings(module, config, file)[j].4 matches Some(sp) && sp.offset == b.offset),
{
    let sev = effective_severity(config, RULE@, Severity::Warn);
    let own = re_own(b, sev, file);
    assert(own.len() == 1);
    let x = own[0];
    assert(own.contains(x));
    lemma_re_nodes_within(module.body@, b, x, sev, file);
    let fs = redundant_else_findings(module, config, file);
    let j = choose|j: int| 0 <= j < fs.len() && fs[j] == x;
    assert(fs[j].0 == RULE@);
}

} // verus!
