//! Rule `empty-block` (default warn, fixable): an `@if`, `@elseif`, `@else`,
//! `@for`, `@define` or `@message` body that is empty or white space only.
//! `@block` bodies are never flagged: an empty `@block` is the placeholder that
//! inherits the parent's default.
use vstd::prelude::*;
use crate::ast::{arms_within, node_within, nodes_within, IfBlock, Module, Node};
use crate::config::LintConfig;
use crate::diagnostic::{FixLineSpan, LintDiagnostic, LintResultBuilder, Severity, MAX_DIAGNOSTICS};
use crate::facts::AnalysisContext;
use crate::parser_helpers::msg3;
use crate::rules::common::{effective_severity, emit_more, emitted, exclusive_span, finding_of, finding_view,
    inclusive_span, lemma_emitted_saturated, lemma_emitted_start, make_diag, resolve_severity, rule_findings, saturated,
    spanned_finding, FindingView};
use crate::text::utf8;

verus! {

/// The rule's name.
pub const RULE: &'static str = "empty-block";

/// A Unicode white-space character (the `White_Space` property).
pub open spec fn is_ws(c: char) -> bool {
    let u = c as u32;
    (0x09 <= u <= 0x0D) || u == 0x20 || u == 0x85 || u == 0xA0 || u == 0x1680 || (0x2000 <= u <= 0x200A)
        || u == 0x2028 || u == 0x2029 || u == 0x202F || u == 0x205F || u == 0x3000
}

/// A body with no nodes, or only text nodes of white space.
pub open spec fn blank_body(body: Seq<Node>) -> bool {
    forall|k: int| 0 <= k < body.len() ==> (#[trigger] body[k] matches Node::Text(t)
        && forall|j: int| 0 <= j < t.text@.len() ==> is_ws(#[trigger] t.text@[j]))
}

/// The finding of an empty body of the directive at `offset`.
pub open spec fn eb_finding(sev: Severity, file: Seq<char>, message: Seq<char>, help: Seq<char>, offset: usize,
    length: usize, fix: Option<Seq<FixLineSpan>>) -> FindingView
{
    spanned_finding(RULE@, sev, file, message, help, offset, length, fix)
}

/// The findings of a body: the given finding when the body is blank, else the
/// findings inside it.
pub open spec fn eb_body(body: Seq<Node>, d: FindingView, sev: Severity, file: Seq<char>) -> Seq<FindingView>
    decreases body, 3int,
{
    if blank_body(body) { seq![d] } else { eb_nodes(body, sev, file) }
}

/// The findings of a list of nodes, in order.
pub open spec fn eb_nodes(nodes: Seq<Node>, sev: Severity, file: Seq<char>) -> Seq<FindingView>
    decreases nodes, 2int,
{
    if nodes.len() == 0 {
        Seq::empty()
    } else {
        eb_nodes(nodes.drop_last(), sev, file) + eb_node(nodes.last(), sev, file)
    }
}

/// The findings of one node.
pub open spec fn eb_node(n: Node, sev: Severity, file: Seq<char>) -> Seq<FindingView>
    decreases n, 1int,
{
    match n {
        Node::If(b) => eb_if(b, sev, file),
        Node::For(b) => eb_body(b.body@, eb_finding(sev, file, "@for body is empty."@,
            "Add content inside the @for block or remove it."@, b.offset, 4,
            Some(seq![FixLineSpan { from: b.offset, to: b.end_offset, to_inclusive: true }])), sev, file),
        Node::Define(b) => eb_body(b.body@, eb_finding(sev, file, "@define '"@ + b.name@ + "' body is empty."@,
            "Add a body to the function or remove the definition."@, b.offset,
            vstd::wrapping::usize_specs::wrapping_add(8, utf8(b.name@).len() as usize),
            Some(seq![FixLineSpan { from: b.offset, to: b.end_offset, to_inclusive: true }])), sev, file),
        Node::Message(b) => eb_body(b.body@, eb_finding(sev, file, "@message body is empty."@,
            "Add content to the message block or remove it. Empty @message is allowed for priming but often accidental."@,
            b.offset, 8, None), sev, file),
        Node::Block(b) => eb_nodes(b.body@, sev, file),
        _ => Seq::empty(),
    }
}

/// The findings of the `@elseif` arms `0..i` of `b`.
pub open spec fn eb_elseifs(b: IfBlock, i: int, sev: Severity, file: Seq<char>) -> Seq<FindingView>
    decreases b, 0int, i,
{
    if i <= 0 || i > b.elseif_branches@.len() {
        Seq::empty()
    } else {
        let br = b.elseif_branches@[i - 1];
        let last = i == b.elseif_branches@.len() && b.else_body is None;
        eb_elseifs(b, i - 1, sev, file) + eb_body(br.body@, eb_finding(sev, file, "@elseif body is empty."@,
            "Add content inside the @elseif block or remove it."@, br.offset, 7,
            if last { Some(seq![FixLineSpan { from: br.offset, to: b.end_offset, to_inclusive: false }]) } else { None }),
            sev, file)
    }
}

/// The findings of an `@if`: its then-body, each `@elseif` arm, then its `@else`.
pub open spec fn eb_if(b: IfBlock, sev: Severity, file: Seq<char>) -> Seq<FindingView>
    decreases b, 0int, b.elseif_branches@.len() + 1,
{
    let then_fix = if b.elseif_branches@.len() == 0 && b.else_body is None {
        Some(seq![FixLineSpan { from: b.offset, to: b.end_offset, to_inclusive: true }])
    } else {
        None
    };
    eb_body(b.then_body@, eb_finding(sev, file, "@if then-body is empty."@,
        "Add content inside the @if block or remove it."@, b.offset, 3, then_fix), sev, file)
        + eb_elseifs(b, b.elseif_branches@.len() as int, sev, file)
        + eb_else(b, sev, file)
}

/// The findings of the `@else` of `b`, if it has one.
pub open spec fn eb_else(b: IfBlock, sev: Severity, file: Seq<char>) -> Seq<FindingView>
    decreases b, 0int, 0int,
{
    match b.else_body {
        Some(e) => {
            let off = match b.else_offset { Some(o) => o, None => b.offset };
            eb_body(e@, eb_finding(sev, file, "@else body is empty."@,
                "Add content inside the @else block or remove it."@, off, 5,
                Some(seq![FixLineSpan { from: off, to: b.end_offset, to_inclusive: false }])), sev, file)
        },
        None => Seq::empty(),
    }
}

/// The findings of the rule over the module body.
pub open spec fn empty_block_findings(module: Module, config: LintConfig, file: Seq<char>) -> Seq<FindingView> {
    let sev = effective_severity(config, RULE@, Severity::Warn);
    if sev == Severity::Off { Seq::empty() } else { eb_nodes(module.body@, sev, file) }
}

/// `eb_nodes` of a list is that of a prefix followed by that of the rest.
proof fn lemma_eb_nodes_split(s: Seq<Node>, j: int, sev: Severity, file: Seq<char>)
    requires
        0 <= j <= s.len(),
    ensures
        eb_nodes(s, sev, file) == eb_nodes(s.take(j), sev, file) + eb_nodes(s.skip(j), sev, file),
    decreases s.len(),
{
    if j == s.len() {
        assert(s.take(j) =~= s);
        assert(s.skip(j) =~= Seq::<Node>::empty());
        assert(eb_nodes(s, sev, file) + Seq::<FindingView>::empty() =~= eb_nodes(s, sev, file));
    } else {
        let dl = s.drop_last();
        lemma_eb_nodes_split(dl, j, sev, file);
        assert(dl.take(j) =~= s.take(j));
        assert(s.skip(j).drop_last() =~= dl.skip(j));
        assert(s.skip(j).last() == s.last());
        assert(eb_nodes(s.skip(j), sev, file) == eb_nodes(dl.skip(j), sev, file) + eb_node(s.last(), sev, file));
        assert(eb_nodes(s, sev, file) =~= eb_nodes(s.take(j), sev, file) + eb_nodes(s.skip(j), sev, file));
    }
}

/// Check every block body of the module.
pub fn check(module: &Module, ctx: &AnalysisContext, filename: &str, config: &LintConfig, builder: &mut LintResultBuilder)
    requires
        old(builder).wf(),
    ensures
        final(builder).wf(),
        rule_findings(old(builder).diagnostics@, final(builder).diagnostics@, RULE@,
            effective_severity(*config, RULE@, Severity::Warn), filename@),
        emitted(old(builder).diagnostics@, old(builder).truncated, final(builder).diagnostics@, final(builder).truncated,
            empty_block_findings(*module, *config, filename@)),
        effective_severity(*config, RULE@, Severity::Warn) == Severity::Off ==> final(builder).diagnostics@ == old(builder).diagnostics@,
{
    let severity = resolve_severity(config, RULE, Severity::Warn);
    let ghost start = builder.diagnostics@;
    let ghost st = builder.truncated;
    assert(builder.diagnostics@.subrange(0, start.len() as int) =~= start);
    proof {
        lemma_emitted_start(*builder);
    }
    if severity == Severity::Off {
        return;
    }
    check_nodes(&module.body, filename, severity, builder, Ghost(start), Ghost(st), Ghost(Seq::empty()));
    assert(Seq::<FindingView>::empty() + eb_nodes(module.body@, severity, filename@) =~= eb_nodes(module.body@, severity, filename@));
}

/// A Unicode white-space character.
fn is_ws_char(c: char) -> (r: bool)
    ensures
        r == is_ws(c),
{
    let u = c as u32;
    (0x09 <= u && u <= 0x0D) || u == 0x20 || u == 0x85 || u == 0xA0 || u == 0x1680 || (0x2000 <= u && u <= 0x200A)
        || u == 0x2028 || u == 0x2029 || u == 0x202F || u == 0x205F || u == 0x3000
}

/// A text that is white space only.
fn is_blank_text(t: &str) -> (r: bool)
    ensures
        r == forall|j: int| 0 <= j < t@.len() ==> is_ws(#[trigger] t@[j]),
{
    let chars = crate::text::chars_of(t);
    let mut i: usize = 0;
    while i < chars.len()
        invariant
            i <= chars@.len(),
            chars@ == t@,
            forall|j: int| 0 <= j < i ==> is_ws(#[trigger] t@[j]),
        decreases chars@.len() - i,
    {
        if !is_ws_char(chars[i]) {
            return false;
        }
        i = i + 1;
    }
    true
}

/// The body has no nodes, or only white-space text.
pub fn is_empty_or_whitespace(body: &Vec<Node>) -> (r: bool)
    ensures
        r == blank_body(body@),
{
    let mut i: usize = 0;
    while i < body.len()
        invariant
            i <= body@.len(),
            forall|k: int| 0 <= k < i ==> (#[trigger] body@[k] matches Node::Text(t)
                && forall|j: int| 0 <= j < t.text@.len() ==> is_ws(#[trigger] t.text@[j])),
        decreases body@.len() - i,
    {
        match &body[i] {
            Node::Text(t) => {
                if !is_blank_text(t.text.as_str()) {
                    return false;
                }
            },
            _ => return false,
        }
        i = i + 1;
    }
    true
}

/// Flag `body` with `diag` when it is empty; otherwise check inside it. Returns
/// `true` when the collector is saturated.
fn flag_if_empty(body: &Vec<Node>, filename: &str, severity: Severity, diag: LintDiagnostic, builder: &mut LintResultBuilder,
    Ghost(start): Ghost<Seq<LintDiagnostic>>, Ghost(st): Ghost<bool>, Ghost(e): Ghost<Seq<FindingView>>) -> (stop: bool)
    requires
        old(builder).wf(),
        start.len() <= MAX_DIAGNOSTICS,
        rule_findings(start, old(builder).diagnostics@, RULE@, severity, filename@),
        emitted(start, st, old(builder).diagnostics@, old(builder).truncated, e),
        finding_of(diag, RULE@, severity, filename@),
    ensures
        final(builder).wf(),
        rule_findings(start, final(builder).diagnostics@, RULE@, severity, filename@),
        emitted(start, st, final(builder).diagnostics@, final(builder).truncated,
            e + eb_body(body@, finding_view(diag), severity, filename@)),
        stop ==> saturated(start, e + eb_body(body@, finding_view(diag), severity, filename@)),
    decreases body, 2int,
{
    if is_empty_or_whitespace(body) {
        let ghost v = finding_view(diag);
        let accepted = emit_more(builder, diag, Ghost(start), Ghost(st), Ghost(e), Ghost(RULE@), Ghost(severity), Ghost(filename@));
        assert(e.push(v) =~= e + seq![v]);
        !accepted
    } else {
        check_nodes(body, filename, severity, builder, Ghost(start), Ghost(st), Ghost(e))
    }
}

/// Check a list of nodes; `true` when the collector is saturated.
fn check_nodes(nodes: &Vec<Node>, filename: &str, severity: Severity, builder: &mut LintResultBuilder,
    Ghost(start): Ghost<Seq<LintDiagnostic>>, Ghost(st): Ghost<bool>, Ghost(e): Ghost<Seq<FindingView>>) -> (stop: bool)
    requires
        old(builder).wf(),
        start.len() <= MAX_DIAGNOSTICS,
        rule_findings(start, old(builder).diagnostics@, RULE@, severity, filename@),
        emitted(start, st, old(builder).diagnostics@, old(builder).truncated, e),
    ensures
        final(builder).wf(),
        rule_findings(start, final(builder).diagnostics@, RULE@, severity, filename@),
        emitted(start, st, final(builder).diagnostics@, final(builder).truncated, e + eb_nodes(nodes@, severity, filename@)),
        stop ==> saturated(start, e + eb_nodes(nodes@, severity, filename@)),
    decreases nodes, 1int,
{
    let ghost sev = severity;
    let ghost file = filename@;
    let mut i: usize = 0;
    assert(nodes@.take(0) =~= Seq::<Node>::empty());
    assert(e + eb_nodes(nodes@.take(0), sev, file) =~= e);
    while i < nodes.len()
        invariant
            i <= nodes@.len(),
            builder.wf(),
            start.len() <= MAX_DIAGNOSTICS,
            sev == severity,
            file == filename@,
            rule_findings(start, builder.diagnostics@, RULE@, severity, filename@),
            emitted(start, st, builder.diagnostics@, builder.truncated, e + eb_nodes(nodes@.take(i as int), sev, file)),
        decreases nodes@.len() - i,
    {
        proof { assert(decreases_to!(nodes => nodes@[i as int])); }
        let ghost cur = e + eb_nodes(nodes@.take(i as int), sev, file);
        let ghost node = nodes@[i as int];
        assert(nodes@.take(i + 1).drop_last() =~= nodes@.take(i as int));
        assert(nodes@.take(i + 1).last() == node);
        assert(e + eb_nodes(nodes@.take(i + 1), sev, file) =~= cur + eb_node(node, sev, file));
        let stop = match &nodes[i] {
            Node::If(b) => {
                check_if_block(b, filename, severity, builder, Ghost(start), Ghost(st), Ghost(cur))
            },
            Node::For(b) => {
                let d = make_diag(RULE, severity, filename, String::from_str("@for body is empty."),
                    Some(String::from_str("Add content inside the @for block or remove it.")), b.offset, 4,
                    Some(vec![inclusive_span(b.offset, b.end_offset)]));
                assert(finding_view(d) == eb_finding(sev, file, "@for body is empty."@,
                    "Add content inside the @for block or remove it."@, b.offset, 4,
                    Some(seq![FixLineSpan { from: b.offset, to: b.end_offset, to_inclusive: true }]))) by {
                    assert(d.fix_removals->0@ =~= seq![FixLineSpan { from: b.offset, to: b.end_offset, to_inclusive: true }]);
                }
                flag_if_empty(&b.body, filename, severity, d, builder, Ghost(start), Ghost(st), Ghost(cur))
            },
            Node::Define(b) => {
                let len = 8usize.wrapping_add(b.name.as_str().as_bytes().len());
                let d = make_diag(RULE, severity, filename, msg3("@define '", b.name.as_str(), "' body is empty."),
                    Some(String::from_str("Add a body to the function or remove the definition.")), b.offset, len,
                    Some(vec![inclusive_span(b.offset, b.end_offset)]));
                assert(finding_view(d) == eb_finding(sev, file, "@define '"@ + b.name@ + "' body is empty."@,
                    "Add a body to the function or remove the definition."@, b.offset,
                    vstd::wrapping::usize_specs::wrapping_add(8, utf8(b.name@).len() as usize),
                    Some(seq![FixLineSpan { from: b.offset, to: b.end_offset, to_inclusive: true }]))) by {
                    assert(d.fix_removals->0@ =~= seq![FixLineSpan { from: b.offset, to: b.end_offset, to_inclusive: true }]);
                }
                flag_if_empty(&b.body, filename, severity, d, builder, Ghost(start), Ghost(st), Ghost(cur))
            },
            Node::Message(b) => {
                let d = make_diag(RULE, severity, filename, String::from_str("@message body is empty."),
                    Some(String::from_str("Add content to the message block or remove it. Empty @message is allowed for priming but often accidental.")),
                    b.offset, 8, None);
                flag_if_empty(&b.body, filename, severity, d, builder, Ghost(start), Ghost(st), Ghost(cur))
            },
            Node::Block(b) => {
                check_nodes(&b.body, filename, severity, builder, Ghost(start), Ghost(st), Ghost(cur))
            },
            _ => {
                assert(eb_node(node, sev, file) =~= Seq::<FindingView>::empty());
                assert(cur + eb_node(node, sev, file) =~= cur);
                false
            },
        };
        if stop {
            proof {
                let next = e + eb_nodes(nodes@.take(i + 1), sev, file);
                let rest = eb_nodes(nodes@.skip(i + 1), sev, file);
                lemma_eb_nodes_split(nodes@, i + 1, sev, file);
                lemma_emitted_saturated(start, st, builder.diagnostics@, builder.truncated, next, rest);
                assert(next + rest =~= e + eb_nodes(nodes@, sev, file));
            }
            return true;
        }
        i = i + 1;
    }
    assert(nodes@.take(nodes@.len() as int) =~= nodes@);
    false
}

/// Check an `@if`: its then-body, each `@elseif` arm, then its `@else`; `true`
/// when the collector is saturated.
fn check_if_block(b: &IfBlock, filename: &str, severity: Severity, builder: &mut LintResultBuilder,
    Ghost(start): Ghost<Seq<LintDiagnostic>>, Ghost(st): Ghost<bool>, Ghost(e): Ghost<Seq<FindingView>>) -> (stop: bool)
    requires
        old(builder).wf(),
        start.len() <= MAX_DIAGNOSTICS,
        rule_findings(start, old(builder).diagnostics@, RULE@, severity, filename@),
        emitted(start, st, old(builder).diagnostics@, old(builder).truncated, e),
    ensures
        final(builder).wf(),
        rule_findings(start, final(builder).diagnostics@, RULE@, severity, filename@),
        emitted(start, st, final(builder).diagnostics@, final(builder).truncated, e + eb_if(*b, severity, filename@)),
        stop ==> saturated(start, e + eb_if(*b, severity, filename@)),
    decreases b, 0int,
{
    let ghost sev = severity;
    let ghost file = filename@;
    let then_fix = if b.elseif_branches.len() == 0 && b.else_body.is_none() {
        Some(vec![inclusive_span(b.offset, b.end_offset)])
    } else {
        None
    };
    let d = make_diag(RULE, severity, filename, String::from_str("@if then-body is empty."),
        Some(String::from_str("Add content inside the @if block or remove it.")), b.offset, 3, then_fix);
    let ghost then_view = finding_view(d);
    assert(then_view == eb_finding(sev, file, "@if then-body is empty."@,
        "Add content inside the @if block or remove it."@, b.offset, 3,
        if b.elseif_branches@.len() == 0 && b.else_body is None {
            Some(seq![FixLineSpan { from: b.offset, to: b.end_offset, to_inclusive: true }])
        } else {
            None
        })) by {
        if b.elseif_branches@.len() == 0 && b.else_body is None {
            assert(d.fix_removals->0@ =~= seq![FixLineSpan { from: b.offset, to: b.end_offset, to_inclusive: true }]);
        }
    }
    let ghost then_part = eb_body(b.then_body@, then_view, sev, file);
    let ghost else_part = eb_else(*b, sev, file);
    let n = b.elseif_branches.len();
    assert(eb_if(*b, sev, file) == then_part + eb_elseifs(*b, n as int, sev, file) + else_part);
    if flag_if_empty(&b.then_body, filename, severity, d, builder, Ghost(start), Ghost(st), Ghost(e)) {
        proof {
            lemma_emitted_saturated(start, st, builder.diagnostics@, builder.truncated, e + then_part,
                eb_elseifs(*b, n as int, sev, file) + else_part);
            assert(e + then_part + (eb_elseifs(*b, n as int, sev, file) + else_part) =~= e + eb_if(*b, sev, file));
        }
        return true;
    }
    let mut i: usize = 0;
    while i < n
        invariant
            i <= n == b.elseif_branches@.len(),
            builder.wf(),
            start.len() <= MAX_DIAGNOSTICS,
            sev == severity,
            file == filename@,
            rule_findings(start, builder.diagnostics@, RULE@, severity, filename@),
            emitted(start, st, builder.diagnostics@, builder.truncated, e + then_part + eb_elseifs(*b, i as int, sev, file)),
            else_part == eb_else(*b, sev, file),
            eb_if(*b, sev, file) == then_part + eb_elseifs(*b, n as int, sev, file) + else_part,
        decreases n - i,
    {
        let branch = &b.elseif_branches[i];
        let ghost cur = e + then_part + eb_elseifs(*b, i as int, sev, file);
        let fix = if i + 1 == n && b.else_body.is_none() {
            Some(vec![exclusive_span(branch.offset, b.end_offset)])
        } else {
            None
        };
        let d = make_diag(RULE, severity, filename, String::from_str("@elseif body is empty."),
            Some(String::from_str("Add content inside the @elseif block or remove it.")), branch.offset, 7, fix);
        let ghost last = i + 1 == n && b.else_body is None;
        assert(finding_view(d) == eb_finding(sev, file, "@elseif body is empty."@,
            "Add content inside the @elseif block or remove it."@, branch.offset, 7,
            if last { Some(seq![FixLineSpan { from: branch.offset, to: b.end_offset, to_inclusive: false }]) } else { None })) by {
            if last {
                assert(d.fix_removals->0@ =~= seq![FixLineSpan { from: branch.offset, to: b.end_offset, to_inclusive: false }]);
            }
        }
        assert(eb_elseifs(*b, i + 1, sev, file) == eb_elseifs(*b, i as int, sev, file)
            + eb_body(branch.body@, finding_view(d), sev, file));
        proof {
            assert(decreases_to!(b => b.elseif_branches));
            assert(decreases_to!(b.elseif_branches => b.elseif_branches@[i as int]));
        }
        if flag_if_empty(&branch.body, filename, severity, d, builder, Ghost(start), Ghost(st), Ghost(cur)) {
            proof {
                let done = cur + eb_body(branch.body@, finding_view(d), sev, file);
                let rest = eb_elseifs_from(*b, i + 1, sev, file) + else_part;
                lemma_eb_elseifs_split(*b, i + 1, n as int, sev, file);
                lemma_emitted_saturated(start, st, builder.diagnostics@, builder.truncated, done, rest);
                assert(done =~= e + then_part + eb_elseifs(*b, i + 1, sev, file));
                assert(eb_elseifs(*b, n as int, sev, file) == eb_elseifs(*b, i + 1, sev, file) + eb_elseifs_from(*b, i + 1, sev, file));
                assert(e + eb_if(*b, sev, file) =~= e + then_part + eb_elseifs(*b, n as int, sev, file) + else_part);
                assert(done + rest =~= e + eb_if(*b, sev, file));
            }
            return true;
        }
        assert(cur + eb_body(branch.body@, finding_view(d), sev, file) =~= e + then_part + eb_elseifs(*b, i + 1, sev, file));
        i = i + 1;
    }
    let ghost cur = e + then_part + eb_elseifs(*b, n as int, sev, file);
    if let Some(else_body) = &b.else_body {
        let else_off = match b.else_offset {
            Some(o) => o,
            None => b.offset,
        };
        let d = make_diag(RULE, severity, filename, String::from_str("@else body is empty."),
            Some(String::from_str("Add content inside the @else block or remove it.")), else_off, 5,
            Some(vec![exclusive_span(else_off, b.end_offset)]));
        assert(finding_view(d) == eb_finding(sev, file, "@else body is empty."@,
            "Add content inside the @else block or remove it."@, else_off, 5,
            Some(seq![FixLineSpan { from: else_off, to: b.end_offset, to_inclusive: false }]))) by {
            assert(d.fix_removals->0@ =~= seq![FixLineSpan { from: else_off, to: b.end_offset, to_inclusive: false }]);
        }
        let stop = flag_if_empty(else_body, filename, severity, d, builder, Ghost(start), Ghost(st), Ghost(cur));
        assert(cur + else_part =~= e + eb_if(*b, sev, file));
        stop
    } else {
        assert(cur + else_part =~= e + eb_if(*b, sev, file));
        false
    }
}

/// The `@elseif` findings from arm `i` on.
spec fn eb_elseifs_from(b: IfBlock, i: int, sev: Severity, file: Seq<char>) -> Seq<FindingView> {
    eb_elseifs(b, b.elseif_branches@.len() as int, sev, file).skip(eb_elseifs(b, i, sev, file).len() as int)
}

/// The findings of the first `n` arms start with those of the first `i`.
proof fn lemma_eb_elseifs_split(b: IfBlock, i: int, n: int, sev: Severity, file: Seq<char>)
    requires
        0 <= i <= n == b.elseif_branches@.len(),
    ensures
        eb_elseifs(b, n, sev, file) == eb_elseifs(b, i, sev, file) + eb_elseifs_from(b, i, sev, file),
    decreases n - i,
{
    lemma_eb_elseifs_prefix(b, i, n, sev, file);
    let all = eb_elseifs(b, n, sev, file);
    let pre = eb_elseifs(b, i, sev, file);
    assert(all =~= pre + all.skip(pre.len() as int));
}

proof fn lemma_eb_elseifs_prefix(b: IfBlock, i: int, n: int, sev: Severity, file: Seq<char>)
    requires
        0 <= i <= n <= b.elseif_branches@.len(),
    ensures
        eb_elseifs(b, i, sev, file).len() <= eb_elseifs(b, n, sev, file).len(),
        eb_elseifs(b, n, sev, file).subrange(0, eb_elseifs(b, i, sev, file).len() as int) == eb_elseifs(b, i, sev, file),
    decreases n - i,
{
    if i < n {
        lemma_eb_elseifs_prefix(b, i, n - 1, sev, file);
        let pre = eb_elseifs(b, i, sev, file);
        let mid = eb_elseifs(b, n - 1, sev, file);
        let all = eb_elseifs(b, n, sev, file);
        assert(all.subrange(0, mid.len() as int) =~= mid);
        assert(all.subrange(0, pre.len() as int) =~= mid.subrange(0, pre.len() as int));
    }
}

// ── Reported at any depth ────────────────────────────────────────────────────

/// The findings of a node of a list are findings of the list.
proof fn lemma_eb_nodes_has(v: Seq<Node>, k: int, x: FindingView, sev: Severity, file: Seq<char>)
    requires
        0 <= k < v.len(),
        eb_node(v[k], sev, file).contains(x),
    ensures
        eb_nodes(v, sev, file).contains(x),
    decreases v.len(),
{
    if k < v.len() - 1 {
        assert(v.drop_last()[k] == v[k]);
        lemma_eb_nodes_has(v.drop_last(), k, x, sev, file);
    }
    crate::rules::common::lemma_concat_has(eb_nodes(v.drop_last(), sev, file), eb_node(v.last(), sev, file), x);
}

/// The findings inside the body of arm `k`, a body that is not blank, are findings
/// of the arms `0..i`.
proof fn lemma_eb_elseifs_has(b: IfBlock, k: int, i: int, x: FindingView, sev: Severity, file: Seq<char>)
    requires
        0 <= k < i <= b.elseif_branches@.len(),
        eb_nodes(b.elseif_branches@[k].body@, sev, file).contains(x),
        !blank_body(b.elseif_branches@[k].body@),
    ensures
        eb_elseifs(b, i, sev, file).contains(x),
    decreases i,
{
    if k < i - 1 {
        lemma_eb_elseifs_has(b, k, i - 1, x, sev, file);
    }
    let br = b.elseif_branches@[i - 1];
    let last = i == b.elseif_branches@.len() && b.else_body is None;
    let d = eb_finding(sev, file, "@elseif body is empty."@,
        "Add content inside the @elseif block or remove it."@, br.offset, 7,
        if last { Some(seq![FixLineSpan { from: br.offset, to: b.end_offset, to_inclusive: false }]) } else { None });
    crate::rules::common::lemma_concat_has(eb_elseifs(b, i - 1, sev, file), eb_body(br.body@, d, sev, file), x);
}

/// The findings of a node inside `m`, at any depth, are findings of `m`.
proof fn lemma_eb_node_within(m: Node, n: Node, x: FindingView, sev: Severity, file: Seq<char>)
    requires
        node_within(m, n),
        eb_node(n, sev, file).contains(x),
    ensures
        eb_node(m, sev, file).contains(x),
    decreases m,
{
    if m != n {
        match m {
            Node::If(b2) => {
                let p = eb_body(b2.then_body@, eb_finding(sev, file, "@if then-body is empty."@,
                    "Add content inside the @if block or remove it."@, b2.offset, 3,
                    if b2.elseif_branches@.len() == 0 && b2.else_body is None {
                        Some(seq![FixLineSpan { from: b2.offset, to: b2.end_offset, to_inclusive: true }])
                    } else {
                        None
                    }), sev, file);
                let q = eb_elseifs(b2, b2.elseif_branches@.len() as int, sev, file);
                let r = eb_else(b2, sev, file);
                if nodes_within(b2.then_body@, n) {
                    lemma_eb_nodes_within(b2.then_body@, n, x, sev, file);
                    crate::rules::common::lemma_concat_has(p, q, x);
                } else if arms_within(b2.elseif_branches@, n) {
                    let k = choose|k: int| 0 <= k < b2.elseif_branches@.len()
                        && nodes_within((#[trigger] b2.elseif_branches@[k]).body@, n);
                    assert(decreases_to!(m => b2.elseif_branches@[k].body@)) by {
                        assert(decreases_to!(m => b2));
                        assert(decreases_to!(b2 => b2.elseif_branches));
                        assert(decreases_to!(b2.elseif_branches => b2.elseif_branches@));
                        assert(decreases_to!(b2.elseif_branches@ => b2.elseif_branches@[k]));
                        assert(decreases_to!(b2.elseif_branches@[k] => b2.elseif_branches@[k].body));
                        assert(decreases_to!(b2.elseif_branches@[k].body => b2.elseif_branches@[k].body@));
                    }
                    lemma_eb_nodes_within(b2.elseif_branches@[k].body@, n, x, sev, file);
                    lemma_eb_elseifs_has(b2, k, b2.elseif_branches@.len() as int, x, sev, file);
                    crate::rules::common::lemma_concat_has(p, q, x);
                } else {
                    if let Some(e) = b2.else_body {
                        lemma_eb_nodes_within(e@, n, x, sev, file);
                    }
                }
                crate::rules::common::lemma_concat_has(p + q, r, x);
            },
            Node::For(b2) => { lemma_eb_nodes_within(b2.body@, n, x, sev, file); },
            Node::Define(b2) => { lemma_eb_nodes_within(b2.body@, n, x, sev, file); },
            Node::Message(b2) => { lemma_eb_nodes_within(b2.body@, n, x, sev, file); },
            Node::Block(b2) => { lemma_eb_nodes_within(b2.body@, n, x, sev, file); },
            _ => {},
        }
    }
}

/// The findings of a node inside a list, at any depth, are findings of the list,
/// and the list is not blank.
proof fn lemma_eb_nodes_within(v: Seq<Node>, n: Node, x: FindingView, sev: Severity, file: Seq<char>)
    requires
        nodes_within(v, n),
        eb_node(n, sev, file).contains(x),
    ensures
        eb_nodes(v, sev, file).contains(x),
        !blank_body(v),
    decreases v,
{
    let k = choose|k: int| 0 <= k < v.len() && node_within(#[trigger] v[k], n);
    lemma_eb_node_within(v[k], n, x, sev, file);
    lemma_eb_nodes_has(v, k, x, sev, file);
    assert(!(v[k] is Text));
}

/// The offset of the directive that opens a body node.
pub open spec fn opener_offset(n: Node) -> usize {
    match n {
        Node::If(b) => b.offset,
        Node::For(b) => b.offset,
        Node::Define(b) => b.offset,
        Node::Message(b) => b.offset,
        _ => 0,
    }
}

/// Every `@if` with a blank then-body, and every `@for`, `@define` and `@message`
/// with a blank body, anywhere in the template, is reported at its directive's
/// offset, unless the rule is off.
pub proof fn law_empty_body_reported_at_any_depth(module: Module, config: LintConfig, file: Seq<char>, n: Node)
    requires
        nodes_within(module.body@, n),
        match n {
            Node::If(b) => blank_body(b.then_body@),
            Node::For(b) => blank_body(b.body@),
            Node::Define(b) => blank_body(b.body@),
            Node::Message(b) => blank_body(b.body@),
            _ => false,
        },
        effective_severity(config, RULE@, Severity::Warn) != Severity::Off,
    ensures
        exists|j: int| 0 <= j < empty_block_findings(module, config, file).len()
            && (#[trigger] empty_block_findings(module, config, file)[j]).0 == RULE@
            && (empty_block_findings(module, config, file)[j].4 matches Some(sp) && sp.offset == opener_offset(n)),
{
    let sev = effective_severity(config, RULE@, Severity::Warn);
    let own = eb_node(n, sev, file);
    let x = own[0];
    assert(own.contains(x)) by {
        match n {
            Node::If(b) => {
                let p = eb_body(b.then_body@, eb_finding(sev, file, "@if then-body is empty."@,
                    "Add content inside the @if block or remove it."@, b.offset, 3,
                    if b.elseif_branches@.len() == 0 && b.else_body is None {
                        Some(seq![FixLineSpan { from: b.offset, to: b.end_offset, to_inclusive: true }])
                    } else {
                        None
                    }), sev, file);
                assert(p.len() == 1);
                assert((p + eb_elseifs(b, b.elseif_branches@.len() as int, sev, file) + eb_else(b, sev, file))[0] == p[0]);
            },
            _ => {},
        }
    }
    assert(x.0 == RULE@ && (x.4 matches Some(sp) && sp.offset == opener_offset(n))) by {
        match n {
            Node::If(b) => {
                let p = eb_body(b.then_body@, eb_finding(sev, file, "@if then-body is empty."@,
                    "Add content inside the @if block or remove it."@, b.offset, 3,
                    if b.elseif_branches@.len() == 0 && b.else_body is None {
                        Some(seq![FixLineSpan { from: b.offset, to: b.end_offset, to_inclusive: true }])
                    } else {
                        None
                    }), sev, file);
                assert((p + eb_elseifs(b, b.elseif_branches@.len() as int, sev, file) + eb_else(b, sev, file))[0] == p[0]);
            },
            _ => {},
        }
    }
    lemma_eb_nodes_within(module.body@, n, x, sev, file);
    let fs = empty_block_findings(module, config, file);
    let j = choose|j: int| 0 <= j < fs.len() && fs[j] == x;
    assert(fs[j].0 == RULE@);
}

} // verus!
