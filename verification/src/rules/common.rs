//! What every rule shares: how its severity is resolved and what a rule may do
//! to the collector (append findings of its own rule, nothing else).
use vstd::prelude::*;
use crate::config::{rules_lookup, LintConfig};
use crate::diagnostic::{FixLineSpan, LintDiagnostic, LintResultBuilder, Severity, TextEdit, MAX_DIAGNOSTICS};
use crate::error::SerializedSpan;

verus! {

/// The severity of `rule` under `config`: its override, or the rule's default.
pub open spec fn effective_severity(config: LintConfig, rule: Seq<char>, default: Severity) -> Severity {
    match rules_lookup(config.rules@, rule) {
        Some(s) => s,
        None => default,
    }
}

/// `new` extends `old` with findings of `rule` at severity `sev` in `file`.
pub open spec fn rule_findings(old: Seq<LintDiagnostic>, new: Seq<LintDiagnostic>, rule: Seq<char>, sev: Severity, file: Seq<char>) -> bool {
    &&& old.len() <= new.len()
    &&& new.subrange(0, old.len() as int) == old
    &&& forall|k: int| old.len() <= k < new.len() ==> finding_of(#[trigger] new[k], rule, sev, file)
}

/// `d` is a finding of `rule` at severity `sev` in `file`.
pub open spec fn finding_of(d: LintDiagnostic, rule: Seq<char>, sev: Severity, file: Seq<char>) -> bool {
    &&& d.rule@ == rule
    &&& d.severity == sev
    &&& (d.file matches Some(f) && f@ == file)
}

/// The severity of `rule` under `config`, or `default` when not configured.
pub fn resolve_severity(config: &LintConfig, rule: &str, default: Severity) -> (r: Severity)
    ensures
        r == effective_severity(*config, rule@, default),
{
    match config.severity_for(rule) {
        Some(s) => s,
        None => default,
    }
}

/// A finding of `rule` in `filename` spanning `length` bytes at `offset`.
pub fn make_diag(
    rule: &str,
    severity: Severity,
    filename: &str,
    message: String,
    help: Option<String>,
    offset: usize,
    length: usize,
    fix_removals: Option<Vec<FixLineSpan>>,
) -> (r: LintDiagnostic)
    ensures
        finding_of(r, rule@, severity, filename@),
        r.message == message,
        r.help == help,
        r.span == Some(SerializedSpan { offset, length, line: None, column: None }),
        r.fix_removals == fix_removals,
        r.fix_edits is None,
{
    LintDiagnostic {
        rule: rule.to_owned(),
        severity,
        message,
        help,
        span: Some(SerializedSpan::at(offset, length)),
        file: Some(filename.to_owned()),
        fix_removals,
        fix_edits: None,
    }
}

/// Append a finding; returns whether the collector accepted it.
pub fn emit(builder: &mut LintResultBuilder, d: LintDiagnostic, Ghost(start): Ghost<Seq<LintDiagnostic>>, Ghost(rule): Ghost<Seq<char>>, Ghost(sev): Ghost<Severity>, Ghost(file): Ghost<Seq<char>>) -> (accepted: bool)
    requires
        old(builder).wf(),
        rule_findings(start, old(builder).diagnostics@, rule, sev, file),
        finding_of(d, rule, sev, file),
    ensures
        final(builder).wf(),
        rule_findings(start, final(builder).diagnostics@, rule, sev, file),
        accepted == (old(builder).diagnostics@.len() < MAX_DIAGNOSTICS),
        accepted ==> final(builder).diagnostics@ == old(builder).diagnostics@.push(d)
            && final(builder).truncated == old(builder).truncated,
        !accepted ==> final(builder).diagnostics@ == old(builder).diagnostics@ && final(builder).truncated,
{
    let ghost before = builder.diagnostics@;
    let accepted = builder.push(d);
    proof {
        if accepted {
            assert(builder.diagnostics@.subrange(0, start.len() as int) =~= before.subrange(0, start.len() as int));
        }
    }
    accepted
}

/// A line removal of the lines from `from` through the line holding `to`.
pub fn inclusive_span(from: usize, to: usize) -> (r: FixLineSpan)
    ensures
        r == (FixLineSpan { from, to, to_inclusive: true }),
{
    FixLineSpan { from, to, to_inclusive: true }
}

/// A line removal from `from` up to, not including, the line holding `to`.
pub fn exclusive_span(from: usize, to: usize) -> (r: FixLineSpan)
    ensures
        r == (FixLineSpan { from, to, to_inclusive: false }),
{
    FixLineSpan { from, to, to_inclusive: false }
}


// ── Exact findings ────────────────────────────────────────────────────────────

/// What a finding says: rule, severity, message, help, span, file, line removals
/// and replacements, each text by its characters.
pub type FindingView = (
    Seq<char>,
    Severity,
    Seq<char>,
    Option<Seq<char>>,
    Option<SerializedSpan>,
    Option<Seq<char>>,
    Option<Seq<FixLineSpan>>,
    Option<Seq<(usize, usize, Seq<char>)>>,
);

/// The characters of an optional string.
pub open spec fn opt_chars(o: Option<String>) -> Option<Seq<char>> {
    match o {
        Some(s) => Some(s@),
        None => None,
    }
}

/// The replacements of a finding as `(start, end, new text)`.
pub open spec fn edits_view(e: Option<Vec<TextEdit>>) -> Option<Seq<(usize, usize, Seq<char>)>> {
    match e {
        Some(v) => Some(v@.map_values(|t: TextEdit| (t.start, t.end, t.new_text@))),
        None => None,
    }
}

/// What the finding `d` says.
pub open spec fn finding_view(d: LintDiagnostic) -> FindingView {
    (d.rule@, d.severity, d.message@, opt_chars(d.help), d.span, opt_chars(d.file),
        match d.fix_removals { Some(v) => Some(v@), None => None }, edits_view(d.fix_edits))
}

/// A finding of a rule with a span of `length` bytes at `offset` and no replacement.
pub open spec fn spanned_finding(rule: Seq<char>, sev: Severity, file: Seq<char>, message: Seq<char>,
    help: Seq<char>, offset: usize, length: usize, fix: Option<Seq<FixLineSpan>>) -> FindingView
{
    (rule, sev, message, Some(help), Some(SerializedSpan { offset, length, line: None, column: None }),
        Some(file), fix, None)
}

/// The findings of the items `0..n`, in item order, where item `i` has `f(i)`.
pub open spec fn findings_upto(n: int, f: spec_fn(int) -> Seq<FindingView>) -> Seq<FindingView>
    decreases n,
{
    if n <= 0 { Seq::empty() } else { findings_upto(n - 1, f) + f(n - 1) }
}

/// No item gives a finding, so the run gives none.
pub proof fn lemma_findings_upto_empty(n: int, f: spec_fn(int) -> Seq<FindingView>)
    requires
        forall|i: int| 0 <= i < n ==> (#[trigger] f(i)).len() == 0,
    ensures
        findings_upto(n, f).len() == 0,
    decreases n,
{
    if n > 0 {
        lemma_findings_upto_empty(n - 1, f);
    }
}

/// The findings of an item are among those of a run that includes it.
pub proof fn lemma_findings_upto_has(n: int, f: spec_fn(int) -> Seq<FindingView>, i: int, x: FindingView)
    requires
        0 <= i < n,
        f(i).contains(x),
    ensures
        findings_upto(n, f).contains(x),
    decreases n,
{
    let a = findings_upto(n - 1, f);
    let c = f(n - 1);
    if i == n - 1 {
        let j = choose|j: int| 0 <= j < c.len() && c[j] == x;
        assert((a + c)[a.len() + j] == x);
    } else {
        lemma_findings_upto_has(n - 1, f, i, x);
        let j = choose|j: int| 0 <= j < a.len() && a[j] == x;
        assert((a + c)[j] == x);
    }
}

/// A finding of either part is a finding of the two parts joined.
pub proof fn lemma_concat_has(a: Seq<FindingView>, b: Seq<FindingView>, x: FindingView)
    requires
        a.contains(x) || b.contains(x),
    ensures
        (a + b).contains(x),
{
    if a.contains(x) {
        let j = choose|j: int| 0 <= j < a.len() && a[j] == x;
        assert((a + b)[j] == x);
    } else {
        let j = choose|j: int| 0 <= j < b.len() && b[j] == x;
        assert((a + b)[a.len() + j] == x);
    }
}

/// The findings of a shorter run of items start those of a longer one.
pub proof fn lemma_findings_upto_prefix(j: int, n: int, f: spec_fn(int) -> Seq<FindingView>)
    requires
        0 <= j <= n,
    ensures
        findings_upto(j, f).len() <= findings_upto(n, f).len(),
        findings_upto(n, f).subrange(0, findings_upto(j, f).len() as int) == findings_upto(j, f),
    decreases n - j,
{
    if j < n {
        lemma_findings_upto_prefix(j, n - 1, f);
        let a = findings_upto(j, f);
        let b = findings_upto(n - 1, f);
        assert(findings_upto(n, f) == b + f(n - 1));
        assert((b + f(n - 1)).subrange(0, a.len() as int) =~= b.subrange(0, a.len() as int));
    }
}

/// The collector went from `(old, old_trunc)` to `(new, new_trunc)` by appending the
/// findings `expected` in order, as many as the cap left room for, and was marked
/// truncated exactly when some did not fit.
#[verifier::opaque]
pub open spec fn emitted(old: Seq<LintDiagnostic>, old_trunc: bool, new: Seq<LintDiagnostic>, new_trunc: bool,
    expected: Seq<FindingView>) -> bool
{
    let room = MAX_DIAGNOSTICS - old.len();
    let k: int = if expected.len() <= room { expected.len() as int } else { room };
    &&& new.len() == old.len() + k
    &&& new.subrange(0, old.len() as int) == old
    &&& forall|j: int| old.len() <= j < new.len() ==> finding_view(#[trigger] new[j]) == expected[j - old.len()]
    &&& new_trunc == (old_trunc || expected.len() > room)
}

/// Nothing emitted yet.
pub proof fn lemma_emitted_start(b: LintResultBuilder)
    requires
        b.wf(),
    ensures
        emitted(b.diagnostics@, b.truncated, b.diagnostics@, b.truncated, Seq::empty()),
{
    reveal(emitted);
    assert(b.diagnostics@.subrange(0, b.diagnostics@.len() as int) =~= b.diagnostics@);
}

/// Append the finding `d` as the next of the rule's findings `expected + [d]`.
/// When the collector refuses it, every run of findings that continues past
/// `expected` has been emitted as far as the cap allows.
pub fn emit_next(builder: &mut LintResultBuilder, d: LintDiagnostic,
    Ghost(start): Ghost<Seq<LintDiagnostic>>, Ghost(start_trunc): Ghost<bool>,
    Ghost(expected): Ghost<Seq<FindingView>>,
    Ghost(rule): Ghost<Seq<char>>, Ghost(sev): Ghost<Severity>, Ghost(file): Ghost<Seq<char>>) -> (accepted: bool)
    requires
        old(builder).wf(),
        start.len() <= MAX_DIAGNOSTICS,
        rule_findings(start, old(builder).diagnostics@, rule, sev, file),
        emitted(start, start_trunc, old(builder).diagnostics@, old(builder).truncated, expected),
        expected.len() <= MAX_DIAGNOSTICS - start.len(),
        finding_of(d, rule, sev, file),
    ensures
        final(builder).wf(),
        rule_findings(start, final(builder).diagnostics@, rule, sev, file),
        accepted ==> emitted(start, start_trunc, final(builder).diagnostics@, final(builder).truncated,
            expected.push(finding_view(d))) && expected.len() + 1 <= MAX_DIAGNOSTICS - start.len(),
        !accepted ==> forall|f: Seq<FindingView>| f.len() > expected.len() && #[trigger] f.subrange(0, expected.len() as int) == expected
            ==> emitted(start, start_trunc, final(builder).diagnostics@, final(builder).truncated, f),
{
    reveal(emitted);
    let ghost before = builder.diagnostics@;
    let ghost before_trunc = builder.truncated;
    let ghost view = finding_view(d);
    let accepted = emit(builder, d, Ghost(start), Ghost(rule), Ghost(sev), Ghost(file));
    proof {
        let e2 = expected.push(view);
        let room = MAX_DIAGNOSTICS - start.len();
        assert(before.len() == start.len() + expected.len());
        if accepted {
            assert(expected.len() + 1 <= room);
            assert(builder.truncated == before_trunc);
            assert(before.len() < MAX_DIAGNOSTICS);
            assert(builder.diagnostics@.subrange(0, start.len() as int) =~= before.subrange(0, start.len() as int));
            assert forall|j: int| start.len() <= j < builder.diagnostics@.len() implies
                finding_view(#[trigger] builder.diagnostics@[j]) == e2[j - start.len()] by {
                if j < before.len() {
                    assert(builder.diagnostics@[j] == before[j]);
                }
            }
        } else {
            assert(expected.len() == room);
            assert forall|f: Seq<FindingView>| f.len() > expected.len() && #[trigger] f.subrange(0, expected.len() as int) == expected
                implies emitted(start, start_trunc, builder.diagnostics@, builder.truncated, f) by {
                assert forall|j: int| start.len() <= j < builder.diagnostics@.len() implies
                    finding_view(#[trigger] builder.diagnostics@[j]) == f[j - start.len()] by {
                    assert(f.subrange(0, expected.len() as int)[j - start.len()] == f[j - start.len()]);
                }
            }
        }
    }
    accepted
}


/// More findings than the collector had room for: it is full and truncated.
pub open spec fn saturated(start: Seq<LintDiagnostic>, expected: Seq<FindingView>) -> bool {
    expected.len() > MAX_DIAGNOSTICS - start.len()
}

/// Once saturated, any further findings leave the collector as it is.
pub proof fn lemma_emitted_saturated(start: Seq<LintDiagnostic>, st: bool, cur: Seq<LintDiagnostic>, ct: bool,
    e: Seq<FindingView>, rest: Seq<FindingView>)
    requires
        emitted(start, st, cur, ct, e),
        saturated(start, e),
    ensures
        emitted(start, st, cur, ct, e + rest),
        saturated(start, e + rest),
{
    reveal(emitted);
    assert forall|j: int| start.len() <= j < cur.len() implies finding_view(#[trigger] cur[j]) == (e + rest)[j - start.len()] by {
        assert((e + rest)[j - start.len()] == e[j - start.len()]);
    }
}

/// Append the finding `d` after the findings `expected`, as far as the cap
/// allows; when refused, the collector is saturated.
pub fn emit_more(builder: &mut LintResultBuilder, d: LintDiagnostic,
    Ghost(start): Ghost<Seq<LintDiagnostic>>, Ghost(start_trunc): Ghost<bool>,
    Ghost(expected): Ghost<Seq<FindingView>>,
    Ghost(rule): Ghost<Seq<char>>, Ghost(sev): Ghost<Severity>, Ghost(file): Ghost<Seq<char>>) -> (accepted: bool)
    requires
        old(builder).wf(),
        start.len() <= MAX_DIAGNOSTICS,
        rule_findings(start, old(builder).diagnostics@, rule, sev, file),
        emitted(start, start_trunc, old(builder).diagnostics@, old(builder).truncated, expected),
        finding_of(d, rule, sev, file),
    ensures
        final(builder).wf(),
        rule_findings(start, final(builder).diagnostics@, rule, sev, file),
        emitted(start, start_trunc, final(builder).diagnostics@, final(builder).truncated, expected.push(finding_view(d))),
        !accepted ==> saturated(start, expected.push(finding_view(d))),
{
    reveal(emitted);
    let ghost before = builder.diagnostics@;
    let ghost before_trunc = builder.truncated;
    let ghost view = finding_view(d);
    let accepted = emit(builder, d, Ghost(start), Ghost(rule), Ghost(sev), Ghost(file));
    proof {
        let e2 = expected.push(view);
        let room = MAX_DIAGNOSTICS - start.len();
        if accepted {
            assert(expected.len() < room);
            assert(builder.diagnostics@.subrange(0, start.len() as int) =~= before.subrange(0, start.len() as int));
            assert forall|j: int| start.len() <= j < builder.diagnostics@.len() implies
                finding_view(#[trigger] builder.diagnostics@[j]) == e2[j - start.len()] by {
                if j < before.len() {
                    assert(builder.diagnostics@[j] == before[j]);
                }
            }
        } else {
            assert(expected.len() >= room);
            assert forall|j: int| start.len() <= j < builder.diagnostics@.len() implies
                finding_view(#[trigger] builder.diagnostics@[j]) == e2[j - start.len()] by {
                assert(e2[j - start.len()] == expected[j - start.len()]);
            }
        }
    }
    accepted
}

/// Findings emitted one run after another are the concatenated runs, emitted.
pub proof fn lemma_emitted_compose(s0: Seq<LintDiagnostic>, t0: bool, s1: Seq<LintDiagnostic>, t1: bool, e1: Seq<FindingView>,
    s2: Seq<LintDiagnostic>, t2: bool, e2: Seq<FindingView>)
    requires
        s0.len() <= MAX_DIAGNOSTICS,
        emitted(s0, t0, s1, t1, e1),
        emitted(s1, t1, s2, t2, e2),
    ensures
        emitted(s0, t0, s2, t2, e1 + e2),
{
    reveal(emitted);
    let room0 = MAX_DIAGNOSTICS - s0.len();
    assert(s2.subrange(0, s0.len() as int) =~= s1.subrange(0, s0.len() as int)) by {
        assert forall|j: int| 0 <= j < s0.len() implies s2[j] == s1[j] by {
            assert(s2.subrange(0, s1.len() as int)[j] == s1[j]);
        }
    }
    assert forall|j: int| s0.len() <= j < s2.len() implies finding_view(#[trigger] s2[j]) == (e1 + e2)[j - s0.len()] by {
        if j < s1.len() {
            assert(s2.subrange(0, s1.len() as int)[j] == s1[j]);
            assert(finding_view(s1[j]) == e1[j - s0.len()]);
        } else {
            assert(e1.len() <= room0);
            assert(finding_view(s2[j]) == e2[j - s1.len()]);
        }
    }
}

// ── First occurrences ─────────────────────────────────────────────────────────

/// Some item before index `i` has the key `k` (items without a key have `None`).
pub open spec fn key_before(keys: Seq<Option<Seq<char>>>, i: int, k: Seq<char>) -> bool {
    exists|j: int| 0 <= j < i && #[trigger] keys[j] == Some(k)
}

/// `seen` records the key `k`.
pub open spec fn in_seen(seen: Seq<(String, usize)>, k: Seq<char>) -> bool {
    exists|m: int| 0 <= m < seen.len() && #[trigger] seen[m].0@ == k
}

/// `seen` records exactly the keys of the items before index `i`.
pub open spec fn seen_keys(seen: Seq<(String, usize)>, keys: Seq<Option<Seq<char>>>, i: int) -> bool {
    forall|k: Seq<char>| #[trigger] in_seen(seen, k) <==> key_before(keys, i, k)
}

/// Recording the key of item `i` (when new) keeps `seen` exact.
pub proof fn lemma_seen_step(seen: Seq<(String, usize)>, seen2: Seq<(String, usize)>, keys: Seq<Option<Seq<char>>>, i: int,
    fresh: bool, k: String, off: usize)
    requires
        0 <= i < keys.len(),
        seen_keys(seen, keys, i),
        keys[i] == Some(k@),
        fresh ==> seen2 == seen.push((k, off)),
        !fresh ==> seen2 == seen,
        fresh == !in_seen(seen, k@),
    ensures
        seen_keys(seen2, keys, i + 1),
{
    assert forall|q: Seq<char>| #[trigger] in_seen(seen2, q) <==> key_before(keys, i + 1, q) by {
        if in_seen(seen2, q) {
            let m = choose|m: int| 0 <= m < seen2.len() && #[trigger] seen2[m].0@ == q;
            if m < seen.len() {
                assert(seen[m].0@ == q);
                assert(in_seen(seen, q));
                let j = choose|j: int| 0 <= j < i && #[trigger] keys[j] == Some(q);
                assert(keys[j] == Some(q));
            } else {
                assert(keys[i] == Some(q));
            }
        }
        if key_before(keys, i + 1, q) {
            let j = choose|j: int| 0 <= j < i + 1 && #[trigger] keys[j] == Some(q);
            if j < i {
                assert(key_before(keys, i, q));
                assert(in_seen(seen, q));
                let m = choose|m: int| 0 <= m < seen.len() && #[trigger] seen[m].0@ == q;
                assert(seen2[m] == seen[m]);
            } else if fresh {
                assert(seen2[seen.len() as int].0@ == q);
            } else {
                assert(in_seen(seen, q));
                let m = choose|m: int| 0 <= m < seen.len() && #[trigger] seen[m].0@ == q;
                assert(seen2[m] == seen[m]);
            }
        }
    }
}

/// An item without a key leaves `seen` exact.
pub proof fn lemma_seen_other(seen: Seq<(String, usize)>, keys: Seq<Option<Seq<char>>>, i: int)
    requires
        0 <= i < keys.len(),
        seen_keys(seen, keys, i),
        keys[i] is None,
    ensures
        seen_keys(seen, keys, i + 1),
{
    assert forall|q: Seq<char>| key_before(keys, i + 1, q) implies key_before(keys, i, q) by {
        let j = choose|j: int| 0 <= j < i + 1 && #[trigger] keys[j] == Some(q);
        assert(j != i);
    }
}

/// Nothing recorded before the first item.
pub proof fn lemma_seen_start(seen: Seq<(String, usize)>, keys: Seq<Option<Seq<char>>>)
    requires
        seen.len() == 0,
    ensures
        seen_keys(seen, keys, 0),
{
}

} // verus!
