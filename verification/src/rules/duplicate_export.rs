//! Rule `duplicate-export` (default error, fixable): a name exported twice
//! (named or re-export), or a wildcard re-export of the same path twice.
use vstd::prelude::*;
use crate::ast::Module;
use crate::config::{first_occurrence, LintConfig};
use crate::diagnostic::{FixLineSpan, LintDiagnostic, LintResultBuilder, Severity, MAX_DIAGNOSTICS};
use crate::facts::{AnalysisContext, ExportFact, ExportKind};
use crate::parser_helpers::msg3;
use crate::rules::common::{effective_severity, emit_next, emitted, finding_view, findings_upto, lemma_emitted_start,
    lemma_findings_upto_prefix, lemma_seen_other, lemma_seen_step, in_seen, key_before, seen_keys, make_diag, opt_chars, resolve_severity, rule_findings, spanned_finding, FindingView};

verus! {

/// The rule's name.
pub const RULE: &'static str = "duplicate-export";

/// The name a named or re-export directive exports.
pub open spec fn named_key(e: ExportFact) -> Option<Seq<char>> {
    if e.kind != ExportKind::Wildcard { opt_chars(e.name) } else { None }
}

/// The path a wildcard re-export exports from.
pub open spec fn wildcard_key(e: ExportFact) -> Option<Seq<char>> {
    if e.kind == ExportKind::Wildcard { opt_chars(e.path) } else { None }
}

/// The wildcard path of `e` when `wild`, else its exported name.
pub open spec fn key_of(e: ExportFact, wild: bool) -> Option<Seq<char>> {
    if wild { wildcard_key(e) } else { named_key(e) }
}

/// The keys of the exports: wildcard paths when `wild`, else exported names.
pub open spec fn export_keys(exports: Seq<ExportFact>, wild: bool) -> Seq<Option<Seq<char>>> {
    Seq::new(exports.len(), |j: int| key_of(exports[j], wild))
}

/// The finding of export `i`, if an earlier export has its name (or, for a
/// wildcard, its path).
pub open spec fn duplicate_export_item(ctx: AnalysisContext, sev: Severity, file: Seq<char>, i: int) -> Seq<FindingView> {
    let e = ctx.exports@[i];
    let fix = Some(seq![FixLineSpan { from: e.offset, to: e.offset, to_inclusive: true }]);
    match (named_key(e), wildcard_key(e)) {
        (Some(n), _) => if key_before(export_keys(ctx.exports@, false), i, n) {
            seq![spanned_finding(RULE@, sev, file, "Duplicate export: '"@ + n + "' is exported more than once."@,
                "Remove the duplicate @export directive."@, e.offset, 7, fix)]
        } else {
            Seq::empty()
        },
        (None, Some(p)) => if key_before(export_keys(ctx.exports@, true), i, p) {
            seq![spanned_finding(RULE@, sev, file, "Duplicate wildcard export from '"@ + p + "': already exported above."@,
                "Remove the duplicate @export * from directive."@, e.offset, 7, fix)]
        } else {
            Seq::empty()
        },
        (None, None) => Seq::empty(),
    }
}

/// The findings of the rule: each export whose name (or wildcard path) an
/// earlier export already has, in export order.
pub open spec fn duplicate_export_findings(ctx: AnalysisContext, config: LintConfig, file: Seq<char>) -> Seq<FindingView> {
    let sev = effective_severity(config, RULE@, Severity::Error);
    if sev == Severity::Off {
        Seq::empty()
    } else {
        findings_upto(ctx.exports@.len() as int, |i: int| duplicate_export_item(ctx, sev, file, i))
    }
}

/// Check the exports of the module.
pub fn check(module: &Module, ctx: &AnalysisContext, filename: &str, config: &LintConfig, builder: &mut LintResultBuilder)
    requires
        old(builder).wf(),
    ensures
        final(builder).wf(),
        rule_findings(old(builder).diagnostics@, final(builder).diagnostics@, RULE@,
            effective_severity(*config, RULE@, Severity::Error), filename@),
        emitted(old(builder).diagnostics@, old(builder).truncated, final(builder).diagnostics@, final(builder).truncated,
            duplicate_export_findings(*ctx, *config, filename@)),
        effective_severity(*config, RULE@, Severity::Error) == Severity::Off ==> final(builder).diagnostics@ == old(builder).diagnostics@,
{
    let severity = resolve_severity(config, RULE, Severity::Error);
    let ghost start = builder.diagnostics@;
    let ghost start_trunc = builder.truncated;
    let ghost sev = severity;
    let ghost file = filename@;
    let ghost f = |i: int| duplicate_export_item(*ctx, sev, file, i);
    assert(builder.diagnostics@.subrange(0, start.len() as int) =~= start);
    proof {
        lemma_emitted_start(*builder);
    }
    if severity == Severity::Off {
        return;
    }
    let mut seen_names: Vec<(String, usize)> = Vec::new();
    let mut seen_wildcards: Vec<(String, usize)> = Vec::new();
    let mut i: usize = 0;
    while i < ctx.exports.len()
        invariant
            i <= ctx.exports@.len(),
            builder.wf(),
            severity == sev,
            sev == effective_severity(*config, RULE@, Severity::Error),
            severity != Severity::Off,
            start == old(builder).diagnostics@,
            start_trunc == old(builder).truncated,
            file == filename@,
            f == (|i: int| duplicate_export_item(*ctx, sev, file, i)),
            seen_keys(seen_names@, export_keys(ctx.exports@, false), i as int),
            seen_keys(seen_wildcards@, export_keys(ctx.exports@, true), i as int),
            rule_findings(start, builder.diagnostics@, RULE@, severity, filename@),
            emitted(start, start_trunc, builder.diagnostics@, builder.truncated, findings_upto(i as int, f)),
            findings_upto(i as int, f).len() <= MAX_DIAGNOSTICS - start.len(),
        decreases ctx.exports@.len() - i,
    {
        let exp = &ctx.exports[i];
        let ghost before = findings_upto(i as int, f);
        let ghost e = ctx.exports@[i as int];
        assert(findings_upto(i + 1, f) == before + f(i as int));
        let mut found: Option<LintDiagnostic> = None;
        match exp.kind {
            ExportKind::Named | ExportKind::ReExport => {
                proof {
                    lemma_seen_other(seen_wildcards@, export_keys(ctx.exports@, true), i as int);
                }
                if let Some(name) = &exp.name {
                    let ghost old_seen = seen_names@;
                    let owned = name.clone();
                    let ghost kg = owned;
                    let fresh = first_occurrence(&mut seen_names, owned, exp.offset);
                    proof {
                        lemma_seen_step(old_seen, seen_names@, export_keys(ctx.exports@, false), i as int, fresh, kg, exp.offset);
                    }
                    assert(export_keys(ctx.exports@, false)[i as int] == Some(name@));
                    assert(in_seen(old_seen, name@) == key_before(export_keys(ctx.exports@, false), i as int, name@));
                    if !fresh {
                        found = Some(make_diag(RULE, severity, filename,
                            msg3("Duplicate export: '", name.as_str(), "' is exported more than once."),
                            Some(String::from_str("Remove the duplicate @export directive.")),
                            exp.offset, 7, Some(vec![FixLineSpan::single(exp.offset)])));
                    }
                } else {
                    proof {
                        lemma_seen_other(seen_names@, export_keys(ctx.exports@, false), i as int);
                    }
                }
            },
            ExportKind::Wildcard => {
                proof {
                    lemma_seen_other(seen_names@, export_keys(ctx.exports@, false), i as int);
                }
                if let Some(path) = &exp.path {
                    let ghost old_seen = seen_wildcards@;
                    let owned = path.clone();
                    let ghost kg = owned;
                    let fresh = first_occurrence(&mut seen_wildcards, owned, exp.offset);
                    proof {
                        lemma_seen_step(old_seen, seen_wildcards@, export_keys(ctx.exports@, true), i as int, fresh, kg, exp.offset);
                    }
                    assert(export_keys(ctx.exports@, true)[i as int] == Some(path@));
                    assert(key_of(e, false) is None);
                    assert(in_seen(old_seen, path@) == key_before(export_keys(ctx.exports@, true), i as int, path@));
                    if !fresh {
                        found = Some(make_diag(RULE, severity, filename,
                            msg3("Duplicate wildcard export from '", path.as_str(), "': already exported above."),
                            Some(String::from_str("Remove the duplicate @export * from directive.")),
                            exp.offset, 7, Some(vec![FixLineSpan::single(exp.offset)])));
                    }
                } else {
                    proof {
                        lemma_seen_other(seen_wildcards@, export_keys(ctx.exports@, true), i as int);
                    }
                }
            },
        }
        match found {
            Some(d) => {
                assert(f(i as int) == seq![finding_view(d)]) by {
                    assert(d.fix_removals->0@ =~= seq![FixLineSpan { from: e.offset, to: e.offset, to_inclusive: true }]);
                }
                if !emit_next(builder, d, Ghost(start), Ghost(start_trunc), Ghost(before), Ghost(RULE@), Ghost(severity), Ghost(filename@)) {
                    proof {
                        let full = findings_upto(ctx.exports@.len() as int, f);
                        lemma_findings_upto_prefix(i + 1, ctx.exports@.len() as int, f);
                        let next = findings_upto(i + 1, f);
                        assert(next =~= before.push(finding_view(d)));
                        assert(full.subrange(0, before.len() as int) =~= next.subrange(0, before.len() as int));
                        assert(full.subrange(0, before.len() as int) == before);
                        assert(full.len() > before.len());
                        assert(full == duplicate_export_findings(*ctx, *config, filename@));
                    }
                    return;
                }
                assert(findings_upto(i + 1, f) =~= before.push(finding_view(d)));
            },
            None => {
                assert(f(i as int) =~= Seq::<FindingView>::empty());
                assert(findings_upto(i + 1, f) =~= before);
            },
        }
        i = i + 1;
    }
}

/// A named (or re-) export of a name an earlier named (or re-) export already
/// exports is reported at its `@export`, unless the rule is off.
pub proof fn law_repeated_export_reported(ctx: AnalysisContext, config: LintConfig, file: Seq<char>, j: int, i: int)
    requires
        0 <= j < i < ctx.exports@.len(),
        ctx.exports@[j].kind != ExportKind::Wildcard,
        ctx.exports@[i].kind != ExportKind::Wildcard,
        ctx.exports@[i].name is Some,
        opt_chars(ctx.exports@[j].name) == opt_chars(ctx.exports@[i].name),
        effective_severity(config, RULE@, Severity::Error) != Severity::Off,
    ensures
        exists|m: int| 0 <= m < duplicate_export_findings(ctx, config, file).len()
            && (#[trigger] duplicate_export_findings(ctx, config, file)[m]).0 == RULE@
            && (duplicate_export_findings(ctx, config, file)[m].4 matches Some(sp) && sp.offset == ctx.exports@[i].offset),
{
    let sev = effective_severity(config, RULE@, Severity::Error);
    let f = |i: int| duplicate_export_item(ctx, sev, file, i);
    assert(export_keys(ctx.exports@, false)[j] == named_key(ctx.exports@[i]));
    let x = f(i)[0];
    assert(f(i).contains(x));
    crate::rules::common::lemma_findings_upto_has(ctx.exports@.len() as int, f, i, x);
    let fs = duplicate_export_findings(ctx, config, file);
    let m = choose|m: int| 0 <= m < fs.len() && fs[m] == x;
    assert(fs[m].0 == RULE@);
}

} // verus!
