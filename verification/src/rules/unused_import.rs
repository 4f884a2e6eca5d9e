//! Rule `unused-import` (default warn, report only): an alias import never used by
//! `@include` or a qualified call, or a selectively imported name never called,
//! used as a variable or re-exported. Merge imports count as used. Quiet on
//! partials and on templates that extend another.
use vstd::prelude::*;
use crate::ast::Module;
use crate::config::LintConfig;
use crate::diagnostic::{LintDiagnostic, LintResultBuilder, Severity, MAX_DIAGNOSTICS};
use crate::facts::{contains_str, name_set, AnalysisContext, ImportKind};
use crate::parser_helpers::msg3;
use crate::rules::common::{effective_severity, emit_next, emitted, finding_view, findings_upto, lemma_findings_upto_empty,
    lemma_findings_upto_has,
    lemma_emitted_start, lemma_findings_upto_prefix, make_diag, resolve_severity, rule_findings, spanned_finding,
    FindingView};
use crate::rules::unused_function::{exports_name, is_exported};
use crate::text::utf8;

verus! {

/// The rule's name.
pub const RULE: &'static str = "unused-import";

/// `a`, then `b`, then `c`, then `d`, then `e`.
fn msg5(a: &str, b: &str, c: &str, d: &str, e: &str) -> (r: String)
    ensures
        r@ == a@ + b@ + c@ + d@ + e@,
{
    let mut out = msg3(a, b, c);
    out.append(d);
    out.append(e);
    out
}

/// The finding of name `k` of the selective import `i`, if the body never calls
/// it, never uses it as a variable and no directive re-exports it.
pub open spec fn unused_name_item(ctx: AnalysisContext, sev: Severity, file: Seq<char>, i: int, k: int) -> Seq<FindingView> {
    let imp = ctx.imports@[i];
    let name = imp.names@[k]@;
    if !name_set(ctx.used_calls@).contains(name) && !name_set(ctx.used_vars@).contains(name) && !exports_name(ctx, name) {
        seq![spanned_finding(RULE@, sev, file,
            "Imported name '"@ + name + "' from '"@ + imp.path@ + "' is never used."@,
            "Remove '"@ + name + "' from the selective import or use it in the body."@,
            if k < imp.name_offsets@.len() { imp.name_offsets@[k] } else { imp.offset },
            utf8(name).len() as usize, None)]
    } else {
        Seq::empty()
    }
}

/// The finding or findings of import `i`: an alias that no `@include` and no
/// qualified call uses, or each unused name of a selective import.
pub open spec fn unused_import_item(ctx: AnalysisContext, sev: Severity, file: Seq<char>, i: int) -> Seq<FindingView> {
    let imp = ctx.imports@[i];
    match imp.kind {
        ImportKind::Merge => Seq::empty(),
        ImportKind::Alias => {
            let alias = match imp.alias { Some(a) => a@, None => Seq::empty() };
            if !name_set(ctx.used_namespaces@).contains(alias) && !name_set(ctx.used_include_aliases@).contains(alias) {
                seq![spanned_finding(RULE@, sev, file,
                    "Import alias '"@ + alias + "' from '"@ + imp.path@ + "' is never used."@,
                    "Remove the @import or use the alias with @include or as a qualified call (`alias.func(...)`)."@,
                    imp.offset, 7, None)]
            } else {
                Seq::empty()
            }
        },
        ImportKind::Selective => findings_upto(imp.names@.len() as int, |k: int| unused_name_item(ctx, sev, file, i, k)),
    }
}

/// The findings of the rule, in import order, unless the template is a partial
/// or extends another.
pub open spec fn unused_import_findings(ctx: AnalysisContext, config: LintConfig, file: Seq<char>) -> Seq<FindingView> {
    let sev = effective_severity(config, RULE@, Severity::Warn);
    if sev == Severity::Off || ctx.is_partial_or_extends {
        Seq::empty()
    } else {
        findings_upto(ctx.imports@.len() as int, |i: int| unused_import_item(ctx, sev, file, i))
    }
}

/// Check the imports of the module.
pub fn check(module: &Module, ctx: &AnalysisContext, filename: &str, config: &LintConfig, builder: &mut LintResultBuilder)
    requires
        old(builder).wf(),
    ensures
        final(builder).wf(),
        rule_findings(old(builder).diagnostics@, final(builder).diagnostics@, RULE@,
            effective_severity(*config, RULE@, Severity::Warn), filename@),
        emitted(old(builder).diagnostics@, old(builder).truncated, final(builder).diagnostics@, final(builder).truncated,
            unused_import_findings(*ctx, *config, filename@)),
        (effective_severity(*config, RULE@, Severity::Warn) == Severity::Off || ctx.is_partial_or_extends)
            ==> final(builder).diagnostics@ == old(builder).diagnostics@,
{
    let severity = resolve_severity(config, RULE, Severity::Warn);
    let ghost start = builder.diagnostics@;
    let ghost start_trunc = builder.truncated;
    let ghost sev = severity;
    let ghost file = filename@;
    let ghost f = |i: int| unused_import_item(*ctx, sev, file, i);
    assert(builder.diagnostics@.subrange(0, start.len() as int) =~= start);
    proof {
        lemma_emitted_start(*builder);
    }
    if severity == Severity::Off || ctx.is_partial_or_extends {
        return;
    }
    let mut i: usize = 0;
    while i < ctx.imports.len()
        invariant
            i <= ctx.imports@.len(),
            builder.wf(),
            severity == sev,
            sev == effective_severity(*config, RULE@, Severity::Warn),
            severity != Severity::Off,
            !ctx.is_partial_or_extends,
            start == old(builder).diagnostics@,
            start_trunc == old(builder).truncated,
            file == filename@,
            f == (|i: int| unused_import_item(*ctx, sev, file, i)),
            rule_findings(start, builder.diagnostics@, RULE@, severity, filename@),
            emitted(start, start_trunc, builder.diagnostics@, builder.truncated, findings_upto(i as int, f)),
            findings_upto(i as int, f).len() <= MAX_DIAGNOSTICS - start.len(),
        decreases ctx.imports@.len() - i,
    {
        let imp = &ctx.imports[i];
        let ghost before = findings_upto(i as int, f);
        let ghost full = findings_upto(ctx.imports@.len() as int, f);
        proof {
            lemma_findings_upto_prefix(i + 1, ctx.imports@.len() as int, f);
        }
        assert(findings_upto(i + 1, f) == before + f(i as int));
        match imp.kind {
            ImportKind::Merge => {
                assert(findings_upto(i + 1, f) =~= before);
            },
            ImportKind::Alias => {
                let alias = match &imp.alias {
                    Some(a) => a.as_str(),
                    None => "",
                };
                proof {
                    reveal_strlit("");
                    assert(alias@ == match imp.alias { Some(a) => a@, None => Seq::<char>::empty() });
                }
                let used = contains_str(&ctx.used_namespaces, alias) || contains_str(&ctx.used_include_aliases, alias);
                if !used {
                    let d = make_diag(RULE, severity, filename,
                        msg5("Import alias '", alias, "' from '", imp.path.as_str(), "' is never used."),
                        Some(String::from_str("Remove the @import or use the alias with @include or as a qualified call (`alias.func(...)`).")),
                        imp.offset, 7, None);
                    assert(f(i as int) == seq![finding_view(d)]);
                    if !emit_next(builder, d, Ghost(start), Ghost(start_trunc), Ghost(before), Ghost(RULE@), Ghost(severity), Ghost(filename@)) {
                        proof {
                            let next = findings_upto(i + 1, f);
                            assert(next =~= before.push(finding_view(d)));
                            assert(full.subrange(0, before.len() as int) =~= next.subrange(0, before.len() as int));
                            assert(full.subrange(0, before.len() as int) == before);
                        }
                        return;
                    }
                    assert(findings_upto(i + 1, f) =~= before.push(finding_view(d)));
                } else {
                    assert(findings_upto(i + 1, f) =~= before);
                }
            },
            ImportKind::Selective => {
                let ghost g = |k: int| unused_name_item(*ctx, sev, file, i as int, k);
                assert(f(i as int) == findings_upto(imp.names@.len() as int, g));
                assert(before + findings_upto(0, g) =~= before);
                let mut k: usize = 0;
                while k < imp.names.len()
                    invariant
                        k <= imp.names@.len(),
                        i < ctx.imports@.len(),
                        imp == ctx.imports@[i as int],
                        builder.wf(),
                        severity == sev,
                        sev == effective_severity(*config, RULE@, Severity::Warn),
                        !ctx.is_partial_or_extends,
                        full == findings_upto(ctx.imports@.len() as int, f),
                        f == (|i: int| unused_import_item(*ctx, sev, file, i)),
                        severity != Severity::Off,
                        start == old(builder).diagnostics@,
                        start_trunc == old(builder).truncated,
                        file == filename@,
                        g == (|k: int| unused_name_item(*ctx, sev, file, i as int, k)),
                        rule_findings(start, builder.diagnostics@, RULE@, severity, filename@),
                        emitted(start, start_trunc, builder.diagnostics@, builder.truncated, before + findings_upto(k as int, g)),
                        (before + findings_upto(k as int, g)).len() <= MAX_DIAGNOSTICS - start.len(),
                        full.subrange(0, (before + findings_upto(imp.names@.len() as int, g)).len() as int)
                            == before + findings_upto(imp.names@.len() as int, g),
                        full.len() >= (before + findings_upto(imp.names@.len() as int, g)).len(),
                    decreases imp.names@.len() - k,
                {
                    let ghost cur = before + findings_upto(k as int, g);
                    assert(before + findings_upto(k + 1, g) =~= cur + g(k as int));
                    proof {
                        lemma_findings_upto_prefix(k + 1, imp.names@.len() as int, g);
                    }
                    let name = imp.names[k].as_str();
                    let used = contains_str(&ctx.used_calls, name) || contains_str(&ctx.used_vars, name)
                        || is_exported(ctx, name);
                    if !used {
                        let name_offset = if k < imp.name_offsets.len() { imp.name_offsets[k] } else { imp.offset };
                        let d = make_diag(RULE, severity, filename,
                            msg5("Imported name '", name, "' from '", imp.path.as_str(), "' is never used."),
                            Some(msg3("Remove '", name, "' from the selective import or use it in the body.")),
                            name_offset, name.as_bytes().len(), None);
                        assert(g(k as int) == seq![finding_view(d)]);
                        if !emit_next(builder, d, Ghost(start), Ghost(start_trunc), Ghost(cur), Ghost(RULE@), Ghost(severity), Ghost(filename@)) {
                            proof {
                                let whole = before + findings_upto(imp.names@.len() as int, g);
                                let next = before + findings_upto(k + 1, g);
                                assert(next =~= cur.push(finding_view(d)));
                                assert(whole.subrange(0, next.len() as int) =~= next);
                                assert(full.subrange(0, cur.len() as int) =~= whole.subrange(0, cur.len() as int));
                                assert(full.subrange(0, cur.len() as int) == cur);
                            }
                            return;
                        }
                        assert(before + findings_upto(k + 1, g) =~= cur.push(finding_view(d)));
                    } else {
                        assert(g(k as int) =~= Seq::<FindingView>::empty());
                        assert(before + findings_upto(k + 1, g) =~= cur);
                    }
                    k = k + 1;
                }
                assert(findings_upto(i + 1, f) =~= before + findings_upto(imp.names@.len() as int, g));
            },
        }
        i = i + 1;
    }
}

// ── What the rule reports ────────────────────────────────────────────────────

/// A name of a selective import is used: the body calls it, uses it as a variable,
/// or a directive re-exports it.
pub open spec fn import_name_used(ctx: AnalysisContext, name: Seq<char>) -> bool {
    ||| name_set(ctx.used_calls@).contains(name)
    ||| name_set(ctx.used_vars@).contains(name)
    ||| exports_name(ctx, name)
}

/// When every selectively imported name is used (called, used as a variable, or
/// re-exported) and every import alias is used (by `@include` or a qualified call),
/// the rule reports nothing.
pub proof fn law_used_imports_not_reported(ctx: AnalysisContext, config: LintConfig, file: Seq<char>)
    requires
        forall|i: int, k: int| 0 <= i < ctx.imports@.len() && ctx.imports@[i].kind == ImportKind::Selective
            && 0 <= k < ctx.imports@[i].names@.len() ==> import_name_used(ctx, (#[trigger] ctx.imports@[i].names@[k])@),
        forall|i: int| 0 <= i < ctx.imports@.len() && (#[trigger] ctx.imports@[i]).kind == ImportKind::Alias
            ==> (ctx.imports@[i].alias matches Some(a) && (name_set(ctx.used_namespaces@).contains(a@)
                || name_set(ctx.used_include_aliases@).contains(a@))),
    ensures
        unused_import_findings(ctx, config, file).len() == 0,
{
    let sev = effective_severity(config, RULE@, Severity::Warn);
    if !(sev == Severity::Off || ctx.is_partial_or_extends) {
        let f = |i: int| unused_import_item(ctx, sev, file, i);
        assert forall|i: int| 0 <= i < ctx.imports@.len() implies (#[trigger] f(i)).len() == 0 by {
            let imp = ctx.imports@[i];
            if imp.kind == ImportKind::Selective {
                let g = |k: int| unused_name_item(ctx, sev, file, i, k);
                assert forall|k: int| 0 <= k < imp.names@.len() implies (#[trigger] g(k)).len() == 0 by {
                    assert(import_name_used(ctx, ctx.imports@[i].names@[k]@));
                }
                lemma_findings_upto_empty(imp.names@.len() as int, g);
            }
        }
        lemma_findings_upto_empty(ctx.imports@.len() as int, f);
    }
}

/// A selectively imported name that is neither called, nor used as a variable, nor
/// re-exported is reported, with the import's path, unless the rule is off or the
/// template is a partial or extends another.
pub proof fn law_unused_import_name_reported(ctx: AnalysisContext, config: LintConfig, file: Seq<char>, i: int, k: int)
    requires
        0 <= i < ctx.imports@.len(),
        ctx.imports@[i].kind == ImportKind::Selective,
        0 <= k < ctx.imports@[i].names@.len(),
        !import_name_used(ctx, ctx.imports@[i].names@[k]@),
        effective_severity(config, RULE@, Severity::Warn) != Severity::Off,
        !ctx.is_partial_or_extends,
    ensures
        exists|j: int| 0 <= j < unused_import_findings(ctx, config, file).len()
            && (#[trigger] unused_import_findings(ctx, config, file)[j]).0 == RULE@
            && unused_import_findings(ctx, config, file)[j].2 == "Imported name '"@ + ctx.imports@[i].names@[k]@ + "' from '"@
                + ctx.imports@[i].path@ + "' is never used."@,
{
    let sev = effective_severity(config, RULE@, Severity::Warn);
    let f = |i: int| unused_import_item(ctx, sev, file, i);
    let g = |k: int| unused_name_item(ctx, sev, file, i, k);
    let x = g(k)[0];
    assert(g(k).contains(x));
    lemma_findings_upto_has(ctx.imports@[i].names@.len() as int, g, k, x);
    assert(f(i) == findings_upto(ctx.imports@[i].names@.len() as int, g));
    lemma_findings_upto_has(ctx.imports@.len() as int, f, i, x);
    let fs = unused_import_findings(ctx, config, file);
    let j = choose|j: int| 0 <= j < fs.len() && fs[j] == x;
    assert(fs[j].0 == RULE@);
}

} // verus!
