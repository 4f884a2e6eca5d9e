//! Rule `unused-function` (default warn, fixable in standalone files): a
//! `@define` that is neither exported nor called, in a module with explicit
//! exports; the fix removes the whole `@define ... @end` block. Quiet on
//! partials and on templates that extend another.
use vstd::prelude::*;
use crate::ast::Module;
use crate::config::LintConfig;
use crate::diagnostic::{FixLineSpan, LintDiagnostic, LintResultBuilder, Severity, MAX_DIAGNOSTICS};
use crate::facts::{contains_str, name_set, AnalysisContext, ExportFact, ExportKind};
use crate::parser_helpers::msg3;
use crate::rules::common::{effective_severity, emit_next, emitted, findings_upto, inclusive_span,
    lemma_findings_upto_empty, lemma_findings_upto_has,
    lemma_emitted_start, lemma_findings_upto_prefix, make_diag, resolve_severity, rule_findings,
    spanned_finding, FindingView};
use crate::text::utf8;

verus! {

/// The rule's name.
pub const RULE: &'static str = "unused-function";

/// The export `e` is a named or re-export of `name`.
pub open spec fn exports_as(e: ExportFact, name: Seq<char>) -> bool {
    e.kind != ExportKind::Wildcard && match e.name {
        Some(n) => n@ == name,
        None => false,
    }
}

/// A named or re-export directive of the module exports `name`.
pub open spec fn exports_name(ctx: AnalysisContext, name: Seq<char>) -> bool {
    exists|k: int| 0 <= k < ctx.exports@.len() && exports_as(#[trigger] ctx.exports@[k], name)
}

/// The finding of definition `i`, if it is neither exported nor called.
pub open spec fn unused_function_item(ctx: AnalysisContext, sev: Severity, file: Seq<char>, i: int) -> Seq<FindingView> {
    let def = ctx.defines@[i];
    if !exports_name(ctx, def.name@) && !name_set(ctx.used_calls@).contains(def.name@) {
        seq![spanned_finding(RULE@, sev, file,
            "Function '"@ + def.name@ + "' is defined but never exported or called."@,
            "Export the function with @export or call it somewhere, or remove the definition."@,
            def.offset, vstd::wrapping::usize_specs::wrapping_add(8, utf8(def.name@).len() as usize),
            Some(seq![FixLineSpan { from: def.offset, to: def.end_offset, to_inclusive: true }]))]
    } else {
        Seq::empty()
    }
}

/// The findings of the rule: one per definition that is neither exported nor
/// called, in definition order, when the module has explicit exports and is
/// neither a partial nor an extending template.
pub open spec fn unused_function_findings(ctx: AnalysisContext, config: LintConfig, file: Seq<char>) -> Seq<FindingView> {
    let sev = effective_severity(config, RULE@, Severity::Warn);
    if sev == Severity::Off || ctx.is_partial_or_extends || !ctx.has_explicit_exports {
        Seq::empty()
    } else {
        findings_upto(ctx.defines@.len() as int, |i: int| unused_function_item(ctx, sev, file, i))
    }
}

/// Whether a named or re-export directive exports `name`.
pub(crate) fn is_exported(ctx: &AnalysisContext, name: &str) -> (r: bool)
    ensures
        r == exports_name(*ctx, name@),
{
    let mut i: usize = 0;
    while i < ctx.exports.len()
        invariant
            i <= ctx.exports@.len(),
            forall|k: int| 0 <= k < i ==> !exports_as(#[trigger] ctx.exports@[k], name@),
        decreases ctx.exports@.len() - i,
    {
        let e = &ctx.exports[i];
        match e.kind {
            ExportKind::Named | ExportKind::ReExport => {
                if let Some(n) = &e.name {
                    if crate::text::str_eq(n.as_str(), name) {
                        return true;
                    }
                }
            },
            ExportKind::Wildcard => {},
        }
        i = i + 1;
    }
    false
}

/// Check the definitions of the module.
pub fn check(module: &Module, ctx: &AnalysisContext, filename: &str, config: &LintConfig, builder: &mut LintResultBuilder)
    requires
        old(builder).wf(),
    ensures
        final(builder).wf(),
        rule_findings(old(builder).diagnostics@, final(builder).diagnostics@, RULE@,
            effective_severity(*config, RULE@, Severity::Warn), filename@),
        emitted(old(builder).diagnostics@, old(builder).truncated, final(builder).diagnostics@, final(builder).truncated,
            unused_function_findings(*ctx, *config, filename@)),
        (effective_severity(*config, RULE@, Severity::Warn) == Severity::Off || ctx.is_partial_or_extends
            || !ctx.has_explicit_exports) ==> final(builder).diagnostics@ == old(builder).diagnostics@,
{
    let severity = resolve_severity(config, RULE, Severity::Warn);
    let ghost start = builder.diagnostics@;
    let ghost start_trunc = builder.truncated;
    let ghost sev = severity;
    let ghost file = filename@;
    let ghost f = |i: int| unused_function_item(*ctx, sev, file, i);
    assert(builder.diagnostics@.subrange(0, start.len() as int) =~= start);
    proof {
        lemma_emitted_start(*builder);
    }
    if severity == Severity::Off || ctx.is_partial_or_extends || !ctx.has_explicit_exports {
        return;
    }
    let mut i: usize = 0;
    while i < ctx.defines.len()
        invariant
            i <= ctx.defines@.len(),
            builder.wf(),
            severity == sev,
            sev == effective_severity(*config, RULE@, Severity::Warn),
            severity != Severity::Off,
            !ctx.is_partial_or_extends,
            ctx.has_explicit_exports,
            start == old(builder).diagnostics@,
            start_trunc == old(builder).truncated,
            file == filename@,
            f == (|i: int| unused_function_item(*ctx, sev, file, i)),
            rule_findings(start, builder.diagnostics@, RULE@, severity, filename@),
            emitted(start, start_trunc, builder.diagnostics@, builder.truncated, findings_upto(i as int, f)),
            findings_upto(i as int, f).len() <= MAX_DIAGNOSTICS - start.len(),
        decreases ctx.defines@.len() - i,
    {
        let def = &ctx.defines[i];
        let name = def.name.as_str();
        let ghost before = findings_upto(i as int, f);
        assert(findings_upto(i + 1, f) == before + f(i as int));
        if !is_exported(ctx, name) && !contains_str(&ctx.used_calls, name) {
            let len = 8usize.wrapping_add(name.as_bytes().len());
            let d = make_diag(RULE, severity, filename,
                msg3("Function '", name, "' is defined but never exported or called."),
                Some(String::from_str("Export the function with @export or call it somewhere, or remove the definition.")),
                def.offset, len, Some(vec![inclusive_span(def.offset, def.end_offset)]));
            assert(f(i as int) == seq![crate::rules::common::finding_view(d)]) by {
                assert(d.fix_removals->0@ =~= seq![FixLineSpan { from: def.offset, to: def.end_offset, to_inclusive: true }]);
            }
            if !emit_next(builder, d, Ghost(start), Ghost(start_trunc), Ghost(before), Ghost(RULE@), Ghost(severity), Ghost(filename@)) {
                proof {
                    let full = findings_upto(ctx.defines@.len() as int, f);
                    lemma_findings_upto_prefix(i + 1, ctx.defines@.len() as int, f);
                    let next = findings_upto(i + 1, f);
                    assert(next =~= before.push(crate::rules::common::finding_view(d)));
                    assert(full.subrange(0, before.len() as int) =~= next.subrange(0, before.len() as int));
                    assert(full.subrange(0, before.len() as int) == before);
                }
                return;
            }
            assert(findings_upto(i + 1, f) =~= before.push(crate::rules::common::finding_view(d)));
        } else {
            assert(f(i as int) == Seq::<FindingView>::empty());
            assert(findings_upto(i + 1, f) =~= before);
        }
        i = i + 1;
    }
}

// ── What the rule reports ────────────────────────────────────────────────────

/// When every definition is called or exported by name, the rule reports nothing.
pub proof fn law_used_functions_not_reported(ctx: AnalysisContext, config: LintConfig, file: Seq<char>)
    requires
        forall|i: int| 0 <= i < ctx.defines@.len() ==> name_set(ctx.used_calls@).contains((#[trigger] ctx.defines@[i]).name@)
            || exports_name(ctx, ctx.defines@[i].name@),
    ensures
        unused_function_findings(ctx, config, file).len() == 0,
{
    let sev = effective_severity(config, RULE@, Severity::Warn);
    if !(sev == Severity::Off || ctx.is_partial_or_extends || !ctx.has_explicit_exports) {
        let f = |i: int| unused_function_item(ctx, sev, file, i);
        assert forall|i: int| 0 <= i < ctx.defines@.len() implies (#[trigger] f(i)).len() == 0 by {
            assert(name_set(ctx.used_calls@).contains(ctx.defines@[i].name@) || exports_name(ctx, ctx.defines@[i].name@));
        }
        lemma_findings_upto_empty(ctx.defines@.len() as int, f);
    }
}

/// A definition that is neither called nor exported by name is reported, when the
/// module has explicit exports, the rule is on, and the template is neither a
/// partial nor extends another.
pub proof fn law_unused_function_reported(ctx: AnalysisContext, config: LintConfig, file: Seq<char>, i: int)
    requires
        0 <= i < ctx.defines@.len(),
        !name_set(ctx.used_calls@).contains(ctx.defines@[i].name@),
        !exports_name(ctx, ctx.defines@[i].name@),
        ctx.has_explicit_exports,
        effective_severity(config, RULE@, Severity::Warn) != Severity::Off,
        !ctx.is_partial_or_extends,
    ensures
        exists|j: int| 0 <= j < unused_function_findings(ctx, config, file).len()
            && (#[trigger] unused_function_findings(ctx, config, file)[j]).0 == RULE@
            && unused_function_findings(ctx, config, file)[j].2 == "Function '"@ + ctx.defines@[i].name@
                + "' is defined but never exported or called."@,
{
    let sev = effective_severity(config, RULE@, Severity::Warn);
    let f = |i: int| unused_function_item(ctx, sev, file, i);
    let x = f(i)[0];
    assert(f(i).contains(x));
    lemma_findings_upto_has(ctx.defines@.len() as int, f, i, x);
    let fs = unused_function_findings(ctx, config, file);
    let j = choose|j: int| 0 <= j < fs.len() && fs[j] == x;
    assert(fs[j].0 == RULE@);
}

} // verus!
