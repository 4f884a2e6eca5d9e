//! Rule `unused-variable` (default warn, report only): a frontmatter variable the
//! body never uses. Quiet on partials and on templates that extend another.
use vstd::prelude::*;
use crate::ast::Module;
use crate::config::LintConfig;
use crate::diagnostic::{LintDiagnostic, LintResultBuilder, Severity, MAX_DIAGNOSTICS};
use crate::error::SerializedSpan;
use crate::facts::{contains_str, name_set, AnalysisContext};
use crate::parser_helpers::msg3;
use crate::rules::common::{effective_severity, emit_next, emitted, finding_view, findings_upto,
    lemma_findings_upto_empty, lemma_findings_upto_has,
    lemma_emitted_start, lemma_findings_upto_prefix, rule_findings, FindingView};
use crate::text::utf8;

verus! {

/// The rule's name.
pub const RULE: &'static str = "unused-variable";

/// The finding of frontmatter variable `i`, if the body never uses it.
pub open spec fn unused_variable_item(ctx: AnalysisContext, sev: Severity, file: Seq<char>, i: int) -> Seq<FindingView> {
    let fv = ctx.frontmatter_vars@[i];
    if !name_set(ctx.used_vars@).contains(fv.name@) {
        seq![(RULE@, sev,
            "Variable '"@ + fv.name@ + "' is defined in frontmatter but never referenced in the body."@,
            Some("Remove the frontmatter key or reference it in the template body."@),
            match fv.approx_offset {
                Some(off) => Some(SerializedSpan { offset: off, length: utf8(fv.name@).len() as usize, line: None, column: None }),
                None => None,
            },
            Some(file), None, None)]
    } else {
        Seq::empty()
    }
}

/// The findings of the rule: one per frontmatter variable the body never uses,
/// in frontmatter order, unless the template is a partial or extends another.
pub open spec fn unused_variable_findings(ctx: AnalysisContext, config: LintConfig, file: Seq<char>) -> Seq<FindingView> {
    let sev = effective_severity(config, RULE@, Severity::Warn);
    if sev == Severity::Off || ctx.is_partial_or_extends {
        Seq::empty()
    } else {
        findings_upto(ctx.frontmatter_vars@.len() as int, |i: int| unused_variable_item(ctx, sev, file, i))
    }
}

/// Check the frontmatter variables: each one the body does not use is a finding.
pub fn check(module: &Module, ctx: &AnalysisContext, filename: &str, config: &LintConfig, builder: &mut LintResultBuilder)
    requires
        old(builder).wf(),
    ensures
        final(builder).wf(),
        rule_findings(old(builder).diagnostics@, final(builder).diagnostics@, RULE@,
            effective_severity(*config, RULE@, Severity::Warn), filename@),
        emitted(old(builder).diagnostics@, old(builder).truncated, final(builder).diagnostics@, final(builder).truncated,
            unused_variable_findings(*ctx, *config, filename@)),
        (effective_severity(*config, RULE@, Severity::Warn) == Severity::Off || ctx.is_partial_or_extends)
            ==> final(builder).diagnostics@ == old(builder).diagnostics@,
{
    let severity = crate::rules::common::resolve_severity(config, RULE, Severity::Warn);
    let ghost start = builder.diagnostics@;
    let ghost start_trunc = builder.truncated;
    let ghost sev = severity;
    let ghost file = filename@;
    let ghost f = |i: int| unused_variable_item(*ctx, sev, file, i);
    assert(builder.diagnostics@.subrange(0, start.len() as int) =~= start);
    proof {
        lemma_emitted_start(*builder);
    }
    if severity == Severity::Off || ctx.is_partial_or_extends {
        return;
    }
    let mut i: usize = 0;
    while i < ctx.frontmatter_vars.len()
        invariant
            i <= ctx.frontmatter_vars@.len(),
            builder.wf(),
            severity == sev,
            sev == effective_severity(*config, RULE@, Severity::Warn),
            severity != Severity::Off,
            !ctx.is_partial_or_extends,
            start == old(builder).diagnostics@,
            start_trunc == old(builder).truncated,
            file == filename@,
            f == (|i: int| unused_variable_item(*ctx, sev, file, i)),
            rule_findings(start, builder.diagnostics@, RULE@, severity, filename@),
            emitted(start, start_trunc, builder.diagnostics@, builder.truncated, findings_upto(i as int, f)),
            findings_upto(i as int, f).len() <= MAX_DIAGNOSTICS - start.len(),
        decreases ctx.frontmatter_vars@.len() - i,
    {
        let fv = &ctx.frontmatter_vars[i];
        let ghost before = findings_upto(i as int, f);
        assert(findings_upto(i + 1, f) == before + f(i as int));
        if !contains_str(&ctx.used_vars, fv.name.as_str()) {
            let span = match fv.approx_offset {
                Some(off) => Some(SerializedSpan::at(off, fv.name.as_str().as_bytes().len())),
                None => None,
            };
            let d = LintDiagnostic {
                rule: RULE.to_owned(),
                severity,
                message: msg3("Variable '", fv.name.as_str(), "' is defined in frontmatter but never referenced in the body."),
                help: Some(String::from_str("Remove the frontmatter key or reference it in the template body.")),
                span,
                file: Some(filename.to_owned()),
                fix_removals: None,
                fix_edits: None,
            };
            assert(f(i as int) == seq![finding_view(d)]);
            if !emit_next(builder, d, Ghost(start), Ghost(start_trunc), Ghost(before), Ghost(RULE@), Ghost(severity), Ghost(filename@)) {
                proof {
                    let full = findings_upto(ctx.frontmatter_vars@.len() as int, f);
                    lemma_findings_upto_prefix(i + 1, ctx.frontmatter_vars@.len() as int, f);
                    let next = findings_upto(i + 1, f);
                    assert(next =~= before.push(finding_view(d)));
                    assert(full.subrange(0, before.len() as int) =~= next.subrange(0, before.len() as int));
                    assert(full.subrange(0, before.len() as int) == before);
                    assert(full.len() > before.len());
                }
                return;
            }
            assert(findings_upto(i + 1, f) =~= before.push(finding_view(d)));
        } else {
            assert(f(i as int) =~= Seq::<FindingView>::empty());
            assert(findings_upto(i + 1, f) =~= before);
        }
        i = i + 1;
    }
}

// ── What the rule reports ────────────────────────────────────────────────────

/// When the body uses every frontmatter variable, the rule reports nothing.
pub proof fn law_used_variables_not_reported(ctx: AnalysisContext, config: LintConfig, file: Seq<char>)
    requires
        forall|i: int| 0 <= i < ctx.frontmatter_vars@.len()
            ==> name_set(ctx.used_vars@).contains((#[trigger] ctx.frontmatter_vars@[i]).name@),
    ensures
        unused_variable_findings(ctx, config, file).len() == 0,
{
    let sev = effective_severity(config, RULE@, Severity::Warn);
    if !(sev == Severity::Off || ctx.is_partial_or_extends) {
        let f = |i: int| unused_variable_item(ctx, sev, file, i);
        assert forall|i: int| 0 <= i < ctx.frontmatter_vars@.len() implies (#[trigger] f(i)).len() == 0 by {
            assert(name_set(ctx.used_vars@).contains(ctx.frontmatter_vars@[i].name@));
        }
        lemma_findings_upto_empty(ctx.frontmatter_vars@.len() as int, f);
    }
}

/// A frontmatter variable the body never uses is reported by name, unless the rule
/// is off or the template is a partial or extends another.
pub proof fn law_unused_variable_reported(ctx: AnalysisContext, config: LintConfig, file: Seq<char>, i: int)
    requires
        0 <= i < ctx.frontmatter_vars@.len(),
        !name_set(ctx.used_vars@).contains(ctx.frontmatter_vars@[i].name@),
        effective_severity(config, RULE@, Severity::Warn) != Severity::Off,
        !ctx.is_partial_or_extends,
    ensures
        exists|j: int| 0 <= j < unused_variable_findings(ctx, config, file).len()
            && (#[trigger] unused_variable_findings(ctx, config, file)[j]).0 == RULE@
            && unused_variable_findings(ctx, config, file)[j].2 == "Variable '"@ + ctx.frontmatter_vars@[i].name@
                + "' is defined in frontmatter but never referenced in the body."@,
{
    let sev = effective_severity(config, RULE@, Severity::Warn);
    let f = |i: int| unused_variable_item(ctx, sev, file, i);
    let x = f(i)[0];
    assert(f(i).contains(x));
    lemma_findings_upto_has(ctx.frontmatter_vars@.len() as int, f, i, x);
    let fs = unused_variable_findings(ctx, config, file);
    let j = choose|j: int| 0 <= j < fs.len() && fs[j] == x;
    assert(fs[j].0 == RULE@);
}

} // verus!
