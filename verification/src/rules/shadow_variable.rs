//! Rule `shadow-variable` (default off, report only): an inner binding (a `@for`
//! variable or a `@define` parameter) with the name of an outer one.
use vstd::prelude::*;
use crate::ast::Module;
use crate::config::LintConfig;
use crate::diagnostic::{LintDiagnostic, LintResultBuilder, Severity, MAX_DIAGNOSTICS};
use crate::facts::{AnalysisContext, ShadowKind};
use crate::parser_helpers::msg3;
use crate::rules::common::{effective_severity, emit_next, emitted, finding_view, findings_upto,
    lemma_emitted_start, lemma_findings_upto_prefix, make_diag, resolve_severity, rule_findings, spanned_finding,
    FindingView};
use crate::text::utf8;

verus! {

/// The rule's name.
pub const RULE: &'static str = "shadow-variable";

/// How a finding names a kind of binding.
pub open spec fn kind_text(kind: ShadowKind) -> Seq<char> {
    match kind {
        ShadowKind::FmVar => "frontmatter variable"@,
        ShadowKind::ImportAlias => "import alias"@,
        ShadowKind::ForVar => "@for loop variable"@,
        ShadowKind::DefineParam => "@define parameter"@,
    }
}

/// How a finding names a kind of binding.
pub fn kind_desc(kind: ShadowKind) -> (r: &'static str)
    ensures
        r@ == kind_text(kind),
{
    match kind {
        ShadowKind::FmVar => "frontmatter variable",
        ShadowKind::ImportAlias => "import alias",
        ShadowKind::ForVar => "@for loop variable",
        ShadowKind::DefineParam => "@define parameter",
    }
}

/// The finding of shadowing pair `i`.
pub open spec fn shadow_item(ctx: AnalysisContext, sev: Severity, file: Seq<char>, i: int) -> Seq<FindingView> {
    let p = ctx.shadow_pairs@[i];
    seq![spanned_finding(RULE@, sev, file,
        "Variable '"@ + p.name@ + "' ("@ + kind_text(p.inner_kind) + ") shadows an outer "@ + kind_text(p.outer_kind)
            + " with the same name."@,
        "Rename '"@ + p.name@ + "' in the inner scope to avoid shadowing."@,
        p.offset, utf8(p.name@).len() as usize, None)]
}

/// The findings of the rule: one per shadowing pair, in order; none unless the
/// rule is switched on (it is off by default).
pub open spec fn shadow_findings(ctx: AnalysisContext, config: LintConfig, file: Seq<char>) -> Seq<FindingView> {
    let sev = effective_severity(config, RULE@, Severity::Off);
    if sev == Severity::Off {
        Seq::empty()
    } else {
        findings_upto(ctx.shadow_pairs@.len() as int, |i: int| shadow_item(ctx, sev, file, i))
    }
}

/// Report each shadowing pair of the facts.
pub fn check(module: &Module, ctx: &AnalysisContext, filename: &str, config: &LintConfig, builder: &mut LintResultBuilder)
    requires
        old(builder).wf(),
    ensures
        final(builder).wf(),
        rule_findings(old(builder).diagnostics@, final(builder).diagnostics@, RULE@,
            effective_severity(*config, RULE@, Severity::Off), filename@),
        emitted(old(builder).diagnostics@, old(builder).truncated, final(builder).diagnostics@, final(builder).truncated,
            shadow_findings(*ctx, *config, filename@)),
        effective_severity(*config, RULE@, Severity::Off) == Severity::Off ==> final(builder).diagnostics@ == old(builder).diagnostics@,
{
    let severity = resolve_severity(config, RULE, Severity::Off);
    let ghost start = builder.diagnostics@;
    let ghost start_trunc = builder.truncated;
    let ghost sev = severity;
    let ghost file = filename@;
    let ghost f = |i: int| shadow_item(*ctx, sev, file, i);
    assert(builder.diagnostics@.subrange(0, start.len() as int) =~= start);
    proof {
        lemma_emitted_start(*builder);
    }
    if severity == Severity::Off {
        return;
    }
    let mut i: usize = 0;
    while i < ctx.shadow_pairs.len()
        invariant
            i <= ctx.shadow_pairs@.len(),
            builder.wf(),
            severity == sev,
            sev == effective_severity(*config, RULE@, Severity::Off),
            severity != Severity::Off,
            start == old(builder).diagnostics@,
            start_trunc == old(builder).truncated,
            file == filename@,
            f == (|i: int| shadow_item(*ctx, sev, file, i)),
            rule_findings(start, builder.diagnostics@, RULE@, severity, filename@),
            emitted(start, start_trunc, builder.diagnostics@, builder.truncated, findings_upto(i as int, f)),
            findings_upto(i as int, f).len() <= MAX_DIAGNOSTICS - start.len(),
        decreases ctx.shadow_pairs@.len() - i,
    {
        let pair = &ctx.shadow_pairs[i];
        let ghost before = findings_upto(i as int, f);
        assert(findings_upto(i + 1, f) == before + f(i as int));
        let mut m = msg3("Variable '", pair.name.as_str(), "' (");
        m.append(kind_desc(pair.inner_kind));
        m.append(") shadows an outer ");
        m.append(kind_desc(pair.outer_kind));
        m.append(" with the same name.");
        let d = make_diag(RULE, severity, filename, m,
            Some(msg3("Rename '", pair.name.as_str(), "' in the inner scope to avoid shadowing.")),
            pair.offset, pair.name.as_str().as_bytes().len(), None);
        assert(f(i as int) == seq![finding_view(d)]);
        if !emit_next(builder, d, Ghost(start), Ghost(start_trunc), Ghost(before), Ghost(RULE@), Ghost(severity), Ghost(filename@)) {
            proof {
                let full = findings_upto(ctx.shadow_pairs@.len() as int, f);
                lemma_findings_upto_prefix(i + 1, ctx.shadow_pairs@.len() as int, f);
                let next = findings_upto(i + 1, f);
                assert(next =~= before.push(finding_view(d)));
                assert(full.subrange(0, before.len() as int) =~= next.subrange(0, before.len() as int));
                assert(full.subrange(0, before.len() as int) == before);
                assert(full.len() > before.len());
            }
            return;
        }
        assert(findings_upto(i + 1, f) =~= before.push(finding_view(d)));
        i = i + 1;
    }
}

} // verus!
