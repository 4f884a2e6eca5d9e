//! The lint engine: tokenize and parse the source, walk it once for facts, run
//! the ten rules, and return the collected findings sorted by position.
use vstd::prelude::*;
use vstd::string::StringSliceAdditionalSpecFns;
use crate::config::{known_rule, LintConfig};
use crate::diagnostic::{LintDiagnostic, LintResult, LintResultBuilder, Severity, is_stable_sort_of};
use crate::error::MdsError;
use crate::facts::{collect_facts, AnalysisContext};
use crate::lexer::{tokenize, Token};
use crate::ast::Module;
use crate::rules::common::{effective_severity, emitted, lemma_emitted_compose, rule_findings, FindingView};
use crate::rules::{
    duplicate_export, duplicate_import, empty_block, legacy_interpolation, redundant_else, shadow_variable,
    unreachable_branch, unused_function, unused_import, unused_variable,
};

verus! {

broadcast use vstd::seq::group_seq_axioms, vstd::seq_lib::group_seq_properties;

/// The end of the last path component of `c[..end]`: trailing separators and
/// `.` components are dropped.
pub open spec fn name_end(c: Seq<char>, end: int) -> int
    decreases end,
{
    if end <= 0 {
        0
    } else if c[end - 1] == '/' {
        name_end(c, end - 1)
    } else if end >= 2 && c[end - 1] == '.' && c[end - 2] == '/' {
        name_end(c, end - 2)
    } else if end == 1 && c[0] == '.' {
        0
    } else {
        end
    }
}

/// The start of the path component that ends at `end`.
pub open spec fn name_start(c: Seq<char>, end: int) -> int
    decreases end,
{
    if end > 0 && c[end - 1] != '/' { name_start(c, end - 1) } else { end }
}

/// The file name of `path` (its last component) starts with `_`.
pub open spec fn partial_name(path: Seq<char>) -> bool {
    let e = name_end(path, path.len() as int);
    let s = name_start(path, e);
    s < e && path[s] == '_'
}

/// Whether `path` names a partial: its file name (the last component, trailing
/// `/` and `/.` ignored) starts with `_`.
pub fn is_partial_by_name(path: &str) -> (r: bool)
    ensures
        r == partial_name(path@),
{
    let c = crate::text::chars_of(path);
    let mut end = c.len();
    // Drop trailing separators and `.` components.
    loop
        invariant
            end <= c@.len(),
            c@ == path@,
            name_end(c@, end as int) == name_end(c@, c@.len() as int),
        ensures
            end <= c@.len(),
            end as int == name_end(c@, c@.len() as int),
        decreases end,
    {
        if end > 0 && c[end - 1] == '/' {
            end = end - 1;
        } else if end >= 2 && c[end - 1] == '.' && c[end - 2] == '/' {
            end = end - 2;
        } else if end == 1 && c[0] == '.' {
            end = 0;
        } else {
            break;
        }
    }
    assert(end as int == name_end(c@, c@.len() as int));
    let mut start = end;
    while start > 0 && c[start - 1] != '/'
        invariant
            start <= end <= c@.len(),
            name_start(c@, start as int) == name_start(c@, end as int),
        decreases start,
    {
        start = start - 1;
    }
    if start >= end {
        return false;
    }
    if end - start == 2 && c[start] == '.' && c[start + 1] == '.' {
        return false;
    }
    c[start] == '_'
}

/// Every finding after `start` in `diags` belongs to a registered rule, has a
/// severity other than off, and names `file`.
pub open spec fn findings_ok(start: Seq<LintDiagnostic>, diags: Seq<LintDiagnostic>, file: Seq<char>) -> bool {
    &&& start.len() <= diags.len()
    &&& diags.subrange(0, start.len() as int) == start
    &&& forall|k: int| start.len() <= k < diags.len() ==> finding_sound(#[trigger] diags[k], file)
}

/// A finding of a registered rule, not off, in `file`.
pub open spec fn finding_sound(d: LintDiagnostic, file: Seq<char>) -> bool {
    &&& known_rule(d.rule@)
    &&& d.severity != Severity::Off
    &&& (d.file matches Some(f) && f@ == file)
}

/// One rule's findings keep the collector sound.
proof fn lemma_rule_step(start: Seq<LintDiagnostic>, mid: Seq<LintDiagnostic>, fin: Seq<LintDiagnostic>,
    rule: Seq<char>, sev: Severity, file: Seq<char>)
    requires
        findings_ok(start, mid, file),
        rule_findings(mid, fin, rule, sev, file),
        known_rule(rule),
        sev == Severity::Off ==> fin == mid,
    ensures
        findings_ok(start, fin, file),
{
    assert(fin.subrange(0, start.len() as int) =~= mid.subrange(0, start.len() as int)) by {
        assert forall|k: int| 0 <= k < start.len() implies fin[k] == mid[k] by {
            assert(fin.subrange(0, mid.len() as int)[k] == mid[k]);
        }
    }
    assert forall|k: int| start.len() <= k < fin.len() implies finding_sound(#[trigger] fin[k], file) by {
        if k < mid.len() {
            assert(fin.subrange(0, mid.len() as int)[k] == mid[k]);
        } else {
            assert(crate::rules::common::finding_of(fin[k], rule, sev, file));
        }
    }
}

/// The findings of the rules that read the syntax tree, in the order the engine
/// runs them.
pub open spec fn tree_findings(module: Module, config: LintConfig, file: Seq<char>) -> Seq<FindingView> {
    empty_block::empty_block_findings(module, config, file) + redundant_else::redundant_else_findings(module, config, file) + unreachable_branch::unreachable_branch_findings(module, config, file)
}

/// The findings of the rules that read the facts, in the order the engine runs them.
pub open spec fn fact_findings(ctx: AnalysisContext, config: LintConfig, file: Seq<char>) -> Seq<FindingView> {
    duplicate_import::duplicate_import_findings(ctx, config, file) + duplicate_export::duplicate_export_findings(ctx, config, file) + unused_variable::unused_variable_findings(ctx, config, file) + unused_import::unused_import_findings(ctx, config, file) + unused_function::unused_function_findings(ctx, config, file) + shadow_variable::shadow_findings(ctx, config, file)
}

/// Run the rules that read the syntax tree.
fn run_tree_rules(module: &Module, ctx: &AnalysisContext, filename: &str, config: &LintConfig, builder: &mut LintResultBuilder)
    requires
        old(builder).wf(),
    ensures
        final(builder).wf(),
        findings_ok(old(builder).diagnostics@, final(builder).diagnostics@, filename@),
        emitted(old(builder).diagnostics@, old(builder).truncated, final(builder).diagnostics@, final(builder).truncated,
            tree_findings(*module, *config, filename@)),
{
    let ghost s0 = builder.diagnostics@;
    let ghost t0 = builder.truncated;
    assert(builder.diagnostics@.subrange(0, s0.len() as int) =~= s0);
    proof { crate::rules::common::lemma_emitted_start(*builder); }
    let ghost acc: Seq<FindingView> = Seq::empty();
    let ghost m = builder.diagnostics@;
    let ghost mt = builder.truncated;
    empty_block::check(module, ctx, filename, config, builder);
    proof {
        
        lemma_rule_step(s0, m, builder.diagnostics@, empty_block::RULE@,
            effective_severity(*config, empty_block::RULE@, Severity::Warn), filename@);
        lemma_emitted_compose(s0, t0, m, mt, acc, builder.diagnostics@, builder.truncated, empty_block::empty_block_findings(*module, *config, filename@));
    }
    let ghost acc = acc + empty_block::empty_block_findings(*module, *config, filename@);
    let ghost m = builder.diagnostics@;
    let ghost mt = builder.truncated;
    redundant_else::check(module, ctx, filename, config, builder);
    proof {
        
        lemma_rule_step(s0, m, builder.diagnostics@, redundant_else::RULE@,
            effective_severity(*config, redundant_else::RULE@, Severity::Warn), filename@);
        lemma_emitted_compose(s0, t0, m, mt, acc, builder.diagnostics@, builder.truncated, redundant_else::redundant_else_findings(*module, *config, filename@));
    }
    let ghost acc = acc + redundant_else::redundant_else_findings(*module, *config, filename@);
    let ghost m = builder.diagnostics@;
    let ghost mt = builder.truncated;
    unreachable_branch::check(module, ctx, filename, config, builder);
    proof {
        
        lemma_rule_step(s0, m, builder.diagnostics@, unreachable_branch::RULE@,
            effective_severity(*config, unreachable_branch::RULE@, Severity::Error), filename@);
        lemma_emitted_compose(s0, t0, m, mt, acc, builder.diagnostics@, builder.truncated, unreachable_branch::unreachable_branch_findings(*module, *config, filename@));
    }
    let ghost acc = acc + unreachable_branch::unreachable_branch_findings(*module, *config, filename@);
    assert(acc =~= tree_findings(*module, *config, filename@));
}

/// Run the rules that read the facts.
#[verifier::rlimit(50)]
fn run_fact_rules(module: &Module, ctx: &AnalysisContext, filename: &str, config: &LintConfig, builder: &mut LintResultBuilder)
    requires
        old(builder).wf(),
    ensures
        final(builder).wf(),
        findings_ok(old(builder).diagnostics@, final(builder).diagnostics@, filename@),
        emitted(old(builder).diagnostics@, old(builder).truncated, final(builder).diagnostics@, final(builder).truncated,
            fact_findings(*ctx, *config, filename@)),
{
    let ghost s0 = builder.diagnostics@;
    let ghost t0 = builder.truncated;
    assert(builder.diagnostics@.subrange(0, s0.len() as int) =~= s0);
    proof { crate::rules::common::lemma_emitted_start(*builder); }
    let ghost acc: Seq<FindingView> = Seq::empty();
    let ghost m = builder.diagnostics@;
    let ghost mt = builder.truncated;
    duplicate_import::check(module, ctx, filename, config, builder);
    proof {
        
        lemma_rule_step(s0, m, builder.diagnostics@, duplicate_import::RULE@,
            effective_severity(*config, duplicate_import::RULE@, Severity::Error), filename@);
        lemma_emitted_compose(s0, t0, m, mt, acc, builder.diagnostics@, builder.truncated, duplicate_import::duplicate_import_findings(*ctx, *config, filename@));
    }
    let ghost acc = acc + duplicate_import::duplicate_import_findings(*ctx, *config, filename@);
    let ghost m = builder.diagnostics@;
    let ghost mt = builder.truncated;
    duplicate_export::check(module, ctx, filename, config, builder);
    proof {
        
        lemma_rule_step(s0, m, builder.diagnostics@, duplicate_export::RULE@,
            effective_severity(*config, duplicate_export::RULE@, Severity::Error), filename@);
        lemma_emitted_compose(s0, t0, m, mt, acc, builder.diagnostics@, builder.truncated, duplicate_export::duplicate_export_findings(*ctx, *config, filename@));
    }
    let ghost acc = acc + duplicate_export::duplicate_export_findings(*ctx, *config, filename@);
    let ghost m = builder.diagnostics@;
    let ghost mt = builder.truncated;
    unused_variable::check(module, ctx, filename, config, builder);
    proof {
        if ctx.is_partial_or_extends { assert(builder.diagnostics@ == m); }
        lemma_rule_step(s0, m, builder.diagnostics@, unused_variable::RULE@,
            effective_severity(*config, unused_variable::RULE@, Severity::Warn), filename@);
        lemma_emitted_compose(s0, t0, m, mt, acc, builder.diagnostics@, builder.truncated, unused_variable::unused_variable_findings(*ctx, *config, filename@));
    }
    let ghost acc = acc + unused_variable::unused_variable_findings(*ctx, *config, filename@);
    let ghost m = builder.diagnostics@;
    let ghost mt = builder.truncated;
    unused_import::check(module, ctx, filename, config, builder);
    proof {
        
        lemma_rule_step(s0, m, builder.diagnostics@, unused_import::RULE@,
            effective_severity(*config, unused_import::RULE@, Severity::Warn), filename@);
        lemma_emitted_compose(s0, t0, m, mt, acc, builder.diagnostics@, builder.truncated, unused_import::unused_import_findings(*ctx, *config, filename@));
    }
    let ghost acc = acc + unused_import::unused_import_findings(*ctx, *config, filename@);
    let ghost m = builder.diagnostics@;
    let ghost mt = builder.truncated;
    unused_function::check(module, ctx, filename, config, builder);
    proof {
        
        lemma_rule_step(s0, m, builder.diagnostics@, unused_function::RULE@,
            effective_severity(*config, unused_function::RULE@, Severity::Warn), filename@);
        lemma_emitted_compose(s0, t0, m, mt, acc, builder.diagnostics@, builder.truncated, unused_function::unused_function_findings(*ctx, *config, filename@));
    }
    let ghost acc = acc + unused_function::unused_function_findings(*ctx, *config, filename@);
    let ghost m = builder.diagnostics@;
    let ghost mt = builder.truncated;
    shadow_variable::check(module, ctx, filename, config, builder);
    proof {
        
        lemma_rule_step(s0, m, builder.diagnostics@, shadow_variable::RULE@,
            effective_severity(*config, shadow_variable::RULE@, Severity::Off), filename@);
        lemma_emitted_compose(s0, t0, m, mt, acc, builder.diagnostics@, builder.truncated, shadow_variable::shadow_findings(*ctx, *config, filename@));
    }
    let ghost acc = acc + shadow_variable::shadow_findings(*ctx, *config, filename@);
    assert(acc =~= fact_findings(*ctx, *config, filename@));
}

/// Everything the ten rules report, in the order they run: the rules that read
/// the syntax tree, those that read the facts, then `legacy-interpolation` over
/// the tokens of `source`.
pub open spec fn all_findings(module: Module, ctx: AnalysisContext, tokens: Seq<Token>, source: Seq<u8>,
    config: LintConfig, file: Seq<char>) -> Seq<FindingView>
{
    tree_findings(module, config, file) + fact_findings(ctx, config, file)
        + legacy_interpolation::legacy_interpolation_findings(tokens, source, config, file)
}

/// Run the ten rules over the module, facts and tokens: their findings are
/// appended exactly, in the order of [`all_findings`], as far as the cap allows.
pub fn run_rules(module: &Module, ctx: &AnalysisContext, tokens: &Vec<Token>, source: &str, filename: &str,
    config: &LintConfig, builder: &mut LintResultBuilder)
    requires
        old(builder).wf(),
        legacy_interpolation::text_offsets_fit(tokens@),
    ensures
        final(builder).wf(),
        findings_ok(old(builder).diagnostics@, final(builder).diagnostics@, filename@),
        emitted(old(builder).diagnostics@, old(builder).truncated, final(builder).diagnostics@, final(builder).truncated,
            all_findings(*module, *ctx, tokens@, source.spec_bytes(), *config, filename@)),
{
    let ghost s0 = builder.diagnostics@;
    let ghost t0 = builder.truncated;
    run_tree_rules(module, ctx, filename, config, builder);
    let ghost s1 = builder.diagnostics@;
    let ghost t1 = builder.truncated;
    run_fact_rules(module, ctx, filename, config, builder);
    let ghost mid = builder.diagnostics@;
    let ghost mt = builder.truncated;
    proof {
        lemma_findings_ok_trans(s0, s1, mid, filename@);
        lemma_emitted_compose(s0, t0, s1, t1, tree_findings(*module, *config, filename@), mid, mt,
            fact_findings(*ctx, *config, filename@));
    }
    legacy_interpolation::check(tokens, source, filename, config, builder);
    proof {
        lemma_rule_step(s0, mid, builder.diagnostics@, legacy_interpolation::RULE@,
            effective_severity(*config, legacy_interpolation::RULE@, Severity::Warn), filename@);
        lemma_emitted_compose(s0, t0, mid, mt, tree_findings(*module, *config, filename@) + fact_findings(*ctx, *config, filename@),
            builder.diagnostics@, builder.truncated,
            legacy_interpolation::legacy_interpolation_findings(tokens@, source.spec_bytes(), *config, filename@));
    }
}

/// Soundness of findings carries across two runs.
proof fn lemma_findings_ok_trans(s0: Seq<LintDiagnostic>, s1: Seq<LintDiagnostic>, s2: Seq<LintDiagnostic>, file: Seq<char>)
    requires
        findings_ok(s0, s1, file),
        findings_ok(s1, s2, file),
    ensures
        findings_ok(s0, s2, file),
{
    assert(s2.subrange(0, s0.len() as int) =~= s1.subrange(0, s0.len() as int)) by {
        assert forall|j: int| 0 <= j < s0.len() implies s2[j] == s1[j] by {
            assert(s2.subrange(0, s1.len() as int)[j] == s1[j]);
        }
    }
    assert forall|k: int| s0.len() <= k < s2.len() implies finding_sound(#[trigger] s2[k], file) by {
        if k < s1.len() {
            assert(s2.subrange(0, s1.len() as int)[k] == s1[k]);
        }
    }
}

/// `res` is what the rules report on the tokens `tokens` of `source`, the module
/// parsed from them and its facts: the findings of [`all_findings`] as far as the
/// cap allows, stably sorted by position.
pub open spec fn lint_outcome(source: Seq<u8>, tokens: Seq<Token>, module: Module, ctx: AnalysisContext,
    collected: Seq<LintDiagnostic>, res: LintResult, config: LintConfig, file: Seq<char>) -> bool
{
    &&& crate::lexer::tokens_faithful(source, tokens)
    &&& crate::lexer::tokenize_spec(source) == Ok::<Seq<crate::lexer::TokShape>, Option<usize>>(crate::lexer::tok_shapes(tokens))
    &&& crate::grammar::module_spec(tokens, source) == Ok::<crate::grammar::ModuleShape, crate::grammar::ErrShape>(crate::grammar::module_shape(module))
    &&& crate::facts::facts_of(module, partial_name(file) || module.extends is Some, source, ctx)
    &&& emitted(Seq::empty(), false, collected, res.truncated, all_findings(module, ctx, tokens, source, config, file))
    &&& is_stable_sort_of(res.diagnostics@, collected)
    &&& res.is_standalone == (!ctx.is_partial_or_extends && ctx.imports@.len() == 0)
}

/// The source lexes, every tokenization of that shape parses, and every module of
/// that parse nests within the walk's limit.
pub open spec fn lints_cleanly(source: Seq<u8>) -> bool {
    &&& crate::lexer::tokenize_spec(source) is Ok
    &&& forall|ts: Seq<Token>| #[trigger] crate::lexer::tok_shapes(ts) == crate::lexer::tokenize_spec(source)->Ok_0 ==> {
        &&& crate::grammar::module_spec(ts, source) is Ok
        &&& forall|m: Module| #[trigger] crate::grammar::module_shape(m) == crate::grammar::module_spec(ts, source)->Ok_0
            ==> crate::facts::nodes_nest_ok(m.body@, 0)
    }
}

/// `e` is why linting `source` fails: the source does not lex (and `e` is that
/// error), or its tokens do not parse (and `e` is that error), or its module nests
/// past the limit (and `e` is the resource-limit error that names nesting).
pub open spec fn lint_failure(source: Seq<u8>, e: MdsError) -> bool {
    ||| crate::lexer::tokenize_spec(source) is Err && crate::lexer::lex_error(e, crate::lexer::tokenize_spec(source)->Err_0)
    ||| exists|ts: Seq<Token>| #[trigger] crate::lexer::tok_shapes(ts) == crate::lexer::tokenize_spec(source)->Ok_0
        && crate::lexer::tokenize_spec(source) is Ok && {
        ||| crate::grammar::module_spec(ts, source) == Err::<crate::grammar::ModuleShape, crate::grammar::ErrShape>(crate::grammar::err_shape(e))
        ||| exists|m: Module| #[trigger] crate::grammar::module_shape(m) == crate::grammar::module_spec(ts, source)->Ok_0
            && crate::grammar::module_spec(ts, source) is Ok && !crate::facts::nodes_nest_ok(m.body@, 0) && crate::facts::nesting_error(e)
    }
}

/// Lint one template source.
///
/// Fails exactly when the source does not tokenize or parse, or nests past the depth
/// limit ([`lints_cleanly`], [`lint_failure`]).
/// Every finding of the result belongs to a registered rule, has a severity other
/// than off and names `filename`; the findings are those the ten rules report on
/// the tokens and parse of the source, sorted by position. The parse is the one the
/// grammar gives for the tokens.
pub fn lint_source(source: &str, filename: &str, config: &LintConfig) -> (r: Result<LintResult, MdsError>)
    ensures
        lints_cleanly(source.spec_bytes()) ==> r is Ok,
        r matches Err(e) ==> lint_failure(source.spec_bytes(), e),
        r matches Ok(res) ==> forall|k: int| 0 <= k < res.diagnostics@.len() ==> finding_sound(#[trigger] res.diagnostics@[k], filename@),
        r matches Ok(res) ==> exists|tokens: Seq<Token>, module: Module, ctx: AnalysisContext, collected: Seq<LintDiagnostic>|
            #[trigger] lint_outcome(source.spec_bytes(), tokens, module, ctx, collected, res, *config, filename@),
{
    let tokens = match tokenize(source) {
        Ok(t) => t,
        Err(e) => return Err(e),
    };
    let source_len = source.as_bytes().len();
    proof {
        assert(source.spec_bytes().len() == source_len);
        assert forall|k: int| 0 <= k < tokens@.len() implies legacy_interpolation::text_fits(#[trigger] tokens@[k]) by {
            assert(crate::lexer::token_faithful(source.spec_bytes(), tokens@[k]));
        }
    }
    let module = match crate::parser::parse_with_ctx(&tokens, source) {
        Ok(m) => m,
        Err(e) => {
            assert(crate::lexer::tok_shapes(tokens@) == crate::lexer::tokenize_spec(source.spec_bytes())->Ok_0);
            return Err(e);
        },
    };
    let is_partial = is_partial_by_name(filename);
    let is_extends = module.extends.is_some();
    let ctx = match collect_facts(&module, is_partial || is_extends, source) {
        Ok(c) => c,
        Err(e) => {
            assert(crate::lexer::tok_shapes(tokens@) == crate::lexer::tokenize_spec(source.spec_bytes())->Ok_0);
            assert(crate::grammar::module_shape(module) == crate::grammar::module_spec(tokens@, source.spec_bytes())->Ok_0);
            return Err(e);
        },
    };
    let is_standalone = !ctx.is_partial_or_extends && ctx.imports.len() == 0;
    let mut builder = LintResultBuilder::new();
    run_rules(&module, &ctx, &tokens, source, filename, config, &mut builder);
    let ghost collected = builder.diagnostics@;
    proof {
        assert(collected.subrange(0, 0) =~= Seq::<LintDiagnostic>::empty());
    }
    let ghost collected_trunc = builder.truncated;
    let res = builder.build(is_standalone);
    proof {
        assert forall|k: int| 0 <= k < res.diagnostics@.len() implies finding_sound(#[trigger] res.diagnostics@[k], filename@) by {
            lemma_sorted_member(res.diagnostics@, collected, k);
        }
    }
    let ghost tk = tokens@;
    let r: Result<LintResult, MdsError> = Ok(res);
    assert(lint_outcome(source.spec_bytes(), tk, module, ctx, collected, r->Ok_0, *config, filename@));
    r
}

/// A member of a stable sort is a member of its input.
proof fn lemma_sorted_member(out: Seq<LintDiagnostic>, input: Seq<LintDiagnostic>, k: int)
    requires
        is_stable_sort_of(out, input),
        0 <= k < out.len(),
    ensures
        exists|j: int| 0 <= j < input.len() && input[j] == out[k],
{
    let perm = choose|perm: Seq<int>| crate::diagnostic::stable_order(out, input, perm);
    assert(0 <= perm[k] < input.len());
    assert(out[k] == input[perm[k]]);
}

} // verus!
