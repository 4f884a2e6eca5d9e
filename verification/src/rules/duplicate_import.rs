//! Rule `duplicate-import` (default error, fixable): a path imported twice,
//! compared after lexical normalization of `.` and `..` segments.
use vstd::prelude::*;
use crate::ast::Module;
use crate::config::{first_occurrence, LintConfig};
use crate::diagnostic::{FixLineSpan, LintDiagnostic, LintResultBuilder, Severity, MAX_DIAGNOSTICS};
use crate::facts::{AnalysisContext, ImportFact};
use crate::parser_helpers::msg3;
use crate::rules::common::{effective_severity, emit_next, emitted, finding_view, findings_upto, key_before,
    in_seen, lemma_emitted_start, lemma_findings_upto_prefix, lemma_seen_step, make_diag, resolve_severity, rule_findings,
    seen_keys, spanned_finding, FindingView};

verus! {

broadcast use vstd::seq::group_seq_axioms, vstd::seq_lib::group_seq_properties;

/// The rule's name.
pub const RULE: &'static str = "duplicate-import";

/// The views of a list of strings.
pub open spec fn str_views(v: Seq<String>) -> Seq<Seq<char>> {
    v.map_values(|s: String| s@)
}

/// Add segment `p` to the normalized segments `acc`: `.` is dropped, `..` removes
/// the last segment unless there is none or it is `..` itself (then it is kept).
pub open spec fn add_segment(acc: Seq<Seq<char>>, p: Seq<char>) -> Seq<Seq<char>> {
    if p == seq!['.'] {
        acc
    } else if p == seq!['.', '.'] {
        if acc.len() == 0 || acc.last() == seq!['.', '.'] { acc.push(seq!['.', '.']) } else { acc.drop_last() }
    } else {
        acc.push(p)
    }
}

/// The normalized segments and the pending segment after reading `s`.
pub open spec fn norm_state(s: Seq<char>) -> (Seq<Seq<char>>, Seq<char>)
    decreases s.len(),
{
    if s.len() == 0 {
        (Seq::empty(), Seq::empty())
    } else {
        let (acc, cur) = norm_state(s.drop_last());
        if s.last() == '/' { (add_segment(acc, cur), Seq::empty()) } else { (acc, cur.push(s.last())) }
    }
}

/// Segments joined by `/`.
pub open spec fn join_slash(segs: Seq<Seq<char>>) -> Seq<char>
    decreases segs.len(),
{
    if segs.len() == 0 {
        Seq::empty()
    } else if segs.len() == 1 {
        segs[0]
    } else {
        join_slash(segs.drop_last()) + seq!['/'] + segs.last()
    }
}

/// The lexical normalization of an import path.
pub open spec fn normalized(path: Seq<char>) -> Seq<char> {
    join_slash(add_segment(norm_state(path).0, norm_state(path).1))
}

/// Apply `add_segment` to a vector of segments.
fn push_segment(acc: &mut Vec<String>, p: String)
    ensures
        str_views(final(acc)@) == add_segment(str_views(old(acc)@), p@),
{
    proof {
        reveal_strlit(".");
        reveal_strlit("..");
        assert("."@ =~= seq!['.']);
        assert(".."@ =~= seq!['.', '.']);
    }
    if crate::text::str_eq(p.as_str(), ".") {
        return;
    }
    if crate::text::str_eq(p.as_str(), "..") {
        let n = acc.len();
        if n == 0 || crate::text::str_eq(acc[n - 1].as_str(), "..") {
            acc.push(String::from_str(".."));
            assert(str_views(acc@) =~= str_views(old(acc)@).push(seq!['.', '.']));
        } else {
            acc.pop();
            assert(str_views(acc@) =~= str_views(old(acc)@).drop_last());
        }
        return;
    }
    acc.push(p);
    assert(str_views(acc@) =~= str_views(old(acc)@).push(p@));
}

/// Join segments with `/`.
fn join_segments(segs: &Vec<String>) -> (r: String)
    ensures
        r@ == join_slash(str_views(segs@)),
{
    let mut out = String::new();
    let mut i: usize = 0;
    while i < segs.len()
        invariant
            i <= segs@.len(),
            out@ == join_slash(str_views(segs@).take(i as int)),
        decreases segs@.len() - i,
    {
        let ghost pre = str_views(segs@).take(i as int);
        assert(str_views(segs@).take(i + 1).drop_last() =~= pre);
        proof {
            reveal_strlit("/");
            assert("/"@ =~= seq!['/']);
        }
        if i > 0 {
            out.append("/");
        }
        out.append(segs[i].as_str());
        proof {
            if i == 0 {
                assert(out@ =~= str_views(segs@).take(1)[0]);
            } else {
                assert(out@ =~= join_slash(pre) + seq!['/'] + segs@[i as int]@);
            }
        }
        i = i + 1;
    }
    assert(str_views(segs@).take(segs@.len() as int) =~= str_views(segs@));
    out
}

/// The lexical normalization of an import path: `.` segments dropped, a `..`
/// segment removing the segment before it (a leading `..` is kept). Never touches
/// the filesystem.
pub fn normalize_import_path(path: &str) -> (r: String)
    ensures
        r@ == normalized(path@),
{
    let chars = crate::text::chars_of(path);
    let mut acc: Vec<String> = Vec::new();
    let mut cur = String::new();
    let mut i: usize = 0;
    while i < chars.len()
        invariant
            i <= chars@.len(),
            chars@ == path@,
            (str_views(acc@), cur@) == norm_state(chars@.take(i as int)),
        decreases chars@.len() - i,
    {
        assert(chars@.take(i + 1).drop_last() =~= chars@.take(i as int));
        if chars[i] == '/' {
            let seg = cur;
            cur = String::new();
            push_segment(&mut acc, seg);
        } else {
            crate::diagnostic::push_char(&mut cur, chars[i]);
        }
        i = i + 1;
    }
    assert(chars@.take(chars@.len() as int) =~= chars@);
    push_segment(&mut acc, cur);
    join_segments(&acc)
}

/// The normalized paths of the imports.
pub open spec fn import_keys(imports: Seq<ImportFact>) -> Seq<Option<Seq<char>>> {
    Seq::new(imports.len(), |j: int| Some(normalized(imports[j].path@)))
}

/// The finding of import `i`, if an earlier import has the same normalized path.
pub open spec fn duplicate_import_item(ctx: AnalysisContext, sev: Severity, file: Seq<char>, i: int) -> Seq<FindingView> {
    let imp = ctx.imports@[i];
    if key_before(import_keys(ctx.imports@), i, normalized(imp.path@)) {
        seq![spanned_finding(RULE@, sev, file, "Duplicate import: '"@ + imp.path@ + "' is imported more than once."@,
            "Remove the duplicate import. If different forms are needed (alias vs merge), consolidate into one import directive."@,
            imp.offset, 7, Some(seq![FixLineSpan { from: imp.offset, to: imp.offset, to_inclusive: true }]))]
    } else {
        Seq::empty()
    }
}

/// The findings of the rule: each import whose normalized path an earlier import
/// already has, in import order.
pub open spec fn duplicate_import_findings(ctx: AnalysisContext, config: LintConfig, file: Seq<char>) -> Seq<FindingView> {
    let sev = effective_severity(config, RULE@, Severity::Error);
    if sev == Severity::Off {
        Seq::empty()
    } else {
        findings_upto(ctx.imports@.len() as int, |i: int| duplicate_import_item(ctx, sev, file, i))
    }
}

/// Check the imports of the module: every import whose normalized path was seen
/// before is a finding at its `@import`, fixed by removing its line.
pub fn check(module: &Module, ctx: &AnalysisContext, filename: &str, config: &LintConfig, builder: &mut LintResultBuilder)
    requires
        old(builder).wf(),
    ensures
        final(builder).wf(),
        rule_findings(old(builder).diagnostics@, final(builder).diagnostics@, RULE@,
            effective_severity(*config, RULE@, Severity::Error), filename@),
        emitted(old(builder).diagnostics@, old(builder).truncated, final(builder).diagnostics@, final(builder).truncated,
            duplicate_import_findings(*ctx, *config, filename@)),
        effective_severity(*config, RULE@, Severity::Error) == Severity::Off ==> final(builder).diagnostics@ == old(builder).diagnostics@,
{
    let severity = resolve_severity(config, RULE, Severity::Error);
    let ghost start = builder.diagnostics@;
    let ghost start_trunc = builder.truncated;
    let ghost sev = severity;
    let ghost file = filename@;
    let ghost f = |i: int| duplicate_import_item(*ctx, sev, file, i);
    let ghost keys = import_keys(ctx.imports@);
    assert(builder.diagnostics@.subrange(0, start.len() as int) =~= start);
    proof {
        lemma_emitted_start(*builder);
    }
    if severity == Severity::Off {
        return;
    }
    let mut seen: Vec<(String, usize)> = Vec::new();
    let mut i: usize = 0;
    while i < ctx.imports.len()
        invariant
            i <= ctx.imports@.len(),
            builder.wf(),
            severity == sev,
            sev == effective_severity(*config, RULE@, Severity::Error),
            severity != Severity::Off,
            start == old(builder).diagnostics@,
            start_trunc == old(builder).truncated,
            file == filename@,
            f == (|i: int| duplicate_import_item(*ctx, sev, file, i)),
            keys == import_keys(ctx.imports@),
            seen_keys(seen@, keys, i as int),
            rule_findings(start, builder.diagnostics@, RULE@, severity, filename@),
            emitted(start, start_trunc, builder.diagnostics@, builder.truncated, findings_upto(i as int, f)),
            findings_upto(i as int, f).len() <= MAX_DIAGNOSTICS - start.len(),
        decreases ctx.imports@.len() - i,
    {
        let imp = &ctx.imports[i];
        let ghost before = findings_upto(i as int, f);
        assert(findings_upto(i + 1, f) == before + f(i as int));
        let norm = normalize_import_path(imp.path.as_str());
        let ghost kg = norm;
        let ghost old_seen = seen@;
        assert(keys[i as int] == Some(norm@));
        assert(in_seen(old_seen, norm@) == key_before(keys, i as int, norm@));
        let fresh = first_occurrence(&mut seen, norm, imp.offset);
        proof {
            lemma_seen_step(old_seen, seen@, keys, i as int, fresh, kg, imp.offset);
        }
        if !fresh {
            let d = make_diag(RULE, severity, filename,
                msg3("Duplicate import: '", imp.path.as_str(), "' is imported more than once."),
                Some(String::from_str("Remove the duplicate import. If different forms are needed (alias vs merge), consolidate into one import directive.")),
                imp.offset, 7, Some(vec![FixLineSpan::single(imp.offset)]));
            assert(f(i as int) == seq![finding_view(d)]) by {
                assert(d.fix_removals->0@ =~= seq![FixLineSpan { from: imp.offset, to: imp.offset, to_inclusive: true }]);
            }
            if !emit_next(builder, d, Ghost(start), Ghost(start_trunc), Ghost(before), Ghost(RULE@), Ghost(severity), Ghost(filename@)) {
                proof {
                    let full = findings_upto(ctx.imports@.len() as int, f);
                    lemma_findings_upto_prefix(i + 1, ctx.imports@.len() as int, f);
                    let next = findings_upto(i + 1, f);
                    assert(next =~= before.push(finding_view(d)));
                    assert(full.subrange(0, before.len() as int) =~= next.subrange(0, before.len() as int));
                    assert(full.subrange(0, before.len() as int) == before);
                    assert(full.len() > before.len());
                }
                return;
            }
            assert(findings_upto(i + 1, f) =~= before.push(finding_view(d)));
        } else {
            assert(f(i as int) =~= Seq::<FindingView>::empty());
            assert(findings_upto(i + 1, f) =~= before);
        }
        i = i + 1;
    }
}

/// An import whose path is written exactly as an earlier import's is reported at
/// its `@import`, unless the rule is off.
pub proof fn law_repeated_import_reported(ctx: AnalysisContext, config: LintConfig, file: Seq<char>, j: int, i: int)
    requires
        0 <= j < i < ctx.imports@.len(),
        ctx.imports@[j].path@ == ctx.imports@[i].path@,
        effective_severity(config, RULE@, Severity::Error) != Severity::Off,
    ensures
        exists|m: int| 0 <= m < duplicate_import_findings(ctx, config, file).len()
            && (#[trigger] duplicate_import_findings(ctx, config, file)[m]).0 == RULE@
            && (duplicate_import_findings(ctx, config, file)[m].4 matches Some(sp) && sp.offset == ctx.imports@[i].offset),
{
    let sev = effective_severity(config, RULE@, Severity::Error);
    let f = |i: int| duplicate_import_item(ctx, sev, file, i);
    assert(import_keys(ctx.imports@)[j] == Some(normalized(ctx.imports@[i].path@)));
    let x = f(i)[0];
    assert(f(i).contains(x));
    crate::rules::common::lemma_findings_upto_has(ctx.imports@.len() as int, f, i, x);
    let fs = duplicate_import_findings(ctx, config, file);
    let m = choose|m: int| 0 <= m < fs.len() && fs[m] == x;
    assert(fs[m].0 == RULE@);
}

} // verus!
