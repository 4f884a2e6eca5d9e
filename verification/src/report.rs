//! The canonical machine-readable report of a lint result: findings grouped by
//! file, groups ordered by file name, texts escaped in wire mode.
//!
//! The report is plain data; turning it into JSON is the caller's concern. Spans
//! and replacements keep their raw byte offsets and text, so fix pipelines stay
//! exact; only `message`, `help` and the file name are escaped.
use vstd::prelude::*;
use crate::diagnostic::{sanitized, LintDiagnostic, LintResult, Severity, TextEdit};
use crate::error::SerializedSpan;
use crate::text::{bytes_lt, compare_bytes, lemma_bytes_lt_transitive, lemma_utf8_injective, utf8, Order3};
use crate::rules::common::edits_view;
use crate::tier::{fixable_spec, is_fixable};

verus! {

/// One finding as reported.
#[derive(Debug)]
pub struct CanonicalDiagnostic {
    pub rule: String,
    pub severity: Severity,
    /// The message, escaped in wire mode.
    pub message: String,
    /// The help text, escaped in wire mode.
    pub help: Option<String>,
    /// The finding carries a fix that its tier allows to apply.
    pub fixable: bool,
    pub span: Option<SerializedSpan>,
    pub fix_edits: Option<Vec<TextEdit>>,
}

/// The findings of one file, in the order of the result.
#[derive(Debug)]
pub struct CanonicalFile {
    /// The file name as the findings carry it (`<unknown>` for findings without one).
    pub raw_file: String,
    /// The file name, escaped in wire mode.
    pub file: String,
    pub diagnostics: Vec<CanonicalDiagnostic>,
}

/// The whole report: format version 1, the file groups ordered by file name, and
/// whether the result was truncated.
#[derive(Debug)]
pub struct CanonicalReport {
    pub version: u64,
    pub files: Vec<CanonicalFile>,
    pub truncated: bool,
}

/// The file a finding is grouped under.
pub open spec fn diag_key(d: LintDiagnostic) -> Seq<char> {
    match d.file {
        Some(f) => f@,
        None => "<unknown>"@,
    }
}

/// The findings of `diags` grouped under `key`, in order.
pub open spec fn keyed(diags: Seq<LintDiagnostic>, key: Seq<char>) -> Seq<LintDiagnostic>
    decreases diags.len(),
{
    if diags.len() == 0 {
        Seq::empty()
    } else {
        keyed(diags.drop_last(), key) + if diag_key(diags.last()) == key { seq![diags.last()] } else { Seq::empty() }
    }
}

/// What a reported finding says, each text by its characters.
pub open spec fn canonical_view(c: CanonicalDiagnostic) -> (Seq<char>, Severity, Seq<char>, Option<Seq<char>>, bool,
    Option<SerializedSpan>, Option<Seq<(usize, usize, Seq<char>)>>)
{
    (c.rule@, c.severity, c.message@, match c.help { Some(h) => Some(h@), None => None }, c.fixable, c.span,
        edits_view(c.fix_edits))
}

/// What the report says of the finding `d` of a result that is `standalone` or not.
pub open spec fn canonical_of(d: LintDiagnostic, standalone: bool) -> (Seq<char>, Severity, Seq<char>, Option<Seq<char>>, bool,
    Option<SerializedSpan>, Option<Seq<(usize, usize, Seq<char>)>>)
{
    (d.rule@, d.severity, sanitized(d.message@, true), match d.help { Some(h) => Some(sanitized(h@, true)), None => None },
        (d.fix_removals is Some || d.fix_edits is Some) && fixable_spec(d.rule@, standalone), d.span,
        edits_view(d.fix_edits))
}

/// `files` holds one group per file name of `diags`, ordered by the bytes of the
/// name, each with the findings of that file in their order.
pub open spec fn report_of(files: Seq<CanonicalFile>, diags: Seq<LintDiagnostic>, standalone: bool) -> bool {
    &&& forall|i: int, j: int| 0 <= i < j < files.len() ==> bytes_lt(utf8((#[trigger] files[i]).raw_file@), utf8((#[trigger] files[j]).raw_file@))
    &&& forall|i: int| 0 <= i < files.len() ==> ({
        let g = #[trigger] files[i];
        &&& g.file@ == sanitized(g.raw_file@, true)
        &&& g.diagnostics@.len() == keyed(diags, g.raw_file@).len()
        &&& forall|k: int| 0 <= k < g.diagnostics@.len() ==>
            canonical_view(#[trigger] g.diagnostics@[k]) == canonical_of(keyed(diags, g.raw_file@)[k], standalone)
    })
    &&& forall|k: int| 0 <= k < diags.len() ==> has_group(files, #[trigger] diags[k])
}

/// Some group of `files` is the one `d` belongs to.
pub open spec fn has_group(files: Seq<CanonicalFile>, d: LintDiagnostic) -> bool {
    exists|i: int| 0 <= i < files.len() && files[i].raw_file@ == diag_key(d)
}

/// The file a finding is grouped under.
fn key_of(d: &LintDiagnostic) -> (r: String)
    ensures
        r@ == diag_key(*d),
{
    match &d.file {
        Some(f) => f.clone(),
        None => String::from_str("<unknown>"),
    }
}

/// The report entry of one finding.
fn canonical_diag(d: &LintDiagnostic, standalone: bool) -> (r: CanonicalDiagnostic)
    ensures
        canonical_view(r) == canonical_of(*d, standalone),
{
    let help = match &d.help {
        Some(h) => Some(crate::diagnostic::sanitize_with(h.as_str(), true)),
        None => None,
    };
    let fix_edits = match &d.fix_edits {
        Some(v) => {
            let mut out: Vec<TextEdit> = Vec::new();
            let mut i: usize = 0;
            while i < v.len()
                invariant
                    i <= v@.len(),
                    out@.len() == i,
                    forall|m: int| 0 <= m < i ==> (#[trigger] out@[m]).start == v@[m].start && out@[m].end == v@[m].end
                        && out@[m].new_text@ == v@[m].new_text@,
                decreases v@.len() - i,
            {
                let e = v[i].duplicate();
                out.push(e);
                i = i + 1;
            }
            proof {
                assert(edits_view(Some(out)).unwrap() =~= edits_view(Some(*v)).unwrap());
            }
            Some(out)
        },
        None => None,
    };
    CanonicalDiagnostic {
        rule: d.rule.clone(),
        severity: d.severity,
        message: crate::diagnostic::sanitize_with(d.message.as_str(), true),
        help,
        fixable: (d.fix_removals.is_some() || d.fix_edits.is_some()) && is_fixable(d.rule.as_str(), standalone),
        span: d.span,
        fix_edits,
    }
}

/// Some name of `keys` is the file `d` is grouped under.
pub open spec fn has_key(keys: Seq<String>, d: LintDiagnostic) -> bool {
    exists|i: int| 0 <= i < keys.len() && keys[i]@ == diag_key(d)
}

/// Some finding among the first `n` of `diags` has the file name `key`.
pub open spec fn key_in(diags: Seq<LintDiagnostic>, n: int, key: Seq<char>) -> bool {
    exists|k: int| 0 <= k < n && diag_key(diags[k]) == key
}

/// The distinct file names of the findings, ordered by bytes.
#[verifier::spinoff_prover]
#[verifier::rlimit(50)]
fn sorted_keys(diags: &Vec<LintDiagnostic>) -> (r: Vec<String>)
    ensures
        forall|i: int, j: int| 0 <= i < j < r@.len() ==> bytes_lt(utf8((#[trigger] r@[i])@), utf8((#[trigger] r@[j])@)),
        forall|k: int| 0 <= k < diags@.len() ==> has_key(r@, #[trigger] diags@[k]),
        forall|i: int| 0 <= i < r@.len() ==> key_in(diags@, diags@.len() as int, (#[trigger] r@[i])@),
{
    let mut keys: Vec<String> = Vec::new();
    let mut n: usize = 0;
    while n < diags.len()
        invariant
            n <= diags@.len(),
            forall|i: int, j: int| 0 <= i < j < keys@.len() ==> bytes_lt(utf8((#[trigger] keys@[i])@), utf8((#[trigger] keys@[j])@)),
            forall|k: int| 0 <= k < n ==> has_key(keys@, #[trigger] diags@[k]),
            forall|i: int| 0 <= i < keys@.len() ==> key_in(diags@, n as int, (#[trigger] keys@[i])@),
        decreases diags@.len() - n,
    {
        let key = key_of(&diags[n]);
        let ghost kv = keys@;
        let mut p: usize = 0;
        while p < keys.len() && compare_bytes(keys[p].as_str().as_bytes(), key.as_str().as_bytes()) == Order3::Less
            invariant
                0 <= p <= keys@.len(),
                kv == keys@,
                forall|k: int| 0 <= k < p ==> bytes_lt(utf8(#[trigger] kv[k]@), utf8(key@)),
            decreases keys@.len() - p,
        {
            p = p + 1;
        }
        let dup = p < keys.len() && compare_bytes(keys[p].as_str().as_bytes(), key.as_str().as_bytes()) == Order3::Equal;
        if dup {
            proof {
                lemma_utf8_injective(kv[p as int]@, key@);
                assert(has_key(keys@, diags@[n as int])) by {
                    assert(keys@[p as int]@ == diag_key(diags@[n as int]));
                }
            }
        } else {
            proof {
                if p < kv.len() {
                    assert(bytes_lt(utf8(key@), utf8(kv[p as int]@)));
                }
            }
            let ghost kg = key;
            keys.insert(p, key);
            proof {
                let k2 = keys@;
                assert(k2 =~= kv.insert(p as int, kg));
                assert forall|a: int, b: int| 0 <= a < b < k2.len() implies
                    bytes_lt(utf8((#[trigger] k2[a])@), utf8((#[trigger] k2[b])@)) by {
                    if b == p {
                    } else if a == p {
                        if b - 1 > p {
                            lemma_bytes_lt_transitive(utf8(kg@), utf8(kv[p as int]@), utf8(kv[b - 1]@));
                        }
                    } else if a < p && b > p {
                        assert(k2[b] == kv[b - 1]);
                    } else if a > p {
                        assert(k2[a] == kv[a - 1]);
                        assert(k2[b] == kv[b - 1]);
                    }
                }
                assert forall|i: int| 0 <= i < k2.len() implies key_in(diags@, n + 1, (#[trigger] k2[i])@) by {
                    if i == p {
                        assert(diag_key(diags@[n as int]) == k2[i]@);
                    } else {
                        let j = if i < p { i } else { i - 1 };
                        assert(k2[i] == kv[j]);
                        assert(key_in(diags@, n as int, kv[j]@));
                        let k = choose|k: int| 0 <= k < n && diag_key(diags@[k]) == kv[j]@;
                        assert(diag_key(diags@[k]) == k2[i]@);
                    }
                }
                assert forall|k: int| 0 <= k < n + 1 implies has_key(k2, #[trigger] diags@[k]) by {
                    if k == n {
                        assert(k2[p as int]@ == diag_key(diags@[k]));
                    } else {
                        assert(has_key(kv, diags@[k]));
                        let i = choose|i: int| 0 <= i < kv.len() && kv[i]@ == diag_key(diags@[k]);
                        if i < p {
                            assert(k2[i] == kv[i]);
                        } else {
                            assert(k2[i + 1] == kv[i]);
                        }
                    }
                }
            }
        }
        n = n + 1;
    }
    keys
}

/// The report of a lint result: one group per file name, ordered by the bytes of
/// the name (findings without a file under `<unknown>`), each holding its
/// findings in the order of the result (so every group holds at least one), with message, help and file name escaped
/// in wire mode and `fixable` set for findings with a fix their tier allows.
pub fn canonical_report(result: &LintResult) -> (r: CanonicalReport)
    ensures
        r.version == 1,
        r.truncated == result.truncated,
        report_of(r.files@, result.diagnostics@, result.is_standalone),
        forall|a: int| 0 <= a < r.files@.len() ==> key_in(result.diagnostics@, result.diagnostics@.len() as int, (#[trigger] r.files@[a]).raw_file@),
{
    let diags = &result.diagnostics;
    let keys = sorted_keys(diags);
    let mut files: Vec<CanonicalFile> = Vec::new();
    let mut i: usize = 0;
    while i < keys.len()
        invariant
            i <= keys@.len(),
            files@.len() == i,
            forall|a: int| 0 <= a < i ==> (#[trigger] files@[a]).raw_file@ == keys@[a]@,
            forall|a: int| 0 <= a < i ==> ({
                let g = #[trigger] files@[a];
                &&& g.file@ == sanitized(g.raw_file@, true)
                &&& g.diagnostics@.len() == keyed(diags@, g.raw_file@).len()
                &&& forall|k: int| 0 <= k < g.diagnostics@.len() ==>
                    canonical_view(#[trigger] g.diagnostics@[k]) == canonical_of(keyed(diags@, g.raw_file@)[k], result.is_standalone)
            }),
        decreases keys@.len() - i,
    {
        let key = &keys[i];
        let mut group: Vec<CanonicalDiagnostic> = Vec::new();
        let mut k: usize = 0;
        while k < diags.len()
            invariant
                k <= diags@.len(),
                group@.len() == keyed(diags@.take(k as int), key@).len(),
                forall|m: int| 0 <= m < group@.len() ==>
                    canonical_view(#[trigger] group@[m]) == canonical_of(keyed(diags@.take(k as int), key@)[m], result.is_standalone),
            decreases diags@.len() - k,
        {
            let ghost prev = keyed(diags@.take(k as int), key@);
            assert(diags@.take(k + 1).drop_last() =~= diags@.take(k as int));
            assert(diags@.take(k + 1).last() == diags@[k as int]);
            let dk = key_of(&diags[k]);
            if crate::text::str_eq(dk.as_str(), key.as_str()) {
                let c = canonical_diag(&diags[k], result.is_standalone);
                group.push(c);
                assert(keyed(diags@.take(k + 1), key@) =~= prev.push(diags@[k as int]));
            } else {
                assert(keyed(diags@.take(k + 1), key@) =~= prev);
            }
            k = k + 1;
        }
        assert(diags@.take(diags@.len() as int) =~= diags@);
        let file = crate::diagnostic::sanitize_with(key.as_str(), true);
        files.push(CanonicalFile { raw_file: key.clone(), file, diagnostics: group });
        i = i + 1;
    }
    proof {
        assert forall|a: int, b: int| 0 <= a < b < files@.len() implies
            bytes_lt(utf8((#[trigger] files@[a]).raw_file@), utf8((#[trigger] files@[b]).raw_file@)) by {
            assert(files@[a].raw_file@ == keys@[a]@);
            assert(files@[b].raw_file@ == keys@[b]@);
        }
        assert forall|a: int| 0 <= a < files@.len() implies key_in(diags@, diags@.len() as int, (#[trigger] files@[a]).raw_file@) by {
            assert(files@[a].raw_file@ == keys@[a]@);
        }
        assert forall|k: int| 0 <= k < diags@.len() implies has_group(files@, #[trigger] diags@[k]) by {
            assert(has_key(keys@, diags@[k]));
            let a = choose|a: int| 0 <= a < keys@.len() && keys@[a]@ == diag_key(diags@[k]);
            assert(files@[a].raw_file@ == keys@[a]@);
        }
    }
    CanonicalReport { version: 1, files, truncated: result.truncated }
}

} // verus!
