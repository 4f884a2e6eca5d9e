//! The `--fix` planner and applier.
//!
//! Fixes are byte-range rewrites of the original source: a plan gathers the
//! edits of the fixable findings, sorts them, drops edits contained in another,
//! and refuses the whole batch when two edits still overlap. Edits are applied
//! right to left so that earlier offsets stay valid. Line removals consume the
//! complete line terminator (`\r\n`, `\r` or `\n`).
use vstd::prelude::*;
use vstd::string::*;
use vstd::utf8::*;
use crate::diagnostic::{FixLineSpan, LintDiagnostic, LintResult, Severity, TextEdit};
use crate::error::MdsError;
use crate::text::{cut_point, is_cont, lemma_after_ascii_is_cut, lemma_cut_point_is_boundary, lemma_str_valid, utf8};
use crate::tier::{rule_tier, tier_of, FixTier};
use crate::config::strictly_sorted;
use crate::facts::name_set;
use crate::text::{bytes_lt, lemma_bytes_lt_transitive, lemma_utf8_injective};

verus! {

broadcast use vstd::seq::group_seq_axioms, vstd::seq_lib::group_seq_properties;

/// A replacement of the bytes `[start, end)` of the source by `replacement`.
#[derive(Debug)]
pub struct ByteEdit {
    pub start: usize,
    pub end: usize,
    /// The rule that produced the edit.
    pub rule: String,
    /// The replacement text; empty for a deletion.
    pub replacement: String,
}

impl ByteEdit {
    /// An edit that deletes `[start, end)`.
    pub fn deletion(start: usize, end: usize, rule: String) -> (r: ByteEdit)
        ensures
            r.start == start,
            r.end == end,
            r.rule == rule,
            r.replacement@ == Seq::<char>::empty(),
    {
        ByteEdit { start, end, rule, replacement: String::new() }
    }

    /// An edit that replaces `[start, end)` by `text`.
    pub fn replacement(start: usize, end: usize, rule: String, text: String) -> (r: ByteEdit)
        ensures
            r == (ByteEdit { start, end, rule, replacement: text }),
    {
        ByteEdit { start, end, rule, replacement: text }
    }

    /// A copy of the edit.
    pub fn duplicate(&self) -> (r: ByteEdit)
        ensures
            r == *self,
    {
        ByteEdit { start: self.start, end: self.end, rule: self.rule.clone(), replacement: self.replacement.clone() }
    }
}

/// An edit refused by the per-edit reverify gate, with the reason.
#[derive(Debug)]
pub struct RejectedEdit {
    pub edit: ByteEdit,
    pub reason: String,
}

impl RejectedEdit {
    /// Construct a rejection.
    pub fn new(edit: ByteEdit, reason: String) -> (r: RejectedEdit)
        ensures
            r == (RejectedEdit { edit, reason }),
    {
        RejectedEdit { edit, reason }
    }
}

/// The planned edits of one file.
#[derive(Debug)]
pub struct FixPlan {
    /// Sorted, non-overlapping edits.
    pub edits: Vec<ByteEdit>,
    /// `true` when the batch was cleared because two edits overlapped.
    pub overlap_rejected: bool,
    /// `true` when the lint result the plan came from was truncated.
    pub truncated: bool,
}

impl FixPlan {
    /// The empty plan.
    pub fn default() -> (r: FixPlan)
        ensures
            r.edits@.len() == 0,
            !r.overlap_rejected,
            !r.truncated,
    {
        FixPlan { edits: Vec::new(), overlap_rejected: false, truncated: false }
    }
}

// ── Byte model ────────────────────────────────────────────────────────────────

/// The range of `e` lies inside `b`.
pub open spec fn in_range(b: Seq<u8>, e: ByteEdit) -> bool {
    e.start <= e.end && e.end <= b.len()
}

/// `b` with edit `e` applied; an out-of-range edit leaves `b` unchanged.
pub open spec fn splice(b: Seq<u8>, e: ByteEdit) -> Seq<u8> {
    if in_range(b, e) {
        b.subrange(0, e.start as int) + utf8(e.replacement@) + b.subrange(e.end as int, b.len() as int)
    } else {
        b
    }
}

/// Applying `e` to `b` cuts only at character starts (the applier's precondition).
pub open spec fn splice_allowed(b: Seq<u8>, e: ByteEdit) -> bool {
    in_range(b, e) ==> cut_point(b, e.start as int) && cut_point(b, e.end as int)
}

/// `b` with `edits` applied from the last to the first.
pub open spec fn apply_rev(b: Seq<u8>, edits: Seq<ByteEdit>) -> Seq<u8>
    decreases edits.len(),
{
    if edits.len() == 0 {
        b
    } else {
        apply_rev(splice(b, edits.last()), edits.drop_last())
    }
}

/// Every step of `apply_rev(b, edits)` is allowed.
pub open spec fn apply_allowed(b: Seq<u8>, edits: Seq<ByteEdit>) -> bool
    decreases edits.len(),
{
    edits.len() == 0 || (splice_allowed(b, edits.last()) && apply_allowed(splice(b, edits.last()), edits.drop_last()))
}

/// Consecutive edits have non-decreasing starts.
pub open spec fn starts_sorted(edits: Seq<ByteEdit>) -> bool {
    forall|i: int| 0 <= i < edits.len() - 1 ==> #[trigger] edits[i].start <= edits[i + 1].start
}

/// An allowed splice keeps valid UTF-8 valid.
proof fn lemma_splice_valid(b: Seq<u8>, e: ByteEdit)
    requires
        valid_utf8(b),
        splice_allowed(b, e),
    ensures
        valid_utf8(splice(b, e)),
{
    if in_range(b, e) {
        lemma_cut_point_is_boundary(b, e.start as int);
        lemma_cut_point_is_boundary(b, e.end as int);
        valid_utf8_split(b, e.start as int);
        valid_utf8_split(b, e.end as int);
        encode_utf8_valid_utf8(e.replacement@);
        valid_utf8_concat(b.subrange(0, e.start as int), utf8(e.replacement@));
        valid_utf8_concat(b.subrange(0, e.start as int) + utf8(e.replacement@), b.subrange(e.end as int, b.len() as int));
    }
}

/// The bytes of `s` as a vector.
fn bytes_of(s: &str) -> (v: Vec<u8>)
    ensures
        v@ == s.spec_bytes(),
{
    let b = s.as_bytes();
    let mut v: Vec<u8> = Vec::new();
    let mut i: usize = 0;
    while i < b.len()
        invariant
            0 <= i <= b@.len(),
            v@ == b@.take(i as int),
        decreases b@.len() - i,
    {
        v.push(b[i]);
        i = i + 1;
    }
    v
}

/// The string whose UTF-8 encoding is `v`.
#[verifier::external_body]
fn string_from_utf8(v: Vec<u8>) -> (s: String)
    requires
        valid_utf8(v@),
    ensures
        utf8(s@) == v@,
{
    String::from_utf8(v).unwrap()
}

/// Apply one edit to a byte buffer.
fn splice_bytes(b: &Vec<u8>, e: &ByteEdit) -> (r: Vec<u8>)
    ensures
        r@ == splice(b@, *e),
{
    if e.end > b.len() || e.start > e.end {
        let mut same: Vec<u8> = Vec::new();
        let mut i: usize = 0;
        while i < b.len()
            invariant
                0 <= i <= b@.len(),
                same@ == b@.take(i as int),
            decreases b@.len() - i,
        {
            same.push(b[i]);
            i = i + 1;
        }
        return same;
    }
    let rep = e.replacement.as_str().as_bytes();
    let mut out: Vec<u8> = Vec::new();
    let mut i: usize = 0;
    while i < e.start
        invariant
            e.start <= e.end <= b@.len(),
            0 <= i <= e.start,
            out@ == b@.subrange(0, i as int),
        decreases e.start - i,
    {
        out.push(b[i]);
        i = i + 1;
    }
    let mut j: usize = 0;
    while j < rep.len()
        invariant
            0 <= j <= rep@.len(),
            out@ == b@.subrange(0, e.start as int) + rep@.take(j as int),
        decreases rep@.len() - j,
    {
        out.push(rep[j]);
        j = j + 1;
    }
    let mut k: usize = e.end;
    while k < b.len()
        invariant
            e.end <= k <= b@.len(),
            out@ == b@.subrange(0, e.start as int) + rep@ + b@.subrange(e.end as int, k as int),
        decreases b@.len() - k,
    {
        out.push(b[k]);
        k = k + 1;
    }
    out
}

/// Apply the plan's edits right to left, without any reverify.
pub fn apply_plan_unchecked(source: &str, plan: &FixPlan) -> (r: String)
    requires
        starts_sorted(plan.edits@),
        apply_allowed(source.spec_bytes(), plan.edits@),
    ensures
        utf8(r@) == apply_rev(source.spec_bytes(), plan.edits@),
{
    let mut buf = bytes_of(source);
    let mut i = plan.edits.len();
    proof {
        lemma_str_valid(source);
        assert(plan.edits@.take(i as int) =~= plan.edits@);
    }
    while i > 0
        invariant
            i <= plan.edits@.len(),
            valid_utf8(buf@),
            apply_rev(source.spec_bytes(), plan.edits@) == apply_rev(buf@, plan.edits@.take(i as int)),
            apply_allowed(buf@, plan.edits@.take(i as int)),
        decreases i,
    {
        let ghost pre = plan.edits@.take(i as int);
        assert(pre.drop_last() =~= plan.edits@.take(i - 1));
        assert(pre.last() == plan.edits@[i - 1]);
        proof {
            lemma_splice_valid(buf@, plan.edits@[i - 1]);
        }
        buf = splice_bytes(&buf, &plan.edits[i - 1]);
        i = i - 1;
    }
    string_from_utf8(buf)
}

// ── Line geometry ─────────────────────────────────────────────────────────────

/// The start of the line holding position `offset` (just after the previous `\n`).
pub open spec fn line_start_of(b: Seq<u8>, offset: int) -> int
    decreases offset,
{
    if offset <= 0 {
        0
    } else if b[offset - 1] == 10u8 {
        offset
    } else {
        line_start_of(b, offset - 1)
    }
}

/// The start of the line containing `offset`, or `None` when `offset` is past
/// the end or inside a character.
fn line_start(source: &[u8], offset: usize) -> (r: Option<usize>)
    ensures
        match r {
            Some(s) => cut_point(source@, offset as int) && s == line_start_of(source@, offset as int),
            None => !cut_point(source@, offset as int),
        },
{
    if offset > source.len() || (offset < source.len() && 0x80 <= source[offset] && source[offset] <= 0xbf) {
        return None;
    }
    let mut i = offset;
    while i > 0 && source[i - 1] != 10
        invariant
            0 <= i <= offset <= source@.len(),
            line_start_of(source@, offset as int) == line_start_of(source@, i as int),
        decreases i,
    {
        i = i - 1;
    }
    Some(i)
}

/// The end of the line content at or after `i` (the first `\n`, `\r` or the end).
pub open spec fn content_end(b: Seq<u8>, i: int) -> int
    decreases b.len() - i,
{
    if i >= b.len() || b[i] == 10u8 || b[i] == 13u8 {
        if i >= b.len() { b.len() as int } else { i }
    } else {
        content_end(b, i + 1)
    }
}

/// The position after the line terminator of the line holding `pos` (the whole
/// `\r\n`, `\r` or `\n`), or the end of the text.
pub open spec fn line_end_after(b: Seq<u8>, pos: int) -> int {
    let start = if pos < b.len() { pos } else { b.len() as int };
    let i = content_end(b, start);
    if i >= b.len() {
        i
    } else if b[i] == 13u8 {
        if i + 1 < b.len() && b[i + 1] == 10u8 { i + 2 } else { i + 1 }
    } else {
        i + 1
    }
}

/// Extend `pos` to just past the terminator of its line; a position past the end
/// gives the length of the source.
pub fn extend_to_line_end(source: &str, pos: usize) -> (r: usize)
    ensures
        r == line_end_after(source.spec_bytes(), pos as int),
        r <= source.spec_bytes().len(),
{
    let bytes = source.as_bytes();
    let mut i = if pos < bytes.len() { pos } else { bytes.len() };
    let ghost start = i;
    while i < bytes.len() && bytes[i] != 10 && bytes[i] != 13
        invariant
            start <= i <= bytes@.len(),
            content_end(bytes@, start as int) == content_end(bytes@, i as int),
        decreases bytes@.len() - i,
    {
        i = i + 1;
    }
    if i < bytes.len() {
        if bytes[i] == 13 {
            i = i + 1;
            if i < bytes.len() && bytes[i] == 10 {
                i = i + 1;
            }
        } else {
            i = i + 1;
        }
    }
    i
}

} // verus!

verus! {

/// The abstract value of an edit: `(start, end, rule, replacement)`.
pub open spec fn edit_view(e: ByteEdit) -> (int, int, Seq<char>, Seq<char>) {
    (e.start as int, e.end as int, e.rule@, e.replacement@)
}

/// The line-removal edit of one fix span, if its range is valid.
pub open spec fn span_edit(b: Seq<u8>, span: FixLineSpan, rule: Seq<char>) -> Option<(int, int, Seq<char>, Seq<char>)> {
    if !cut_point(b, span.from as int) {
        None
    } else {
        let start = line_start_of(b, span.from as int);
        if !span.to_inclusive && !cut_point(b, span.to as int) {
            None
        } else {
            let end = if span.to_inclusive { line_end_after(b, span.to as int) } else { line_start_of(b, span.to as int) };
            if start >= end || end > b.len() || !cut_point(b, end) {
                None
            } else {
                Some((start, end, rule, Seq::<char>::empty()))
            }
        }
    }
}

/// The removal edits of a list of fix spans (invalid spans dropped).
pub open spec fn removal_edits(b: Seq<u8>, spans: Seq<FixLineSpan>, rule: Seq<char>) -> Seq<(int, int, Seq<char>, Seq<char>)>
    decreases spans.len(),
{
    if spans.len() == 0 {
        Seq::empty()
    } else {
        let prev = removal_edits(b, spans.drop_last(), rule);
        match span_edit(b, spans.last(), rule) {
            Some(e) => prev.push(e),
            None => prev,
        }
    }
}

/// A replacement edit is kept when its range is in bounds and cuts at characters.
pub open spec fn text_edit_ok(b: Seq<u8>, t: TextEdit) -> bool {
    t.start <= t.end && t.end <= b.len() && cut_point(b, t.start as int) && cut_point(b, t.end as int)
}

/// The replacement edits of a list of text edits (invalid ones dropped).
pub open spec fn replacement_edits(b: Seq<u8>, edits: Seq<TextEdit>, rule: Seq<char>) -> Seq<(int, int, Seq<char>, Seq<char>)>
    decreases edits.len(),
{
    if edits.len() == 0 {
        Seq::empty()
    } else {
        let prev = replacement_edits(b, edits.drop_last(), rule);
        let t = edits.last();
        if text_edit_ok(b, t) {
            prev.push((t.start as int, t.end as int, rule, t.new_text@))
        } else {
            prev
        }
    }
}

/// All the edits a diagnostic asks for: its removals, then its replacements.
pub open spec fn diag_edits(b: Seq<u8>, d: LintDiagnostic) -> Seq<(int, int, Seq<char>, Seq<char>)> {
    (match d.fix_removals {
        Some(spans) => removal_edits(b, spans@, d.rule@),
        None => Seq::empty(),
    }) + (match d.fix_edits {
        Some(edits) => replacement_edits(b, edits@, d.rule@),
        None => Seq::empty(),
    })
}

/// Whether the planner includes findings of `rule`.
pub open spec fn planned_rule(rule: Seq<char>, include_tier_b: bool) -> bool {
    match tier_of(rule) {
        FixTier::A => true,
        FixTier::B => include_tier_b,
        FixTier::C => false,
    }
}

/// The candidate edits of a whole lint result.
pub open spec fn candidate_edits(b: Seq<u8>, diags: Seq<LintDiagnostic>, include_tier_b: bool) -> Seq<(int, int, Seq<char>, Seq<char>)>
    decreases diags.len(),
{
    if diags.len() == 0 {
        Seq::empty()
    } else {
        let d = diags.last();
        candidate_edits(b, diags.drop_last(), include_tier_b)
            + (if d.severity != Severity::Off && planned_rule(d.rule@, include_tier_b) { diag_edits(b, d) } else { Seq::empty() })
    }
}

/// Convert a fix span into a line-removal edit of `source`, or `None` when the
/// span resolves to an empty range or one that does not cut at character starts.
pub fn fix_line_span_to_edit(span: &FixLineSpan, source: &str, rule: &str) -> (r: Option<ByteEdit>)
    ensures
        match r {
            Some(e) => span_edit(source.spec_bytes(), *span, rule@) == Some(edit_view(e)),
            None => span_edit(source.spec_bytes(), *span, rule@) is None,
        },
{
    proof {
        lemma_str_valid(source);
    }
    line_span_to_edit(span, source.as_bytes(), &rule.to_string())
}

/// Convert a fix span into a line-removal edit, or `None` when the span resolves
/// to an empty or invalid range.
fn line_span_to_edit(span: &FixLineSpan, source: &[u8], rule: &String) -> (r: Option<ByteEdit>)
    requires
        valid_utf8(source@),
    ensures
        match r {
            Some(e) => span_edit(source@, *span, rule@) == Some(edit_view(e)),
            None => span_edit(source@, *span, rule@) is None,
        },
{
    let start = match line_start(source, span.from) {
        Some(s) => s,
        None => return None,
    };
    let end = if span.to_inclusive {
        extend_to_line_end_bytes(source, span.to)
    } else {
        match line_start(source, span.to) {
            Some(e) => e,
            None => return None,
        }
    };
    if start >= end || end > source.len() {
        return None;
    }
    if end < source.len() && 0x80 <= source[end] && source[end] <= 0xbf {
        return None;
    }
    Some(ByteEdit { start, end, rule: rule.clone(), replacement: String::new() })
}

/// `extend_to_line_end` on bytes.
fn extend_to_line_end_bytes(bytes: &[u8], pos: usize) -> (r: usize)
    ensures
        r == line_end_after(bytes@, pos as int),
        r <= bytes@.len(),
{
    let mut i = if pos < bytes.len() { pos } else { bytes.len() };
    let ghost start = i;
    while i < bytes.len() && bytes[i] != 10 && bytes[i] != 13
        invariant
            start <= i <= bytes@.len(),
            content_end(bytes@, start as int) == content_end(bytes@, i as int),
        decreases bytes@.len() - i,
    {
        i = i + 1;
    }
    if i < bytes.len() {
        if bytes[i] == 13 {
            i = i + 1;
            if i < bytes.len() && bytes[i] == 10 {
                i = i + 1;
            }
        } else {
            i = i + 1;
        }
    }
    i
}

/// The edits of one diagnostic on `source`: its line removals, then its text
/// replacements, each dropped when it does not resolve to a valid range. The
/// replacement text is carried over as it is.
pub fn diag_to_edits(diag: &LintDiagnostic, source: &str) -> (r: Vec<ByteEdit>)
    ensures
        views(r@) == diag_edits(source.spec_bytes(), *diag),
{
    proof {
        lemma_str_valid(source);
    }
    let mut out: Vec<ByteEdit> = Vec::new();
    push_diag_edits(diag, source.as_bytes(), &mut out);
    assert(views(out@) =~= diag_edits(source.spec_bytes(), *diag));
    out
}

/// Append the edits of one diagnostic to `out`.
fn push_diag_edits(diag: &LintDiagnostic, source: &[u8], out: &mut Vec<ByteEdit>)
    requires
        valid_utf8(source@),
    ensures
        final(out)@.map_values(|e: ByteEdit| edit_view(e)) == old(out)@.map_values(|e: ByteEdit| edit_view(e)) + diag_edits(source@, *diag),
{
    let ghost start_view = old(out)@.map_values(|e: ByteEdit| edit_view(e));
    let ghost removals: Seq<(int, int, Seq<char>, Seq<char>)> = if diag.fix_removals is Some {
        removal_edits(source@, diag.fix_removals->0@, diag.rule@)
    } else {
        Seq::empty()
    };
    if let Some(removals_v) = &diag.fix_removals {
        let mut i: usize = 0;
        while i < removals_v.len()
            invariant
                0 <= i <= removals_v@.len(),
                valid_utf8(source@),
                views(out@) == start_view + removal_edits(source@, removals_v@.take(i as int), diag.rule@),
            decreases removals_v@.len() - i,
        {
            assert(removals_v@.take(i + 1).drop_last() =~= removals_v@.take(i as int));
            let ghost before = out@;
            match line_span_to_edit(&removals_v[i], source, &diag.rule) {
                Some(e) => {
                    out.push(e);
                    assert(views(out@) =~= views(before).push(edit_view(out@.last())));
                },
                None => {},
            }
            i = i + 1;
        }
        assert(removals_v@.take(removals_v@.len() as int) =~= removals_v@);
    }
    let ghost mid_view = views(out@);
    assert(mid_view == start_view + removals);
    if let Some(text_edits) = &diag.fix_edits {
        let mut i: usize = 0;
        while i < text_edits.len()
            invariant
                0 <= i <= text_edits@.len(),
                views(out@) == mid_view + replacement_edits(source@, text_edits@.take(i as int), diag.rule@),
            decreases text_edits@.len() - i,
        {
            assert(text_edits@.take(i + 1).drop_last() =~= text_edits@.take(i as int));
            let t = &text_edits[i];
            if t.start <= t.end && t.end <= source.len()
                && (t.start == source.len() || !(0x80 <= source[t.start] && source[t.start] <= 0xbf))
                && (t.end == source.len() || !(0x80 <= source[t.end] && source[t.end] <= 0xbf)) {
                let ghost before = out@;
                out.push(ByteEdit { start: t.start, end: t.end, rule: diag.rule.clone(), replacement: t.new_text.clone() });
                assert(views(out@) =~= views(before).push(edit_view(out@.last())));
            }
            i = i + 1;
        }
        assert(text_edits@.take(text_edits@.len() as int) =~= text_edits@);
    }
    assert(views(out@) =~= start_view + diag_edits(source@, *diag));
}

} // verus!

verus! {

/// The abstract values of a sequence of edits.
pub open spec fn views(s: Seq<ByteEdit>) -> Seq<(int, int, Seq<char>, Seq<char>)> {
    s.map_values(|e: ByteEdit| edit_view(e))
}

/// An edit view lies inside `b`, is non-reversed and cuts at characters.
pub open spec fn view_ok(b: Seq<u8>, v: (int, int, Seq<char>, Seq<char>)) -> bool {
    0 <= v.0 <= v.1 <= b.len() && cut_point(b, v.0) && cut_point(b, v.1)
}

/// `x` precedes `y` in plan order: start ascending, then end descending.
pub open spec fn plan_le(x: (int, int, Seq<char>, Seq<char>), y: (int, int, Seq<char>, Seq<char>)) -> bool {
    x.0 < y.0 || (x.0 == y.0 && x.1 >= y.1)
}

/// `x` contains `y`.
pub open spec fn contains_view(x: (int, int, Seq<char>, Seq<char>), y: (int, int, Seq<char>, Seq<char>)) -> bool {
    x.0 <= y.0 && y.1 <= x.1
}

proof fn lemma_candidates_ok(b: Seq<u8>, diags: Seq<LintDiagnostic>, tb: bool)
    requires
        valid_utf8(b),
    ensures
        forall|k: int| 0 <= k < candidate_edits(b, diags, tb).len() ==> view_ok(b, #[trigger] candidate_edits(b, diags, tb)[k]),
    decreases diags.len(),
{
    if diags.len() > 0 {
        lemma_candidates_ok(b, diags.drop_last(), tb);
        let d = diags.last();
        let prev = candidate_edits(b, diags.drop_last(), tb);
        let rem: Seq<(int, int, Seq<char>, Seq<char>)> = if d.fix_removals is Some { removal_edits(b, d.fix_removals->0@, d.rule@) } else { Seq::empty() };
        let rep: Seq<(int, int, Seq<char>, Seq<char>)> = if d.fix_edits is Some { replacement_edits(b, d.fix_edits->0@, d.rule@) } else { Seq::empty() };
        if d.fix_removals is Some {
            lemma_removals_ok(b, d.fix_removals->0@, d.rule@);
        }
        if d.fix_edits is Some {
            lemma_replacements_ok(b, d.fix_edits->0@, d.rule@);
        }
        let own: Seq<(int, int, Seq<char>, Seq<char>)> = if d.severity != Severity::Off && planned_rule(d.rule@, tb) { rem + rep } else { Seq::empty() };
        assert(candidate_edits(b, diags, tb) == prev + own);
        assert forall|k: int| 0 <= k < (prev + own).len() implies view_ok(b, #[trigger] (prev + own)[k]) by {
            if k >= prev.len() {
                let m = k - prev.len();
                if m < rem.len() {
                    assert(own[m] == rem[m]);
                } else {
                    assert(own[m] == rep[m - rem.len()]);
                }
            }
        }
    }
}

proof fn lemma_removals_ok(b: Seq<u8>, spans: Seq<FixLineSpan>, rule: Seq<char>)
    requires
        valid_utf8(b),
    ensures
        forall|k: int| 0 <= k < removal_edits(b, spans, rule).len() ==> view_ok(b, #[trigger] removal_edits(b, spans, rule)[k]),
    decreases spans.len(),
{
    if spans.len() > 0 {
        lemma_removals_ok(b, spans.drop_last(), rule);
        let span = spans.last();
        let prev = removal_edits(b, spans.drop_last(), rule);
        if let Some(e) = span_edit(b, span, rule) {
            lemma_line_start_bounds(b, span.from as int);
            let start = line_start_of(b, span.from as int);
            if start > 0 {
                lemma_after_ascii_is_cut(b, start);
            }
            assert(view_ok(b, e));
            assert forall|k: int| 0 <= k < prev.push(e).len() implies view_ok(b, #[trigger] prev.push(e)[k]) by {
                if k < prev.len() {
                    assert(prev.push(e)[k] == prev[k]);
                }
            }
        }
    }
}

proof fn lemma_line_start_bounds(b: Seq<u8>, offset: int)
    requires
        0 <= offset <= b.len(),
    ensures
        0 <= line_start_of(b, offset) <= offset,
        line_start_of(b, offset) == 0 || b[line_start_of(b, offset) - 1] == 10u8,
    decreases offset,
{
    if offset > 0 && b[offset - 1] != 10u8 {
        lemma_line_start_bounds(b, offset - 1);
    }
}

proof fn lemma_replacements_ok(b: Seq<u8>, edits: Seq<TextEdit>, rule: Seq<char>)
    ensures
        forall|k: int| 0 <= k < replacement_edits(b, edits, rule).len() ==> view_ok(b, #[trigger] replacement_edits(b, edits, rule)[k]),
    decreases edits.len(),
{
    if edits.len() > 0 {
        lemma_replacements_ok(b, edits.drop_last(), rule);
        let prev = replacement_edits(b, edits.drop_last(), rule);
        let t = edits.last();
        if text_edit_ok(b, t) {
            let e = (t.start as int, t.end as int, rule, t.new_text@);
            assert forall|k: int| 0 <= k < prev.push(e).len() implies view_ok(b, #[trigger] prev.push(e)[k]) by {
                if k < prev.len() {
                    assert(prev.push(e)[k] == prev[k]);
                }
            }
        }
    }
}

/// Some position of `perm` holds `m`.
pub open spec fn placed(perm: Seq<int>, m: int) -> bool {
    exists|q: int| 0 <= q < perm.len() && #[trigger] perm[q] == m
}

/// Sort edits by start ascending, then end descending; edits with the same range
/// keep their input order. `r.1` maps each output position to its input index.
fn sort_edits(edits: Vec<ByteEdit>) -> (r: (Vec<ByteEdit>, Ghost<Seq<int>>))
    ensures
        r.0@.len() == edits@.len(),
        forall|i: int, j: int| 0 <= i < j < r.0@.len() ==> plan_le(edit_view(#[trigger] r.0@[i]), edit_view(#[trigger] r.0@[j])),
        forall|i: int| 0 <= i < r.0@.len() ==> views(edits@).contains(edit_view(#[trigger] r.0@[i])),
        forall|i: int| 0 <= i < edits@.len() ==> views(r.0@).contains(edit_view(#[trigger] edits@[i])),
        r.1@.len() == r.0@.len(),
        forall|i: int| 0 <= i < r.0@.len() ==> 0 <= #[trigger] r.1@[i] < edits@.len() && r.0@[i] == edits@[r.1@[i]],
        forall|m: int| 0 <= m < edits@.len() ==> #[trigger] placed(r.1@, m),
        forall|i: int, j: int| 0 <= i < j < r.0@.len() && (#[trigger] r.0@[i]).start == (#[trigger] r.0@[j]).start
            && r.0@[i].end == r.0@[j].end ==> r.1@[i] < r.1@[j],
{
    let ghost input = edits@;
    let ghost iv = views(input);
    let mut rest = edits;
    let mut out: Vec<ByteEdit> = Vec::new();
    let ghost mut perm: Seq<int> = Seq::empty();
    while rest.len() > 0
        invariant
            out@.len() + rest@.len() == input.len(),
            iv == views(input),
            rest@ == input.take(rest@.len() as int),
            forall|i: int, j: int| 0 <= i < j < out@.len() ==> plan_le(edit_view(#[trigger] out@[i]), edit_view(#[trigger] out@[j])),
            forall|i: int| 0 <= i < out@.len() ==> iv.contains(edit_view(#[trigger] out@[i])),
            forall|i: int| rest@.len() <= i < input.len() ==> views(out@).contains(edit_view(#[trigger] input[i])),
            perm.len() == out@.len(),
            forall|i: int| 0 <= i < out@.len() ==> rest@.len() <= #[trigger] perm[i] < input.len() && out@[i] == input[perm[i]],
            forall|m: int| rest@.len() <= m < input.len() ==> #[trigger] placed(perm, m),
            forall|i: int, j: int| 0 <= i < j < out@.len() && (#[trigger] out@[i]).start == (#[trigger] out@[j]).start
                && out@[i].end == out@[j].end ==> perm[i] < perm[j],
        decreases rest@.len(),
    {
        let ghost n = rest@.len();
        let e = rest.pop().unwrap();
        assert(input.take(n as int)[n - 1] == input[n - 1]);
        assert(e == input[n - 1]);
        assert(rest@ =~= input.take(n - 1));
        assert(iv[n - 1] == edit_view(input[n - 1]));
        let mut p: usize = out.len();
        // Insert before the trailing run of edits that do not sort strictly before `e`.
        while p > 0 && !(out[p - 1].start < e.start || (out[p - 1].start == e.start && out[p - 1].end > e.end))
            invariant
                0 <= p <= out@.len(),
                forall|k: int| p <= k < out@.len() ==> plan_le(edit_view(e), edit_view(#[trigger] out@[k])),
            decreases p,
        {
            p = p - 1;
        }
        proof {
            assert forall|k: int| 0 <= k < p implies plan_le(edit_view(#[trigger] out@[k]), edit_view(e))
                && !(out@[k].start == e.start && out@[k].end == e.end) by {
                assert(plan_le(edit_view(out@[k]), edit_view(out@[p - 1])));
            }
        }
        let ghost old_out = out@;
        let ghost old_perm = perm;
        out.insert(p, e);
        proof {
            perm = old_perm.insert(p as int, n - 1);
            assert forall|i: int, j: int| 0 <= i < j < out@.len() implies plan_le(edit_view(#[trigger] out@[i]), edit_view(#[trigger] out@[j])) by {
                if j == p {
                } else if i == p {
                    assert(out@[j] == old_out[j - 1]);
                } else {
                    let a = if i < p { i } else { i - 1 };
                    let b2 = if j < p { j } else { j - 1 };
                    assert(out@[i] == old_out[a]);
                    assert(out@[j] == old_out[b2]);
                }
            }
            assert forall|i: int, j: int| 0 <= i < j < out@.len() && (#[trigger] out@[i]).start == (#[trigger] out@[j]).start
                && out@[i].end == out@[j].end implies perm[i] < perm[j] by {
                if j == p {
                    assert(out@[i] == old_out[i]);
                } else if i == p {
                    assert(out@[j] == old_out[j - 1]);
                    assert(perm[j] == old_perm[j - 1]);
                } else {
                    let a = if i < p { i } else { i - 1 };
                    let b2 = if j < p { j } else { j - 1 };
                    assert(out@[i] == old_out[a] && perm[i] == old_perm[a]);
                    assert(out@[j] == old_out[b2] && perm[j] == old_perm[b2]);
                }
            }
            assert forall|i: int| 0 <= i < out@.len() implies n - 1 <= #[trigger] perm[i] < input.len() && out@[i] == input[perm[i]] by {
                if i < p {
                    assert(out@[i] == old_out[i] && perm[i] == old_perm[i]);
                } else if i > p {
                    assert(out@[i] == old_out[i - 1] && perm[i] == old_perm[i - 1]);
                }
            }
            assert forall|m: int| n - 1 <= m < input.len() implies #[trigger] placed(perm, m) by {
                if m == n - 1 {
                    assert(perm[p as int] == m);
                } else {
                    assert(placed(old_perm, m));
                    let q = choose|q: int| 0 <= q < old_perm.len() && #[trigger] old_perm[q] == m;
                    if q < p {
                        assert(perm[q] == m);
                    } else {
                        assert(perm[q + 1] == m);
                    }
                }
            }
            assert forall|i: int| 0 <= i < out@.len() implies iv.contains(edit_view(#[trigger] out@[i])) by {
                if i < p {
                    assert(out@[i] == old_out[i]);
                } else if i > p {
                    assert(out@[i] == old_out[i - 1]);
                } else {
                    assert(iv[n - 1] == edit_view(out@[i]));
                }
            }
            let ov = views(out@);
            let oov = views(old_out);
            assert forall|i: int| n - 1 <= i < input.len() implies ov.contains(edit_view(#[trigger] input[i])) by {
                if i == n - 1 {
                    assert(ov[p as int] == edit_view(e));
                } else {
                    let j = choose|j: int| 0 <= j < oov.len() && oov[j] == edit_view(input[i]);
                    if j < p {
                        assert(ov[j] == oov[j]);
                    } else {
                        assert(ov[j + 1] == oov[j]);
                    }
                }
            }
        }
    }
    (out, Ghost(perm))
}

/// Keep the edits that extend past every earlier kept edit; the others are
/// contained in an earlier kept one.
fn dedup_contained_or_identical(edits: &Vec<ByteEdit>) -> (r: (Vec<ByteEdit>, Ghost<Seq<int>>, Ghost<Seq<int>>))
    requires
        forall|i: int, j: int| 0 <= i < j < edits@.len() ==> plan_le(edit_view(#[trigger] edits@[i]), edit_view(#[trigger] edits@[j])),
    ensures
        r.1@.len() == r.0@.len(),
        forall|i: int| 0 <= i < r.0@.len() ==> 0 <= #[trigger] r.1@[i] < edits@.len() && r.0@[i] == edits@[r.1@[i]],
        r.2@.len() == edits@.len(),
        forall|i: int| 0 <= i < edits@.len() ==> 0 <= #[trigger] r.2@[i] < r.0@.len() && contains_view(edit_view(r.0@[r.2@[i]]), edit_view(edits@[i])),
        forall|i: int| 0 <= i < r.0@.len() - 1 ==> (#[trigger] r.0@[i]).start < r.0@[i + 1].start && r.0@[i].end < r.0@[i + 1].end,
        forall|i: int, j: int| 0 <= i < r.0@.len() && 0 <= j < r.1@[i] ==> (#[trigger] edits@[j]).end < (#[trigger] r.0@[i]).end,
{
    let mut out: Vec<ByteEdit> = Vec::new();
    if edits.len() == 0 {
        return (out, Ghost(Seq::empty()), Ghost(Seq::empty()));
    }
    out.push(edits[0].duplicate());
    let ghost mut src: Seq<int> = seq![0int];
    let ghost mut cov: Seq<int> = seq![0int];
    let mut max_end = edits[0].end;
    let mut read: usize = 1;
    while read < edits.len()
        invariant
            1 <= read <= edits@.len(),
            out@.len() >= 1,
            max_end == out@.last().end,
            forall|i: int, j: int| 0 <= i < j < edits@.len() ==> plan_le(edit_view(#[trigger] edits@[i]), edit_view(#[trigger] edits@[j])),
            src.len() == out@.len(),
            forall|i: int| 0 <= i < out@.len() ==> 0 <= #[trigger] src[i] < read && out@[i] == edits@[src[i]],
            src[out@.len() - 1] < read,
            cov.len() == read,
            forall|i: int| 0 <= i < read ==> 0 <= #[trigger] cov[i] < out@.len() && contains_view(edit_view(out@[cov[i]]), edit_view(edits@[i])),
            forall|i: int| 0 <= i < out@.len() - 1 ==> (#[trigger] out@[i]).start < out@[i + 1].start && out@[i].end < out@[i + 1].end,
            forall|j: int| 0 <= j < read ==> (#[trigger] edits@[j]).end <= max_end,
            forall|i: int, j: int| 0 <= i < out@.len() && 0 <= j < src[i] ==> (#[trigger] edits@[j]).end < (#[trigger] out@[i]).end,
        decreases edits@.len() - read,
    {
        let ghost li = (out@.len() - 1) as int;
        proof {
            assert(plan_le(edit_view(edits@[src[li]]), edit_view(edits@[read as int])));
        }
        if edits[read].end > max_end {
            let ghost old_out = out@;
            out.push(edits[read].duplicate());
            max_end = edits[read].end;
            proof {
                src = src.push(read as int);
                cov = cov.push((out@.len() - 1) as int);
                assert forall|i: int| 0 <= i < read + 1 implies 0 <= #[trigger] cov[i] < out@.len() && contains_view(edit_view(out@[cov[i]]), edit_view(edits@[i])) by {
                    if i < read {
                        assert(out@[cov[i]] == old_out[cov[i]]);
                    }
                }
                assert forall|i: int| 0 <= i < out@.len() implies 0 <= #[trigger] src[i] < read + 1 && out@[i] == edits@[src[i]] by {
                    if i < old_out.len() {
                        assert(out@[i] == old_out[i]);
                    }
                }
                assert forall|i: int, j: int| 0 <= i < out@.len() && 0 <= j < src[i] implies (#[trigger] edits@[j]).end < (#[trigger] out@[i]).end by {
                    if i < old_out.len() {
                        assert(out@[i] == old_out[i]);
                    }
                }
                assert forall|i: int| 0 <= i < out@.len() - 1 implies (#[trigger] out@[i]).start < out@[i + 1].start && out@[i].end < out@[i + 1].end by {
                    if i < old_out.len() - 1 {
                        assert(out@[i] == old_out[i]);
                        assert(out@[i + 1] == old_out[i + 1]);
                    } else {
                        assert(out@[i] == old_out[li]);
                    }
                }
            }
        } else {
            proof {
                cov = cov.push(li);
            }
        }
        read = read + 1;
    }
    (out, Ghost(src), Ghost(cov))
}

/// Whether two consecutive edits overlap.
fn has_overlapping_edits(edits: &Vec<ByteEdit>) -> (r: bool)
    ensures
        r == exists|i: int| 0 <= i < edits@.len() - 1 && (#[trigger] edits@[i]).end > edits@[i + 1].start,
{
    let mut i: usize = 0;
    while i < edits.len()
        invariant
            0 <= i <= edits@.len(),
            forall|k: int| 0 <= k < i && k < edits@.len() - 1 ==> (#[trigger] edits@[k]).end <= edits@[k + 1].start,
        decreases edits@.len() - i,
    {
        if i + 1 < edits.len() && edits[i].end > edits[i + 1].start {
            return true;
        }
        i = i + 1;
    }
    false
}

/// The plan is cleared and rejected, or its edits are valid, ordered, disjoint,
/// drawn from the candidates, and together cover every candidate.
/// Some edit of `e` contains the candidate `c`.
pub open spec fn covered_by(e: Seq<ByteEdit>, c: (int, int, Seq<char>, Seq<char>)) -> bool {
    exists|i: int| 0 <= i < e.len() && contains_view(edit_view(#[trigger] e[i]), c)
}

pub open spec fn plan_spec(b: Seq<u8>, cands: Seq<(int, int, Seq<char>, Seq<char>)>, plan: FixPlan) -> bool {
    &&& plan.overlap_rejected ==> plan.edits@.len() == 0
    &&& !plan.overlap_rejected ==> {
        &&& forall|i: int| 0 <= i < plan.edits@.len() ==> view_ok(b, edit_view(#[trigger] plan.edits@[i]))
        &&& forall|i: int, j: int| 0 <= i < j < plan.edits@.len() ==> (#[trigger] plan.edits@[i]).end <= (#[trigger] plan.edits@[j]).start
        &&& forall|i: int| 0 <= i < plan.edits@.len() ==> cands.contains(edit_view(#[trigger] plan.edits@[i]))
        &&& forall|k: int| 0 <= k < cands.len() ==> covered_by(plan.edits@, #[trigger] cands[k])
    }
}

/// `c` is a candidate whose range no other candidate's range strictly contains.
#[verifier::opaque]
pub open spec fn maximal(cands: Seq<(int, int, Seq<char>, Seq<char>)>, c: (int, int, Seq<char>, Seq<char>)) -> bool {
    &&& cands.contains(c)
    &&& forall|k: int| 0 <= k < cands.len() && contains_view(#[trigger] cands[k], c) ==> cands[k].0 == c.0 && cands[k].1 == c.1
}

/// Two maximal candidates overlap without either containing the other.
pub open spec fn plan_rejects(cands: Seq<(int, int, Seq<char>, Seq<char>)>) -> bool {
    exists|i: int, j: int| 0 <= i < cands.len() && 0 <= j < cands.len()
        && maximal(cands, #[trigger] cands[i]) && maximal(cands, #[trigger] cands[j])
        && cands[i].0 < cands[j].0 < cands[i].1
}

/// `c` is a candidate, and no earlier candidate has its range.
#[verifier::opaque]
pub open spec fn first_of_range(cands: Seq<(int, int, Seq<char>, Seq<char>)>, c: (int, int, Seq<char>, Seq<char>)) -> bool {
    exists|k: int| 0 <= k < cands.len() && #[trigger] cands[k] == c
        && forall|m: int| 0 <= m < k ==> (#[trigger] cands[m]).0 != c.0 || cands[m].1 != c.1
}

/// The plan is rejected exactly when two maximal candidates partially overlap;
/// otherwise its edits are maximal candidates, each the first candidate with its
/// range, and every maximal candidate's range is the range of one of them.
pub open spec fn plan_exact(cands: Seq<(int, int, Seq<char>, Seq<char>)>, plan: FixPlan) -> bool {
    &&& plan.overlap_rejected <==> plan_rejects(cands)
    &&& !plan.overlap_rejected ==> forall|i: int| 0 <= i < plan.edits@.len() ==> first_of_range(cands, edit_view(#[trigger] plan.edits@[i]))
    &&& !plan.overlap_rejected ==> forall|i: int| 0 <= i < plan.edits@.len() - 1 ==> (#[trigger] plan.edits@[i]).start < plan.edits@[i + 1].start
    &&& !plan.overlap_rejected ==> forall|i: int| 0 <= i < plan.edits@.len() ==> maximal(cands, edit_view(#[trigger] plan.edits@[i]))
    &&& !plan.overlap_rejected ==> forall|k: int| 0 <= k < cands.len() && maximal(cands, #[trigger] cands[k]) ==>
        exists|i: int| 0 <= i < plan.edits@.len() && (#[trigger] plan.edits@[i]).start == cands[k].0 && plan.edits@[i].end == cands[k].1
}

/// Every deduplicated edit is a maximal candidate.
#[verifier::rlimit(50)]
proof fn lemma_kept_maximal(
    cands: Seq<(int, int, Seq<char>, Seq<char>)>,
    collected: Seq<ByteEdit>,
    sorted: Seq<ByteEdit>,
    e: Seq<ByteEdit>,
    src: Seq<int>,
)
    requires
        views(collected) == cands,
        forall|i: int| 0 <= i < sorted.len() ==> views(collected).contains(edit_view(#[trigger] sorted[i])),
        forall|i: int| 0 <= i < collected.len() ==> views(sorted).contains(edit_view(#[trigger] collected[i])),
        forall|i: int, j: int| 0 <= i < j < sorted.len() ==> plan_le(edit_view(#[trigger] sorted[i]), edit_view(#[trigger] sorted[j])),
        src.len() == e.len(),
        forall|i: int| 0 <= i < e.len() ==> 0 <= #[trigger] src[i] < sorted.len() && e[i] == sorted[src[i]],
        forall|i: int, j: int| 0 <= i < e.len() && 0 <= j < src[i] ==> (#[trigger] sorted[j]).end < (#[trigger] e[i]).end,
    ensures
        forall|i: int| 0 <= i < e.len() ==> maximal(cands, edit_view(#[trigger] e[i])),
{
    reveal(maximal);
    assert forall|i: int| 0 <= i < e.len() implies maximal(cands, edit_view(#[trigger] e[i])) by {
        let s = src[i];
        assert(views(collected).contains(edit_view(sorted[s])));
        assert forall|k: int| 0 <= k < cands.len() && contains_view(#[trigger] cands[k], edit_view(e[i]))
            implies cands[k].0 == edit_view(e[i]).0 && cands[k].1 == edit_view(e[i]).1 by {
            assert(cands[k] == edit_view(collected[k]));
            assert(views(sorted).contains(edit_view(collected[k])));
            let j = choose|j: int| 0 <= j < views(sorted).len() && views(sorted)[j] == edit_view(collected[k]);
            assert(views(sorted)[j] == edit_view(sorted[j]));
            if j < s {
                assert(sorted[j].end < e[i].end);
            } else if j > s {
                assert(plan_le(edit_view(sorted[s]), edit_view(sorted[j])));
            }
        }
    }
}

/// Every maximal candidate has the range of some deduplicated edit.
#[verifier::rlimit(50)]
proof fn lemma_maximal_kept(
    cands: Seq<(int, int, Seq<char>, Seq<char>)>,
    collected: Seq<ByteEdit>,
    sorted: Seq<ByteEdit>,
    e: Seq<ByteEdit>,
    src: Seq<int>,
    cov: Seq<int>,
)
    requires
        views(collected) == cands,
        forall|i: int| 0 <= i < sorted.len() ==> views(collected).contains(edit_view(#[trigger] sorted[i])),
        forall|i: int| 0 <= i < collected.len() ==> views(sorted).contains(edit_view(#[trigger] collected[i])),
        src.len() == e.len(),
        forall|i: int| 0 <= i < e.len() ==> 0 <= #[trigger] src[i] < sorted.len() && e[i] == sorted[src[i]],
        cov.len() == sorted.len(),
        forall|i: int| 0 <= i < sorted.len() ==> 0 <= #[trigger] cov[i] < e.len() && contains_view(edit_view(e[cov[i]]), edit_view(sorted[i])),
    ensures
        forall|k: int| 0 <= k < cands.len() && maximal(cands, #[trigger] cands[k]) ==>
            exists|i: int| 0 <= i < e.len() && (#[trigger] e[i]).start == cands[k].0 && e[i].end == cands[k].1,
{
    reveal(maximal);
    assert forall|k: int| 0 <= k < cands.len() && maximal(cands, #[trigger] cands[k]) implies
        exists|i: int| 0 <= i < e.len() && (#[trigger] e[i]).start == cands[k].0 && e[i].end == cands[k].1 by {
        assert(cands[k] == edit_view(collected[k]));
        assert(views(sorted).contains(edit_view(collected[k])));
        let s = choose|s: int| 0 <= s < views(sorted).len() && views(sorted)[s] == edit_view(collected[k]);
        assert(views(sorted)[s] == edit_view(sorted[s]));
        let i = cov[s];
        let t = src[i];
        assert(views(collected).contains(edit_view(sorted[t])));
        let m = choose|m: int| 0 <= m < views(collected).len() && views(collected)[m] == edit_view(sorted[t]);
        assert(views(collected)[m] == cands[m]);
        assert(contains_view(cands[m], cands[k]));
        assert(e[i].start == cands[k].0 && e[i].end == cands[k].1);
    }
}

/// Each deduplicated edit is the first candidate with its range.
proof fn lemma_kept_first(
    cands: Seq<(int, int, Seq<char>, Seq<char>)>,
    collected: Seq<ByteEdit>,
    sorted: Seq<ByteEdit>,
    perm: Seq<int>,
    e: Seq<ByteEdit>,
    src: Seq<int>,
)
    requires
        views(collected) == cands,
        perm.len() == sorted.len(),
        forall|i: int| 0 <= i < sorted.len() ==> 0 <= #[trigger] perm[i] < collected.len() && sorted[i] == collected[perm[i]],
        forall|m: int| 0 <= m < collected.len() ==> #[trigger] placed(perm, m),
        forall|i: int, j: int| 0 <= i < j < sorted.len() && (#[trigger] sorted[i]).start == (#[trigger] sorted[j]).start
            && sorted[i].end == sorted[j].end ==> perm[i] < perm[j],
        src.len() == e.len(),
        forall|i: int| 0 <= i < e.len() ==> 0 <= #[trigger] src[i] < sorted.len() && e[i] == sorted[src[i]],
        forall|i: int, j: int| 0 <= i < e.len() && 0 <= j < src[i] ==> (#[trigger] sorted[j]).end < (#[trigger] e[i]).end,
    ensures
        forall|i: int| 0 <= i < e.len() ==> first_of_range(cands, edit_view(#[trigger] e[i])),
{
    reveal(first_of_range);
    assert forall|i: int| 0 <= i < e.len() implies first_of_range(cands, edit_view(#[trigger] e[i])) by {
        let s = src[i];
        let k = perm[s];
        assert(cands[k] == edit_view(collected[k]));
        assert forall|m: int| 0 <= m < k implies (#[trigger] cands[m]).0 != edit_view(e[i]).0 || cands[m].1 != edit_view(e[i]).1 by {
            assert(cands[m] == edit_view(collected[m]));
            if cands[m].0 == edit_view(e[i]).0 && cands[m].1 == edit_view(e[i]).1 {
                assert(placed(perm, m));
                let q = choose|q: int| 0 <= q < perm.len() && #[trigger] perm[q] == m;
                assert(sorted[q] == collected[m]);
                if q < s {
                    assert(sorted[q].end < e[i].end);
                } else if q > s {
                    assert(perm[s] < perm[q]);
                }
            }
        }
    }
}

/// Consecutive edits `i` and `i + 1` start and end in increasing order.
pub open spec fn steps_up(e: Seq<ByteEdit>, i: int) -> bool {
    e[i].start < e[i + 1].start && e[i].end < e[i + 1].end
}

/// Two consecutive maximal edits that overlap make the plan rejected.
proof fn lemma_reject_fwd(cands: Seq<(int, int, Seq<char>, Seq<char>)>, e: Seq<ByteEdit>, i: int)
    requires
        0 <= i < e.len() - 1,
        e[i].end > e[i + 1].start,
        steps_up(e, i),
        maximal(cands, edit_view(e[i])),
        maximal(cands, edit_view(e[i + 1])),
    ensures
        plan_rejects(cands),
{
    reveal(maximal);
    let a = choose|a: int| 0 <= a < cands.len() && cands[a] == edit_view(e[i]);
    let b = choose|b: int| 0 <= b < cands.len() && cands[b] == edit_view(e[i + 1]);
    assert(maximal(cands, cands[a]) && maximal(cands, cands[b]) && cands[a].0 < cands[b].0 < cands[a].1);
}

/// Pairwise disjoint edits that hold every maximal candidate's range leave no two
/// maximal candidates partially overlapping.
proof fn lemma_reject_bwd(cands: Seq<(int, int, Seq<char>, Seq<char>)>, e: Seq<ByteEdit>)
    requires
        forall|k: int| 0 <= k < cands.len() ==> #[trigger] cands[k].0 <= cands[k].1,
        forall|k: int| 0 <= k < cands.len() && maximal(cands, #[trigger] cands[k]) ==>
            exists|i: int| 0 <= i < e.len() && (#[trigger] e[i]).start == cands[k].0 && e[i].end == cands[k].1,
        forall|i: int, j: int| 0 <= i < j < e.len() ==> (#[trigger] e[i]).end <= (#[trigger] e[j]).start,
    ensures
        !plan_rejects(cands),
{
    if plan_rejects(cands) {
        let (a, b) = choose|a: int, b: int| 0 <= a < cands.len() && 0 <= b < cands.len()
            && maximal(cands, #[trigger] cands[a]) && maximal(cands, #[trigger] cands[b])
            && cands[a].0 < cands[b].0 < cands[a].1;
        let p = choose|p: int| 0 <= p < e.len() && (#[trigger] e[p]).start == cands[a].0 && e[p].end == cands[a].1;
        let q = choose|q: int| 0 <= q < e.len() && (#[trigger] e[q]).start == cands[b].0 && e[q].end == cands[b].1;
        if p < q {
            assert(e[p].end <= e[q].start);
        } else if q < p {
            assert(e[q].end <= e[p].start);
        }
    }
}

/// The deduplicated edits decide the plan as [`plan_exact`] says.
#[verifier::rlimit(50)]
proof fn lemma_plan_exact(
    b: Seq<u8>,
    cands: Seq<(int, int, Seq<char>, Seq<char>)>,
    collected: Seq<ByteEdit>,
    sorted: Seq<ByteEdit>,
    e: Seq<ByteEdit>,
    src: Seq<int>,
    cov: Seq<int>,
)
    requires
        views(collected) == cands,
        forall|k: int| 0 <= k < cands.len() ==> view_ok(b, #[trigger] cands[k]),
        forall|i: int| 0 <= i < sorted.len() ==> views(collected).contains(edit_view(#[trigger] sorted[i])),
        forall|i: int| 0 <= i < collected.len() ==> views(sorted).contains(edit_view(#[trigger] collected[i])),
        forall|i: int, j: int| 0 <= i < j < sorted.len() ==> plan_le(edit_view(#[trigger] sorted[i]), edit_view(#[trigger] sorted[j])),
        src.len() == e.len(),
        forall|i: int| 0 <= i < e.len() ==> 0 <= #[trigger] src[i] < sorted.len() && e[i] == sorted[src[i]],
        cov.len() == sorted.len(),
        forall|i: int| 0 <= i < sorted.len() ==> 0 <= #[trigger] cov[i] < e.len() && contains_view(edit_view(e[cov[i]]), edit_view(sorted[i])),
        forall|i: int| 0 <= i < e.len() - 1 ==> (#[trigger] e[i]).start < e[i + 1].start && e[i].end < e[i + 1].end,
        forall|i: int, j: int| 0 <= i < e.len() && 0 <= j < src[i] ==> (#[trigger] sorted[j]).end < (#[trigger] e[i]).end,
    ensures
        (exists|i: int| 0 <= i < e.len() - 1 && (#[trigger] e[i]).end > e[i + 1].start) <==> plan_rejects(cands),
        forall|i: int| 0 <= i < e.len() ==> maximal(cands, edit_view(#[trigger] e[i])),
        forall|k: int| 0 <= k < cands.len() && maximal(cands, #[trigger] cands[k]) ==>
            exists|i: int| 0 <= i < e.len() && (#[trigger] e[i]).start == cands[k].0 && e[i].end == cands[k].1,
{
    assert forall|k: int| 0 <= k < cands.len() implies #[trigger] cands[k].0 <= cands[k].1 by {
        assert(view_ok(b, cands[k]));
    }
    lemma_kept_maximal(cands, collected, sorted, e, src);
    lemma_maximal_kept(cands, collected, sorted, e, src, cov);
    if exists|i: int| 0 <= i < e.len() - 1 && (#[trigger] e[i]).end > e[i + 1].start {
        let i = choose|i: int| 0 <= i < e.len() - 1 && (#[trigger] e[i]).end > e[i + 1].start;
        assert(steps_up(e, i));
        lemma_reject_fwd(cands, e, i);
    } else {
        assert forall|k: int| 0 <= k < e.len() implies (#[trigger] e[k]).start <= e[k].end by {
            assert(maximal(cands, edit_view(e[k])));
            assert(cands.contains(edit_view(e[k]))) by { reveal(maximal); }
            let m = choose|m: int| 0 <= m < cands.len() && cands[m] == edit_view(e[k]);
            assert(cands[m].0 <= cands[m].1);
        }
        assert forall|i: int, j: int| 0 <= i < j < e.len() implies (#[trigger] e[i]).end <= (#[trigger] e[j]).start by {
            lemma_chain(e, i, j);
        }
        lemma_reject_bwd(cands, e);
    }
}

/// Plan the Tier A fixes of a lint result.
pub fn plan_fixes(lint_result: &LintResult, source: &str) -> (plan: FixPlan)
    ensures
        plan.truncated == lint_result.truncated,
        plan_spec(source.spec_bytes(), candidate_edits(source.spec_bytes(), lint_result.diagnostics@, false), plan),
        plan_exact(candidate_edits(source.spec_bytes(), lint_result.diagnostics@, false), plan),
        planned(source.spec_bytes(), candidate_edits(source.spec_bytes(), lint_result.diagnostics@, false), plan),
{
    plan_fixes_with_options(lint_result, source, false)
}

/// The edits of every planned finding, in finding order.
#[verifier::spinoff_prover]
#[verifier::rlimit(50)]
fn collect_candidates(diags: &Vec<LintDiagnostic>, bytes: &[u8], include_tier_b: bool) -> (r: Vec<ByteEdit>)
    requires
        valid_utf8(bytes@),
    ensures
        views(r@) == candidate_edits(bytes@, diags@, include_tier_b),
{
    let mut collected: Vec<ByteEdit> = Vec::new();
    let mut i: usize = 0;
    while i < diags.len()
        invariant
            0 <= i <= diags@.len(),
            valid_utf8(bytes@),
            views(collected@) == candidate_edits(bytes@, diags@.take(i as int), include_tier_b),
        decreases diags@.len() - i,
    {
        assert(diags@.take(i + 1).drop_last() =~= diags@.take(i as int));
        let d = &diags[i];
        let wanted = match rule_tier(d.rule.as_str()) {
            FixTier::A => true,
            FixTier::B => include_tier_b,
            FixTier::C => false,
        };
        if d.severity != Severity::Off && wanted {
            push_diag_edits(d, bytes, &mut collected);
        } else {
            assert(views(collected@) =~= candidate_edits(bytes@, diags@.take(i + 1), include_tier_b));
        }
        i = i + 1;
    }
    assert(diags@.take(diags@.len() as int) =~= diags@);
    collected
}

/// Plan the fixes of a lint result, including Tier B when `include_tier_b`.
#[verifier::rlimit(100)]
#[verifier::spinoff_prover]
pub fn plan_fixes_with_options(lint_result: &LintResult, source: &str, include_tier_b: bool) -> (plan: FixPlan)
    ensures
        plan.truncated == lint_result.truncated,
        plan_spec(source.spec_bytes(), candidate_edits(source.spec_bytes(), lint_result.diagnostics@, include_tier_b), plan),
        plan_exact(candidate_edits(source.spec_bytes(), lint_result.diagnostics@, include_tier_b), plan),
        planned(source.spec_bytes(), candidate_edits(source.spec_bytes(), lint_result.diagnostics@, include_tier_b), plan),
{
    let bytes = source.as_bytes();
    let ghost b = source.spec_bytes();
    proof { lemma_str_valid(source); }
    let collected = collect_candidates(&lint_result.diagnostics, bytes, include_tier_b);
    let ghost cands = candidate_edits(b, lint_result.diagnostics@, include_tier_b);
    proof { lemma_candidates_ok(b, lint_result.diagnostics@, include_tier_b); }
    let ghost cv = collected@;
    let (sorted, Ghost(perm)) = sort_edits(collected);
    let (deduped, Ghost(src), Ghost(cov)) = dedup_contained_or_identical(&sorted);
    let ghost dv = deduped@;
    let ghost sv = sorted@;
    if has_overlapping_edits(&deduped) {
        let plan = FixPlan { edits: Vec::new(), overlap_rejected: true, truncated: lint_result.truncated };
        assert(plan_exact(cands, plan)) by {
            lemma_plan_exact(b, cands, cv, sv, dv, src, cov);
        }
        proof { lemma_planned(b, cands, plan); }
        return plan;
    }
    let plan = FixPlan { edits: deduped, overlap_rejected: false, truncated: lint_result.truncated };
    assert(plan_spec(b, cands, plan)) by {
        lemma_plan_props(b, cands, cv, sv, dv, src);
        lemma_plan_cover(cands, cv, sv, dv, cov);
    }
    assert(plan_exact(cands, plan)) by {
        lemma_plan_exact(b, cands, cv, sv, dv, src, cov);
        lemma_kept_first(cands, cv, sv, perm, dv, src);
    }
    proof { lemma_planned(b, cands, plan); }
    plan
}

/// Edit views whose starts strictly increase are fixed by which views they hold.
proof fn lemma_views_unique(a: Seq<(int, int, Seq<char>, Seq<char>)>, b: Seq<(int, int, Seq<char>, Seq<char>)>)
    requires
        forall|i: int, j: int| 0 <= i < j < a.len() ==> (#[trigger] a[i]).0 < (#[trigger] a[j]).0,
        forall|i: int, j: int| 0 <= i < j < b.len() ==> (#[trigger] b[i]).0 < (#[trigger] b[j]).0,
        forall|x: (int, int, Seq<char>, Seq<char>)| a.contains(x) <==> b.contains(x),
    ensures
        a == b,
    decreases a.len(),
{
    if a.len() == 0 {
        if b.len() > 0 {
            assert(b.contains(b[0]));
        }
        assert(a =~= b);
    } else {
        assert(a.contains(a[0]));
        assert(b.contains(b[0]));
        let j = choose|j: int| 0 <= j < b.len() && b[j] == a[0];
        let i = choose|i: int| 0 <= i < a.len() && a[i] == b[0];
        if j > 0 {
            assert(b[0].0 < b[j].0);
            if i > 0 {
                assert(a[0].0 < a[i].0);
            }
        }
        assert(a[0] == b[0]);
        let a1 = a.drop_first();
        let b1 = b.drop_first();
        assert forall|x: (int, int, Seq<char>, Seq<char>)| a1.contains(x) implies b1.contains(x) by {
            let p = choose|p: int| 0 <= p < a1.len() && a1[p] == x;
            assert(a[p + 1] == x);
            assert(a[0].0 < a[p + 1].0);
            assert(b.contains(x));
            let q = choose|q: int| 0 <= q < b.len() && b[q] == x;
            assert(q != 0);
            assert(b1[q - 1] == x);
        }
        assert forall|x: (int, int, Seq<char>, Seq<char>)| b1.contains(x) implies a1.contains(x) by {
            let p = choose|p: int| 0 <= p < b1.len() && b1[p] == x;
            assert(b[p + 1] == x);
            assert(b[0].0 < b[p + 1].0);
            assert(a.contains(x));
            let q = choose|q: int| 0 <= q < a.len() && a[q] == x;
            assert(q != 0);
            assert(a1[q - 1] == x);
        }
        assert forall|p: int, q: int| 0 <= p < q < a1.len() implies (#[trigger] a1[p]).0 < (#[trigger] a1[q]).0 by {
            assert(a1[p] == a[p + 1] && a1[q] == a[q + 1]);
        }
        assert forall|p: int, q: int| 0 <= p < q < b1.len() implies (#[trigger] b1[p]).0 < (#[trigger] b1[q]).0 by {
            assert(b1[p] == b[p + 1] && b1[q] == b[q + 1]);
        }
        lemma_views_unique(a1, b1);
        assert(a =~= seq![a[0]] + a1);
        assert(b =~= seq![b[0]] + b1);
    }
}

/// Edits whose consecutive starts strictly increase, none reversed and none
/// overlapping a later one, have views whose starts strictly increase.
proof fn lemma_starts_increase(e: Seq<ByteEdit>)
    requires
        forall|i: int| 0 <= i < e.len() - 1 ==> (#[trigger] e[i]).start < e[i + 1].start,
        forall|i: int| 0 <= i < e.len() ==> (#[trigger] e[i]).start <= e[i].end,
        forall|i: int, j: int| 0 <= i < j < e.len() ==> (#[trigger] e[i]).end <= (#[trigger] e[j]).start,
    ensures
        forall|i: int, j: int| 0 <= i < j < views(e).len() ==> (#[trigger] views(e)[i]).0 < (#[trigger] views(e)[j]).0,
{
    assert forall|i: int, j: int| 0 <= i < j < views(e).len() implies (#[trigger] views(e)[i]).0 < (#[trigger] views(e)[j]).0 by {
        assert(views(e)[i] == edit_view(e[i]) && views(e)[j] == edit_view(e[j]));
        assert(e[i].start < e[i + 1].start);
        if j > i + 1 {
            assert(e[i + 1].start <= e[i + 1].end);
            assert(e[i + 1].end <= e[j].start);
        }
    }
}

/// A view of one plan's edits is a view of the other's, when each edit of both is
/// the first candidate with its range and the other holds every maximal range.
proof fn lemma_view_in_other(
    cands: Seq<(int, int, Seq<char>, Seq<char>)>,
    e1: Seq<ByteEdit>,
    e2: Seq<ByteEdit>,
    x: (int, int, Seq<char>, Seq<char>),
)
    requires
        views(e1).contains(x),
        forall|i: int| 0 <= i < e1.len() ==> maximal(cands, edit_view(#[trigger] e1[i])),
        forall|i: int| 0 <= i < e1.len() ==> first_of_range(cands, edit_view(#[trigger] e1[i])),
        forall|i: int| 0 <= i < e2.len() ==> first_of_range(cands, edit_view(#[trigger] e2[i])),
        forall|k: int| 0 <= k < cands.len() && maximal(cands, #[trigger] cands[k]) ==>
            exists|i: int| 0 <= i < e2.len() && (#[trigger] e2[i]).start == cands[k].0 && e2[i].end == cands[k].1,
    ensures
        views(e2).contains(x),
{
    reveal(first_of_range);
    let i = choose|i: int| 0 <= i < views(e1).len() && views(e1)[i] == x;
    assert(views(e1)[i] == edit_view(e1[i]));
    assert(maximal(cands, x));
    assert(first_of_range(cands, x));
    let k = choose|k: int| 0 <= k < cands.len() && #[trigger] cands[k] == x
        && forall|m: int| 0 <= m < k ==> (#[trigger] cands[m]).0 != x.0 || cands[m].1 != x.1;
    assert(maximal(cands, cands[k]));
    let t = choose|t: int| 0 <= t < e2.len() && (#[trigger] e2[t]).start == cands[k].0 && e2[t].end == cands[k].1;
    let y = edit_view(e2[t]);
    assert(first_of_range(cands, y));
    let k2 = choose|k2: int| 0 <= k2 < cands.len() && #[trigger] cands[k2] == y
        && forall|m: int| 0 <= m < k2 ==> (#[trigger] cands[m]).0 != y.0 || cands[m].1 != y.1;
    if k < k2 {
        assert(cands[k].0 == y.0 && cands[k].1 == y.1);
    } else if k2 < k {
        assert(cands[k2].0 == x.0 && cands[k2].1 == x.1);
    }
    assert(views(e2)[t] == y);
}

/// The plan meets [`plan_spec`] and [`plan_exact`] for the candidates.
#[verifier::opaque]
pub open spec fn planned(b: Seq<u8>, cands: Seq<(int, int, Seq<char>, Seq<char>)>, plan: FixPlan) -> bool {
    plan_spec(b, cands, plan) && plan_exact(cands, plan)
}

/// A plan that meets both specs is planned.
proof fn lemma_planned(b: Seq<u8>, cands: Seq<(int, int, Seq<char>, Seq<char>)>, plan: FixPlan)
    requires
        plan_spec(b, cands, plan),
        plan_exact(cands, plan),
    ensures
        planned(b, cands, plan),
{
    reveal(planned);
}

/// The facts of a planned, unrejected plan that fix its edits.
#[verifier::spinoff_prover]
proof fn lemma_plan_narrow(b: Seq<u8>, cands: Seq<(int, int, Seq<char>, Seq<char>)>, plan: FixPlan)
    requires
        planned(b, cands, plan),
        !plan.overlap_rejected,
    ensures
        forall|i: int, j: int| 0 <= i < j < views(plan.edits@).len() ==> (#[trigger] views(plan.edits@)[i]).0 < (#[trigger] views(plan.edits@)[j]).0,
        forall|i: int| 0 <= i < plan.edits@.len() ==> maximal(cands, edit_view(#[trigger] plan.edits@[i])),
        forall|i: int| 0 <= i < plan.edits@.len() ==> first_of_range(cands, edit_view(#[trigger] plan.edits@[i])),
        forall|k: int| 0 <= k < cands.len() && maximal(cands, #[trigger] cands[k]) ==>
            exists|i: int| 0 <= i < plan.edits@.len() && (#[trigger] plan.edits@[i]).start == cands[k].0 && plan.edits@[i].end == cands[k].1,
{
    let e = plan.edits@;
    assert(forall|i: int| 0 <= i < e.len() ==> view_ok(b, edit_view(#[trigger] e[i]))) by { reveal(planned); }
    assert(forall|i: int, j: int| 0 <= i < j < e.len() ==> (#[trigger] e[i]).end <= (#[trigger] e[j]).start) by { reveal(planned); }
    assert(forall|i: int| 0 <= i < e.len() - 1 ==> (#[trigger] e[i]).start < e[i + 1].start) by { reveal(planned); }
    assert(forall|i: int| 0 <= i < e.len() ==> maximal(cands, edit_view(#[trigger] e[i]))) by { reveal(planned); }
    assert(forall|i: int| 0 <= i < e.len() ==> first_of_range(cands, edit_view(#[trigger] e[i]))) by { reveal(planned); }
    assert(forall|k: int| 0 <= k < cands.len() && maximal(cands, #[trigger] cands[k]) ==>
        exists|i: int| 0 <= i < e.len() && (#[trigger] e[i]).start == cands[k].0 && e[i].end == cands[k].1) by { reveal(planned); }
    assert forall|i: int| 0 <= i < e.len() implies (#[trigger] e[i]).start <= e[i].end by {
        assert(view_ok(b, edit_view(e[i])));
    }
    lemma_starts_increase(e);
}

/// A plan is fixed by its candidates: any two plans that meet `plan_spec` and
/// `plan_exact` for the same candidates agree in their rejection flag and in every
/// field of every edit. So `plan_fixes` and `plan_fixes_with_options` with Tier B
/// left out return the same plan for the same input.
#[verifier::spinoff_prover]
pub proof fn law_plan_determined(b: Seq<u8>, cands: Seq<(int, int, Seq<char>, Seq<char>)>, p1: FixPlan, p2: FixPlan)
    requires
        planned(b, cands, p1),
        planned(b, cands, p2),
    ensures
        p1.overlap_rejected == p2.overlap_rejected,
        views(p1.edits@) == views(p2.edits@),
{
    let e1 = p1.edits@;
    let e2 = p2.edits@;
    assert(p1.overlap_rejected == p2.overlap_rejected && (p1.overlap_rejected ==> e1.len() == 0 && e2.len() == 0)) by {
        reveal(planned);
    }
    if p1.overlap_rejected {
        assert(views(e1) =~= views(e2));
    } else {
        lemma_plan_narrow(b, cands, p1);
        lemma_plan_narrow(b, cands, p2);
        assert forall|x: (int, int, Seq<char>, Seq<char>)| views(e1).contains(x) <==> views(e2).contains(x) by {
            if views(e1).contains(x) {
                lemma_view_in_other(cands, e1, e2, x);
            }
            if views(e2).contains(x) {
                lemma_view_in_other(cands, e2, e1, x);
            }
        }
        lemma_views_unique(views(e1), views(e2));
    }
}

/// Every candidate is contained in a planned edit.
#[verifier::rlimit(50)]
proof fn lemma_plan_cover(
    cands: Seq<(int, int, Seq<char>, Seq<char>)>,
    collected: Seq<ByteEdit>,
    sorted: Seq<ByteEdit>,
    e: Seq<ByteEdit>,
    cov: Seq<int>,
)
    requires
        views(collected) == cands,
        forall|i: int| 0 <= i < collected.len() ==> views(sorted).contains(edit_view(#[trigger] collected[i])),
        cov.len() == sorted.len(),
        forall|i: int| 0 <= i < sorted.len() ==> 0 <= #[trigger] cov[i] < e.len() && contains_view(edit_view(e[cov[i]]), edit_view(sorted[i])),
    ensures
        forall|k: int| 0 <= k < cands.len() ==> covered_by(e, #[trigger] cands[k]),
{
    assert forall|k: int| 0 <= k < cands.len() implies covered_by(e, #[trigger] cands[k]) by {
        let cv = views(collected);
        assert(cv[k] == edit_view(collected[k]));
        let sv = views(sorted);
        assert(sv.contains(edit_view(collected[k])));
        let s = choose|s: int| 0 <= s < sv.len() && sv[s] == edit_view(collected[k]);
        assert(sv[s] == edit_view(sorted[s]));
        let i = cov[s];
        assert(contains_view(edit_view(e[i]), cands[k]));
        assert(0 <= i < e.len() && contains_view(edit_view(e[i]), cands[k]));
    }
}

/// The plan-level facts from the properties of the sort and the dedup.
#[verifier::rlimit(50)]
proof fn lemma_plan_props(
    b: Seq<u8>,
    cands: Seq<(int, int, Seq<char>, Seq<char>)>,
    collected: Seq<ByteEdit>,
    sorted: Seq<ByteEdit>,
    e: Seq<ByteEdit>,
    src: Seq<int>,
)
    requires
        views(collected) == cands,
        forall|k: int| 0 <= k < cands.len() ==> view_ok(b, #[trigger] cands[k]),
        forall|i: int| 0 <= i < sorted.len() ==> views(collected).contains(edit_view(#[trigger] sorted[i])),
        src.len() == e.len(),
        forall|i: int| 0 <= i < e.len() ==> 0 <= #[trigger] src[i] < sorted.len() && e[i] == sorted[src[i]],
        forall|k: int| 0 <= k < e.len() - 1 ==> (#[trigger] e[k]).end <= e[k + 1].start,
    ensures
        forall|i: int| 0 <= i < e.len() ==> view_ok(b, edit_view(#[trigger] e[i])),
        forall|i: int, j: int| 0 <= i < j < e.len() ==> (#[trigger] e[i]).end <= (#[trigger] e[j]).start,
        forall|i: int| 0 <= i < e.len() ==> cands.contains(edit_view(#[trigger] e[i])),
{
    assert forall|k: int| 0 <= k < e.len() implies cands.contains(edit_view(#[trigger] e[k])) by {
        let j = src[k];
        assert(views(collected).contains(edit_view(sorted[j])));
    }
    assert forall|k: int| 0 <= k < e.len() implies view_ok(b, edit_view(#[trigger] e[k])) by {
        assert(cands.contains(edit_view(e[k])));
    }
    assert forall|i1: int, j1: int| 0 <= i1 < j1 < e.len() implies (#[trigger] e[i1]).end <= (#[trigger] e[j1]).start by {
        lemma_chain(e, i1, j1);
    }
}

/// Adjacent disjointness with non-reversed edits gives disjointness of every pair.
proof fn lemma_chain(e: Seq<ByteEdit>, i: int, j: int)
    requires
        0 <= i < j < e.len(),
        forall|k: int| 0 <= k < e.len() - 1 ==> (#[trigger] e[k]).end <= e[k + 1].start,
        forall|k: int| 0 <= k < e.len() ==> (#[trigger] e[k]).start <= e[k].end,
    ensures
        e[i].end <= e[j].start,
    decreases j - i,
{
    if j > i + 1 {
        lemma_chain(e, i, j - 1);
        assert(e[j - 1].end <= e[j].start);
    }
}

} // verus!

verus! {

// ── Incremental application with the reverify gate ───────────────────────────

/// The most edits for which a refused batch is retried one edit at a time.
pub const FALLBACK_MAX_EDITS: usize = 50;

/// The outcome of applying a plan.
#[derive(Debug)]
pub enum FixOutcome {
    /// Every edit applied; the reverify residual of the fixed source.
    Fixed { source: String, residual: LintResult },
    /// Some edits applied and some refused one by one.
    PartiallyFixed { source: String, residual: LintResult, rejected: Vec<RejectedEdit> },
    /// Nothing applied: the source is returned unchanged, with the reason.
    Rejected { source: String, reason: String },
    /// The plan held no edit.
    NothingToFix,
}

/// `b` with the edits of `edits` from index `k` on whose mask is set applied, the
/// last first.
pub open spec fn apply_mask(b: Seq<u8>, edits: Seq<ByteEdit>, mask: Seq<bool>, k: int) -> Seq<u8>
    decreases edits.len() - k,
{
    if k >= edits.len() || k < 0 {
        b
    } else {
        let rest = apply_mask(b, edits, mask, k + 1);
        if mask[k] { splice(rest, edits[k]) } else { rest }
    }
}

/// The mask that selects all `n` edits.
pub open spec fn all_selected(n: nat) -> Seq<bool> {
    Seq::new(n, |i: int| true)
}

/// The number of unselected entries of a mask.
pub open spec fn unselected(mask: Seq<bool>) -> nat
    decreases mask.len(),
{
    if mask.len() == 0 { 0 } else { unselected(mask.drop_last()) + if mask.last() { 0nat } else { 1nat } }
}

/// The number of findings of `rule` in `diags`.
pub open spec fn rule_count(diags: Seq<LintDiagnostic>, rule: Seq<char>) -> nat
    decreases diags.len(),
{
    if diags.len() == 0 { 0 } else { rule_count(diags.drop_last(), rule) + if diags.last().rule@ == rule { 1nat } else { 0nat } }
}

/// The rules targeted by the edits of a plan.
pub open spec fn targeted(edits: Seq<ByteEdit>) -> Set<Seq<char>> {
    Set::new(|r: Seq<char>| exists|i: int| 0 <= i < edits.len() && (#[trigger] edits[i]).rule@ == r)
}

/// No rule outside `targ` has more findings in `residual` than in `original`.
pub open spec fn no_regression(original: Seq<LintDiagnostic>, residual: Seq<LintDiagnostic>, targ: Set<Seq<char>>) -> bool {
    forall|r: Seq<char>| !targ.contains(r) ==> #[trigger] rule_count(residual, r) <= rule_count(original, r)
}

/// The reason given when the plan was cleared for overlapping edits.
pub open spec fn overlap_reason() -> Seq<char> {
    "Overlapping fix spans detected — batch rejected to avoid data corruption."@
}

/// The reason given for edits not sorted by start.
pub open spec fn unsorted_reason() -> Seq<char> {
    "Fix edits are not sorted ascending by start offset; refusing to apply to prevent source corruption (avoids PF-005)."@
}

/// Whether a splice of `e` into `b` is allowed (it is, when out of range).
fn splice_ok(b: &Vec<u8>, e: &ByteEdit) -> (r: bool)
    ensures
        r == splice_allowed(b@, *e),
{
    if e.end > b.len() || e.start > e.end {
        return true;
    }
    let s_ok = e.start == b.len() || !(0x80 <= b[e.start] && b[e.start] <= 0xbf);
    let e_ok = e.end == b.len() || !(0x80 <= b[e.end] && b[e.end] <= 0xbf);
    s_ok && e_ok
}

/// Every selected splice from index `k` on, applied the last first, falls on
/// character boundaries.
pub open spec fn mask_allowed(b: Seq<u8>, edits: Seq<ByteEdit>, mask: Seq<bool>, k: int) -> bool
    decreases edits.len() - k,
{
    if k >= edits.len() || k < 0 {
        true
    } else {
        mask_allowed(b, edits, mask, k + 1) && (mask[k] ==> splice_allowed(apply_mask(b, edits, mask, k + 1), edits[k]))
    }
}

/// A splice sequence allowed from `i` is allowed from any later `k`.
proof fn lemma_mask_allowed_later(b: Seq<u8>, edits: Seq<ByteEdit>, mask: Seq<bool>, i: int, k: int)
    requires
        0 <= i <= k,
        mask_allowed(b, edits, mask, i),
    ensures
        mask_allowed(b, edits, mask, k),
    decreases k - i,
{
    if i < k && i < edits.len() {
        lemma_mask_allowed_later(b, edits, mask, i + 1, k);
    }
}

/// Apply the selected edits, the last first; `None` when a step would cut inside a character.
fn apply_selected(source: &str, edits: &Vec<ByteEdit>, mask: &Vec<bool>) -> (r: Option<String>)
    requires
        mask@.len() == edits@.len(),
    ensures
        r is Some <==> mask_allowed(source.spec_bytes(), edits@, mask@, 0),
        r matches Some(s) ==> utf8(s@) == apply_mask(source.spec_bytes(), edits@, mask@, 0),
{
    let mut buf = bytes_of(source);
    proof { lemma_str_valid(source); }
    let mut k = edits.len();
    while k > 0
        invariant
            k <= edits@.len() == mask@.len(),
            valid_utf8(buf@),
            buf@ == apply_mask(source.spec_bytes(), edits@, mask@, k as int),
            mask_allowed(source.spec_bytes(), edits@, mask@, k as int),
        decreases k,
    {
        k = k - 1;
        if mask[k] {
            if !splice_ok(&buf, &edits[k]) {
                proof {
                    if mask_allowed(source.spec_bytes(), edits@, mask@, 0) {
                        lemma_mask_allowed_later(source.spec_bytes(), edits@, mask@, 0, k as int);
                    }
                }
                return None;
            }
            proof { lemma_splice_valid(buf@, edits@[k as int]); }
            buf = splice_bytes(&buf, &edits[k]);
        }
    }
    Some(string_from_utf8(buf))
}

/// Whether the starts of `edits` never decrease.
fn edits_sorted(edits: &Vec<ByteEdit>) -> (r: bool)
    ensures
        r == starts_sorted(edits@),
{
    let mut i: usize = 0;
    while edits.len() > 0 && i < edits.len() - 1
        invariant
            i <= edits@.len(),
            forall|k: int| 0 <= k < i && k < edits@.len() - 1 ==> #[trigger] edits@[k].start <= edits@[k + 1].start,
        decreases edits@.len() - i,
    {
        if edits[i].start > edits[i + 1].start {
            return false;
        }
        i = i + 1;
    }
    true
}

/// The number of findings of `rule` in `diags`.
fn count_rule(diags: &Vec<LintDiagnostic>, rule: &str) -> (r: usize)
    ensures
        r == rule_count(diags@, rule@),
{
    let mut c: usize = 0;
    let mut i: usize = 0;
    while i < diags.len()
        invariant
            i <= diags@.len(),
            c == rule_count(diags@.take(i as int), rule@),
            c <= i,
        decreases diags@.len() - i,
    {
        assert(diags@.take(i + 1).drop_last() =~= diags@.take(i as int));
        if crate::text::str_eq(diags[i].rule.as_str(), rule) {
            c = c + 1;
        }
        i = i + 1;
    }
    assert(diags@.take(diags@.len() as int) =~= diags@);
    c
}

/// Whether an edit of `edits` targets `rule`.
fn is_targeted(edits: &Vec<ByteEdit>, rule: &str) -> (r: bool)
    ensures
        r == targeted(edits@).contains(rule@),
{
    let mut i: usize = 0;
    while i < edits.len()
        invariant
            i <= edits@.len(),
            forall|k: int| 0 <= k < i ==> (#[trigger] edits@[k]).rule@ != rule@,
        decreases edits@.len() - i,
    {
        if crate::text::str_eq(edits[i].rule.as_str(), rule) {
            assert(targeted(edits@).contains(rule@)) by { assert(edits@[i as int].rule@ == rule@); }
            return true;
        }
        i = i + 1;
    }
    false
}

/// A rule with findings is the rule of one of them.
proof fn lemma_count_positive(diags: Seq<LintDiagnostic>, r: Seq<char>)
    requires
        rule_count(diags, r) > 0,
    ensures
        exists|i: int| 0 <= i < diags.len() && (#[trigger] diags[i]).rule@ == r,
    decreases diags.len(),
{
    if diags.last().rule@ == r {
        assert(diags[diags.len() - 1].rule@ == r);
    } else {
        lemma_count_positive(diags.drop_last(), r);
        let i = choose|i: int| 0 <= i < diags.drop_last().len() && (#[trigger] diags.drop_last()[i]).rule@ == r;
        assert(diags[i] == diags.drop_last()[i]);
    }
}

/// The rules outside `targ` with more findings in `residual` than in `original`.
pub open spec fn regressed_set(original: Seq<LintDiagnostic>, residual: Seq<LintDiagnostic>, targ: Set<Seq<char>>) -> Set<Seq<char>> {
    Set::new(|r: Seq<char>| !targ.contains(r) && rule_count(residual, r) > rule_count(original, r))
}

/// The texts of a list of strings.
pub open spec fn texts(v: Seq<String>) -> Seq<Seq<char>> {
    v.map_values(|s: String| s@)
}

/// The untargeted rules with more findings in `residual` than in `original`, each once,
/// sorted by name.
fn regressed_rules(residual: &Vec<LintDiagnostic>, original: &Vec<LintDiagnostic>, edits: &Vec<ByteEdit>) -> (r: Vec<String>)
    ensures
        (r@.len() == 0) == no_regression(original@, residual@, targeted(edits@)),
        name_set(r@) == regressed_set(original@, residual@, targeted(edits@)),
        strictly_sorted(texts(r@)),
{
    let mut out: Vec<String> = Vec::new();
    let mut i: usize = 0;
    let ghost targ = targeted(edits@);
    assert(name_set(out@) =~= Set::<Seq<char>>::empty());
    while i < residual.len()
        invariant
            i <= residual@.len(),
            targ == targeted(edits@),
            strictly_sorted(texts(out@)),
            forall|x: Seq<char>| #[trigger] name_set(out@).contains(x) <==> (regressed_set(original@, residual@, targ).contains(x)
                && exists|k: int| 0 <= k < i && (#[trigger] residual@[k]).rule@ == x),
            out@.len() == 0 ==> forall|k: int| 0 <= k < i ==> !(!targeted(edits@).contains((#[trigger] residual@[k]).rule@)
                && rule_count(residual@, residual@[k].rule@) > rule_count(original@, residual@[k].rule@)),
            out@.len() > 0 ==> !no_regression(original@, residual@, targeted(edits@)),
        decreases residual@.len() - i,
    {
        let rule = residual[i].rule.as_str();
        let ghost before = out@;
        if !is_targeted(edits, rule) && count_rule(residual, rule) > count_rule(original, rule) {
            if !crate::facts::contains_str(&out, rule) {
                insert_sorted(&mut out, rule);
            }
        }
        proof {
            assert forall|x: Seq<char>| #[trigger] name_set(out@).contains(x) <==> (regressed_set(original@, residual@, targ).contains(x)
                && exists|k: int| 0 <= k < i + 1 && (#[trigger] residual@[k]).rule@ == x) by {
                if x == rule@ {
                    assert(residual@[i as int].rule@ == x);
                }
                if exists|k: int| 0 <= k < i + 1 && (#[trigger] residual@[k]).rule@ == x {
                    let k = choose|k: int| 0 <= k < i + 1 && (#[trigger] residual@[k]).rule@ == x;
                    if k < i {
                        assert(exists|k2: int| 0 <= k2 < i && (#[trigger] residual@[k2]).rule@ == x);
                    }
                }
            }
        }
        i = i + 1;
    }
    proof {
        assert forall|x: Seq<char>| name_set(out@).contains(x) <==> regressed_set(original@, residual@, targ).contains(x) by {
            if regressed_set(original@, residual@, targ).contains(x) {
                lemma_count_positive(residual@, x);
            }
        }
        assert(name_set(out@) =~= regressed_set(original@, residual@, targ));
        if out@.len() == 0 {
            assert forall|r: Seq<char>| !targeted(edits@).contains(r) implies #[trigger] rule_count(residual@, r) <= rule_count(original@, r) by {
                if rule_count(residual@, r) > rule_count(original@, r) {
                    lemma_count_positive(residual@, r);
                    let k = choose|k: int| 0 <= k < residual@.len() && (#[trigger] residual@[k]).rule@ == r;
                }
            }
        }
    }
    out
}

/// Insert `s` into the sorted list `v`, keeping it sorted by bytes.
#[verifier::spinoff_prover]
#[verifier::rlimit(50)]
fn insert_sorted(v: &mut Vec<String>, s: &str)
    requires
        strictly_sorted(texts(old(v)@)),
        !name_set(old(v)@).contains(s@),
    ensures
        final(v)@.len() == old(v)@.len() + 1,
        strictly_sorted(texts(final(v)@)),
        name_set(final(v)@) == name_set(old(v)@).insert(s@),
{
    let ghost nv = texts(v@);
    let mut pos: usize = 0;
    while pos < v.len()
        invariant
            pos <= v@.len(),
            nv == texts(v@),
            v@ == old(v)@,
            !name_set(old(v)@).contains(s@),
            forall|k: int| 0 <= k < pos ==> bytes_lt(utf8(#[trigger] nv[k]), utf8(s@)),
        ensures
            pos <= v@.len(),
            nv == texts(v@),
            v@ == old(v)@,
            forall|k: int| 0 <= k < pos ==> bytes_lt(utf8(#[trigger] nv[k]), utf8(s@)),
            pos < v@.len() ==> bytes_lt(utf8(s@), utf8(nv[pos as int])),
        decreases v@.len() - pos,
    {
        assert(nv[pos as int] == v@[pos as int]@);
        match crate::text::compare_bytes(v[pos].as_str().as_bytes(), s.as_bytes()) {
            crate::text::Order3::Greater => break,
            crate::text::Order3::Equal => {
                proof {
                    lemma_utf8_injective(nv[pos as int], s@);
                    assert(v@[pos as int]@ == s@);
                    assert(name_set(v@).contains(s@));
                }
            },
            crate::text::Order3::Less => {
                assert(bytes_lt(utf8(nv[pos as int]), utf8(s@)));
            },
        }
        pos = pos + 1;
    }
    let owned = s.to_owned();
    v.insert(pos, owned);
    proof {
        let nv2 = texts(v@);
        assert(nv2 =~= nv.insert(pos as int, s@));
        assert forall|a: int, b: int| 0 <= a < b < nv2.len() implies
            bytes_lt(utf8(#[trigger] nv2[a]), utf8(#[trigger] nv2[b])) by {
            if b == pos {
            } else if a == pos {
                if b - 1 > pos {
                    lemma_bytes_lt_transitive(utf8(s@), utf8(nv[pos as int]), utf8(nv[b - 1]));
                }
            } else if a < pos && b > pos {
                assert(nv2[b] == nv[b - 1]);
            } else if a > pos {
                assert(nv2[a] == nv[a - 1]);
                assert(nv2[b] == nv[b - 1]);
            }
        }
        assert forall|x: Seq<char>| name_set(v@).contains(x) <==> name_set(old(v)@).insert(s@).contains(x) by {
            if name_set(v@).contains(x) {
                let k = choose|k: int| 0 <= k < v@.len() && (#[trigger] v@[k])@ == x;
                if k < pos {
                    assert(v@[k] == old(v)@[k]);
                } else if k > pos {
                    assert(v@[k] == old(v)@[k - 1]);
                }
            }
            if name_set(old(v)@).contains(x) {
                let k = choose|k: int| 0 <= k < old(v)@.len() && (#[trigger] old(v)@[k])@ == x;
                if k < pos {
                    assert(v@[k] == old(v)@[k]);
                } else {
                    assert(v@[k + 1] == old(v)@[k]);
                }
            }
            if x == s@ {
                assert(v@[pos as int]@ == s@);
            }
        }
        assert(name_set(v@) =~= name_set(old(v)@).insert(s@));
    }
}

/// The list of strings in Rust's `Debug` notation, as `format!("{:?}", ..)` writes it.
pub uninterp spec fn debug_notation(v: Seq<Seq<char>>) -> Seq<char>;

/// The views of a list of strings.
pub open spec fn string_views(v: Seq<String>) -> Seq<Seq<char>> {
    v.map_values(|s: String| s@)
}

/// Format a list of strings with `{:?}`.
#[verifier::external_body]
fn debug_list(v: &Vec<String>) -> (r: String)
    ensures
        r@ == debug_notation(string_views(v@)),
{
    format!("{:?}", v)
}

/// The verdict of one reverify call.
pub enum Verdict {
    Accepted(LintResult),
    Reverify(MdsError),
    Regressed(Vec<String>),
}

/// Reverify `candidate` and judge its residual against `original` for the rules
/// the edits do not target.
fn verify_candidate<F>(reverify: &F, candidate: &str, edits: &Vec<ByteEdit>, original: &LintResult) -> (v: Verdict)
    where
        F: Fn(&str) -> Result<LintResult, MdsError>,
    requires
        forall|s: &str| reverify.requires((s,)),
    ensures
        v matches Verdict::Accepted(res) ==> no_regression(original.diagnostics@, res.diagnostics@, targeted(edits@))
            && reverify.ensures((candidate,), Ok(res)),
        v matches Verdict::Reverify(e) ==> reverify.ensures((candidate,), Err(e)),
        v matches Verdict::Regressed(rs) ==> rs@.len() > 0 && strictly_sorted(texts(rs@))
            && exists|res: LintResult| #[trigger] reverify.ensures((candidate,), Ok(res))
                && name_set(rs@) == regressed_set(original.diagnostics@, res.diagnostics@, targeted(edits@)),
{
    match reverify(candidate) {
        Err(err) => Verdict::Reverify(err),
        Ok(residual) => {
            let regressed = regressed_rules(&residual.diagnostics, &original.diagnostics, edits);
            if regressed.len() == 0 {
                Verdict::Accepted(residual)
            } else {
                assert(reverify.ensures((candidate,), Ok::<LintResult, MdsError>(residual)));
                Verdict::Regressed(regressed)
            }
        },
    }
}

/// The rejection text of a failed reverify: its message escaped for one status line.
pub open spec fn reverify_reason(err: MdsError) -> Seq<char> {
    "could not verify fix — the edited source did not re-parse cleanly ("@
        + crate::diagnostic::sanitized(err.display_text(), true) + "); leaving the file unchanged"@
}

/// The rejection text of a candidate that made untargeted rules report more.
pub open spec fn regression_reason(rules: Seq<Seq<char>>) -> Seq<char> {
    "Reverify produced new untargeted diagnostics: "@ + debug_notation(rules) + ". Edit reverted."@
}

/// The rejection text of an edit that cuts inside a character.
pub open spec fn boundary_reason() -> Seq<char> {
    "fix edit does not fall on character boundaries of the source; edit skipped"@
}

/// The rejection text of a plan of `n` edits, too many for the per-edit fallback.
pub open spec fn cap_reason(n: nat) -> Seq<char> {
    "Fix plan has "@ + crate::text::decimal_spec(n)
        + " edits; per-edit fallback cap is 50 — batch was rejected by the reverify gate. Re-run --fix after manually reducing the issue count (avoids PF-004)."@
}

/// A reason the per-edit fallback gives for refusing one edit.
pub open spec fn edit_reason_ok(m: Seq<char>) -> bool {
    ||| m == boundary_reason()
    ||| exists|err: MdsError| m == #[trigger] reverify_reason(err)
    ||| exists|rules: Seq<Seq<char>>| rules.len() > 0 && m == #[trigger] regression_reason(rules)
}

/// The reasons `rs` joined by `; `.
pub open spec fn joined(rs: Seq<Seq<char>>) -> Seq<char>
    decreases rs.len(),
{
    if rs.len() == 0 {
        Seq::empty()
    } else if rs.len() == 1 {
        rs[0]
    } else {
        joined(rs.drop_last()) + "; "@ + rs.last()
    }
}

/// The reason of a plan whose every edit was refused, for the refusal reasons `rs`.
pub open spec fn summary_reason(rs: Seq<Seq<char>>) -> Seq<char> {
    if rs.len() == 1 {
        rs[0]
    } else {
        "All "@ + crate::text::decimal_spec(rs.len()) + " fix edits rejected: "@ + joined(rs)
    }
}

/// The reasons of a list of refusals.
pub open spec fn reasons_of(v: Seq<RejectedEdit>) -> Seq<Seq<char>> {
    v.map_values(|x: RejectedEdit| x.reason@)
}

fn reverify_failure_reason(err: &MdsError) -> (r: String)
    ensures
        r@ == reverify_reason(*err),
{
    let shown = err.to_display_string();
    let safe = crate::diagnostic::sanitize_with(shown.as_str(), true);
    let mut out = String::from_str("could not verify fix — the edited source did not re-parse cleanly (");
    out.append(safe.as_str());
    out.append("); leaving the file unchanged");
    out
}

/// The rejection text of a verdict, or the accepted residual.
fn into_edit_result(v: Verdict) -> (r: Result<LintResult, String>)
    ensures
        v matches Verdict::Accepted(res) ==> r == Ok::<LintResult, String>(res),
        !(v is Accepted) ==> r is Err,
        v matches Verdict::Reverify(err) ==> (r matches Err(m) && m@ == reverify_reason(err)),
        v matches Verdict::Regressed(rules) ==> (r matches Err(m) && m@ == regression_reason(string_views(rules@))),
{
    match v {
        Verdict::Accepted(res) => Ok(res),
        Verdict::Reverify(err) => Err(reverify_failure_reason(&err)),
        Verdict::Regressed(rules) => {
            let mut m = String::from_str("Reverify produced new untargeted diagnostics: ");
            let listed = debug_list(&rules);
            m.append(listed.as_str());
            m.append(". Edit reverted.");
            Err(m)
        },
    }
}

/// The reason of a plan whose every edit was refused: one reason as is, several
/// joined behind a count.
fn summarize_rejections(rejected: &Vec<RejectedEdit>) -> (r: String)
    ensures
        rejected@.len() == 1 ==> r@ == rejected@[0].reason@,
        r@ == summary_reason(reasons_of(rejected@)),
{
    let ghost rs = reasons_of(rejected@);
    if rejected.len() == 1 {
        return rejected[0].reason.clone();
    }
    let mut out = String::from_str("All ");
    let n = crate::text::decimal(rejected.len());
    out.append(n.as_str());
    out.append(" fix edits rejected: ");
    let ghost head = out@;
    let mut i: usize = 0;
    assert(rs.take(0) =~= Seq::<Seq<char>>::empty());
    while i < rejected.len()
        invariant
            i <= rejected@.len(),
            rs == reasons_of(rejected@),
            out@ == head + joined(rs.take(i as int)),
        decreases rejected@.len() - i,
    {
        let ghost before = out@;
        if i > 0 {
            out.append("; ");
        }
        out.append(rejected[i].reason.as_str());
        proof {
            assert(rs.take(i + 1).drop_last() =~= rs.take(i as int));
            assert(rs.take(i + 1).last() == rejected@[i as int].reason@);
            if i == 0 {
                assert(rs.take(1) =~= seq![rs[0]]);
            }
            assert(out@ =~= head + joined(rs.take(i + 1)));
        }
        i = i + 1;
    }
    assert(rs.take(i as int) =~= rs);
    out
}

/// The refusal of a plan too large for the per-edit fallback.
fn fallback_cap_rejected(source: &str, edit_count: usize) -> (r: FixOutcome)
    ensures
        (r matches FixOutcome::Rejected { source: s, reason } && s@ == source@ && reason@ == cap_reason(edit_count as nat)),
{
    let mut reason = String::from_str("Fix plan has ");
    let n = crate::text::decimal(edit_count);
    reason.append(n.as_str());
    reason.append(" edits; per-edit fallback cap is 50 — batch was rejected by the reverify gate. Re-run --fix after manually reducing the issue count (avoids PF-004).");
    FixOutcome::Rejected { source: source.to_owned(), reason }
}

} // verus!

verus! {

/// The selected-edit facts of an outcome.
pub open spec fn outcome_ok(out: FixOutcome, b: Seq<u8>, edits: Seq<ByteEdit>, original: Seq<LintDiagnostic>) -> bool {
    match out {
        FixOutcome::Fixed { source, residual } => utf8(source@) == apply_mask(b, edits, all_selected(edits.len()), 0)
            && no_regression(original, residual.diagnostics@, targeted(edits)),
        FixOutcome::PartiallyFixed { source, residual, rejected } => exists|mask: Seq<bool>| {
            &&& mask.len() == edits.len()
            &&& utf8(source@) == #[trigger] apply_mask(b, edits, mask, 0)
            &&& rejected@.len() == unselected(mask)
        } && rejected@.len() >= 1 && no_regression(original, residual.diagnostics@, targeted(edits)),
        FixOutcome::Rejected { source, .. } => utf8(source@) == b,
        FixOutcome::NothingToFix => true,
    }
}

/// Selecting every entry of a mask from `k` on leaves nothing unselected.
proof fn lemma_unselected_push(mask: Seq<bool>, v: bool)
    ensures
        unselected(mask.push(v)) == unselected(mask) + if v { 0nat } else { 1nat },
{
    assert(mask.push(v).drop_last() =~= mask);
}

/// Checking `e` on `cur` was accepted: the splice falls on character boundaries,
/// and a reverify call on the spliced text gave a lint result in which no rule
/// outside the targeted ones reports more than in `original`.
pub open spec fn edit_accepted<F: Fn(&str) -> Result<LintResult, MdsError>>(
    reverify: F,
    cur: Seq<u8>,
    e: ByteEdit,
    edits: Seq<ByteEdit>,
    original: Seq<LintDiagnostic>,
) -> bool {
    &&& splice_allowed(cur, e)
    &&& exists|s: &str, res: LintResult| s.spec_bytes() == splice(cur, e)
        && #[trigger] reverify.ensures((s,), Ok(res))
        && no_regression(original, res.diagnostics@, targeted(edits))
}

/// Checking `e` on `cur` was refused with `reason`: the splice cuts inside a
/// character, or a reverify call on the spliced text failed with an error, or gave
/// a lint result in which the (sorted, non-empty) rules listed in the reason report
/// more than in `original` and are not targeted.
pub open spec fn edit_refused<F: Fn(&str) -> Result<LintResult, MdsError>>(
    reverify: F,
    cur: Seq<u8>,
    e: ByteEdit,
    edits: Seq<ByteEdit>,
    original: Seq<LintDiagnostic>,
    reason: Seq<char>,
) -> bool {
    if !splice_allowed(cur, e) {
        reason == boundary_reason()
    } else {
        exists|s: &str, r: Result<LintResult, MdsError>| s.spec_bytes() == splice(cur, e)
            && #[trigger] reverify.ensures((s,), r)
            && match r {
                Err(err) => reason == reverify_reason(err),
                Ok(res) => exists|rules: Seq<String>| rules.len() > 0 && strictly_sorted(texts(rules))
                    && #[trigger] name_set(rules) == regressed_set(original, res.diagnostics@, targeted(edits))
                    && reason == regression_reason(string_views(rules)),
            }
    }
}

/// The indices in `k..n` that `mask` leaves out, the last first.
pub open spec fn refused_from(mask: Seq<bool>, k: int, n: int) -> Seq<int>
    decreases n - k,
{
    if k >= n {
        Seq::empty()
    } else {
        let rest = refused_from(mask, k + 1, n);
        if mask[k] { rest } else { rest.push(k) }
    }
}

/// The record of the per-edit fallback: the edits are tried from the last to the
/// first, each on the text that holds the edits kept so far. `mask` selects the
/// kept edits, each accepted by its check; `rejected` lists the others, the last
/// first, each with the edit and the reason its check gave.
pub open spec fn fallback_trace<F: Fn(&str) -> Result<LintResult, MdsError>>(
    reverify: F,
    b: Seq<u8>,
    edits: Seq<ByteEdit>,
    original: Seq<LintDiagnostic>,
    mask: Seq<bool>,
    rejected: Seq<RejectedEdit>,
) -> bool {
    let idx = refused_from(mask, 0, edits.len() as int);
    &&& mask.len() == edits.len()
    &&& forall|k: int| 0 <= k < edits.len() && #[trigger] mask[k]
        ==> edit_accepted(reverify, apply_mask(b, edits, mask, k + 1), edits[k], edits, original)
    &&& rejected.len() == idx.len()
    &&& forall|j: int| 0 <= j < rejected.len() ==> (#[trigger] rejected[j]).edit == edits[idx[j]]
        && edit_refused(reverify, apply_mask(b, edits, mask, idx[j] + 1), edits[idx[j]], edits, original, rejected[j].reason@)
}

/// A reverify call on the text `t` gave `residual`.
pub open spec fn checked_as<F: Fn(&str) -> Result<LintResult, MdsError>>(reverify: F, t: Seq<u8>, residual: LintResult) -> bool {
    exists|s: &str| s.spec_bytes() == t && #[trigger] reverify.ensures((s,), Ok(residual))
}

/// What the per-edit fallback returns: the text with the kept edits and the
/// residual of the last accepted check; all refused, the source with the summary
/// of the reasons.
pub open spec fn fallback_outcome<F: Fn(&str) -> Result<LintResult, MdsError>>(
    reverify: F,
    b: Seq<u8>,
    edits: Seq<ByteEdit>,
    original: Seq<LintDiagnostic>,
    out: FixOutcome,
) -> bool {
    match out {
        FixOutcome::Fixed { source, residual } => exists|mask: Seq<bool>|
            #[trigger] fallback_trace(reverify, b, edits, original, mask, Seq::<RejectedEdit>::empty())
            && apply_mask(b, edits, mask, 0) == utf8(source@)
            && checked_as(reverify, utf8(source@), residual),
        FixOutcome::PartiallyFixed { source, residual, rejected } => exists|mask: Seq<bool>|
            #[trigger] fallback_trace(reverify, b, edits, original, mask, rejected@)
            && apply_mask(b, edits, mask, 0) == utf8(source@)
            && checked_as(reverify, utf8(source@), residual),
        FixOutcome::Rejected { reason, .. } => exists|mask: Seq<bool>, rej: Seq<RejectedEdit>|
            #[trigger] fallback_trace(reverify, b, edits, original, mask, rej)
            && (forall|k: int| 0 <= k < edits.len() ==> !mask[k])
            && reason@ == summary_reason(reasons_of(rej)),
        FixOutcome::NothingToFix => false,
    }
}

/// Masks that agree on `k..n` leave out the same indices there, all within `k..n`.
proof fn lemma_refused_from(m1: Seq<bool>, m2: Seq<bool>, k: int, n: int)
    requires
        forall|j: int| k <= j < n ==> m1[j] == m2[j],
    ensures
        refused_from(m1, k, n) == refused_from(m2, k, n),
        forall|j: int| 0 <= j < refused_from(m1, k, n).len() ==> k <= #[trigger] refused_from(m1, k, n)[j] < n,
    decreases n - k,
{
    if k < n {
        lemma_refused_from(m1, m2, k + 1, n);
    }
}

/// Retry the edits one by one, the last first, against the running source.
#[verifier::spinoff_prover]
#[verifier::rlimit(100)]
fn apply_per_edit<F>(source: &str, edits: &Vec<ByteEdit>, reverify: &F, original: &LintResult) -> (out: FixOutcome)
    where
        F: Fn(&str) -> Result<LintResult, MdsError>,
    requires
        forall|s: &str| reverify.requires((s,)),
    ensures
        outcome_ok(out, source.spec_bytes(), edits@, original.diagnostics@),
        fallback_outcome(*reverify, source.spec_bytes(), edits@, original.diagnostics@, out),
        !(out is NothingToFix),
        out matches FixOutcome::PartiallyFixed { rejected, .. } ==> forall|j: int| 0 <= j < rejected@.len() ==> edit_reason_ok(#[trigger] rejected@[j].reason@),
        out matches FixOutcome::Rejected { reason, .. } ==> exists|rs: Seq<Seq<char>>|
            (forall|j: int| 0 <= j < rs.len() ==> edit_reason_ok(#[trigger] rs[j])) && reason@ == #[trigger] summary_reason(rs),
{
    let n = edits.len();
    let mut running = bytes_of(source);
    proof { lemma_str_valid(source); }
    let ghost b = source.spec_bytes();
    let ghost orig = original.diagnostics@;
    let mut last_residual: Option<LintResult> = None;
    let mut rejected: Vec<RejectedEdit> = Vec::new();
    // The decisions so far, for indices `k..n` (entries below `k` are not yet decided).
    let ghost mut mask: Seq<bool> = Seq::new(n as nat, |i: int| false);
    let mut k = n;
    while k > 0
        invariant
            k <= n == edits@.len(),
            b == source.spec_bytes(),
            orig == original.diagnostics@,
            forall|s: &str| reverify.requires((s,)),
            mask.len() == n,
            valid_utf8(running@),
            running@ == apply_mask(b, edits@, mask, k as int),
            rejected@.len() == unselected(mask.subrange(k as int, n as int)),
            last_residual matches Some(res) ==> no_regression(orig, res.diagnostics@, targeted(edits@))
                && checked_as(*reverify, apply_mask(b, edits@, mask, k as int), res),
            (last_residual is Some) == exists|j: int| k <= j < n && mask[j],
            forall|j: int| 0 <= j < k ==> !mask[j],
            forall|j: int| 0 <= j < rejected@.len() ==> edit_reason_ok(#[trigger] rejected@[j].reason@),
            forall|j: int| k <= j < n && #[trigger] mask[j]
                ==> edit_accepted(*reverify, apply_mask(b, edits@, mask, j + 1), edits@[j], edits@, orig),
            rejected@.len() == refused_from(mask, k as int, n as int).len(),
            forall|j: int| 0 <= j < rejected@.len() ==> (#[trigger] rejected@[j]).edit == edits@[refused_from(mask, k as int, n as int)[j]]
                && edit_refused(*reverify, apply_mask(b, edits@, mask, refused_from(mask, k as int, n as int)[j] + 1),
                    edits@[refused_from(mask, k as int, n as int)[j]], edits@, orig, rejected@[j].reason@),
        decreases k,
    {
        k = k - 1;
        let e = &edits[k];
        let ghost rej_before = rejected@;
        let ghost m_before = mask;
        let ghost run_before = running@;
        let ghost m_sel = mask.update(k as int, true);
        proof {
            assert(apply_mask(b, edits@, m_sel, k + 1) == apply_mask(b, edits@, mask, k + 1)) by {
                lemma_apply_mask_agree(b, edits@, m_sel, mask, k + 1);
            }
            assert(apply_mask(b, edits@, mask, k as int) == apply_mask(b, edits@, mask, k + 1));
        }
        let accepted = if splice_ok(&running, e) {
            proof { lemma_splice_valid(running@, *e); }
            let cand = splice_bytes(&running, e);
            let cand_str = string_from_utf8(cand.clone());
            let cs = cand_str.as_str();
            assert(cs.spec_bytes() == splice(run_before, *e));
            let verdict = verify_candidate(reverify, cs, edits, original);
            let ghost vg = verdict;
            match into_edit_result(verdict) {
                Ok(residual) => {
                    proof {
                        assert(reverify.ensures((cs,), Ok::<LintResult, MdsError>(residual)));
                        assert(edit_accepted(*reverify, run_before, *e, edits@, orig));
                        assert(checked_as(*reverify, splice(run_before, *e), residual));
                    }
                    running = cand;
                    last_residual = Some(residual);
                    proof { mask = m_sel; }
                    true
                },
                Err(reason) => {
                    proof {
                        match vg {
                            Verdict::Reverify(err) => {
                                assert(reason@ == reverify_reason(err));
                                let r: Result<LintResult, MdsError> = Err(err);
                                assert(reverify.ensures((cs,), r));
                            },
                            Verdict::Regressed(rules) => {
                                assert(string_views(rules@).len() > 0);
                                assert(reason@ == regression_reason(string_views(rules@)));
                                let res = choose|res: LintResult| #[trigger] reverify.ensures((cs,), Ok(res))
                                    && name_set(rules@) == regressed_set(orig, res.diagnostics@, targeted(edits@));
                                let r: Result<LintResult, MdsError> = Ok(res);
                                assert(reverify.ensures((cs,), r));
                            },
                            Verdict::Accepted(_) => {},
                        }
                        assert(edit_reason_ok(reason@));
                        assert(edit_refused(*reverify, run_before, *e, edits@, orig, reason@));
                    }
                    rejected.push(RejectedEdit::new(e.duplicate(), reason));
                    false
                },
            }
        } else {
            rejected.push(RejectedEdit::new(e.duplicate(), String::from_str(
                "fix edit does not fall on character boundaries of the source; edit skipped")));
            proof {
                assert(edit_refused(*reverify, run_before, *e, edits@, orig, rejected@.last().reason@));
            }
            false
        };
        proof {
            assert(forall|j: int| k < j < n ==> mask[j] == m_before[j]);
            lemma_refused_from(mask, m_before, k + 1, n as int);
            assert forall|j: int| k + 1 <= j <= n implies apply_mask(b, edits@, mask, j) == apply_mask(b, edits@, m_before, j) by {
                lemma_apply_mask_agree(b, edits@, mask, m_before, j);
            }
            let idx_old = refused_from(m_before, k + 1, n as int);
            let idx = refused_from(mask, k as int, n as int);
            if accepted {
                assert(idx == idx_old);
            } else {
                assert(idx == idx_old.push(k as int));
            }
            assert forall|j: int| 0 <= j < rejected@.len() implies edit_reason_ok(#[trigger] rejected@[j].reason@) by {
                if j < rej_before.len() {
                    assert(rejected@[j] == rej_before[j]);
                }
            }
            assert forall|j: int| 0 <= j < rejected@.len() implies (#[trigger] rejected@[j]).edit == edits@[idx[j]]
                && edit_refused(*reverify, apply_mask(b, edits@, mask, idx[j] + 1),
                    edits@[idx[j]], edits@, orig, rejected@[j].reason@) by {
                if j < rej_before.len() {
                    assert(rejected@[j] == rej_before[j]);
                    assert(idx[j] == idx_old[j]);
                    assert(k + 1 <= idx_old[j] < n);
                } else {
                    assert(idx[j] == k);
                }
            }
            assert forall|j: int| k <= j < n && #[trigger] mask[j]
                implies edit_accepted(*reverify, apply_mask(b, edits@, mask, j + 1), edits@[j], edits@, orig) by {
                if j > k {
                    assert(m_before[j]);
                }
            }
            let sub = mask.subrange(k as int, n as int);
            assert(mask.subrange(k + 1, n as int) =~= m_before.subrange(k + 1, n as int));
            assert(sub.drop_first() =~= mask.subrange(k + 1, n as int));
            assert(sub[0] == mask[k as int]);
            assert(mask[k as int] == accepted);
            lemma_unselected_front(sub);
            if !accepted {
                assert(apply_mask(b, edits@, mask, k as int) == apply_mask(b, edits@, mask, k + 1));
            }
        }
    }
    assert(mask.subrange(0, n as int) =~= mask);
    proof {
        assert(fallback_trace(*reverify, b, edits@, orig, mask, rejected@));
    }
    match last_residual {
        None => {
            let reason = summarize_rejections(&rejected);
            proof {
                let rs = reasons_of(rejected@);
                assert forall|j: int| 0 <= j < rs.len() implies edit_reason_ok(#[trigger] rs[j]) by {
                    assert(rs[j] == rejected@[j].reason@);
                }
                assert(apply_mask(b, edits@, mask, 0) == b) by {
                    lemma_apply_mask_none(b, edits@, mask, 0);
                }
            }
            FixOutcome::Rejected { source: source.to_owned(), reason }
        },
        Some(residual) => {
            let s = string_from_utf8(running);
            if rejected.len() == 0 {
                proof {
                    lemma_no_unselected_all(mask);
                    assert(mask =~= all_selected(n as nat));
                    assert(rejected@ =~= Seq::<RejectedEdit>::empty());
                }
                FixOutcome::Fixed { source: s, residual }
            } else {
                FixOutcome::PartiallyFixed { source: s, residual, rejected }
            }
        },
    }
}

/// `unselected` counts the first entry, then the rest.
proof fn lemma_unselected_front(m: Seq<bool>)
    requires
        m.len() > 0,
    ensures
        unselected(m) == unselected(m.drop_first()) + if m[0] { 0nat } else { 1nat },
    decreases m.len(),
{
    if m.len() > 1 {
        lemma_unselected_front(m.drop_last());
        assert(m.drop_last().drop_first() =~= m.drop_first().drop_last());
        assert(m.drop_first().last() == m.last());
    } else {
        assert(m.drop_first() =~= Seq::<bool>::empty());
        assert(m.drop_last() =~= Seq::<bool>::empty());
    }
}

/// A mask with nothing unselected selects everything.
proof fn lemma_no_unselected_all(m: Seq<bool>)
    requires
        unselected(m) == 0,
    ensures
        forall|j: int| 0 <= j < m.len() ==> m[j],
    decreases m.len(),
{
    if m.len() > 0 {
        lemma_no_unselected_all(m.drop_last());
        assert forall|j: int| 0 <= j < m.len() implies m[j] by {
            if j < m.len() - 1 {
                assert(m.drop_last()[j] == m[j]);
            }
        }
    }
}

/// Masks that agree from `k` on apply the same edits.
proof fn lemma_apply_mask_agree(b: Seq<u8>, edits: Seq<ByteEdit>, m1: Seq<bool>, m2: Seq<bool>, k: int)
    requires
        0 <= k,
        forall|j: int| k <= j < edits.len() ==> m1[j] == m2[j],
    ensures
        apply_mask(b, edits, m1, k) == apply_mask(b, edits, m2, k),
    decreases edits.len() - k,
{
    if k < edits.len() {
        lemma_apply_mask_agree(b, edits, m1, m2, k + 1);
    }
}

/// A mask that selects nothing from `k` on changes nothing.
proof fn lemma_apply_mask_none(b: Seq<u8>, edits: Seq<ByteEdit>, m: Seq<bool>, k: int)
    requires
        0 <= k,
        forall|j: int| k <= j < edits.len() ==> !m[j],
    ensures
        apply_mask(b, edits, m, k) == b,
    decreases edits.len() - k,
{
    if k < edits.len() {
        lemma_apply_mask_none(b, edits, m, k + 1);
    }
}

/// Every edit of the batch falls on character boundaries, and every result the
/// reverify call can give for the fully edited text is a lint result in which no
/// rule outside the targeted ones reports more than in `original`.
pub open spec fn batch_accepted<F: Fn(&str) -> Result<LintResult, MdsError>>(
    reverify: F,
    b: Seq<u8>,
    edits: Seq<ByteEdit>,
    original: Seq<LintDiagnostic>,
) -> bool {
    &&& mask_allowed(b, edits, all_selected(edits.len()), 0)
    &&& forall|s: &str, r: Result<LintResult, MdsError>|
        s.spec_bytes() == apply_mask(b, edits, all_selected(edits.len()), 0) && #[trigger] reverify.ensures((s,), r)
            ==> (r matches Ok(res) && no_regression(original, res.diagnostics@, targeted(edits)))
}

/// The batch check refused the plan: a step of the full application cuts inside a
/// character, or a reverify call on the fully edited text failed or gave a lint
/// result in which an untargeted rule reports more than in `original`.
pub open spec fn batch_refused<F: Fn(&str) -> Result<LintResult, MdsError>>(
    reverify: F,
    b: Seq<u8>,
    edits: Seq<ByteEdit>,
    original: Seq<LintDiagnostic>,
) -> bool {
    ||| !mask_allowed(b, edits, all_selected(edits.len()), 0)
    ||| exists|s: &str, r: Result<LintResult, MdsError>|
        s.spec_bytes() == apply_mask(b, edits, all_selected(edits.len()), 0) && #[trigger] reverify.ensures((s,), r)
            && !(r matches Ok(res) && no_regression(original, res.diagnostics@, targeted(edits)))
}

/// The batch check passed with `residual`: the full application is allowed, and a
/// reverify call on the fully edited text gave `residual`, in which no untargeted
/// rule reports more than in `original`.
pub open spec fn batch_passed<F: Fn(&str) -> Result<LintResult, MdsError>>(
    reverify: F,
    b: Seq<u8>,
    edits: Seq<ByteEdit>,
    original: Seq<LintDiagnostic>,
    residual: LintResult,
) -> bool {
    &&& mask_allowed(b, edits, all_selected(edits.len()), 0)
    &&& checked_as(reverify, apply_mask(b, edits, all_selected(edits.len()), 0), residual)
    &&& no_regression(original, residual.diagnostics@, targeted(edits))
}

/// Apply a plan with the reverify gate.
///
/// One reverify call checks all edits together. If that check refuses them and
/// the plan holds at most `FALLBACK_MAX_EDITS` edits, each edit is checked alone,
/// from the rightmost to the leftmost, on the text that holds the edits accepted
/// before it; a larger plan is refused outright.
/// `reverify` returns the lint result of a candidate source, or an error when the
/// candidate fails the caller's check; a candidate is also refused when a rule the
/// plan does not target has more findings than in `original`.
pub fn apply_fixes_incremental<F>(source: &str, plan: FixPlan, original: &LintResult, reverify: F) -> (out: FixOutcome)
    where
        F: Fn(&str) -> Result<LintResult, MdsError>,
    requires
        forall|s: &str| reverify.requires((s,)),
    ensures
        outcome_ok(out, source.spec_bytes(), plan.edits@, original.diagnostics@),
        plan.overlap_rejected ==> (out matches FixOutcome::Rejected { reason, .. } && reason@ == overlap_reason()),
        !plan.overlap_rejected && plan.edits@.len() == 0 ==> out is NothingToFix,
        !plan.overlap_rejected && plan.edits@.len() > 0 && !starts_sorted(plan.edits@)
            ==> (out matches FixOutcome::Rejected { reason, .. } && reason@ == unsorted_reason()),
        out is NothingToFix ==> !plan.overlap_rejected && plan.edits@.len() == 0,
        !plan.overlap_rejected && plan.edits@.len() > 0 && starts_sorted(plan.edits@)
            && batch_accepted(reverify, source.spec_bytes(), plan.edits@, original.diagnostics@) ==> out is Fixed,
        !plan.overlap_rejected && plan.edits@.len() > FALLBACK_MAX_EDITS && starts_sorted(plan.edits@) && !(out is Fixed)
            ==> (out matches FixOutcome::Rejected { reason, .. } && reason@ == cap_reason(plan.edits@.len())),
        !plan.overlap_rejected && 0 < plan.edits@.len() <= FALLBACK_MAX_EDITS && starts_sorted(plan.edits@) ==> {
            &&& out matches FixOutcome::PartiallyFixed { rejected, .. } ==>
                forall|j: int| 0 <= j < rejected@.len() ==> edit_reason_ok(#[trigger] rejected@[j].reason@)
            &&& out matches FixOutcome::Rejected { reason, .. } ==> exists|rs: Seq<Seq<char>>|
                (forall|j: int| 0 <= j < rs.len() ==> edit_reason_ok(#[trigger] rs[j])) && reason@ == #[trigger] summary_reason(rs)
        },
        !plan.overlap_rejected && plan.edits@.len() > 0 && starts_sorted(plan.edits@) ==> {
            ||| out matches FixOutcome::Fixed { residual, .. }
                && batch_passed(reverify, source.spec_bytes(), plan.edits@, original.diagnostics@, residual)
            ||| batch_refused(reverify, source.spec_bytes(), plan.edits@, original.diagnostics@) && if plan.edits@.len() > FALLBACK_MAX_EDITS {
                    out matches FixOutcome::Rejected { reason, .. } && reason@ == cap_reason(plan.edits@.len())
                } else {
                    fallback_outcome(reverify, source.spec_bytes(), plan.edits@, original.diagnostics@, out)
                }
        },
{
    proof { lemma_str_valid(source); }
    if plan.overlap_rejected {
        let s = source.to_owned();
        return FixOutcome::Rejected {
            source: s,
            reason: String::from_str("Overlapping fix spans detected — batch rejected to avoid data corruption."),
        };
    }
    if plan.edits.len() == 0 {
        return FixOutcome::NothingToFix;
    }
    if !edits_sorted(&plan.edits) {
        return FixOutcome::Rejected {
            source: source.to_owned(),
            reason: String::from_str("Fix edits are not sorted ascending by start offset; refusing to apply to prevent source corruption (avoids PF-005)."),
        };
    }
    let n = plan.edits.len();
    let mut all: Vec<bool> = Vec::new();
    let mut i: usize = 0;
    while i < n
        invariant
            i <= n,
            all@ == all_selected(i as nat),
        decreases n - i,
    {
        all.push(true);
        assert(all@ =~= all_selected((i + 1) as nat));
        i = i + 1;
    }
    if let Some(batch) = apply_selected(source, &plan.edits, &all) {
        let bs = batch.as_str();
        match verify_candidate(&reverify, bs, &plan.edits, original) {
            Verdict::Accepted(residual) => {
                proof {
                    assert(reverify.ensures((bs,), Ok::<LintResult, MdsError>(residual)));
                    assert(checked_as(reverify, apply_mask(source.spec_bytes(), plan.edits@, all@, 0), residual));
                }
                return FixOutcome::Fixed { source: batch, residual };
            },
            Verdict::Reverify(err) => {
                proof {
                    let r: Result<LintResult, MdsError> = Err(err);
                    assert(reverify.ensures((bs,), r));
                    assert(batch_refused(reverify, source.spec_bytes(), plan.edits@, original.diagnostics@));
                }
            },
            Verdict::Regressed(rules) => {
                proof {
                    let res = choose|res: LintResult| #[trigger] reverify.ensures((bs,), Ok(res))
                        && name_set(rules@) == regressed_set(original.diagnostics@, res.diagnostics@, targeted(plan.edits@));
                    let r: Result<LintResult, MdsError> = Ok(res);
                    assert(reverify.ensures((bs,), r));
                    assert(name_set(rules@).contains(rules@[0]@));
                    let x = rules@[0]@;
                    assert(regressed_set(original.diagnostics@, res.diagnostics@, targeted(plan.edits@)).contains(x));
                    assert(rule_count(res.diagnostics@, x) > rule_count(original.diagnostics@, x));
                    assert(!no_regression(original.diagnostics@, res.diagnostics@, targeted(plan.edits@)));
                    assert(batch_refused(reverify, source.spec_bytes(), plan.edits@, original.diagnostics@));
                }
            },
        }
    }
    if n > FALLBACK_MAX_EDITS {
        let r = fallback_cap_rejected(source, n);
        proof { crate::text::lemma_utf8_injective(source@, source@); }
        return r;
    }
    apply_per_edit(source, &plan.edits, &reverify, original)
}

/// The findings that can be fixed: Tier A, and Tier B in a standalone file.
pub open spec fn fixable_filter(diags: Seq<LintDiagnostic>, is_standalone: bool) -> Seq<LintDiagnostic>
    decreases diags.len(),
{
    if diags.len() == 0 {
        Seq::empty()
    } else {
        let rest = fixable_filter(diags.drop_last(), is_standalone);
        if crate::tier::fixable_spec(diags.last().rule@, is_standalone) { rest.push(diags.last()) } else { rest }
    }
}

/// The findings of `result` that can be fixed, in order.
pub fn fixable_diagnostics<'a>(result: &'a LintResult, is_standalone: bool) -> (r: Vec<&'a LintDiagnostic>)
    ensures
        r@.len() == fixable_filter(result.diagnostics@, is_standalone).len(),
        forall|k: int| 0 <= k < r@.len() ==> *(#[trigger] r@[k]) == fixable_filter(result.diagnostics@, is_standalone)[k],
{
    let mut out: Vec<&'a LintDiagnostic> = Vec::new();
    let mut i: usize = 0;
    while i < result.diagnostics.len()
        invariant
            i <= result.diagnostics@.len(),
            out@.len() == fixable_filter(result.diagnostics@.take(i as int), is_standalone).len(),
            forall|k: int| 0 <= k < out@.len() ==> *(#[trigger] out@[k]) == fixable_filter(result.diagnostics@.take(i as int), is_standalone)[k],
        decreases result.diagnostics@.len() - i,
    {
        assert(result.diagnostics@.take(i + 1).drop_last() =~= result.diagnostics@.take(i as int));
        let d = &result.diagnostics[i];
        if crate::tier::is_fixable(d.rule.as_str(), is_standalone) {
            out.push(d);
        }
        i = i + 1;
    }
    assert(result.diagnostics@.take(result.diagnostics@.len() as int) =~= result.diagnostics@);
    out
}

} // verus!
