//! Lint diagnostics, their ordering and truncation, and the control-character
//! sanitizers applied at every output boundary.
//!
//! `message` and `help` are stored raw; they are escaped when rendered. The
//! hostile class is C0 (with `\t` exempt), DEL, C1, the twelve Unicode bidi
//! controls, U+2028/U+2029 and U+FEFF; `\n` is escaped in wire mode only.
use vstd::prelude::*;
use vstd::string::*;
use vstd::utf8::encode_scalar;
use crate::error::SerializedSpan;
use crate::text::{bytes_lt, chars_of, compare_bytes, lemma_bytes_lt_total, lemma_bytes_lt_transitive, utf8, Order3};

verus! {

/// The maximum number of diagnostics collected for one file.
pub const MAX_DIAGNOSTICS: usize = 1000;

/// Per-rule severity level.
#[derive(Clone, Copy, PartialEq, Eq, Debug, Structural)]
pub enum Severity {
    /// The rule is silenced.
    Off,
    /// Informational; never affects the exit code.
    Info,
    /// A warning.
    Warn,
    /// An error.
    Error,
}

impl Severity {
    /// The lower-case wire name of the severity.
    pub fn as_str(&self) -> (r: &'static str)
        ensures
            r@ == severity_name(*self),
    {
        match self {
            Severity::Off => "off",
            Severity::Info => "info",
            Severity::Warn => "warn",
            Severity::Error => "error",
        }
    }
}

/// The wire name of each severity.
pub open spec fn severity_name(s: Severity) -> Seq<char> {
    match s {
        Severity::Off => "off"@,
        Severity::Info => "info"@,
        Severity::Warn => "warn"@,
        Severity::Error => "error"@,
    }
}

/// A replacement of the byte range `[start, end)` by `new_text`.
#[derive(Debug)]
pub struct TextEdit {
    pub start: usize,
    pub end: usize,
    pub new_text: String,
}

impl TextEdit {
    /// Construct an edit.
    pub fn new(start: usize, end: usize, new_text: String) -> (r: TextEdit)
        ensures
            r.start == start,
            r.end == end,
            r.new_text == new_text,
    {
        TextEdit { start, end, new_text }
    }

    /// A copy of the edit.
    pub fn duplicate(&self) -> (r: TextEdit)
        ensures
            r.start == self.start,
            r.end == self.end,
            r.new_text@ == self.new_text@,
    {
        TextEdit { start: self.start, end: self.end, new_text: self.new_text.clone() }
    }
}

/// The lines to remove for one auto-fix: from the line holding `from` through the
/// line holding `to` (`to_inclusive`), or up to the start of that line.
#[derive(Clone, Copy, Debug, PartialEq, Eq)]
pub struct FixLineSpan {
    pub from: usize,
    pub to: usize,
    pub to_inclusive: bool,
}

impl FixLineSpan {
    /// Remove exactly the line that contains `offset`.
    pub fn single(offset: usize) -> (r: FixLineSpan)
        ensures
            r == (FixLineSpan { from: offset, to: offset, to_inclusive: true }),
    {
        FixLineSpan { from: offset, to: offset, to_inclusive: true }
    }

    /// Remove the lines from the one holding `from` through the one holding `to`.
    pub fn range_inclusive(from: usize, to: usize) -> (r: FixLineSpan)
        requires
            from <= to,
        ensures
            r == (FixLineSpan { from, to, to_inclusive: true }),
    {
        FixLineSpan { from, to, to_inclusive: true }
    }

    /// Remove the lines from the one holding `from` up to the one holding `to`.
    pub fn range_exclusive(from: usize, to: usize) -> (r: FixLineSpan)
        requires
            from <= to,
        ensures
            r == (FixLineSpan { from, to, to_inclusive: false }),
    {
        FixLineSpan { from, to, to_inclusive: false }
    }
}

/// A single lint finding.
#[derive(Debug)]
pub struct LintDiagnostic {
    /// Rule identifier, e.g. `unused-variable`.
    pub rule: String,
    /// Effective severity (never `Off` for an engine finding).
    pub severity: Severity,
    /// The raw finding description.
    pub message: String,
    /// An optional raw fix hint.
    pub help: Option<String>,
    /// The source span of the finding.
    pub span: Option<SerializedSpan>,
    /// The file the finding belongs to.
    pub file: Option<String>,
    /// Line removals that fix this finding.
    pub fix_removals: Option<Vec<FixLineSpan>>,
    /// In-place replacements that fix this finding.
    pub fix_edits: Option<Vec<TextEdit>>,
}

impl LintDiagnostic {
    /// A diagnostic with the required fields; every optional field is `None`.
    pub fn new(rule: String, severity: Severity, message: String) -> (r: LintDiagnostic)
        ensures
            r.rule == rule,
            r.severity == severity,
            r.message == message,
            r.help is None,
            r.span is None,
            r.file is None,
            r.fix_removals is None,
            r.fix_edits is None,
    {
        LintDiagnostic {
            rule,
            severity,
            message,
            help: None,
            span: None,
            file: None,
            fix_removals: None,
            fix_edits: None,
        }
    }

    /// Set the help text.
    pub fn with_help(self, help: String) -> (r: LintDiagnostic)
        ensures
            r == (LintDiagnostic { help: Some(help), ..self }),
    {
        LintDiagnostic { help: Some(help), ..self }
    }

    /// Set the source span.
    pub fn with_span(self, span: SerializedSpan) -> (r: LintDiagnostic)
        ensures
            r == (LintDiagnostic { span: Some(span), ..self }),
    {
        LintDiagnostic { span: Some(span), ..self }
    }

    /// Set the file.
    pub fn with_file(self, file: String) -> (r: LintDiagnostic)
        ensures
            r == (LintDiagnostic { file: Some(file), ..self }),
    {
        LintDiagnostic { file: Some(file), ..self }
    }

    /// Set the line-removal fix.
    pub fn with_fix_removals(self, fix_removals: Vec<FixLineSpan>) -> (r: LintDiagnostic)
        ensures
            r == (LintDiagnostic { fix_removals: Some(fix_removals), ..self }),
    {
        LintDiagnostic { fix_removals: Some(fix_removals), ..self }
    }

    /// Set the replacement fix.
    pub fn with_fix_edits(self, fix_edits: Vec<TextEdit>) -> (r: LintDiagnostic)
        ensures
            r == (LintDiagnostic { fix_edits: Some(fix_edits), ..self }),
    {
        LintDiagnostic { fix_edits: Some(fix_edits), ..self }
    }

    /// The diagnostic code, `mds::lint::<rule>`.
    pub fn code(&self) -> (r: String)
        ensures
            r@ == "mds::lint::"@ + self.rule@,
    {
        let mut out = String::from_str("mds::lint::");
        out.append(self.rule.as_str());
        out
    }

    /// A copy for terminal rendering: `message` and `help` escaped in human mode,
    /// `rule`, `severity`, `span` and `file` kept, the fix data dropped.
    pub fn sanitized_for_render(&self) -> (r: LintDiagnostic)
        ensures
            r.rule@ == self.rule@,
            r.severity == self.severity,
            r.message@ == sanitized(self.message@, false),
            match self.help {
                Some(h) => r.help is Some && r.help->0@ == sanitized(h@, false),
                None => r.help is None,
            },
            r.span == self.span,
            match self.file {
                Some(f) => r.file is Some && r.file->0@ == f@,
                None => r.file is None,
            },
            r.fix_removals is None,
            r.fix_edits is None,
    {
        let help = match &self.help {
            Some(h) => Some(sanitize_with(h.as_str(), false)),
            None => None,
        };
        let file = match &self.file {
            Some(f) => Some(f.clone()),
            None => None,
        };
        LintDiagnostic {
            rule: self.rule.clone(),
            severity: self.severity,
            message: sanitize_with(self.message.as_str(), false),
            help,
            span: self.span,
            file,
            fix_removals: None,
            fix_edits: None,
        }
    }
}

/// The result of a lint pass.
#[derive(Debug)]
pub struct LintResult {
    /// The collected findings.
    pub diagnostics: Vec<LintDiagnostic>,
    /// `true` when the diagnostic cap was reached.
    pub truncated: bool,
    /// `true` when the entry has no `@import` or `@extends`.
    pub is_standalone: bool,
}

impl LintResult {
    /// A result holding `diagnostics` in the given order, neither truncated nor standalone.
    pub fn new(diagnostics: Vec<LintDiagnostic>) -> (r: LintResult)
        ensures
            r.diagnostics == diagnostics,
            !r.truncated,
            !r.is_standalone,
    {
        LintResult { diagnostics, truncated: false, is_standalone: false }
    }

    /// Mark the result as truncated.
    pub fn truncated(self) -> (r: LintResult)
        ensures
            r == (LintResult { truncated: true, ..self }),
    {
        LintResult { truncated: true, ..self }
    }

    /// Mark the result as standalone.
    pub fn standalone(self) -> (r: LintResult)
        ensures
            r == (LintResult { is_standalone: true, ..self }),
    {
        LintResult { is_standalone: true, ..self }
    }
}

/// Collects diagnostics up to `MAX_DIAGNOSTICS`.
pub struct LintResultBuilder {
    pub diagnostics: Vec<LintDiagnostic>,
    pub truncated: bool,
}

impl LintResultBuilder {
    /// The collector invariant: never more than the cap.
    pub open spec fn wf(&self) -> bool {
        self.diagnostics.len() <= MAX_DIAGNOSTICS
    }

    /// An empty collector.
    pub fn new() -> (r: LintResultBuilder)
        ensures
            r.diagnostics@ == Seq::<LintDiagnostic>::empty(),
            !r.truncated,
            r.wf(),
    {
        LintResultBuilder { diagnostics: Vec::new(), truncated: false }
    }

    /// Add `diag` unless the cap is reached; returns whether it was accepted.
    pub fn push(&mut self, diag: LintDiagnostic) -> (accepted: bool)
        requires
            old(self).wf(),
        ensures
            final(self).wf(),
            accepted == (old(self).diagnostics.len() < MAX_DIAGNOSTICS),
            accepted ==> final(self).diagnostics@ == old(self).diagnostics@.push(diag)
                && final(self).truncated == old(self).truncated,
            !accepted ==> final(self).diagnostics@ == old(self).diagnostics@
                && final(self).truncated,
    {
        if self.diagnostics.len() >= MAX_DIAGNOSTICS {
            self.truncated = true;
            return false;
        }
        self.diagnostics.push(diag);
        true
    }

    /// The result: the retained diagnostics, stably sorted by `(file, offset)`.
    pub fn build(self, is_standalone: bool) -> (r: LintResult)
        ensures
            r.truncated == self.truncated,
            r.is_standalone == is_standalone,
            is_stable_sort_of(r.diagnostics@, self.diagnostics@),
    {
        let mut diagnostics = self.diagnostics;
        sort_diagnostics(&mut diagnostics);
        LintResult { diagnostics, truncated: self.truncated, is_standalone }
    }
}

// ── Ordering ──────────────────────────────────────────────────────────────────

/// The span component of the sort key: present spans by offset, absent last.
pub open spec fn span_key_le(a: Option<SerializedSpan>, b: Option<SerializedSpan>) -> bool {
    match (a, b) {
        (Some(x), Some(y)) => x.offset <= y.offset,
        (Some(_), None) => true,
        (None, Some(_)) => false,
        (None, None) => true,
    }
}

/// `key(a) <= key(b)` for the key `(file absent, file, span absent, offset)`.
pub open spec fn diag_key_le(a: LintDiagnostic, b: LintDiagnostic) -> bool {
    match (a.file, b.file) {
        (Some(fa), Some(fb)) => bytes_lt(utf8(fa@), utf8(fb@)) || (utf8(fa@) == utf8(fb@)
            && span_key_le(a.span, b.span)),
        (Some(_), None) => true,
        (None, Some(_)) => false,
        (None, None) => span_key_le(a.span, b.span),
    }
}

/// `out` is `input` reordered by `perm` (a permutation of its indices) so that keys
/// ascend and equal keys keep their input order.
pub open spec fn stable_order(out: Seq<LintDiagnostic>, input: Seq<LintDiagnostic>, perm: Seq<int>) -> bool {
    &&& out.len() == input.len()
    &&& perm.len() == input.len()
    &&& forall|k: int| 0 <= k < perm.len() ==> 0 <= #[trigger] perm[k] < input.len()
    &&& forall|k1: int, k2: int| 0 <= k1 < k2 < perm.len() ==> perm[k1] != perm[k2]
    &&& forall|k: int| 0 <= k < out.len() ==> #[trigger] out[k] == input[perm[k]]
    &&& forall|k1: int, k2: int| 0 <= k1 < k2 < out.len() ==>
        diag_key_le(#[trigger] out[k1], #[trigger] out[k2]) && (diag_key_le(out[k2], out[k1]) ==> perm[k1] < perm[k2])
}

/// `out` is a stable sort of `input` by the diagnostic key.
pub open spec fn is_stable_sort_of(out: Seq<LintDiagnostic>, input: Seq<LintDiagnostic>) -> bool {
    exists|perm: Seq<int>| stable_order(out, input, perm)
}

proof fn lemma_span_key_total_trans(a: Option<SerializedSpan>, b: Option<SerializedSpan>, c: Option<SerializedSpan>)
    ensures
        span_key_le(a, b) || span_key_le(b, a),
        span_key_le(a, b) && span_key_le(b, c) ==> span_key_le(a, c),
{
}

proof fn lemma_diag_key_total(a: LintDiagnostic, b: LintDiagnostic)
    ensures
        diag_key_le(a, b) || diag_key_le(b, a),
{
    lemma_span_key_total_trans(a.span, b.span, b.span);
    if a.file is Some && b.file is Some {
        lemma_bytes_lt_total(utf8(a.file->0@), utf8(b.file->0@));
    }
}

proof fn lemma_diag_key_trans(a: LintDiagnostic, b: LintDiagnostic, c: LintDiagnostic)
    requires
        diag_key_le(a, b),
        diag_key_le(b, c),
    ensures
        diag_key_le(a, c),
{
    lemma_span_key_total_trans(a.span, b.span, c.span);
    if a.file is Some && b.file is Some && c.file is Some {
        let (fa, fb, fc) = (utf8(a.file->0@), utf8(b.file->0@), utf8(c.file->0@));
        if bytes_lt(fa, fb) && bytes_lt(fb, fc) {
            lemma_bytes_lt_transitive(fa, fb, fc);
        }
    }
}

/// Exec form of `diag_key_le`.
fn key_le(a: &LintDiagnostic, b: &LintDiagnostic) -> (r: bool)
    ensures
        r == diag_key_le(*a, *b),
{
    let span_le = match (&a.span, &b.span) {
        (Some(x), Some(y)) => x.offset <= y.offset,
        (Some(_), None) => true,
        (None, Some(_)) => false,
        (None, None) => true,
    };
    match (&a.file, &b.file) {
        (Some(fa), Some(fb)) => {
            match compare_bytes(fa.as_str().as_bytes(), fb.as_str().as_bytes()) {
                Order3::Less => true,
                Order3::Equal => span_le,
                Order3::Greater => false,
            }
        },
        (Some(_), None) => true,
        (None, Some(_)) => false,
        (None, None) => span_le,
    }
}

/// Sort diagnostics stably by `(file, span offset)`: file-less ones last, and
/// span-less ones last within their file.
pub fn sort_diagnostics(diagnostics: &mut Vec<LintDiagnostic>)
    ensures
        is_stable_sort_of(final(diagnostics)@, old(diagnostics)@),
{
    let ghost input = diagnostics@;
    let n = diagnostics.len();
    let mut rest: Vec<LintDiagnostic> = Vec::new();
    // Move the diagnostics out, back to front, so that `rest` holds them reversed.
    while diagnostics.len() > 0
        invariant
            diagnostics@ + rest@.reverse() == input,
        decreases diagnostics.len(),
    {
        let d = diagnostics.pop().unwrap();
        proof {
            assert(rest@.push(d).reverse() =~= seq![d] + rest@.reverse());
        }
        rest.push(d);
    }
    assert(rest@.reverse() =~= input);
    let mut out: Vec<LintDiagnostic> = Vec::new();
    let ghost mut perm: Seq<int> = Seq::empty();
    let mut i: usize = 0;
    while i < n
        invariant
            n == input.len(),
            rest@.len() == n - i,
            forall|k: int| 0 <= k < n - i ==> #[trigger] rest@[k] == input[n - 1 - k],
            out@.len() == i,
            perm.len() == i,
            forall|k: int| 0 <= k < i ==> 0 <= #[trigger] perm[k] < i,
            forall|k1: int, k2: int| 0 <= k1 < k2 < i ==> perm[k1] != perm[k2],
            forall|k: int| 0 <= k < i ==> #[trigger] out@[k] == input[perm[k]],
            forall|k1: int, k2: int| 0 <= k1 < k2 < i ==>
                diag_key_le(#[trigger] out@[k1], #[trigger] out@[k2]) && (diag_key_le(out@[k2], out@[k1]) ==> perm[k1] < perm[k2]),
        decreases n - i,
    {
        assert(rest@[n - i - 1] == input[i as int]);
        let d = rest.pop().unwrap();
        // Find the first retained diagnostic whose key exceeds `d`'s.
        let mut p: usize = 0;
        while p < out.len() && key_le(&out[p], &d)
            invariant
                0 <= p <= out@.len(),
                forall|k: int| 0 <= k < p ==> diag_key_le(#[trigger] out@[k], d),
            decreases out@.len() - p,
        {
            p = p + 1;
        }
        proof {
            assert forall|k: int| p <= k < out@.len() implies !diag_key_le(#[trigger] out@[k], d) by {
                if diag_key_le(out@[k], d) {
                    lemma_diag_key_trans(out@[p as int], out@[k], d);
                }
            }
        }
        let ghost old_out = out@;
        let ghost old_perm = perm;
        out.insert(p, d);
        proof {
            perm = old_perm.insert(p as int, i as int);
            assert forall|k1: int, k2: int| 0 <= k1 < k2 < i + 1 implies
                diag_key_le(#[trigger] out@[k1], #[trigger] out@[k2]) && (diag_key_le(out@[k2], out@[k1]) ==> perm[k1] < perm[k2]) by {
                if k2 == p {
                    assert(out@[k1] == old_out[k1]);
                } else if k1 == p {
                    assert(out@[k2] == old_out[k2 - 1]);
                    lemma_diag_key_total(old_out[k2 - 1], d);
                } else {
                    let j1 = if k1 < p { k1 } else { k1 - 1 };
                    let j2 = if k2 < p { k2 } else { k2 - 1 };
                    assert(out@[k1] == old_out[j1]);
                    assert(out@[k2] == old_out[j2]);
                }
            }
            assert forall|k: int| 0 <= k < i + 1 implies #[trigger] out@[k] == input[perm[k]] by {
                if k < p {
                } else if k == p {
                } else {
                    assert(out@[k] == old_out[k - 1]);
                }
            }
            assert forall|k1: int, k2: int| 0 <= k1 < k2 < i + 1 implies perm[k1] != perm[k2] by {
                if k1 != p && k2 != p {
                    let j1 = if k1 < p { k1 } else { k1 - 1 };
                    let j2 = if k2 < p { k2 } else { k2 - 1 };
                    assert(perm[k1] == old_perm[j1]);
                    assert(perm[k2] == old_perm[j2]);
                } else if k1 == p {
                    assert(perm[k2] == old_perm[k2 - 1]);
                } else {
                    assert(perm[k1] == old_perm[k1]);
                }
            }
            assert forall|k: int| 0 <= k < i + 1 implies 0 <= #[trigger] perm[k] < i + 1 by {
                if k < p {
                    assert(perm[k] == old_perm[k]);
                } else if k > p {
                    assert(perm[k] == old_perm[k - 1]);
                }
            }
        }
        i = i + 1;
    }
    proof {
        assert(stable_order(out@, input, perm));
    }
    *diagnostics = out;
}

// ── Sanitizers ────────────────────────────────────────────────────────────────

/// The hostile class escaped in both modes (everything but `\n`).
pub open spec fn is_hazard(c: char) -> bool {
    let u = c as u32;
    (u < 0x20 && u != 0x0A && u != 0x09) || u == 0x7F || (0x80 <= u <= 0x9F) || is_format_hazard(c)
}

/// The display-hazardous codepoints outside C0/C1.
pub open spec fn is_format_hazard(c: char) -> bool {
    is_two_byte_hazard(c) || is_three_byte_hazard(c)
}

/// The hazards encoded in two UTF-8 bytes: U+061C.
pub open spec fn is_two_byte_hazard(c: char) -> bool {
    c as u32 == 0x061C
}

/// The hazards encoded in three UTF-8 bytes: the other bidi controls, the
/// line/paragraph separators and the BOM.
pub open spec fn is_three_byte_hazard(c: char) -> bool {
    let u = c as u32;
    u == 0x200E || u == 0x200F || u == 0x2028 || u == 0x2029 || (0x202A <= u <= 0x202E)
        || (0x2066 <= u <= 0x2069) || u == 0xFEFF
}

/// Whether `c` is escaped in the given mode (`wire` also escapes `\n`).
pub open spec fn escapes(c: char, wire: bool) -> bool {
    is_hazard(c) || (wire && c == '\n')
}

/// The uppercase hexadecimal digit of `n` (0..16).
pub open spec fn hex_char(n: int) -> char {
    if n == 0 { '0' } else if n == 1 { '1' } else if n == 2 { '2' } else if n == 3 { '3' }
    else if n == 4 { '4' } else if n == 5 { '5' } else if n == 6 { '6' } else if n == 7 { '7' }
    else if n == 8 { '8' } else if n == 9 { '9' } else if n == 10 { 'A' } else if n == 11 { 'B' }
    else if n == 12 { 'C' } else if n == 13 { 'D' } else if n == 14 { 'E' } else { 'F' }
}

/// The six-character `\uXXXX` literal of a codepoint below U+10000.
pub open spec fn escape_of(c: char) -> Seq<char> {
    let u = c as u32 as int;
    seq!['\\', 'u', hex_char((u / 4096) % 16), hex_char((u / 256) % 16), hex_char((u / 16) % 16), hex_char(u % 16)]
}

/// `s` with every escaped character replaced by its `\uXXXX` literal.
pub open spec fn sanitized(s: Seq<char>, wire: bool) -> Seq<char>
    decreases s.len(),
{
    if s.len() == 0 {
        Seq::empty()
    } else {
        sanitized(s.drop_last(), wire) + (if escapes(s.last(), wire) { escape_of(s.last()) } else { seq![s.last()] })
    }
}

/// Append `c` to `s`.
#[verifier::external_body]
pub(crate) fn push_char(s: &mut String, c: char)
    ensures
        final(s)@ == old(s)@.push(c),
{
    s.push(c);
}

fn hex_digit(n: u32) -> (c: char)
    requires
        n < 16,
    ensures
        c == hex_char(n as int),
{
    match n {
        0 => '0', 1 => '1', 2 => '2', 3 => '3', 4 => '4', 5 => '5', 6 => '6', 7 => '7',
        8 => '8', 9 => '9', 10 => 'A', 11 => 'B', 12 => 'C', 13 => 'D', 14 => 'E', _ => 'F',
    }
}

fn is_hazard_exec(c: char) -> (r: bool)
    ensures
        r == is_hazard(c),
{
    let u = c as u32;
    (u < 0x20 && u != 0x0A && u != 0x09) || u == 0x7F || (0x80 <= u && u <= 0x9F) || u == 0x061C
        || u == 0x200E || u == 0x200F || u == 0x2028 || u == 0x2029 || (0x202A <= u && u <= 0x202E)
        || (0x2066 <= u && u <= 0x2069) || u == 0xFEFF
}

pub(crate) fn sanitize_with(s: &str, wire: bool) -> (r: String)
    ensures
        r@ == sanitized(s@, wire),
{
    let chars = chars_of(s);
    let mut out = String::new();
    let mut i: usize = 0;
    while i < chars.len()
        invariant
            0 <= i <= chars@.len(),
            chars@ == s@,
            out@ == sanitized(chars@.take(i as int), wire),
        decreases chars@.len() - i,
    {
        let c = chars[i];
        proof {
            assert(chars@.take(i + 1).drop_last() =~= chars@.take(i as int));
        }
        if is_hazard_exec(c) || (wire && c == '\n') {
            let u = c as u32;
            proof {
                assert(u < 0x10000) by {
                    assert(is_hazard(c) || c == '\n');
                }
            }
            push_char(&mut out, '\\');
            push_char(&mut out, 'u');
            push_char(&mut out, hex_digit((u / 4096) % 16));
            push_char(&mut out, hex_digit((u / 256) % 16));
            push_char(&mut out, hex_digit((u / 16) % 16));
            push_char(&mut out, hex_digit(u % 16));
        } else {
            push_char(&mut out, c);
        }
        proof {
            assert(out@ =~= sanitized(chars@.take(i + 1), wire));
        }
        i = i + 1;
    }
    proof {
        assert(chars@.take(chars@.len() as int) =~= chars@);
    }
    out
}

/// `s` holds no character that the given mode escapes.
pub open spec fn is_clean(s: Seq<char>, wire: bool) -> bool {
    forall|i: int| 0 <= i < s.len() ==> !escapes(#[trigger] s[i], wire)
}

/// Clean text is its own sanitization.
proof fn lemma_clean_sanitized(s: Seq<char>, wire: bool)
    requires
        is_clean(s, wire),
    ensures
        sanitized(s, wire) == s,
    decreases s.len(),
{
    if s.len() > 0 {
        assert(is_clean(s.drop_last(), wire)) by {
            assert forall|i: int| 0 <= i < s.drop_last().len() implies !escapes(#[trigger] s.drop_last()[i], wire) by {
                assert(s.drop_last()[i] == s[i]);
            }
        }
        lemma_clean_sanitized(s.drop_last(), wire);
        assert(!escapes(s[s.len() - 1], wire));
        assert(s.drop_last() + seq![s.last()] =~= s);
    }
}

/// Whether `s` holds no character that the given mode escapes.
fn scan_clean(s: &str, wire: bool) -> (r: bool)
    ensures
        r == is_clean(s@, wire),
{
    let chars = chars_of(s);
    let mut i: usize = 0;
    while i < chars.len()
        invariant
            0 <= i <= chars@.len(),
            chars@ == s@,
            forall|k: int| 0 <= k < i ==> !escapes(#[trigger] chars@[k], wire),
        decreases chars@.len() - i,
    {
        let c = chars[i];
        if is_hazard_exec(c) || (wire && c == '\n') {
            return false;
        }
        i = i + 1;
    }
    true
}

/// Escape the hostile class in the given mode; clean text comes back borrowed.
fn sanitize_cow<'a>(s: &'a str, wire: bool) -> (r: std::borrow::Cow<'a, str>)
    ensures
        r@ == sanitized(s@, wire),
        (r matches std::borrow::Cow::Borrowed(_)) == is_clean(s@, wire),
{
    if scan_clean(s, wire) {
        proof { lemma_clean_sanitized(s@, wire); }
        std::borrow::Cow::Borrowed(s)
    } else {
        std::borrow::Cow::Owned(sanitize_with(s, wire))
    }
}

/// Escape the hostile class, preserving `\n` (human mode, for terminal rendering).
/// Clean text comes back borrowed, without allocation.
pub fn sanitize_control_chars<'a>(s: &'a str) -> (r: std::borrow::Cow<'a, str>)
    ensures
        r@ == sanitized(s@, false),
        (r matches std::borrow::Cow::Borrowed(_)) == is_clean(s@, false),
{
    sanitize_cow(s, false)
}

/// Escape the hostile class including `\n` (wire mode, for machine-readable output).
/// Clean text comes back borrowed, without allocation.
pub fn sanitize_control_chars_wire<'a>(s: &'a str) -> (r: std::borrow::Cow<'a, str>)
    ensures
        r@ == sanitized(s@, true),
        (r matches std::borrow::Cow::Borrowed(_)) == is_clean(s@, true),
{
    sanitize_cow(s, true)
}

/// The byte-length-preserving substitute of one character in rendered source.
pub open spec fn neutral_char(c: char) -> char {
    let u = c as u32;
    if (u < 0x20 && c != '\n' && c != '\t') || u == 0x7F {
        '?'
    } else if (0x80 <= u <= 0x9F) || is_two_byte_hazard(c) {
        '\u{00A0}'
    } else if is_three_byte_hazard(c) {
        '\u{FFFD}'
    } else {
        c
    }
}

/// Replace each hostile character of source text by a substitute of the same
/// UTF-8 length, so that byte spans into the source stay aligned.
pub fn neutralize_source_for_render<'a>(s: &'a str) -> (r: std::borrow::Cow<'a, str>)
    ensures
        r@ == s@.map_values(|c: char| neutral_char(c)),
        r@ == neutralized(s@),
        (r matches std::borrow::Cow::Borrowed(_)) == (forall|i: int| 0 <= i < s@.len() ==> neutral_char(#[trigger] s@[i]) == s@[i]),
{
    if scan_neutral(s) {
        assert(s@.map_values(|c: char| neutral_char(c)) =~= s@);
        return std::borrow::Cow::Borrowed(s);
    }
    std::borrow::Cow::Owned(neutralize_owned(s))
}

/// Whether no character of `s` has a substitute.
fn scan_neutral(s: &str) -> (r: bool)
    ensures
        r == (forall|i: int| 0 <= i < s@.len() ==> neutral_char(#[trigger] s@[i]) == s@[i]),
{
    let chars = chars_of(s);
    let mut i: usize = 0;
    while i < chars.len()
        invariant
            0 <= i <= chars@.len(),
            chars@ == s@,
            forall|k: int| 0 <= k < i ==> neutral_char(#[trigger] chars@[k]) == chars@[k],
        decreases chars@.len() - i,
    {
        let c = chars[i];
        let u = c as u32;
        if (u < 0x20 && c != '\n' && c != '\t') || u == 0x7F || (0x80 <= u && u <= 0x9F) || u == 0x061C
            || u == 0x200E || u == 0x200F || u == 0x2028 || u == 0x2029 || (0x202A <= u && u <= 0x202E)
            || (0x2066 <= u && u <= 0x2069) || u == 0xFEFF {
            return false;
        }
        i = i + 1;
    }
    true
}

/// `s` with every hostile character replaced by its substitute.
fn neutralize_owned(s: &str) -> (r: String)
    ensures
        r@ == s@.map_values(|c: char| neutral_char(c)),
        r@ == neutralized(s@),
{
    let chars = chars_of(s);
    let mut out = String::new();
    let mut i: usize = 0;
    while i < chars.len()
        invariant
            0 <= i <= chars@.len(),
            chars@ == s@,
            out@ == chars@.take(i as int).map_values(|c: char| neutral_char(c)),
        decreases chars@.len() - i,
    {
        let c = chars[i];
        let u = c as u32;
        let sub = if (u < 0x20 && c != '\n' && c != '\t') || u == 0x7F {
            '?'
        } else if (0x80 <= u && u <= 0x9F) || u == 0x061C {
            '\u{00A0}'
        } else if u == 0x200E || u == 0x200F || u == 0x2028 || u == 0x2029 || (0x202A <= u && u <= 0x202E)
            || (0x2066 <= u && u <= 0x2069) || u == 0xFEFF {
            '\u{FFFD}'
        } else {
            c
        };
        push_char(&mut out, sub);
        proof {
            assert(out@ =~= chars@.take(i + 1).map_values(|c: char| neutral_char(c)));
        }
        i = i + 1;
    }
    proof {
        assert(chars@.take(chars@.len() as int) =~= chars@);
    }
    out
}


// ── Laws of the sanitizers ────────────────────────────────────────────────────

/// The characters of an escape literal are never escaped themselves.
proof fn lemma_escape_literal_is_clean(c: char, wire: bool)
    ensures
        forall|i: int| 0 <= i < escape_of(c).len() ==> !escapes(#[trigger] escape_of(c)[i], wire),
{
    let u = c as u32 as int;
    assert forall|n: int| true implies !escapes(#[trigger] hex_char(n), wire) by {}
    let e = escape_of(c);
    assert(e[0] == '\\' && e[1] == 'u');
    assert(e[2] == hex_char((u / 4096) % 16));
    assert(e[3] == hex_char((u / 256) % 16));
    assert(e[4] == hex_char((u / 16) % 16));
    assert(e[5] == hex_char(u % 16));
}

/// Sanitized text holds no character that the same mode escapes: no raw C0
/// (other than `\t`, and `\n` in human mode), DEL, C1, bidi control, line or
/// paragraph separator or BOM survives.
pub proof fn law_sanitized_is_clean(s: Seq<char>, wire: bool)
    ensures
        forall|i: int| 0 <= i < sanitized(s, wire).len() ==> !escapes(#[trigger] sanitized(s, wire)[i], wire),
    decreases s.len(),
{
    if s.len() > 0 {
        law_sanitized_is_clean(s.drop_last(), wire);
        let prev = sanitized(s.drop_last(), wire);
        let c = s.last();
        lemma_escape_literal_is_clean(c, wire);
        let piece = if escapes(c, wire) { escape_of(c) } else { seq![c] };
        assert forall|i: int| 0 <= i < sanitized(s, wire).len() implies !escapes(#[trigger] sanitized(s, wire)[i], wire) by {
            if i < prev.len() {
                assert(sanitized(s, wire)[i] == prev[i]);
            } else {
                assert(sanitized(s, wire)[i] == piece[i - prev.len()]);
            }
        }
    }
}

/// Text without an escaped character is left as it is.
pub proof fn law_sanitize_clean_is_identity(s: Seq<char>, wire: bool)
    requires
        forall|i: int| 0 <= i < s.len() ==> !escapes(#[trigger] s[i], wire),
    ensures
        sanitized(s, wire) == s,
    decreases s.len(),
{
    if s.len() > 0 {
        law_sanitize_clean_is_identity(s.drop_last(), wire);
        assert(!escapes(s[s.len() - 1], wire));
        assert(s.drop_last().push(s.last()) =~= s);
    }
}

/// Sanitizing is idempotent in either mode: a second pass over sanitized text
/// changes nothing.
pub proof fn law_sanitize_idempotent(s: Seq<char>, wire: bool)
    ensures
        sanitized(sanitized(s, wire), wire) == sanitized(s, wire),
{
    law_sanitized_is_clean(s, wire);
    law_sanitize_clean_is_identity(sanitized(s, wire), wire);
}

/// The wire and human modes differ on `\n` only: on text without a newline they
/// agree, and a newline is kept in human mode and escaped to `\u000A` on the wire.
pub proof fn law_modes_differ_only_on_newline(s: Seq<char>)
    ensures
        !s.contains('\n') ==> sanitized(s, true) == sanitized(s, false),
        sanitized(seq!['\n'], false) == seq!['\n'],
        sanitized(seq!['\n'], true) == seq!['\\', 'u', '0', '0', '0', 'A'],
    decreases s.len(),
{
    if s.len() > 0 {
        law_modes_differ_only_on_newline(s.drop_last());
        if !s.contains('\n') {
            assert(!s.drop_last().contains('\n')) by {
                if s.drop_last().contains('\n') {
                    let k = choose|k: int| 0 <= k < s.drop_last().len() && s.drop_last()[k] == '\n';
                    assert(s[k] == '\n');
                }
            }
            assert(s[s.len() - 1] != '\n');
        }
    }
    let nl = seq!['\n'];
    assert(nl.drop_last() =~= Seq::<char>::empty());
    assert(nl.last() == '\n');
    assert(('\n' as u32 as int) == 10);
    assert(!is_hazard('\n'));
    assert(sanitized(nl.drop_last(), false) == Seq::<char>::empty());
    assert(sanitized(nl.drop_last(), true) == Seq::<char>::empty());
    assert(sanitized(nl, false) =~= seq!['\n']);
    assert(escape_of('\n') =~= seq!['\\', 'u', '0', '0', '0', 'A']);
    assert(sanitized(nl, true) =~= seq!['\\', 'u', '0', '0', '0', 'A']);
}

/// The UTF-8 length of one character.
pub open spec fn char_width(c: char) -> nat {
    encode_scalar(c as u32).len()
}

/// The substitute of a character has the character's UTF-8 length.
proof fn lemma_neutral_char_width(c: char)
    ensures
        char_width(neutral_char(c)) == char_width(c),
        !is_hazard(neutral_char(c)),
{
    let u = c as u32;
    assert(('?' as u32) == 0x3F);
    assert(('\u{00A0}' as u32) == 0xA0);
    assert(('\u{FFFD}' as u32) == 0xFFFD);
}

/// The UTF-8 length of a character sequence is the sum of its characters' lengths,
/// and a per-character map that keeps every length keeps the total.
proof fn lemma_map_keeps_utf8_len(s: Seq<char>)
    ensures
        utf8(s.map_values(|c: char| neutral_char(c))).len() == utf8(s).len(),
    decreases s.len(),
{
    let m = s.map_values(|c: char| neutral_char(c));
    if s.len() > 0 {
        assert(m.drop_first() =~= s.drop_first().map_values(|c: char| neutral_char(c)));
        lemma_map_keeps_utf8_len(s.drop_first());
        lemma_neutral_char_width(s[0]);
        assert(m[0] == neutral_char(s[0]));
    }
}

/// Source text with each character replaced by its substitute.
pub open spec fn neutralized(s: Seq<char>) -> Seq<char> {
    s.map_values(|c: char| neutral_char(c))
}

/// Neutralizing rendered source keeps its UTF-8 byte length, so every byte span
/// into the source stays aligned, and leaves no hazardous character in it.
pub proof fn law_neutralize_keeps_byte_length(s: Seq<char>)
    ensures
        utf8(neutralized(s)).len() == utf8(s).len(),
        neutralized(s).len() == s.len(),
        forall|i: int| 0 <= i < s.len() ==> !is_hazard(#[trigger] neutralized(s)[i]),
{
    lemma_map_keeps_utf8_len(s);
    assert forall|i: int| 0 <= i < s.len() implies !is_hazard(#[trigger] neutralized(s)[i]) by {
        lemma_neutral_char_width(s[i]);
    }
}

} // verus!
