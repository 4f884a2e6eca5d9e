//! Rule `legacy-interpolation` (default warn, fixable): the single-brace
//! interpolation of older templates.
//!
//! It reads the token stream, so fenced code and directives are never scanned as
//! text. In text it finds `\{` and `\}` (an old escape; the fix deletes the
//! backslash), skips `${...}`, and finds `{expr}` whose content is an identifier,
//! a dot path or a call (the fix rewrites it to `{{expr}}`). In a directive it
//! finds the role of `@message {expr}:`.
use vstd::prelude::*;
use vstd::utf8::*;
use vstd::string::*;
use crate::config::LintConfig;
use crate::diagnostic::{LintDiagnostic, LintResultBuilder, Severity, TextEdit, MAX_DIAGNOSTICS};
use crate::error::SerializedSpan;
use crate::lexer::Token;
use crate::parser_helpers::{ident_char, ident_start, is_ident, is_valid_identifier, msg3};
use crate::rules::common::{
    edits_view, effective_severity, emit_more, finding_of, finding_view, lemma_emitted_saturated,
    lemma_emitted_start, resolve_severity, rule_findings, emitted, saturated, FindingView,
};
use crate::text::{
    cut_point, find_byte, index_of, is_cont, lemma_after_ascii_is_cut, lemma_index_of_bounds,
    lemma_str_valid, substring, tail_from, trim_str, trimmed, utf8,
};

verus! {

/// The rule's name.
pub const RULE: &'static str = "legacy-interpolation";

// ── What the rule finds ──────────────────────────────────────────────────────

/// Where the `}` closing a legacy `{...}` lies, scanning from `i` in the given
/// quoting state: quoted strings (`"` or `'`, with backslash escapes) are skipped.
pub open spec fn legacy_close_from(b: Seq<u8>, i: int, in_string: bool, quote: u8, escaped: bool) -> Option<int>
    decreases b.len() - i,
{
    if i >= b.len() {
        None
    } else if escaped {
        legacy_close_from(b, i + 1, in_string, quote, false)
    } else if in_string {
        if b[i] == 92u8 {
            legacy_close_from(b, i + 1, true, quote, true)
        } else if b[i] == quote {
            legacy_close_from(b, i + 1, false, quote, false)
        } else {
            legacy_close_from(b, i + 1, true, quote, false)
        }
    } else if b[i] == 125u8 {
        Some(i)
    } else if b[i] == 34u8 || b[i] == 39u8 {
        legacy_close_from(b, i + 1, true, b[i], false)
    } else {
        legacy_close_from(b, i + 1, false, quote, false)
    }
}

/// The `}` closing a legacy `{...}` whose content starts at `start`.
pub open spec fn legacy_close(b: Seq<u8>, start: int) -> Option<int> {
    legacy_close_from(b, start, false, 34u8, false)
}

/// A closing brace found from `i` lies at or after `i`, inside `b`.
pub proof fn lemma_legacy_close_bounds(b: Seq<u8>, i: int, in_string: bool, quote: u8, escaped: bool)
    ensures
        legacy_close_from(b, i, in_string, quote, escaped) matches Some(c) ==> i <= c < b.len() && b[c] == 125u8,
    decreases b.len() - i,
{
    if i < b.len() {
        if escaped {
            lemma_legacy_close_bounds(b, i + 1, in_string, quote, false);
        } else if in_string {
            if b[i] == 92u8 {
                lemma_legacy_close_bounds(b, i + 1, true, quote, true);
            } else if b[i] == quote {
                lemma_legacy_close_bounds(b, i + 1, false, quote, false);
            } else {
                lemma_legacy_close_bounds(b, i + 1, true, quote, false);
            }
        } else if b[i] != 125u8 {
            if b[i] == 34u8 || b[i] == 39u8 {
                lemma_legacy_close_bounds(b, i + 1, true, b[i], false);
            } else {
                lemma_legacy_close_bounds(b, i + 1, false, quote, false);
            }
        }
    }
}

/// Byte `k` of `t` may stand in a dot path: a dot or an identifier byte, and an
/// identifier start where a segment begins.
pub open spec fn dot_path_byte(t: Seq<u8>, k: int) -> bool {
    &&& t[k] == 46u8 || ident_char(t[k])
    &&& (k == 0 || t[k - 1] == 46u8) ==> ident_start(t[k])
}

/// `t` is identifiers joined by single dots (`a`, `a.b.c`).
pub open spec fn dot_path(t: Seq<u8>) -> bool {
    &&& t.len() > 0
    &&& t.last() != 46u8
    &&& forall|k: int| 0 <= k < t.len() ==> #[trigger] dot_path_byte(t, k)
}

/// `t` is a call: an identifier (with white space around it), `(`, and text
/// ending in `)`.
pub open spec fn call_shape(t: Seq<u8>) -> bool {
    let p = index_of(t, 40u8, 0);
    &&& p < t.len()
    &&& is_ident(trimmed(t.subrange(0, p)))
    &&& t.last() == 41u8
}

/// The content of a legacy interpolation, once trimmed: a dot path, a call, or
/// an identifier, a dot and a call.
pub open spec fn legacy_expr(s: Seq<u8>) -> bool {
    let t = trimmed(s);
    let dot = index_of(t, 46u8, 0);
    &&& t.len() > 0
    &&& {
        ||| dot_path(t)
        ||| call_shape(t)
        ||| dot < t.len() && is_ident(t.subrange(0, dot)) && call_shape(t.subrange(dot + 1, t.len() as int))
    }
}

/// A finding of this rule with a span and one replacement.
pub open spec fn legacy_finding(sev: Severity, file: Seq<char>, message: Seq<char>, help: Seq<char>,
    offset: usize, length: usize, start: usize, end: usize, new_text: Seq<char>) -> FindingView
{
    (RULE@, sev, message, Some(help), Some(SerializedSpan { offset, length, line: None, column: None }),
        Some(file), None, Some(seq![(start, end, new_text)]))
}

/// The message on an old `\{` (`open`) or `\}` escape.
pub open spec fn escape_message(open: bool) -> Seq<char> {
    if open {
        "legacy escape `\\{` — single-brace escapes are no longer needed; remove the backslash"@
    } else {
        "legacy escape `\\}` — single-brace escapes are no longer needed; remove the backslash"@
    }
}

/// The message on a legacy `{inner}`.
pub open spec fn interpolation_message(inner: Seq<char>) -> Seq<char> {
    "legacy single-brace interpolation `{"@ + inner + "}` — use `{{"@ + inner + "}}` (double braces)"@
}

/// The message on a legacy `@message` role.
pub open spec fn role_message(role: Seq<char>, inner: Seq<char>) -> Seq<char> {
    "legacy single-brace `@message` role `"@ + role + "` — use `{{"@ + inner + "}}` (double braces)"@
}

/// `{{inner}}`.
pub open spec fn doubled_spec(inner: Seq<char>) -> Seq<char> {
    "{{"@ + inner + "}}"@
}

/// The findings in the text bytes `b` from position `i` on; the text starts at
/// byte `base` of the source.
pub open spec fn text_findings(b: Seq<u8>, i: int, base: int, sev: Severity, file: Seq<char>) -> Seq<FindingView>
    decreases b.len() - i,
{
    if i < 0 || i >= b.len() {
        Seq::empty()
    } else if b[i] == 92u8 && i + 1 < b.len() && (b[i + 1] == 123u8 || b[i + 1] == 125u8) {
        seq![legacy_finding(sev, file, escape_message(b[i + 1] == 123u8),
            "Run `mds lint --fix` to remove the backslash automatically."@,
            (base + i) as usize, 2, (base + i) as usize, (base + i + 1) as usize, Seq::empty())]
            + text_findings(b, i + 2, base, sev, file)
    } else if b[i] == 36u8 && i + 1 < b.len() && b[i + 1] == 123u8 {
        let j = index_of(b, 125u8, i + 2);
        proof { lemma_index_of_bounds(b, 125u8, i + 2); }
        text_findings(b, if j < b.len() { j + 1 } else { j }, base, sev, file)
    } else if b[i] == 123u8 && legacy_close(b, i + 1) is Some
        && legacy_expr(b.subrange(i + 1, legacy_close(b, i + 1)->Some_0))
    {
        let c = legacy_close(b, i + 1)->Some_0;
        proof { lemma_legacy_close_bounds(b, i + 1, false, 34u8, false); }
        let inner = decode_utf8(b.subrange(i + 1, c));
        seq![legacy_finding(sev, file, interpolation_message(inner),
            "Run `mds lint --fix` to migrate to `{{x}}` syntax automatically."@,
            (base + i) as usize, (c - i + 1) as usize, (base + i) as usize, (base + c + 1) as usize, doubled_spec(inner))]
            + text_findings(b, c + 1, base, sev, file)
    } else {
        text_findings(b, i + 1, base, sev, file)
    }
}

/// The line begins with `@message `.
pub open spec fn message_prefix(t: Seq<u8>) -> bool {
    &&& t.len() >= 9
    &&& t[0] == 64u8 && t[1] == 109u8 && t[2] == 101u8 && t[3] == 115u8 && t[4] == 115u8
    &&& t[5] == 97u8 && t[6] == 103u8 && t[7] == 101u8 && t[8] == 32u8
}

/// The role of a directive line `@message role:` (white space around each part
/// trimmed), when the line has that shape.
pub open spec fn message_role(line: Seq<u8>) -> Option<Seq<u8>> {
    let t = trimmed(line);
    if !message_prefix(t) {
        None
    } else {
        let rest = trimmed(t.subrange(9, t.len() as int));
        if rest.len() == 0 || rest.last() != 58u8 {
            None
        } else {
            Some(trimmed(rest.subrange(0, rest.len() - 1)))
        }
    }
}

/// A role written `{expr}`: one brace on each side, at least one byte inside.
pub open spec fn single_braced(r: Seq<u8>) -> bool {
    r.len() >= 3 && r[0] == 123u8 && r[1] != 123u8 && r.last() == 125u8 && r[r.len() - 2] != 125u8
}

/// The first position at or after `from` where `needle` occurs in `hay`, or the length.
pub open spec fn find_seq(hay: Seq<u8>, from: int, needle: Seq<u8>) -> int
    decreases hay.len() - from,
{
    if needle.len() == 0 {
        from
    } else if from < 0 || from + needle.len() > hay.len() {
        hay.len() as int
    } else if hay.subrange(from, from + needle.len()) == needle {
        from
    } else {
        find_seq(hay, from + 1, needle)
    }
}

/// The finding on the directive line `line` at byte `offset` of `source`.
pub open spec fn directive_findings(line: Seq<u8>, offset: int, source: Seq<u8>, sev: Severity, file: Seq<char>) -> Seq<FindingView> {
    match message_role(line) {
        Some(r) => {
            let inner = r.subrange(1, r.len() - 1);
            let pos = find_seq(source, offset, r);
            if single_braced(r) && legacy_expr(inner) && cut_point(source, offset) && pos < source.len() {
                seq![legacy_finding(sev, file, role_message(decode_utf8(r), decode_utf8(inner)),
                    "Run `mds lint --fix` to update to `{{expr}}` syntax."@,
                    pos as usize, r.len() as usize, pos as usize, (pos + r.len()) as usize, doubled_spec(decode_utf8(inner)))]
            } else {
                Seq::empty()
            }
        },
        None => Seq::empty(),
    }
}

/// The findings on one token.
pub open spec fn token_findings(t: Token, source: Seq<u8>, sev: Severity, file: Seq<char>) -> Seq<FindingView> {
    match t {
        Token::Text(s, base) => text_findings(utf8(s@), 0, base as int, sev, file),
        Token::Directive(line, offset) => directive_findings(utf8(line@), offset as int, source, sev, file),
        _ => Seq::empty(),
    }
}

/// The findings on the tokens, in order.
pub open spec fn tokens_findings(ts: Seq<Token>, source: Seq<u8>, sev: Severity, file: Seq<char>) -> Seq<FindingView>
    decreases ts.len(),
{
    if ts.len() == 0 {
        Seq::empty()
    } else {
        tokens_findings(ts.drop_last(), source, sev, file) + token_findings(ts.last(), source, sev, file)
    }
}

/// Everything the rule reports on the tokens of `source` under `config`.
pub open spec fn legacy_interpolation_findings(tokens: Seq<Token>, source: Seq<u8>, config: LintConfig, file: Seq<char>) -> Seq<FindingView> {
    let sev = effective_severity(config, RULE@, Severity::Warn);
    if sev == Severity::Off {
        Seq::empty()
    } else {
        tokens_findings(tokens, source, sev, file)
    }
}

/// A text token ends within the range of byte offsets.
pub open spec fn text_fits(t: Token) -> bool {
    match t {
        Token::Text(s, base) => base + utf8(s@).len() <= usize::MAX,
        _ => true,
    }
}

/// Every text token ends within the range of byte offsets.
pub open spec fn text_offsets_fit(ts: Seq<Token>) -> bool {
    forall|k: int| 0 <= k < ts.len() ==> text_fits(#[trigger] ts[k])
}

// ── The scan ─────────────────────────────────────────────────────────────────

/// A finding of this rule with one replacement edit.
fn edit_diag(severity: Severity, filename: &str, message: String, help: &str, offset: usize, length: usize, edit: TextEdit) -> (r: LintDiagnostic)
    ensures
        finding_of(r, RULE@, severity, filename@),
        finding_view(r) == legacy_finding(severity, filename@, message@, help@, offset, length, edit.start, edit.end, edit.new_text@),
{
    let d = LintDiagnostic {
        rule: RULE.to_owned(),
        severity,
        message,
        help: Some(String::from_str(help)),
        span: Some(SerializedSpan::at(offset, length)),
        file: Some(filename.to_owned()),
        fix_removals: None,
        fix_edits: None,
    };
    let ghost ev = (edit.start, edit.end, edit.new_text@);
    let mut edits: Vec<TextEdit> = Vec::new();
    edits.push(edit);
    let d = LintDiagnostic { fix_edits: Some(edits), ..d };
    assert(edits_view(d.fix_edits).unwrap() =~= seq![ev]);
    d
}

/// `{{` + `inner` + `}}`.
fn doubled(inner: &str) -> (r: String)
    ensures
        r@ == doubled_spec(inner@),
{
    msg3("{{", inner, "}}")
}

/// Scan the token stream.
pub fn check(tokens: &Vec<Token>, source: &str, filename: &str, config: &LintConfig, builder: &mut LintResultBuilder)
    requires
        old(builder).wf(),
        text_offsets_fit(tokens@),
    ensures
        final(builder).wf(),
        rule_findings(old(builder).diagnostics@, final(builder).diagnostics@, RULE@,
            effective_severity(*config, RULE@, Severity::Warn), filename@),
        emitted(old(builder).diagnostics@, old(builder).truncated, final(builder).diagnostics@, final(builder).truncated,
            legacy_interpolation_findings(tokens@, source.spec_bytes(), *config, filename@)),
        effective_severity(*config, RULE@, Severity::Warn) == Severity::Off ==> final(builder).diagnostics@ == old(builder).diagnostics@,
{
    let severity = resolve_severity(config, RULE, Severity::Warn);
    let ghost start = builder.diagnostics@;
    let ghost st = builder.truncated;
    let ghost sb = source.spec_bytes();
    let ghost file = filename@;
    assert(builder.diagnostics@.subrange(0, start.len() as int) =~= start);
    proof { lemma_emitted_start(*builder); }
    if severity == Severity::Off {
        return;
    }
    let mut i: usize = 0;
    assert(tokens@.take(0) =~= Seq::<Token>::empty());
    while i < tokens.len()
        invariant
            i <= tokens@.len(),
            builder.wf(),
            start.len() <= MAX_DIAGNOSTICS,
            severity == effective_severity(*config, RULE@, Severity::Warn),
            severity != Severity::Off,
            start == old(builder).diagnostics@,
            st == old(builder).truncated,
            sb == source.spec_bytes(),
            file == filename@,
            text_offsets_fit(tokens@),
            rule_findings(start, builder.diagnostics@, RULE@, severity, filename@),
            emitted(start, st, builder.diagnostics@, builder.truncated, tokens_findings(tokens@.take(i as int), sb, severity, file)),
        decreases tokens@.len() - i,
    {
        let ghost cur = tokens_findings(tokens@.take(i as int), sb, severity, file);
        let ghost tok = tokens@[i as int];
        assert(tokens@.take(i + 1).drop_last() =~= tokens@.take(i as int));
        assert(tokens@.take(i + 1).last() == tok);
        assert(tokens_findings(tokens@.take(i + 1), sb, severity, file) == cur + token_findings(tok, sb, severity, file));
        match &tokens[i] {
            Token::Text(text, base) => {
                assert(text_fits(tok));
                check_text(text.as_str(), *base, filename, severity, builder, Ghost(start), Ghost(st), Ghost(cur));
            },
            Token::Directive(line, offset) => {
                check_directive(line.as_str(), *offset, source, filename, severity, builder, Ghost(start), Ghost(st), Ghost(cur));
            },
            _ => {
                assert(cur + token_findings(tok, sb, severity, file) =~= cur);
            },
        }
        i = i + 1;
    }
    assert(tokens@.take(tokens@.len() as int) =~= tokens@);
}

/// The closing `}` of a legacy `{...}` whose content starts at `start`, skipping
/// quoted strings (with backslash escapes); `None` when there is none.
pub fn find_legacy_close(b: &[u8], start: usize) -> (r: Option<usize>)
    requires
        start <= b@.len(),
    ensures
        r matches Some(c) ==> legacy_close(b@, start as int) == Some(c as int),
        r is None ==> legacy_close(b@, start as int) is None,
{
    let n = b.len();
    let mut i = start;
    let mut in_string = false;
    let mut quote: u8 = 34;
    let mut escaped = false;
    while i < n
        invariant
            start <= i <= n == b@.len(),
            legacy_close_from(b@, i as int, in_string, quote, escaped) == legacy_close(b@, start as int),
        decreases n - i,
    {
        let c = b[i];
        if escaped {
            escaped = false;
        } else if in_string {
            if c == 92 {
                escaped = true;
            } else if c == quote {
                in_string = false;
            }
        } else if c == 125 {
            return Some(i);
        } else if c == 34 || c == 39 {
            in_string = true;
            quote = c;
        }
        i = i + 1;
    }
    None
}

/// `s` is identifiers joined by single dots.
fn is_dot_path(b: &[u8]) -> (r: bool)
    ensures
        r == dot_path(b@),
{
    let n = b.len();
    if n == 0 || b[n - 1] == 46 {
        return false;
    }
    let mut k: usize = 0;
    while k < n
        invariant
            0 < n == b@.len(),
            k <= n,
            b@.last() != 46u8,
            forall|j: int| 0 <= j < k ==> #[trigger] dot_path_byte(b@, j),
        decreases n - k,
    {
        let c = b[k];
        let is_ident_char = (65 <= c && c <= 90) || (97 <= c && c <= 122) || c == 95 || (48 <= c && c <= 57);
        if !(c == 46 || is_ident_char) {
            assert(!dot_path_byte(b@, k as int));
            return false;
        }
        if k == 0 || b[k - 1] == 46 {
            if !((65 <= c && c <= 90) || (97 <= c && c <= 122) || c == 95) {
                assert(!dot_path_byte(b@, k as int));
                return false;
            }
        }
        assert(dot_path_byte(b@, k as int));
        k = k + 1;
    }
    true
}

/// `s` is a call: an identifier, `(`, and text ending in `)`.
fn is_call_shape(s: &str) -> (r: bool)
    ensures
        r == call_shape(s.spec_bytes()),
{
    let b = s.as_bytes();
    let n = b.len();
    proof { lemma_str_valid(s); }
    let p = find_byte(b, 40, 0);
    if p >= n {
        return false;
    }
    let name = trim_str(substring(s, 0, p).as_str());
    is_valid_identifier(name.as_str()) && b[n - 1] == 41
}

/// The content of a legacy interpolation: an identifier, a dot path, `name(...)`
/// or `obj.method(...)`.
pub fn is_legacy_expr(s: &str) -> (r: bool)
    ensures
        r == legacy_expr(s.spec_bytes()),
{
    let t = trim_str(s);
    let ts = t.as_str();
    let b = ts.as_bytes();
    let n = b.len();
    proof { lemma_str_valid(ts); }
    if n == 0 {
        return false;
    }
    if is_dot_path(b) {
        return true;
    }
    if is_call_shape(ts) {
        return true;
    }
    let dot = find_byte(b, 46, 0);
    if dot < n {
        proof { lemma_after_ascii_is_cut(b@, dot + 1); }
        let before = substring(ts, 0, dot);
        if is_valid_identifier(before.as_str()) {
            let after = tail_from(ts, dot + 1);
            return is_call_shape(after.as_str());
        }
    }
    false
}

/// Scan one text token that starts at `base`.
fn check_text(text: &str, base: usize, filename: &str, severity: Severity, builder: &mut LintResultBuilder,
    Ghost(start): Ghost<Seq<LintDiagnostic>>, Ghost(st): Ghost<bool>, Ghost(e): Ghost<Seq<FindingView>>)
    requires
        old(builder).wf(),
        start.len() <= MAX_DIAGNOSTICS,
        base + text.spec_bytes().len() <= usize::MAX,
        rule_findings(start, old(builder).diagnostics@, RULE@, severity, filename@),
        emitted(start, st, old(builder).diagnostics@, old(builder).truncated, e),
    ensures
        final(builder).wf(),
        rule_findings(start, final(builder).diagnostics@, RULE@, severity, filename@),
        emitted(start, st, final(builder).diagnostics@, final(builder).truncated,
            e + text_findings(text.spec_bytes(), 0, base as int, severity, filename@)),
{
    let b = text.as_bytes();
    let n = b.len();
    let ghost bs = b@;
    let ghost file = filename@;
    let ghost all = text_findings(bs, 0, base as int, severity, file);
    proof { lemma_str_valid(text); }
    let mut i: usize = 0;
    let ghost mut acc: Seq<FindingView> = Seq::empty();
    assert(acc + all =~= all);
    while i < n
        invariant
            i <= n == b@.len(),
            b@ == bs,
            bs == text.spec_bytes(),
            valid_utf8(b@),
            base + n <= usize::MAX,
            file == filename@,
            all == text_findings(bs, 0, base as int, severity, file),
            builder.wf(),
            start.len() <= MAX_DIAGNOSTICS,
            rule_findings(start, builder.diagnostics@, RULE@, severity, filename@),
            emitted(start, st, builder.diagnostics@, builder.truncated, e + acc),
            acc + text_findings(bs, i as int, base as int, severity, file) == all,
        decreases n - i,
    {
        let c = b[i];
        let ghost here = text_findings(bs, i as int, base as int, severity, file);
        if c == 92 && i + 1 < n && (b[i + 1] == 123 || b[i + 1] == 125) {
            let off = base + i;
            let message = if b[i + 1] == 123 {
                String::from_str("legacy escape `\\{` — single-brace escapes are no longer needed; remove the backslash")
            } else {
                String::from_str("legacy escape `\\}` — single-brace escapes are no longer needed; remove the backslash")
            };
            let d = edit_diag(severity, filename, message,
                "Run `mds lint --fix` to remove the backslash automatically.", off, 2,
                TextEdit::new(off, off + 1, String::new()));
            let ghost view = finding_view(d);
            let ghost rest = text_findings(bs, i + 2, base as int, severity, file);
            assert(here == seq![view] + rest);
            let accepted = emit_more(builder, d, Ghost(start), Ghost(st), Ghost(e + acc), Ghost(RULE@), Ghost(severity), Ghost(filename@));
            proof {
                assert((e + acc).push(view) =~= e + acc.push(view));
                assert(acc.push(view) + rest =~= acc + here);
                acc = acc.push(view);
            }
            if !accepted {
                proof {
                    lemma_emitted_saturated(start, st, builder.diagnostics@, builder.truncated, e + acc, rest);
                    assert(e + acc + rest =~= e + all);
                }
                return;
            }
            i = i + 2;
            continue;
        }
        if c == 36 && i + 1 < n && b[i + 1] == 123 {
            let j = find_byte(b, 125, i + 2);
            i = if j < n { j + 1 } else { j };
            continue;
        }
        if c == 123 {
            if let Some(close) = find_legacy_close(b, i + 1) {
                proof {
                    lemma_after_ascii_is_cut(b@, i + 1);
                    lemma_legacy_close_bounds(bs, i + 1, false, 34u8, false);
                }
                let inner = substring(text, i + 1, close);
                proof { decode_utf8_encode_utf8_inv(inner@); }
                if is_legacy_expr(inner.as_str()) {
                    let open_off = base + i;
                    let close_off = base + close;
                    let len = close - i + 1;
                    let mut message = msg3("legacy single-brace interpolation `{", inner.as_str(), "}` — use `{{");
                    message.append(inner.as_str());
                    message.append("}}` (double braces)");
                    let d = edit_diag(severity, filename, message,
                        "Run `mds lint --fix` to migrate to `{{x}}` syntax automatically.", open_off, len,
                        TextEdit::new(open_off, close_off + 1, doubled(inner.as_str())));
                    let ghost view = finding_view(d);
                    let ghost rest = text_findings(bs, close + 1, base as int, severity, file);
                    assert(here == seq![view] + rest);
                    let accepted = emit_more(builder, d, Ghost(start), Ghost(st), Ghost(e + acc), Ghost(RULE@), Ghost(severity), Ghost(filename@));
                    proof {
                        assert((e + acc).push(view) =~= e + acc.push(view));
                        assert(acc.push(view) + rest =~= acc + here);
                        acc = acc.push(view);
                    }
                    if !accepted {
                        proof {
                            lemma_emitted_saturated(start, st, builder.diagnostics@, builder.truncated, e + acc, rest);
                            assert(e + acc + rest =~= e + all);
                        }
                        return;
                    }
                    i = close + 1;
                    continue;
                }
            }
        }
        i = i + 1;
    }
    proof {
        assert(text_findings(bs, i as int, base as int, severity, file) =~= Seq::<FindingView>::empty());
        assert(acc =~= all);
        assert(e + acc =~= e + all);
    }
}

/// The first position at or after `from` where `needle` occurs in `hay`, or the length.
fn find_sub(hay: &[u8], from: usize, needle: &[u8]) -> (r: usize)
    requires
        from <= hay@.len(),
    ensures
        r == find_seq(hay@, from as int, needle@),
{
    let n = hay.len();
    let k = needle.len();
    if k == 0 {
        return from;
    }
    let mut i = from;
    while n - i >= k
        invariant
            from <= i <= n,
            1 <= k == needle@.len(),
            n == hay@.len(),
            find_seq(hay@, i as int, needle@) == find_seq(hay@, from as int, needle@),
        decreases n + 1 - i,
    {
        let mut j: usize = 0;
        let mut ok = true;
        assert(hay@.subrange(i as int, i as int) =~= needle@.subrange(0, 0));
        while j < k && ok
            invariant
                j <= k,
                i + k <= n,
                k == needle@.len(),
                n == hay@.len(),
                ok == (hay@.subrange(i as int, i + j) == needle@.subrange(0, j as int)),
            decreases k - j,
        {
            if hay[i + j] != needle[j] {
                ok = false;
                assert(hay@.subrange(i as int, i + j + 1)[j as int] != needle@.subrange(0, j + 1)[j as int]);
            } else {
                assert(hay@.subrange(i as int, i + j + 1) =~= hay@.subrange(i as int, i + j).push(hay@[i + j]));
                assert(needle@.subrange(0, j + 1) =~= needle@.subrange(0, j as int).push(needle@[j as int]));
            }
            j = j + 1;
        }
        if ok {
            assert(needle@.subrange(0, k as int) =~= needle@);
            return i;
        }
        proof {
            if hay@.subrange(i as int, i + k) == needle@ {
                assert(hay@.subrange(i as int, i + k).subrange(0, j as int) =~= hay@.subrange(i as int, i + j));
                assert(needle@.subrange(0, j as int) =~= needle@.subrange(0, j as int));
            }
        }
        i = i + 1;
    }
    n
}

/// Scan one directive line that starts at `offset` for `@message {expr}:`.
#[verifier::rlimit(60)]
fn check_directive(line: &str, offset: usize, source: &str, filename: &str, severity: Severity, builder: &mut LintResultBuilder,
    Ghost(start): Ghost<Seq<LintDiagnostic>>, Ghost(st): Ghost<bool>, Ghost(e): Ghost<Seq<FindingView>>)
    requires
        old(builder).wf(),
        start.len() <= MAX_DIAGNOSTICS,
        rule_findings(start, old(builder).diagnostics@, RULE@, severity, filename@),
        emitted(start, st, old(builder).diagnostics@, old(builder).truncated, e),
    ensures
        final(builder).wf(),
        rule_findings(start, final(builder).diagnostics@, RULE@, severity, filename@),
        emitted(start, st, final(builder).diagnostics@, final(builder).truncated,
            e + directive_findings(line.spec_bytes(), offset as int, source.spec_bytes(), severity, filename@)),
{
    let ghost found = directive_findings(line.spec_bytes(), offset as int, source.spec_bytes(), severity, filename@);
    let trimmed_line = trim_str(line);
    let ts = trimmed_line.as_str();
    let tb = ts.as_bytes();
    proof { lemma_str_valid(ts); }
    if !(tb.len() >= 9 && tb[0] == 64 && tb[1] == 109 && tb[2] == 101 && tb[3] == 115 && tb[4] == 115
        && tb[5] == 97 && tb[6] == 103 && tb[7] == 101 && tb[8] == 32)
    {
        assert(e + found =~= e);
        return;
    }
    proof { lemma_after_ascii_is_cut(tb@, 9); }
    let rest = trim_str(tail_from(ts, 9).as_str());
    let rst = rest.as_str();
    let rb = rst.as_bytes();
    if rb.len() == 0 || rb[rb.len() - 1] != 58 {
        assert(e + found =~= e);
        return;
    }
    proof { lemma_str_valid(rst); }
    let role = trim_str(substring(rst, 0, rb.len() - 1).as_str());
    let rs = role.as_str();
    let b = rs.as_bytes();
    let n = b.len();
    if n < 3 || b[0] != 123 || b[1] == 123 || b[n - 1] != 125 || b[n - 2] == 125 {
        assert(e + found =~= e);
        return;
    }
    proof {
        lemma_str_valid(rs);
        lemma_after_ascii_is_cut(b@, 1);
    }
    let inner = substring(rs, 1, n - 1);
    if !is_legacy_expr(inner.as_str()) {
        assert(e + found =~= e);
        return;
    }
    let sb = source.as_bytes();
    if offset > sb.len() || (offset < sb.len() && 0x80 <= sb[offset] && sb[offset] <= 0xbf) {
        assert(e + found =~= e);
        return;
    }
    let pos = find_sub(sb, offset, b);
    if pos >= sb.len() {
        assert(e + found =~= e);
        return;
    }
    proof {
        assert(b@.len() > 0);
        lemma_find_seq_bounds(sb@, offset as int, b@);
        decode_utf8_encode_utf8_inv(role@);
        decode_utf8_encode_utf8_inv(inner@);
    }
    let src_open = pos;
    let src_close = src_open + n - 1;
    let mut message = msg3("legacy single-brace `@message` role `", rs, "` — use `{{");
    message.append(inner.as_str());
    message.append("}}` (double braces)");
    let d = edit_diag(severity, filename, message, "Run `mds lint --fix` to update to `{{expr}}` syntax.",
        src_open, n, TextEdit::new(src_open, src_close + 1, doubled(inner.as_str())));
    let ghost view = finding_view(d);
    assert(found == seq![view]);
    emit_more(builder, d, Ghost(start), Ghost(st), Ghost(e), Ghost(RULE@), Ghost(severity), Ghost(filename@));
    assert(e.push(view) =~= e + found);
}

/// A match found from `from` ends within `hay`.
proof fn lemma_find_seq_bounds(hay: Seq<u8>, from: int, needle: Seq<u8>)
    requires
        0 <= from,
        needle.len() > 0,
    ensures
        find_seq(hay, from, needle) < hay.len() ==> find_seq(hay, from, needle) + needle.len() <= hay.len(),
    decreases hay.len() - from,
{
    if from + needle.len() <= hay.len() && hay.subrange(from, from + needle.len()) != needle {
        lemma_find_seq_bounds(hay, from + 1, needle);
    }
}

/// Decoding the UTF-8 bytes of a character sequence gives it back.
proof fn decode_utf8_encode_utf8_inv(c: Seq<char>)
    ensures
        decode_utf8(utf8(c)) == c,
{
    encode_utf8_decode_utf8(c);
}

} // verus!
