//! Parsing primitives for directive strings, conditions, expressions and
//! interpolations. Positions are byte offsets; every separator looked for is an
//! ASCII byte, so slicing at a found position always cuts between characters.
use vstd::prelude::*;
use vstd::string::*;
use vstd::utf8::*;
use crate::ast::{Arg, Condition, ExportDirective, Expr, ImportDirective, Interpolation, Node, Param};
use crate::error::MdsError;
use crate::limits::{MAX_DOT_SEGMENTS, MAX_LOGICAL_OPERANDS, MAX_NESTING_DEPTH};
use crate::scan::{ends_in_string, find_last_match, find_match, first_match, last_match, scan_state};
use crate::text::{
    cut_point, decimal, find_byte, index_of, is_cont, lemma_after_ascii_is_cut, lemma_str_valid, starts_with, str_eq,
    substring, tail_from, trim_range, trim_str, trimmed, utf8,
};

verus! {

broadcast use vstd::seq::group_seq_axioms, vstd::seq_lib::group_seq_properties;

// ── Text helpers ──────────────────────────────────────────────────────────────

/// `a` followed by `x` followed by `c`.
pub fn msg3(a: &str, x: &str, c: &str) -> (r: String)
    ensures
        r@ == a@ + x@ + c@,
{
    let mut out = String::from_str(a);
    out.append(x);
    out.append(c);
    out
}

/// `a` followed by `x`.
pub fn msg2(a: &str, x: &str) -> (r: String)
    ensures
        r@ == a@ + x@,
{
    let mut out = String::from_str(a);
    out.append(x);
    out
}

/// A syntax error without a span.
fn err(m: String) -> (r: MdsError)
    ensures
        r == (MdsError::Syntax { message: m, span: None }),
{
    MdsError::syntax(m)
}

/// The text of `s` between two character starts.
fn slice(s: &str, a: usize, z: usize) -> (r: String)
    requires
        a <= z <= s.spec_bytes().len(),
        cut_point(s.spec_bytes(), a as int),
        cut_point(s.spec_bytes(), z as int),
    ensures
        utf8(r@) == s.spec_bytes().subrange(a as int, z as int),
{
    substring(s, a, z)
}

/// `s` is empty after trimming white space.
fn is_blank(s: &str) -> (r: bool)
    ensures
        r ==> forall|k: int| 0 <= k < s.spec_bytes().len() ==> crate::text::ascii_ws(#[trigger] s.spec_bytes()[k]) || s.spec_bytes()[k] >= 0x80,
        r == (crate::text::trim_lo(s.spec_bytes()) == crate::text::trim_hi(s.spec_bytes())),
{
    proof { lemma_str_valid(s); }
    let (a, z) = trim_range(s.as_bytes());
    a == z
}

/// `s` equals the literal `lit`.
fn is(s: &str, lit: &str) -> (r: bool)
    ensures
        r == (s@ == lit@),
{
    str_eq(s, lit)
}

// ── Identifiers ───────────────────────────────────────────────────────────────

/// A byte that may start an identifier: an ASCII letter or `_`.
pub open spec fn ident_start(c: u8) -> bool {
    (65u8 <= c && c <= 90u8) || (97u8 <= c && c <= 122u8) || c == 95u8
}

/// A byte that may continue an identifier: an ASCII letter, digit or `_`.
pub open spec fn ident_char(c: u8) -> bool {
    ident_start(c) || (48u8 <= c && c <= 57u8)
}

/// `b` is an identifier: an ASCII letter or `_`, then ASCII letters, digits or `_`.
pub open spec fn is_ident(b: Seq<u8>) -> bool {
    b.len() > 0 && ident_start(b[0]) && forall|k: int| 1 <= k < b.len() ==> ident_char(#[trigger] b[k])
}

/// Whether `s` is a valid MDS identifier.
pub fn is_valid_identifier(s: &str) -> (r: bool)
    ensures
        r == is_ident(s.spec_bytes()),
{
    let b = s.as_bytes();
    if b.len() == 0 {
        return false;
    }
    let c = b[0];
    if !((65 <= c && c <= 90) || (97 <= c && c <= 122) || c == 95) {
        return false;
    }
    let mut i: usize = 1;
    while i < b.len()
        invariant
            1 <= i <= b@.len(),
            b@ == s.spec_bytes(),
            forall|k: int| 1 <= k < i ==> ident_char(#[trigger] b@[k]),
        decreases b@.len() - i,
    {
        let c = b[i];
        if !((65 <= c && c <= 90) || (97 <= c && c <= 122) || c == 95 || (48 <= c && c <= 57)) {
            assert(!ident_char(b@[i as int]));
            assert(!is_ident(b@));
            return false;
        }
        i = i + 1;
    }
    true
}

// ── String literals ───────────────────────────────────────────────────────────

/// The number of consecutive backslashes ending at index `i`, not counting index 0.
pub open spec fn backslash_run(b: Seq<u8>, i: int) -> nat
    decreases i,
{
    if i < 1 || i >= b.len() || b[i] != 92u8 {
        0
    } else {
        1 + backslash_run(b, i - 1)
    }
}

/// `b` is a quoted string literal whose closing quote is not escaped.
pub open spec fn complete_literal(b: Seq<u8>) -> bool {
    &&& b.len() >= 2
    &&& (b[0] == 34u8 || b[0] == 39u8)
    &&& b[b.len() - 1] == b[0]
    &&& backslash_run(b, b.len() - 2) % 2 == 0
}

/// Whether `s` is a complete quoted string literal.
fn is_complete_string_literal(s: &str) -> (r: bool)
    ensures
        r == complete_literal(s.spec_bytes()),
{
    let b = s.as_bytes();
    let n = b.len();
    if n < 2 {
        return false;
    }
    let open = b[0];
    if open != 34 && open != 39 {
        return false;
    }
    if b[n - 1] != open {
        return false;
    }
    let mut count: usize = 0;
    let mut i: usize = n - 2;
    while i >= 1 && b[i] == 92
        invariant
            i <= n - 2,
            n == b@.len(),
            count <= n - 2 - i,
            count + backslash_run(b@, i as int) == backslash_run(b@, n - 2),
        decreases i,
    {
        count = count + 1;
        i = i - 1;
    }
    count % 2 == 0
}

/// The unescaped text of a string literal's content: `\"`, `\'` and `\\` lose
/// their backslash; any other backslash is kept.
pub open spec fn unescaped(c: Seq<char>) -> Seq<char>
    decreases c.len(),
{
    if c.len() == 0 {
        Seq::empty()
    } else if c[0] == '\\' {
        if c.len() == 1 {
            seq!['\\']
        } else if c[1] == '"' || c[1] == '\'' || c[1] == '\\' {
            seq![c[1]] + unescaped(c.skip(2))
        } else {
            seq!['\\', c[1]] + unescaped(c.skip(2))
        }
    } else {
        seq![c[0]] + unescaped(c.skip(1))
    }
}

/// One step of `unescaped` on the suffix of `c` from `i`.
proof fn lemma_unescaped_step(c: Seq<char>, i: int)
    requires
        0 <= i < c.len(),
    ensures
        c[i] != '\\' ==> unescaped(c.skip(i)) == seq![c[i]] + unescaped(c.skip(i + 1)),
        c[i] == '\\' && i + 1 == c.len() ==> unescaped(c.skip(i)) == seq!['\\'],
        c[i] == '\\' && i + 1 < c.len() && (c[i + 1] == '"' || c[i + 1] == '\'' || c[i + 1] == '\\')
            ==> unescaped(c.skip(i)) == seq![c[i + 1]] + unescaped(c.skip(i + 2)),
        c[i] == '\\' && i + 1 < c.len() && !(c[i + 1] == '"' || c[i + 1] == '\'' || c[i + 1] == '\\')
            ==> unescaped(c.skip(i)) == seq!['\\', c[i + 1]] + unescaped(c.skip(i + 2)),
{
    let r = c.skip(i);
    assert(r[0] == c[i]);
    if r.len() > 1 {
        assert(r[1] == c[i + 1]);
        assert(r.skip(2) =~= c.skip(i + 2));
    }
    assert(r.skip(1) =~= c.skip(i + 1));
}

/// Unescape the content of a string literal.
pub fn unescape_string(s: &str) -> (r: String)
    ensures
        r@ == unescaped(s@),
{
    let c = crate::text::chars_of(s);
    let n = c.len();
    let mut out = String::new();
    let mut i: usize = 0;
    assert(c@.skip(0) =~= c@);
    while i < n
        invariant
            i <= n == c@.len(),
            c@ == s@,
            out@ + unescaped(c@.skip(i as int)) == unescaped(c@),
        decreases n - i,
    {
        proof { lemma_unescaped_step(c@, i as int); }
        let ghost o = out@;
        if c[i] == '\\' {
            if i + 1 == n {
                crate::diagnostic::push_char(&mut out, '\\');
                assert(c@.skip(n as int) =~= Seq::<char>::empty());
                assert(out@ + unescaped(c@.skip(n as int)) =~= o + seq!['\\']);
                i = n;
            } else {
                let nx = c[i + 1];
                if nx == '"' || nx == '\'' || nx == '\\' {
                    crate::diagnostic::push_char(&mut out, nx);
                    assert(out@ + unescaped(c@.skip(i + 2)) =~= o + (seq![nx] + unescaped(c@.skip(i + 2))));
                } else {
                    crate::diagnostic::push_char(&mut out, '\\');
                    crate::diagnostic::push_char(&mut out, nx);
                    assert(out@ + unescaped(c@.skip(i + 2)) =~= o + (seq!['\\', nx] + unescaped(c@.skip(i + 2))));
                }
                i = i + 2;
            }
        } else {
            let x = c[i];
            crate::diagnostic::push_char(&mut out, x);
            assert(out@ + unescaped(c@.skip(i + 1)) =~= o + (seq![x] + unescaped(c@.skip(i + 1))));
            i = i + 1;
        }
    }
    assert(c@.skip(n as int) =~= Seq::<char>::empty());
    assert(out@ + Seq::<char>::empty() =~= out@);
    out
}

/// The value of a complete string literal `b`: its content between the quotes,
/// unescaped.
pub open spec fn literal_value(b: Seq<u8>) -> Seq<char> {
    unescaped(decode_utf8(b.subrange(1, b.len() - 1)))
}

/// The content of a complete string literal `s` (between its quotes), unescaped.
fn literal_content(s: &str) -> (r: String)
    requires
        complete_literal(s.spec_bytes()),
    ensures
        exists|inner: Seq<char>| utf8(inner) == s.spec_bytes().subrange(1, s.spec_bytes().len() - 1) && r@ == unescaped(inner),
        r@ == literal_value(s.spec_bytes()),
{
    let b = s.as_bytes();
    let n = b.len();
    proof {
        lemma_str_valid(s);
        lemma_after_ascii_is_cut(b@, 1);
    }
    let inner = slice(s, 1, n - 1);
    proof { encode_utf8_decode_utf8(inner@); }
    unescape_string(inner.as_str())
}

// ── Numbers ───────────────────────────────────────────────────────────────────

/// `s` starts like a number: a digit, or `-` followed by a digit.
pub open spec fn number_like(b: Seq<u8>) -> bool {
    b.len() > 0 && ((48u8 <= b[0] && b[0] <= 57u8) || (b[0] == 45u8 && b.len() > 1 && 48u8 <= b[1] && b[1] <= 57u8))
}

fn looks_like_number(s: &str) -> (r: bool)
    ensures
        r == number_like(s.spec_bytes()),
{
    let b = s.as_bytes();
    b.len() > 0 && ((48 <= b[0] && b[0] <= 57) || (b[0] == 45 && b.len() > 1 && 48 <= b[1] && b[1] <= 57))
}


// ── Slicing helpers ───────────────────────────────────────────────────────────

/// In valid UTF-8 an ASCII byte starts a character and so does the byte after it.
proof fn lemma_ascii_cuts(b: Seq<u8>, p: int)
    requires
        valid_utf8(b),
        0 <= p < b.len(),
        b[p] < 0x80,
    ensures
        cut_point(b, p),
        cut_point(b, p + 1),
{
    lemma_after_ascii_is_cut(b, p + 1);
}

/// The text of `s` before byte `p` (an ASCII byte, or the end).
fn before(s: &str, p: usize) -> (r: String)
    requires
        p <= s.spec_bytes().len(),
        p < s.spec_bytes().len() ==> s.spec_bytes()[p as int] < 0x80,
    ensures
        utf8(r@) == s.spec_bytes().subrange(0, p as int),
{
    proof { lemma_str_valid(s); }
    slice(s, 0, p)
}

/// The text of `s` after the ASCII byte at `p`.
fn after(s: &str, p: usize) -> (r: String)
    requires
        p < s.spec_bytes().len(),
        s.spec_bytes()[p as int] < 0x80,
    ensures
        utf8(r@) == s.spec_bytes().subrange(p + 1, s.spec_bytes().len() as int),
{
    let n = s.as_bytes().len();
    proof {
        lemma_str_valid(s);
        lemma_ascii_cuts(s.spec_bytes(), p as int);
    }
    tail_from(s, p + 1)
}

/// The text of `s` between the ASCII byte at `p` and byte `z` (an ASCII byte, or the end).
fn between(s: &str, p: usize, z: usize) -> (r: String)
    requires
        p < z <= s.spec_bytes().len(),
        s.spec_bytes()[p as int] < 0x80,
        z < s.spec_bytes().len() ==> s.spec_bytes()[z as int] < 0x80,
    ensures
        utf8(r@) == s.spec_bytes().subrange(p + 1, z as int),
{
    proof {
        lemma_str_valid(s);
        lemma_ascii_cuts(s.spec_bytes(), p as int);
    }
    slice(s, p + 1, z)
}

/// `b` without trailing white space (empty when it is all white space).
pub open spec fn trim_end_spec(b: Seq<u8>) -> Seq<u8> {
    if crate::text::trim_lo(b) == crate::text::trim_hi(b) { Seq::empty() } else { b.subrange(0, crate::text::trim_hi(b)) }
}

/// `s` without trailing white space.
fn trim_end_str(s: &str) -> (r: String)
    ensures
        exists|z: int| 0 <= z <= s.spec_bytes().len() && utf8(r@) == s.spec_bytes().subrange(0, z),
        utf8(r@) == trim_end_spec(s.spec_bytes()),
{
    proof { lemma_str_valid(s); }
    let (a, z) = trim_range(s.as_bytes());
    if a == z {
        let r = String::new();
        assert(utf8(r@) =~= s.spec_bytes().subrange(0, 0));
        return r;
    }
    proof { crate::text::lemma_cut_point_is_boundary(s.spec_bytes(), z as int); }
    slice(s, 0, z)
}

/// `s` after one leading `p`, when it starts with `p` and a character starts there.
pub open spec fn strip_prefix_spec(s: Seq<u8>, p: Seq<u8>) -> Option<Seq<u8>> {
    if p.len() <= s.len() && s.subrange(0, p.len() as int) == p && !(p.len() < s.len() && is_cont(s[p.len() as int])) {
        Some(s.subrange(p.len() as int, s.len() as int))
    } else {
        None
    }
}

/// `s` with one leading `prefix` removed, when it starts with it.
fn strip_prefix(s: &str, prefix: &str) -> (r: Option<String>)
    ensures
        r is Some ==> (prefix.spec_bytes().len() <= s.spec_bytes().len()
            && s.spec_bytes().subrange(0, prefix.spec_bytes().len() as int) == prefix.spec_bytes()),
        r matches Some(t) ==> utf8(t@) == s.spec_bytes().subrange(prefix.spec_bytes().len() as int, s.spec_bytes().len() as int),
        r is Some <==> strip_prefix_spec(s.spec_bytes(), prefix.spec_bytes()) is Some,
        r matches Some(t) ==> strip_prefix_spec(s.spec_bytes(), prefix.spec_bytes()) == Some(utf8(t@)),
{
    if !starts_with(s, prefix) {
        return None;
    }
    let b = s.as_bytes();
    let k = prefix.as_bytes().len();
    // A valid prefix of valid UTF-8 always ends at a character start.
    if k < b.len() && 0x80 <= b[k] && b[k] <= 0xbf {
        return None;
    }
    Some(tail_from(s, k))
}

/// `s` without its last byte, when that byte is `c` (an ASCII byte).
fn strip_suffix_byte(s: &str, c: u8) -> (r: Option<String>)
    requires
        c < 0x80,
    ensures
        r is Some <==> (s.spec_bytes().len() > 0 && s.spec_bytes().last() == c),
        r matches Some(t) ==> utf8(t@) == s.spec_bytes().drop_last(),
{
    let b = s.as_bytes();
    let n = b.len();
    if n == 0 || b[n - 1] != c {
        return None;
    }
    let r = before(s, n - 1);
    assert(s.spec_bytes().subrange(0, n - 1) =~= s.spec_bytes().drop_last());
    Some(r)
}

// ── Directive string scans ────────────────────────────────────────────────────

/// The directive `b` without its last `:` outside strings and parentheses and
/// the white space before it, when only white space follows that colon and no
/// parenthesis is left open.
pub open spec fn directive_colon_spec(b: Seq<u8>) -> Option<Seq<u8>> {
    let pos = last_match(b, 5u8, b.len() as int);
    if b.len() == 0 || scan_state(b, b.len() as int).3 > 0 || pos < 0 {
        None
    } else if crate::text::trim_lo(b.subrange(pos + 1, b.len() as int)) == crate::text::trim_hi(b.subrange(pos + 1, b.len() as int)) {
        Some(trim_end_spec(b.subrange(0, pos)))
    } else {
        None
    }
}

/// Strip the directive's trailing `:`, ignoring colons inside string literals and
/// parentheses. `None` when there is no such colon at the end (only white space may
/// follow it) or a parenthesis is left open.
pub fn strip_trailing_directive_colon(s: &str) -> (r: Option<String>)
    ensures
        r is Some <==> directive_colon_spec(s.spec_bytes()) is Some,
        r matches Some(t) ==> directive_colon_spec(s.spec_bytes()) == Some(utf8(t@)),
        r is Some ==> s.spec_bytes().len() > 0
            && scan_state(s.spec_bytes(), s.spec_bytes().len() as int).3 == 0
            && last_match(s.spec_bytes(), 5, s.spec_bytes().len() as int) >= 0,
        r matches Some(t) ==> exists|z: int| 0 <= z <= last_match(s.spec_bytes(), 5, s.spec_bytes().len() as int)
            && utf8(t@) == s.spec_bytes().subrange(0, z),
        (scan_state(s.spec_bytes(), s.spec_bytes().len() as int).3 > 0
            || last_match(s.spec_bytes(), 5, s.spec_bytes().len() as int) < 0) ==> r is None,
{
    let b = s.as_bytes();
    if b.len() == 0 {
        proof { assert(last_match(b@, 5, 0) == -1); }
        return None;
    }
    let (last, depth) = find_last_match(b, 5);
    if depth > 0 {
        return None;
    }
    proof { crate::scan::lemma_last_match_bounds(b@, 5, b@.len() as int); }
    match last {
        None => None,
        Some(pos) => {
            let rest = after(s, pos);
            if is_blank(rest.as_str()) {
                let head = before(s, pos);
                let t = trim_end_str(head.as_str());
                proof {
                    let z = choose|z: int| 0 <= z <= utf8(head@).len() && utf8(t@) == utf8(head@).subrange(0, z);
                    assert(utf8(t@) =~= s.spec_bytes().subrange(0, z));
                }
                Some(t)
            } else {
                None
            }
        },
    }
}

/// Whether a string literal of `s` is left open at its end.
pub fn has_unterminated_string(s: &str) -> (r: bool)
    ensures
        r == scan_state(s.spec_bytes(), s.spec_bytes().len() as int).0,
{
    ends_in_string(s.as_bytes())
}

/// The first unquoted `==` or `!=` outside parentheses: its position and whether it is `!=`.
pub fn find_unquoted_operator(s: &str) -> (r: Option<(usize, bool)>)
    ensures
        r matches Some(p) ==> p.0 == first_match(s.spec_bytes(), 0, 0) && p.0 < s.spec_bytes().len()
            && p.1 == (s.spec_bytes()[p.0 as int] == 33u8),
        r is None ==> first_match(s.spec_bytes(), 0, 0) == s.spec_bytes().len(),
{
    let b = s.as_bytes();
    let i = find_match(b, 0, 0);
    proof { crate::scan::lemma_first_match_bounds(b@, 0, 0); }
    if i < b.len() {
        Some((i, b[i] == 33))
    } else {
        None
    }
}

/// Whether `s` holds a bare `=` outside strings and parentheses.
fn has_bare_equals(s: &str) -> (r: bool)
    ensures
        r == (first_match(s.spec_bytes(), 1, 0) < s.spec_bytes().len()),
{
    let b = s.as_bytes();
    let i = find_match(b, 1, 0);
    proof { crate::scan::lemma_first_match_bounds(b@, 1, 0); }
    i < b.len()
}

/// The first `=` outside strings that is not followed by `=`.
fn find_unquoted_equals(s: &str) -> (r: Option<usize>)
    ensures
        r matches Some(i) ==> i == first_match(s.spec_bytes(), 2, 0) && i < s.spec_bytes().len(),
        r is None ==> first_match(s.spec_bytes(), 2, 0) == s.spec_bytes().len(),
{
    let b = s.as_bytes();
    let i = find_match(b, 2, 0);
    proof { crate::scan::lemma_first_match_bounds(b@, 2, 0); }
    if i < b.len() { Some(i) } else { None }
}

/// The pieces of `b` from `start` on, cut at the two-byte operators matched by
/// `kind` (`&&` or `||` outside strings and parentheses).
pub open spec fn op_pieces(b: Seq<u8>, kind: u8, start: int) -> Seq<Seq<u8>>
    decreases b.len() + 1 - start,
{
    let i = first_match(b, kind, start);
    if start < 0 || start > b.len() {
        Seq::empty()
    } else if i >= b.len() || !(kind == 3 || kind == 4) {
        seq![b.subrange(start, b.len() as int)]
    } else {
        proof { crate::scan::lemma_first_match_bounds(b, kind, start); }
        seq![b.subrange(start, i)] + op_pieces(b, kind, i + 2)
    }
}

/// Split `s` on every unquoted `&&` (`kind` 3) or `||` (`kind` 4) outside parentheses.
#[verifier::spinoff_prover]
#[verifier::rlimit(60)]
pub fn split_on_unquoted_op(s: &str, kind: u8) -> (r: Vec<String>)
    requires
        kind == 3 || kind == 4,
    ensures
        r@.len() >= 1,
        r@.len() == 1 <==> first_match(s.spec_bytes(), kind, 0) == s.spec_bytes().len(),
        r@.len() == 1 ==> r@[0]@ == s@,
        strs_bytes(r@) == op_pieces(s.spec_bytes(), kind, 0),
{
    let b = s.as_bytes();
    let n = b.len();
    let ghost all = op_pieces(b@, kind, 0);
    proof {
        lemma_str_valid(s);
        crate::scan::lemma_first_match_bounds(b@, kind, 0);
    }
    let first = find_match(b, kind, 0);
    if first >= n {
        let mut parts: Vec<String> = Vec::new();
        let whole = tail_from(s, 0);
        proof {
            assert(s.spec_bytes().subrange(0, n as int) =~= s.spec_bytes());
            crate::text::lemma_utf8_injective(whole@, s@);
        }
        parts.push(whole);
        assert(strs_bytes(parts@) =~= all);
        return parts;
    }
    let mut parts: Vec<String> = Vec::new();
    let mut start: usize = 0;
    let mut i = first;
    assert(strs_bytes(parts@) + op_pieces(b@, kind, 0) =~= all);
    loop
        invariant_except_break
            start <= i < n,
            crate::scan::match_at(b@, i as int, kind),
            i == first_match(b@, kind, start as int),
            strs_bytes(parts@) + op_pieces(b@, kind, start as int) == all,
        invariant
            start <= n == b@.len(),
            b@ == s.spec_bytes(),
            valid_utf8(b@),
            cut_point(b@, start as int),
            kind == 3 || kind == 4,
            all == op_pieces(b@, kind, 0),
        ensures
            start <= n,
            cut_point(b@, start as int),
            parts@.len() >= 1,
            strs_bytes(parts@) + seq![b@.subrange(start as int, n as int)] == all,
        decreases n - start,
    {
        proof {
            lemma_ascii_cuts(b@, i as int);
            lemma_ascii_cuts(b@, i + 1);
        }
        let ghost before_parts = strs_bytes(parts@);
        let piece = slice(s, start, i);
        let ghost pv = utf8(piece@);
        parts.push(piece);
        assert(strs_bytes(parts@) =~= before_parts.push(pv));
        let ghost old_start = start;
        start = i + 2;
        proof { crate::scan::lemma_first_match_bounds(b@, kind, start as int); }
        let next = find_match(b, kind, start);
        assert(before_parts + op_pieces(b@, kind, old_start as int) =~= before_parts.push(pv) + op_pieces(b@, kind, start as int));
        if next >= n {
            assert(op_pieces(b@, kind, start as int) == seq![b@.subrange(start as int, n as int)]);
            break;
        }
        i = next;
    }
    let ghost before_parts = strs_bytes(parts@);
    let last = tail_from(s, start);
    let ghost lv = utf8(last@);
    parts.push(last);
    assert(strs_bytes(parts@) =~= before_parts.push(lv));
    assert(before_parts.push(lv) =~= before_parts + seq![lv]);
    parts
}

// ── Dot paths ─────────────────────────────────────────────────────────────────

/// The pieces of `b` from `start` on, cut at each `.`.
pub open spec fn dot_pieces(b: Seq<u8>, start: int) -> Seq<Seq<u8>>
    decreases b.len() + 1 - start,
{
    let i = index_of(b, 46u8, start);
    if start < 0 || start > b.len() {
        Seq::empty()
    } else if i >= b.len() {
        seq![b.subrange(start, b.len() as int)]
    } else {
        proof { crate::text::lemma_index_of_bounds(b, 46u8, start); }
        seq![b.subrange(start, i)] + dot_pieces(b, i + 1)
    }
}

/// The bytes of each string.
pub open spec fn strs_bytes(v: Seq<String>) -> Seq<Seq<u8>> {
    Seq::new(v.len(), |i: int| utf8(v[i]@))
}

/// The trimmed segments `parts[i..]` of a dot path, or the reason one is not an
/// identifier.
pub open spec fn segments_from(parts: Seq<Seq<u8>>, i: int) -> Result<Seq<Seq<char>>, Seq<char>>
    decreases parts.len() - i,
{
    if i < 0 || i >= parts.len() {
        Ok(Seq::empty())
    } else {
        let p = trimmed(parts[i]);
        if !is_ident(p) {
            Err("each segment must be a valid identifier (got '"@ + decode_utf8(p) + "')"@)
        } else {
            match segments_from(parts, i + 1) {
                Ok(rest) => Ok(seq![decode_utf8(p)] + rest),
                Err(m) => Err(m),
            }
        }
    }
}

/// The trimmed segments of a dot path: at most `MAX_DOT_SEGMENTS`, each an
/// identifier; or the reason.
pub open spec fn segments_spec(parts: Seq<Seq<u8>>) -> Result<Seq<Seq<char>>, Seq<char>> {
    if parts.len() > MAX_DOT_SEGMENTS {
        Err("dot path exceeds maximum segment count of 32"@)
    } else {
        segments_from(parts, 0)
    }
}

/// The object and fields of the dot path `t`, or the reason it is not one.
pub open spec fn member_spec(t: Seq<u8>) -> Result<(Seq<char>, Seq<Seq<char>>), Seq<char>> {
    match segments_spec(dot_pieces(t, 0)) {
        Ok(segs) => Ok((segs[0], segs.skip(1))),
        Err(m) => Err(m),
    }
}

/// The pieces of `s` between its dots, untrimmed.
fn split_dots(s: &str) -> (r: Vec<String>)
    ensures
        r@.len() >= 1,
        strs_bytes(r@) == dot_pieces(s.spec_bytes(), 0),
{
    let b = s.as_bytes();
    let n = b.len();
    let mut parts: Vec<String> = Vec::new();
    let mut start: usize = 0;
    let ghost all = dot_pieces(b@, 0);
    proof { lemma_str_valid(s); }
    loop
        invariant_except_break
            strs_bytes(parts@) + dot_pieces(b@, start as int) == all,
        invariant
            start <= n,
            n == b@.len(),
            b@ == s.spec_bytes(),
            valid_utf8(b@),
            cut_point(b@, start as int),
            all == dot_pieces(b@, 0),
        ensures
            parts@.len() >= 1,
            strs_bytes(parts@) == all,
        decreases n + 1 - start,
    {
        let i = find_byte(b, 46, start);
        if i < n {
            proof { lemma_ascii_cuts(b@, i as int); }
        }
        let ghost before_parts = strs_bytes(parts@);
        let piece = slice(s, start, i);
        let ghost pv = utf8(piece@);
        parts.push(piece);
        assert(strs_bytes(parts@) =~= before_parts.push(pv));
        if i >= n {
            assert(before_parts.push(pv) =~= before_parts + seq![pv]);
            break;
        }
        assert(before_parts + dot_pieces(b@, start as int) =~= before_parts.push(pv) + dot_pieces(b@, i + 1));
        start = i + 1;
    }
    assert(strs_bytes(parts@).len() == parts@.len());
    parts
}

/// The trimmed segments of a dot path, each checked to be an identifier; at most
/// `MAX_DOT_SEGMENTS` of them. The error is the reason.
fn dot_segments(parts: &Vec<String>) -> (r: Result<Vec<String>, String>)
    ensures
        parts@.len() > MAX_DOT_SEGMENTS ==> r is Err,
        r matches Ok(segs) ==> segs@.len() == parts@.len()
            && forall|k: int| 0 <= k < segs@.len() ==> is_ident(utf8(#[trigger] segs@[k]@)),
        r matches Ok(segs) ==> segments_spec(strs_bytes(parts@)) == Ok::<Seq<Seq<char>>, Seq<char>>(strs_view(segs@)),
        r matches Err(m) ==> segments_spec(strs_bytes(parts@)) == Err::<Seq<Seq<char>>, Seq<char>>(m@),
{
    let ghost pb = strs_bytes(parts@);
    if parts.len() > MAX_DOT_SEGMENTS {
        return Err(String::from_str("dot path exceeds maximum segment count of 32"));
    }
    let mut segs: Vec<String> = Vec::new();
    let mut i: usize = 0;
    assert(strs_view(segs@) + segments_from(pb, 0)->Ok_0 =~= segments_from(pb, 0)->Ok_0);
    while i < parts.len()
        invariant
            i <= parts@.len() <= MAX_DOT_SEGMENTS,
            pb == strs_bytes(parts@),
            segs@.len() == i,
            forall|k: int| 0 <= k < segs@.len() ==> is_ident(utf8(#[trigger] segs@[k]@)),
            segments_from(pb, 0) == match segments_from(pb, i as int) {
                Ok(rest) => Ok(strs_view(segs@) + rest),
                Err(m) => Err::<Seq<Seq<char>>, Seq<char>>(m),
            },
        decreases parts@.len() - i,
    {
        let p = trim_str(parts[i].as_str());
        proof { encode_utf8_decode_utf8(p@); }
        assert(utf8(p@) == trimmed(pb[i as int]));
        if !is_valid_identifier(p.as_str()) {
            return Err(msg3("each segment must be a valid identifier (got '", p.as_str(), "')"));
        }
        let ghost sv = strs_view(segs@);
        segs.push(p);
        proof {
            assert(strs_view(segs@) =~= sv.push(p@));
            match segments_from(pb, i + 1) {
                Ok(rest) => {
                    assert(sv + (seq![p@] + rest) =~= sv.push(p@) + rest);
                },
                Err(m) => {},
            }
        }
        i = i + 1;
    }
    assert(strs_view(segs@) + Seq::<Seq<char>>::empty() =~= strs_view(segs@));
    Ok(segs)
}

/// Check the segments of a dot path: at most `MAX_DOT_SEGMENTS`, each an identifier
/// once trimmed. The error is the reason.
pub fn validate_dot_path_parts(parts: &Vec<String>) -> (r: Result<(), String>)
    ensures
        parts@.len() > MAX_DOT_SEGMENTS ==> r is Err,
        r is Ok <==> segments_spec(strs_bytes(parts@)) is Ok,
        r matches Err(m) ==> segments_spec(strs_bytes(parts@)) == Err::<Seq<Seq<char>>, Seq<char>>(m@),
{
    match dot_segments(parts) {
        Ok(_) => Ok(()),
        Err(e) => Err(e),
    }
}

// ── Expressions ───────────────────────────────────────────────────────────────

/// A literal expression: a string, number, boolean or `null`.
pub open spec fn is_literal_expr(e: Expr) -> bool {
    e is StringLiteral || e is NumberLiteral || e is BooleanLiteral || e is NullLiteral
}

/// The names a directive expression carries are identifiers.
pub open spec fn expr_names_ok(e: Expr) -> bool {
    match e {
        Expr::Var(v) => is_ident(utf8(v@)),
        Expr::Call { name, .. } => is_ident(utf8(name@)),
        Expr::QualifiedCall { namespace, name, .. } => is_ident(utf8(namespace@)) && is_ident(utf8(name@)),
        Expr::MemberAccess { object, fields } => is_ident(utf8(object@))
            && forall|k: int| 0 <= k < fields@.len() ==> is_ident(utf8(#[trigger] fields@[k]@)),
        _ => true,
    }
}

/// Whether `e` is a literal.
pub fn is_literal(e: &Expr) -> (r: bool)
    ensures
        r == is_literal_expr(*e),
{
    match e {
        Expr::StringLiteral(_) | Expr::NumberLiteral(_) | Expr::BooleanLiteral(_) | Expr::NullLiteral => true,
        _ => false,
    }
}

/// `obj.f1.f2` as a member access, after checking its segments.
fn member_access(t: &str) -> (r: Result<(String, Vec<String>), String>)
    ensures
        r matches Ok((o, f)) ==> is_ident(utf8(o@)) && forall|k: int| 0 <= k < f@.len() ==> is_ident(utf8(#[trigger] f@[k]@)),
        r matches Ok((o, f)) ==> member_spec(t.spec_bytes()) == Ok::<(Seq<char>, Seq<Seq<char>>), Seq<char>>((o@, strs_view(f@))),
        r matches Err(m) ==> member_spec(t.spec_bytes()) == Err::<(Seq<char>, Seq<Seq<char>>), Seq<char>>(m@),
{
    let parts = split_dots(t);
    let segs = dot_segments(&parts)?;
    let object = segs[0].clone();
    let mut fields: Vec<String> = Vec::new();
    let mut i: usize = 1;
    while i < segs.len()
        invariant
            1 <= i <= segs@.len(),
            forall|k: int| 0 <= k < segs@.len() ==> is_ident(utf8(#[trigger] segs@[k]@)),
            forall|k: int| 0 <= k < fields@.len() ==> is_ident(utf8(#[trigger] fields@[k]@)),
            strs_view(fields@) == strs_view(segs@).subrange(1, i as int),
        decreases segs@.len() - i,
    {
        let f = segs[i].clone();
        assert(is_ident(utf8(segs@[i as int]@)));
        let ghost fv = strs_view(fields@);
        assert(f@ == segs@[i as int]@);
        fields.push(f);
        assert(strs_view(fields@) =~= fv.push(segs@[i as int]@));
        assert(strs_view(segs@).subrange(1, i + 1) =~= strs_view(segs@).subrange(1, i as int).push(strs_view(segs@)[i as int]));
        assert(strs_view(fields@) =~= strs_view(segs@).subrange(1, i + 1));
        i = i + 1;
    }
    assert(strs_view(segs@).skip(1) =~= strs_view(segs@).subrange(1, segs@.len() as int));
    Ok((object, fields))
}


/// The position of `c` in `t`, if any.
fn find_opt(t: &str, c: u8) -> (r: Option<usize>)
    ensures
        r matches Some(i) ==> i < t.spec_bytes().len() && t.spec_bytes()[i as int] == c
            && forall|k: int| 0 <= k < i ==> t.spec_bytes()[k] != c,
        r is None ==> forall|k: int| 0 <= k < t.spec_bytes().len() ==> t.spec_bytes()[k] != c,
        r matches Some(i) ==> i == index_of(t.spec_bytes(), c, 0),
        r is None ==> index_of(t.spec_bytes(), c, 0) == t.spec_bytes().len(),
{
    let b = t.as_bytes();
    let i = find_byte(b, c, 0);
    if i < b.len() { Some(i) } else { None }
}

/// The arguments of a call whose `(` is at `p` in `t`: the trimmed rest must end
/// in `)`; or the error message (`unclosed` when it does not).
pub open spec fn call_args_spec(t: Seq<u8>, p: int, unclosed: Seq<char>) -> Result<Seq<ArgShape>, Seq<char>> {
    let rest = trimmed(t.subrange(p + 1, t.len() as int));
    if rest.len() == 0 || rest.last() != 41u8 {
        Err(unclosed)
    } else {
        args_spec(rest.drop_last(), 0)
    }
}

/// `name(args)` in `t` with the `(` at `p`, or the error message.
pub open spec fn simple_call_spec(t: Seq<u8>, p: int) -> Result<ExprShape, Seq<char>> {
    let name = trimmed(t.subrange(0, p));
    if !is_ident(name) {
        Err("invalid function name in directive expression: '"@ + decode_utf8(name) + "'"@)
    } else {
        match call_args_spec(t, p, "unclosed parenthesis in directive expression"@) {
            Err(m) => Err(m),
            Ok(v) => Ok(ExprShape::Call(decode_utf8(name), v)),
        }
    }
}

/// `ns.name(args)` in `t` with the first `.` at `d`, or the error message.
pub open spec fn qualified_call_spec(t: Seq<u8>, d: int) -> Result<ExprShape, Seq<char>> {
    let namespace = trimmed(t.subrange(0, d));
    let rest = t.subrange(d + 1, t.len() as int);
    let p = index_of(rest, 40u8, 0);
    let name = trimmed(rest.subrange(0, p));
    if p >= rest.len() {
        Err("unclosed parenthesis in qualified call expression"@)
    } else if !is_ident(namespace) {
        Err("invalid namespace in qualified call: '"@ + decode_utf8(namespace) + "'"@)
    } else if !is_ident(name) {
        Err("invalid function name in qualified call: '"@ + decode_utf8(name) + "'"@)
    } else {
        match call_args_spec(rest, p, "unclosed parenthesis in qualified call expression"@) {
            Err(m) => Err(m),
            Ok(v) => Ok(ExprShape::QualifiedCall(decode_utf8(namespace), decode_utf8(name), v)),
        }
    }
}

/// A directive expression (the bytes `s`, trimmed): a string, `true`, `false`,
/// `null` or a number literal, a call (`(` before any `.`), a qualified call, a
/// dot path or a variable; or the error message.
pub open spec fn expr_spec(s: Seq<u8>) -> Result<ExprShape, Seq<char>> {
    let t = trimmed(s);
    let tc = decode_utf8(t);
    let dot = index_of(t, 46u8, 0);
    let paren = index_of(t, 40u8, 0);
    if t.len() == 0 {
        Err("expected an expression"@)
    } else if complete_literal(t) {
        Ok(ExprShape::Str(literal_value(t)))
    } else if t[0] == 34u8 || t[0] == 39u8 {
        Err("unterminated string literal in directive expression"@)
    } else if tc == "true"@ {
        Ok(ExprShape::Bool(true))
    } else if tc == "false"@ {
        Ok(ExprShape::Bool(false))
    } else if tc == "null"@ {
        Ok(ExprShape::Null)
    } else if number_like(t) && !(crate::number::number_spec(t) is Invalid) {
        match crate::number::number_spec(t) {
            crate::number::NumberOutcome::Finite { negative, digits, exponent } => Ok(ExprShape::Num(negative, digits, exponent)),
            _ => Err("NaN and infinity are not valid directive expression values"@),
        }
    } else if paren < t.len() && (dot >= t.len() || paren < dot) {
        simple_call_spec(t, paren)
    } else if dot < t.len() && paren < t.len() {
        qualified_call_spec(t, dot)
    } else if dot < t.len() {
        match member_spec(t) {
            Ok((o, f)) => Ok(ExprShape::Member(o, f)),
            Err(reason) => Err("invalid dot-path in directive expression: '"@ + tc + "' — "@ + reason),
        }
    } else if is_ident(t) {
        Ok(ExprShape::Var(tc))
    } else {
        Err("invalid expression in directive: '"@ + tc + "' — expected a variable, function call, or literal"@)
    }
}

/// The arguments between a `(` at `p` and a closing `)` that ends the trimmed rest.
fn call_args(t: &str, p: usize, unclosed: &str) -> (r: Result<Vec<Arg>, MdsError>)
    requires
        p < t.spec_bytes().len(),
        t.spec_bytes()[p as int] == 40u8,
    ensures
        r matches Ok(v) ==> call_args_spec(t.spec_bytes(), p as int, unclosed@) == Ok::<Seq<ArgShape>, Seq<char>>(args_shape(v@)),
        r matches Err(e) ==> call_args_spec(t.spec_bytes(), p as int, unclosed@) is Err
            && syntax_error(e, call_args_spec(t.spec_bytes(), p as int, unclosed@)->Err_0),
{
    let rest = after(t, p);
    let rest = trim_str(rest.as_str());
    match strip_suffix_byte(rest.as_str(), 41) {
        Some(inner) => parse_args(inner.as_str()),
        None => Err(err(String::from_str(unclosed))),
    }
}

/// `name(args)` with the `(` at `p`.
fn parse_simple_call_expr(t: &str, p: usize) -> (r: Result<Expr, MdsError>)
    requires
        p < t.spec_bytes().len(),
        t.spec_bytes()[p as int] == 40u8,
    ensures
        r matches Ok(e) ==> e is Call && expr_names_ok(e),
        r matches Ok(e) ==> simple_call_spec(t.spec_bytes(), p as int) == Ok::<ExprShape, Seq<char>>(expr_shape(e)),
        r matches Err(e) ==> simple_call_spec(t.spec_bytes(), p as int) is Err
            && syntax_error(e, simple_call_spec(t.spec_bytes(), p as int)->Err_0),
{
    let name = trim_str(before(t, p).as_str());
    proof { encode_utf8_decode_utf8(name@); }
    if !is_valid_identifier(name.as_str()) {
        return Err(err(msg3("invalid function name in directive expression: '", name.as_str(), "'")));
    }
    let args = call_args(t, p, "unclosed parenthesis in directive expression")?;
    Ok(Expr::Call { name, args })
}

/// `ns.name(args)` with the first `.` at `d`, before the first `(` after it.
fn parse_qualified_call_expr(t: &str, d: usize) -> (r: Result<Expr, MdsError>)
    requires
        d < t.spec_bytes().len(),
        t.spec_bytes()[d as int] == 46u8,
    ensures
        r matches Ok(e) ==> e is QualifiedCall && expr_names_ok(e),
        r matches Ok(e) ==> qualified_call_spec(t.spec_bytes(), d as int) == Ok::<ExprShape, Seq<char>>(expr_shape(e)),
        r matches Err(e) ==> qualified_call_spec(t.spec_bytes(), d as int) is Err
            && syntax_error(e, qualified_call_spec(t.spec_bytes(), d as int)->Err_0),
{
    let namespace = trim_str(before(t, d).as_str());
    let rest = after(t, d);
    proof { encode_utf8_decode_utf8(namespace@); }
    let p = match find_opt(rest.as_str(), 40) {
        Some(p) => p,
        None => return Err(err(String::from_str("unclosed parenthesis in qualified call expression"))),
    };
    let name = trim_str(before(rest.as_str(), p).as_str());
    proof { encode_utf8_decode_utf8(name@); }
    if !is_valid_identifier(namespace.as_str()) {
        return Err(err(msg3("invalid namespace in qualified call: '", namespace.as_str(), "'")));
    }
    if !is_valid_identifier(name.as_str()) {
        return Err(err(msg3("invalid function name in qualified call: '", name.as_str(), "'")));
    }
    let args = call_args(rest.as_str(), p, "unclosed parenthesis in qualified call expression")?;
    Ok(Expr::QualifiedCall { namespace, name, args })
}

/// Parse an expression of a directive: a string, number, boolean or `null` literal,
/// a variable, a dot path, a call or a qualified call.
#[verifier::spinoff_prover]
#[verifier::rlimit(60)]
pub fn parse_expr_inner(s: &str) -> (r: Result<Expr, MdsError>)
    ensures
        r matches Ok(e) ==> expr_names_ok(e),
        r matches Ok(e) ==> expr_spec(s.spec_bytes()) == Ok::<ExprShape, Seq<char>>(expr_shape(e)),
        r matches Err(e) ==> expr_spec(s.spec_bytes()) is Err && syntax_error(e, expr_spec(s.spec_bytes())->Err_0),
{
    let t = trim_str(s);
    let ts = t.as_str();
    let b = ts.as_bytes();
    proof { encode_utf8_decode_utf8(t@); }
    if b.len() == 0 {
        return Err(err(String::from_str("expected an expression")));
    }
    if is_complete_string_literal(ts) {
        return Ok(Expr::StringLiteral(literal_content(ts)));
    }
    if b[0] == 34 || b[0] == 39 {
        return Err(err(String::from_str("unterminated string literal in directive expression")));
    }
    if is(ts, "true") {
        return Ok(Expr::BooleanLiteral(true));
    }
    if is(ts, "false") {
        return Ok(Expr::BooleanLiteral(false));
    }
    if is(ts, "null") {
        return Ok(Expr::NullLiteral);
    }
    if looks_like_number(ts) {
        match crate::number::parse_number(ts) {
            crate::number::ParsedNumber::Finite(v) => return Ok(Expr::NumberLiteral(v)),
            crate::number::ParsedNumber::NonFinite => {
                return Err(err(String::from_str("NaN and infinity are not valid directive expression values")));
            },
            crate::number::ParsedNumber::Invalid => {},
        }
    }
    let dot = find_opt(ts, 46);
    let paren = find_opt(ts, 40);
    match (dot, paren) {
        (Some(d), Some(p)) => {
            if p < d {
                return parse_simple_call_expr(ts, p);
            }
            return parse_qualified_call_expr(ts, d);
        },
        (None, Some(p)) => {
            return parse_simple_call_expr(ts, p);
        },
        (Some(_), None) => {
            return match member_access(ts) {
                Ok((object, fields)) => Ok(Expr::MemberAccess { object, fields }),
                Err(reason) => {
                    let mut m = msg3("invalid dot-path in directive expression: '", ts, "' — ");
                    m.append(reason.as_str());
                    Err(err(m))
                },
            };
        },
        (None, None) => {},
    }
    if is_valid_identifier(ts) {
        return Ok(Expr::Var(t));
    }
    Err(err(msg3("invalid expression in directive: '", ts, "' — expected a variable, function call, or literal")))
}

/// An argument, each text by its characters and each number by its sign, digits
/// and exponent.
pub enum ArgShape {
    Str(Seq<char>),
    Num(bool, Seq<u8>, int),
    Bool(bool),
    Null,
    Var(Seq<char>),
    Call(Seq<char>, Seq<ArgShape>),
    Member(Seq<char>, Seq<Seq<char>>),
}

/// An expression, each text by its characters and each number by its sign,
/// digits and exponent.
pub enum ExprShape {
    Var(Seq<char>),
    Str(Seq<char>),
    Num(bool, Seq<u8>, int),
    Bool(bool),
    Null,
    Call(Seq<char>, Seq<ArgShape>),
    QualifiedCall(Seq<char>, Seq<char>, Seq<ArgShape>),
    Member(Seq<char>, Seq<Seq<char>>),
}

/// The shape of an argument.
pub open spec fn arg_shape(a: Arg) -> ArgShape
    decreases a,
{
    match a {
        Arg::StringLiteral(s) => ArgShape::Str(s@),
        Arg::NumberLiteral(v) => ArgShape::Num(v.negative, v.digits@, v.exponent as int),
        Arg::BooleanLiteral(b) => ArgShape::Bool(b),
        Arg::NullLiteral => ArgShape::Null,
        Arg::Var(s) => ArgShape::Var(s@),
        Arg::Call { name, args } => ArgShape::Call(name@, args_shape(args@)),
        Arg::MemberAccess { object, fields } => ArgShape::Member(object@, strs_view(fields@)),
    }
}

/// The shapes of a list of arguments.
pub open spec fn args_shape(v: Seq<Arg>) -> Seq<ArgShape>
    decreases v,
{
    Seq::new(v.len(), |i: int| if 0 <= i < v.len() { arg_shape(v[i]) } else { ArgShape::Null })
}

/// The shape of an expression.
pub open spec fn expr_shape(e: Expr) -> ExprShape {
    match e {
        Expr::Var(s) => ExprShape::Var(s@),
        Expr::StringLiteral(s) => ExprShape::Str(s@),
        Expr::NumberLiteral(v) => ExprShape::Num(v.negative, v.digits@, v.exponent as int),
        Expr::BooleanLiteral(b) => ExprShape::Bool(b),
        Expr::NullLiteral => ExprShape::Null,
        Expr::Call { name, args } => ExprShape::Call(name@, args_shape(args@)),
        Expr::QualifiedCall { namespace, name, args } => ExprShape::QualifiedCall(namespace@, name@, args_shape(args@)),
        Expr::MemberAccess { object, fields } => ExprShape::Member(object@, strs_view(fields@)),
    }
}

/// A literal value (the bytes `s`, trimmed): a complete quoted string, `true`,
/// `false`, `null` or a finite number; or the error message.
pub open spec fn cond_value_spec(s: Seq<u8>) -> Result<ExprShape, Seq<char>> {
    let t = trimmed(s);
    let tc = decode_utf8(t);
    if t.len() == 0 {
        Err("comparison values must be string, number, boolean, or null"@)
    } else if complete_literal(t) {
        Ok(ExprShape::Str(literal_value(t)))
    } else if t[0] == 34u8 || t[0] == 39u8 {
        Err("unterminated string literal in @if condition"@)
    } else if tc == "true"@ {
        Ok(ExprShape::Bool(true))
    } else if tc == "false"@ {
        Ok(ExprShape::Bool(false))
    } else if tc == "null"@ {
        Ok(ExprShape::Null)
    } else {
        match crate::number::number_spec(t) {
            crate::number::NumberOutcome::Finite { negative, digits, exponent } => Ok(ExprShape::Num(negative, digits, exponent)),
            crate::number::NumberOutcome::NonFinite => Err("NaN and infinity are not valid condition values"@),
            crate::number::NumberOutcome::Invalid => Err("comparison values must be string, number, boolean, or null"@),
        }
    }
}

/// Parse a literal: a quoted string, a number, a boolean or `null` (a `@define` default).
pub fn parse_cond_value(s: &str) -> (r: Result<Expr, MdsError>)
    ensures
        r matches Ok(e) ==> is_literal_expr(e),
        r is Err ==> r->Err_0 is Syntax,
        r matches Ok(e) ==> cond_value_spec(s.spec_bytes()) == Ok::<ExprShape, Seq<char>>(expr_shape(e)),
        r matches Err(e) ==> cond_value_spec(s.spec_bytes()) is Err && syntax_error(e, cond_value_spec(s.spec_bytes())->Err_0),
{
    let t = trim_str(s);
    let ts = t.as_str();
    let b = ts.as_bytes();
    proof { encode_utf8_decode_utf8(t@); }
    if b.len() == 0 {
        return Err(err(String::from_str("comparison values must be string, number, boolean, or null")));
    }
    if is_complete_string_literal(ts) {
        return Ok(Expr::StringLiteral(literal_content(ts)));
    }
    if b[0] == 34 || b[0] == 39 {
        return Err(err(String::from_str("unterminated string literal in @if condition")));
    }
    if is(ts, "true") {
        return Ok(Expr::BooleanLiteral(true));
    }
    if is(ts, "false") {
        return Ok(Expr::BooleanLiteral(false));
    }
    if is(ts, "null") {
        return Ok(Expr::NullLiteral);
    }
    match crate::number::parse_number(ts) {
        crate::number::ParsedNumber::Finite(v) => Ok(Expr::NumberLiteral(v)),
        crate::number::ParsedNumber::NonFinite => Err(err(String::from_str("NaN and infinity are not valid condition values"))),
        crate::number::ParsedNumber::Invalid => Err(err(String::from_str("comparison values must be string, number, boolean, or null"))),
    }
}


// ── Arguments ─────────────────────────────────────────────────────────────────

/// The pieces of `b` from `start` on, cut at the matches of the one-byte
/// separator `kind`.
pub open spec fn pieces_from(b: Seq<u8>, kind: u8, start: int) -> Seq<Seq<u8>>
    decreases b.len() + 1 - start,
{
    let i = first_match(b, kind, start);
    if start < 0 || start > b.len() {
        Seq::empty()
    } else if i >= b.len() {
        seq![b.subrange(start, b.len() as int)]
    } else {
        proof { crate::scan::lemma_first_match_bounds(b, kind, start); }
        seq![b.subrange(start, i)] + pieces_from(b, kind, i + 1)
    }
}

/// The pieces of `s` between the matches of a one-byte separator `kind` (6 or 7),
/// untrimmed.
fn split_at_matches(s: &str, kind: u8) -> (r: Vec<String>)
    requires
        kind == 6 || kind == 7,
    ensures
        r@.len() >= 1,
        forall|k: int| 0 <= k < r@.len() ==> utf8(#[trigger] r@[k]@).len() <= s.spec_bytes().len(),
        r@.len() == pieces_from(s.spec_bytes(), kind, 0).len(),
        forall|k: int| 0 <= k < r@.len() ==> utf8(#[trigger] r@[k]@) == pieces_from(s.spec_bytes(), kind, 0)[k],
{
    let b = s.as_bytes();
    let n = b.len();
    let mut parts: Vec<String> = Vec::new();
    let mut start: usize = 0;
    let ghost all = pieces_from(b@, kind, 0);
    proof { lemma_str_valid(s); }
    loop
        invariant_except_break
            parts@.len() + pieces_from(b@, kind, start as int).len() == all.len(),
            forall|k: int| 0 <= k < pieces_from(b@, kind, start as int).len() ==>
                #[trigger] pieces_from(b@, kind, start as int)[k] == all[parts@.len() + k],
        invariant
            start <= n == b@.len(),
            b@ == s.spec_bytes(),
            valid_utf8(b@),
            cut_point(b@, start as int),
            kind == 6 || kind == 7,
            forall|k: int| 0 <= k < parts@.len() ==> utf8(#[trigger] parts@[k]@).len() <= n,
            all == pieces_from(b@, kind, 0),
            forall|k: int| 0 <= k < parts@.len() ==> utf8(#[trigger] parts@[k]@) == all[k],
        ensures
            parts@.len() >= 1,
            forall|k: int| 0 <= k < parts@.len() ==> utf8(#[trigger] parts@[k]@).len() <= n,
            parts@.len() == all.len(),
            forall|k: int| 0 <= k < parts@.len() ==> utf8(#[trigger] parts@[k]@) == all[k],
        decreases n + 1 - start,
    {
        proof { crate::scan::lemma_first_match_bounds(b@, kind, start as int); }
        let i = find_match(b, kind, start);
        if i < n {
            proof { lemma_ascii_cuts(b@, i as int); }
        }
        let ghost here = pieces_from(b@, kind, start as int);
        let piece = slice(s, start, i);
        let ghost old_len = parts@.len();
        parts.push(piece);
        if i >= n {
            assert(here == seq![b@.subrange(start as int, n as int)]);
            assert(here[0] == all[old_len as int]);
            break;
        }
        proof {
            let next = pieces_from(b@, kind, i + 1);
            assert(here == seq![b@.subrange(start as int, i as int)] + next);
            assert forall|k: int| 0 <= k < next.len() implies #[trigger] next[k] == all[parts@.len() + k] by {
                assert(here[k + 1] == next[k]);
            }
            assert(here[0] == all[old_len as int]);
        }
        start = i + 1;
    }
    parts
}

/// Every piece from `start` on is no longer than the text after `start`.
pub proof fn lemma_pieces_bound(b: Seq<u8>, kind: u8, start: int)
    requires
        0 <= start <= b.len(),
    ensures
        forall|k: int| 0 <= k < pieces_from(b, kind, start).len() ==> (#[trigger] pieces_from(b, kind, start)[k]).len() <= b.len() - start,
    decreases b.len() + 1 - start,
{
    crate::scan::lemma_first_match_bounds(b, kind, start);
    let i = first_match(b, kind, start);
    if i < b.len() {
        lemma_pieces_bound(b, kind, i + 1);
        let rest = pieces_from(b, kind, i + 1);
        assert forall|k: int| 0 <= k < pieces_from(b, kind, start).len() implies
            (#[trigger] pieces_from(b, kind, start)[k]).len() <= b.len() - start by {
            if k > 0 {
                assert(pieces_from(b, kind, start)[k] == rest[k - 1]);
            }
        }
    }
}

/// The arguments in `s` of a call nested `depth` calls deep: pieces between the
/// commas outside strings and parentheses, each parsed as an argument (a last
/// empty one dropped); or the error message.
#[verifier::opaque]
pub open spec fn args_spec(s: Seq<u8>, depth: int) -> Result<Seq<ArgShape>, Seq<char>>
    decreases s.len(), 2int, 0int,
{
    if depth > MAX_NESTING_DEPTH {
        Err("nested function call depth exceeds maximum of 64"@)
    } else {
        let t = trimmed(s);
        proof {
            crate::text::lemma_trim_bounds(s);
            lemma_pieces_bound(t, 6u8, 0);
        }
        if t.len() == 0 {
            Ok(Seq::empty())
        } else {
            arg_items(pieces_from(t, 6u8, 0), 0, depth, s.len() as int)
        }
    }
}

/// The arguments of the pieces `ps[i..]` (each no longer than `bound`).
pub open spec fn arg_items(ps: Seq<Seq<u8>>, i: int, depth: int, bound: int) -> Result<Seq<ArgShape>, Seq<char>>
    decreases bound, 1int, ps.len() - i
    when forall|k: int| 0 <= k < ps.len() ==> (#[trigger] ps[k]).len() <= bound
{
    if i < 0 || i >= ps.len() {
        Ok(Seq::empty())
    } else {
        let piece = trimmed(ps[i]);
        proof { crate::text::lemma_trim_bounds(ps[i]); }
        if i + 1 == ps.len() && piece.len() == 0 {
            Ok(Seq::empty())
        } else {
            match single_arg_spec(piece, depth) {
                Err(m) => Err(m),
                Ok(a) => match arg_items(ps, i + 1, depth, bound) {
                    Err(m) => Err(m),
                    Ok(rest) => Ok(seq![a] + rest),
                },
            }
        }
    }
}

/// One argument in `s` (trimmed) of a call nested `depth` calls deep: a quoted
/// string, a nested call, `true`, `false`, `null`, a number, a dot path or a
/// variable; or the error message.
#[verifier::opaque]
pub open spec fn single_arg_spec(s: Seq<u8>, depth: int) -> Result<ArgShape, Seq<char>>
    decreases s.len(), 0int, 0int,
{
    let t = trimmed(s);
    let tc = decode_utf8(t);
    let p = index_of(t, 40u8, 0);
    proof {
        crate::text::lemma_trim_bounds(s);
        crate::text::lemma_index_of_bounds(t, 40u8, 0);
    }
    if complete_literal(t) {
        Ok(ArgShape::Str(literal_value(t)))
    } else if p < t.len() {
        let name = trimmed(t.subrange(0, p));
        let rest = t.subrange(p + 1, t.len() as int);
        if !is_ident(name) {
            Err("invalid function name in argument: '"@ + decode_utf8(name) + "'"@)
        } else if rest.len() == 0 || rest.last() != 41u8 {
            Err("unclosed parenthesis in nested function call"@)
        } else {
            match args_spec(rest.drop_last(), depth + 1) {
                Err(m) => Err(m),
                Ok(v) => Ok(ArgShape::Call(decode_utf8(name), v)),
            }
        }
    } else if tc == "true"@ {
        Ok(ArgShape::Bool(true))
    } else if tc == "false"@ {
        Ok(ArgShape::Bool(false))
    } else if tc == "null"@ {
        Ok(ArgShape::Null)
    } else if number_like(t) {
        match crate::number::number_spec(t) {
            crate::number::NumberOutcome::Finite { negative, digits, exponent } => Ok(ArgShape::Num(negative, digits, exponent)),
            crate::number::NumberOutcome::NonFinite => Err("NaN and infinity are not valid argument values: '"@ + tc + "'"@),
            crate::number::NumberOutcome::Invalid => Err("invalid numeric argument: '"@ + tc + "'"@),
        }
    } else if index_of(t, 46u8, 0) < t.len() {
        match member_spec(t) {
            Ok((o, f)) => Ok(ArgShape::Member(o, f)),
            Err(reason) => Err("invalid dot-path in argument: '"@ + tc + "' — "@ + reason),
        }
    } else if is_ident(t) {
        Ok(ArgShape::Var(tc))
    } else {
        Err("invalid function argument: '"@ + tc + "'"@)
    }
}

/// `r` with the arguments `v` put in front of its own.
pub open spec fn prepend_args(v: Seq<ArgShape>, r: Result<Seq<ArgShape>, Seq<char>>) -> Result<Seq<ArgShape>, Seq<char>> {
    match r {
        Ok(rest) => Ok(v + rest),
        Err(m) => Err(m),
    }
}

/// Parse function-call arguments.
pub fn parse_args(args_str: &str) -> (r: Result<Vec<Arg>, MdsError>)
    ensures
        r matches Ok(v) ==> args_spec(args_str.spec_bytes(), 0) == Ok::<Seq<ArgShape>, Seq<char>>(args_shape(v@)),
        r matches Err(e) ==> args_spec(args_str.spec_bytes(), 0) is Err && syntax_error(e, args_spec(args_str.spec_bytes(), 0)->Err_0),
{
    parse_args_inner(args_str, 0)
}

/// Parse the arguments of a call nested `depth` calls deep.
#[verifier::rlimit(60)]
#[verifier::spinoff_prover]
pub fn parse_args_inner(args_str: &str, depth: usize) -> (r: Result<Vec<Arg>, MdsError>)
    ensures
        depth > MAX_NESTING_DEPTH ==> r is Err,
        r matches Ok(v) ==> args_spec(args_str.spec_bytes(), depth as int) == Ok::<Seq<ArgShape>, Seq<char>>(args_shape(v@)),
        r matches Err(e) ==> args_spec(args_str.spec_bytes(), depth as int) is Err
            && syntax_error(e, args_spec(args_str.spec_bytes(), depth as int)->Err_0),
    decreases args_str.spec_bytes().len(), 1int,
{
    proof { reveal(args_spec); }
    if depth > MAX_NESTING_DEPTH {
        return Err(err(String::from_str("nested function call depth exceeds maximum of 64")));
    }
    let t = trim_str(args_str);
    proof {
        crate::text::lemma_trim_bounds(args_str.spec_bytes());
        lemma_pieces_bound(utf8(t@), 6u8, 0);
    }
    if t.as_str().as_bytes().len() == 0 {
        let v: Vec<Arg> = Vec::new();
        assert(args_shape(v@) =~= Seq::<ArgShape>::empty());
        return Ok(v);
    }
    let pieces = split_at_matches(t.as_str(), 6);
    let ghost ps = pieces_from(utf8(t@), 6u8, 0);
    let ghost bound = args_str.spec_bytes().len() as int;
    let ghost whole = args_spec(args_str.spec_bytes(), depth as int);
    let mut args: Vec<Arg> = Vec::new();
    let mut i: usize = 0;
    assert(whole == arg_items(ps, 0, depth as int, bound));
    assert(args_shape(args@) + Seq::<ArgShape>::empty() =~= Seq::<ArgShape>::empty());
    while i < pieces.len()
        invariant
            i <= pieces@.len() == ps.len(),
            pieces@.len() >= 1,
            forall|k: int| 0 <= k < pieces@.len() ==> utf8(#[trigger] pieces@[k]@) == ps[k],
            forall|k: int| 0 <= k < ps.len() ==> (#[trigger] ps[k]).len() <= bound,
            bound == args_str.spec_bytes().len(),
            depth <= MAX_NESTING_DEPTH,
            whole == args_spec(args_str.spec_bytes(), depth as int),
            whole == prepend_args(args_shape(args@), arg_items(ps, i as int, depth as int, bound)),
        decreases pieces@.len() - i,
    {
        let piece = trim_str(pieces[i].as_str());
        let last = i + 1 == pieces.len();
        let ghost here = arg_items(ps, i as int, depth as int, bound);
        proof { crate::text::lemma_trim_bounds(ps[i as int]); }
        assert(utf8(piece@) == trimmed(ps[i as int]));
        if !(last && piece.as_str().as_bytes().len() == 0) {
            let arg = match parse_single_arg_inner(piece.as_str(), depth) {
                Ok(a) => a,
                Err(e) => {
                    proof {
                        let m = single_arg_spec(trimmed(ps[i as int]), depth as int)->Err_0;
                        assert(here == Err::<Seq<ArgShape>, Seq<char>>(m));
                        assert(whole == Err::<Seq<ArgShape>, Seq<char>>(m));
                        assert(syntax_error(e, m));
                    }
                    return Err(e);
                },
            };
            let ghost av = args_shape(args@);
            let ghost rest_r = arg_items(ps, i + 1, depth as int, bound);
            args.push(arg);
            proof {
                assert(args_shape(args@) =~= av.push(arg_shape(arg)));
                match rest_r {
                    Ok(x) => {
                        assert(av + (seq![arg_shape(arg)] + x) =~= av.push(arg_shape(arg)) + x);
                    },
                    Err(m) => {},
                }
            }
        } else {
            proof {
                assert(here == Ok::<Seq<ArgShape>, Seq<char>>(Seq::empty()));
                assert(arg_items(ps, i + 1, depth as int, bound) == Ok::<Seq<ArgShape>, Seq<char>>(Seq::empty()));
            }
        }
        i = i + 1;
    }
    assert(args_shape(args@) + Seq::<ArgShape>::empty() =~= args_shape(args@));
    Ok(args)
}

/// Parse one argument: a string, number, boolean or `null` literal, a nested call,
/// a dot path or a variable.
#[verifier::rlimit(60)]
#[verifier::spinoff_prover]
pub fn parse_single_arg_inner(s: &str, depth: usize) -> (r: Result<Arg, MdsError>)
    requires
        depth <= MAX_NESTING_DEPTH,
    ensures
        r matches Ok(a) ==> single_arg_spec(s.spec_bytes(), depth as int) == Ok::<ArgShape, Seq<char>>(arg_shape(a)),
        r matches Err(e) ==> single_arg_spec(s.spec_bytes(), depth as int) is Err
            && syntax_error(e, single_arg_spec(s.spec_bytes(), depth as int)->Err_0),
    decreases s.spec_bytes().len(), 0int,
{
    let t = trim_str(s);
    let ts = t.as_str();
    let b = ts.as_bytes();
    proof {
        reveal(single_arg_spec);
        encode_utf8_decode_utf8(t@);
        crate::text::lemma_trim_bounds(s.spec_bytes());
    }
    if is_complete_string_literal(ts) {
        return Ok(Arg::StringLiteral(literal_content(ts)));
    }
    if let Some(p) = find_opt(ts, 40) {
        let name = trim_str(before(ts, p).as_str());
        proof { encode_utf8_decode_utf8(name@); }
        if !is_valid_identifier(name.as_str()) {
            return Err(err(msg3("invalid function name in argument: '", name.as_str(), "'")));
        }
        let rest = after(ts, p);
        let inner = match strip_suffix_byte(rest.as_str(), 41) {
            Some(inner) => inner,
            None => return Err(err(String::from_str("unclosed parenthesis in nested function call"))),
        };
        assert(utf8(inner@).len() < utf8(t@).len());
        let nested = parse_args_inner(inner.as_str(), depth + 1)?;
        let r = Arg::Call { name, args: nested };
        return Ok(r);
    }
    if is(ts, "true") {
        return Ok(Arg::BooleanLiteral(true));
    }
    if is(ts, "false") {
        return Ok(Arg::BooleanLiteral(false));
    }
    if is(ts, "null") {
        return Ok(Arg::NullLiteral);
    }
    if looks_like_number(ts) {
        return match crate::number::parse_number(ts) {
            crate::number::ParsedNumber::Finite(v) => Ok(Arg::NumberLiteral(v)),
            crate::number::ParsedNumber::NonFinite => Err(err(msg3("NaN and infinity are not valid argument values: '", ts, "'"))),
            crate::number::ParsedNumber::Invalid => Err(err(msg3("invalid numeric argument: '", ts, "'"))),
        };
    }
    if find_opt(ts, 46).is_some() {
        return match member_access(ts) {
            Ok((object, fields)) => Ok(Arg::MemberAccess { object, fields }),
            Err(reason) => {
                let mut m = msg3("invalid dot-path in argument: '", ts, "' — ");
                m.append(reason.as_str());
                Err(err(m))
            },
        };
    }
    if is_valid_identifier(ts) {
        return Ok(Arg::Var(t));
    }
    Err(err(msg3("invalid function argument: '", ts, "'")))
}


// ── Conditions ────────────────────────────────────────────────────────────────

/// The shape guarantees of a parsed condition: no bare literal is tested for truth
/// or negated, and `&&` / `||` chains hold between two and `MAX_LOGICAL_OPERANDS` operands.
pub open spec fn condition_shape_ok(c: Condition) -> bool {
    match c {
        Condition::Truthy(e) => !is_literal_expr(e) && expr_names_ok(e),
        Condition::Not(e) => !is_literal_expr(e) && expr_names_ok(e),
        Condition::Eq(l, r) => expr_names_ok(l) && expr_names_ok(r),
        Condition::NotEq(l, r) => expr_names_ok(l) && expr_names_ok(r),
        Condition::And(v) => 2 <= v@.len() <= MAX_LOGICAL_OPERANDS,
        Condition::Or(v) => 2 <= v@.len() <= MAX_LOGICAL_OPERANDS,
    }
}

/// A condition, its expressions by their shapes.
pub enum CondShape {
    Truthy(ExprShape),
    Not(ExprShape),
    Eq(ExprShape, ExprShape),
    NotEq(ExprShape, ExprShape),
    And(Seq<CondShape>),
    Or(Seq<CondShape>),
}

/// The shape of a condition.
pub open spec fn cond_shape(c: Condition) -> CondShape
    decreases c,
{
    match c {
        Condition::Truthy(e) => CondShape::Truthy(expr_shape(e)),
        Condition::Not(e) => CondShape::Not(expr_shape(e)),
        Condition::Eq(l, r) => CondShape::Eq(expr_shape(l), expr_shape(r)),
        Condition::NotEq(l, r) => CondShape::NotEq(expr_shape(l), expr_shape(r)),
        Condition::And(v) => CondShape::And(conds_shape(v@)),
        Condition::Or(v) => CondShape::Or(conds_shape(v@)),
    }
}

/// The shapes of a list of conditions.
pub open spec fn conds_shape(v: Seq<Condition>) -> Seq<CondShape>
    decreases v,
{
    Seq::new(v.len(), |i: int| if 0 <= i < v.len() { cond_shape(v[i]) } else { CondShape::Truthy(ExprShape::Null) })
}

/// A literal expression shape.
pub open spec fn literal_shape(e: ExprShape) -> bool {
    e is Str || e is Num || e is Bool || e is Null
}

/// The condition after a leading `!` (the bytes `b`), or the error message.
pub open spec fn negation_spec(b: Seq<u8>) -> Result<CondShape, Seq<char>> {
    let t = trimmed(b);
    if b.len() > 0 && b[0] == 33u8 {
        Err("double negation is not supported"@)
    } else if first_match(b, 0u8, 0) < b.len() {
        Err("cannot combine negation with comparison; use @if var != 'value': instead"@)
    } else if t.len() == 0 {
        Err("expected variable name after '!'"@)
    } else {
        match expr_spec(t) {
            Err(m) => Err(m),
            Ok(e) => if literal_shape(e) {
                Err("cannot use a literal value after '!' — use a variable or function call"@)
            } else {
                Ok(CondShape::Not(e))
            },
        }
    }
}

/// One condition without `&&` / `||` (the bytes `s`, trimmed): `!expr`, a
/// comparison at the first `==` or `!=` outside strings and parentheses, or a
/// truth test; or the error message.
#[verifier::opaque]
pub open spec fn simple_cond_spec(s: Seq<u8>) -> Result<CondShape, Seq<char>> {
    let t = trimmed(s);
    let op = first_match(t, 0u8, 0);
    let neq = op < t.len() && t[op] == 33u8;
    let opname = if neq { "!="@ } else { "=="@ };
    let lhs = trimmed(t.subrange(0, op));
    let rhs = trimmed(t.subrange(op + 2, t.len() as int));
    if t.len() > 0 && t[0] == 33u8 {
        negation_spec(t.subrange(1, t.len() as int))
    } else if op < t.len() {
        if lhs.len() == 0 {
            Err("expected expression before '"@ + opname + "'"@)
        } else if rhs.len() == 0 {
            Err("expected value after '"@ + opname + "'"@)
        } else {
            match expr_spec(lhs) {
                Err(m) => Err(m),
                Ok(l) => match expr_spec(rhs) {
                    Err(m) => Err(m),
                    Ok(r) => if neq { Ok(CondShape::NotEq(l, r)) } else { Ok(CondShape::Eq(l, r)) },
                },
            }
        }
    } else if first_match(t, 1u8, 0) < t.len() {
        Err("use '==' for comparison, not '='"@)
    } else {
        match expr_spec(t) {
            Err(m) => Err(m),
            Ok(e) => if literal_shape(e) {
                Err("cannot use a literal value in @if condition — use a variable or function call"@)
            } else {
                Ok(CondShape::Truthy(e))
            },
        }
    }
}

/// The simple conditions of the `&&` operands `ps[i..]`.
pub open spec fn and_operands(ps: Seq<Seq<u8>>, i: int) -> Result<Seq<CondShape>, Seq<char>>
    decreases ps.len() - i,
{
    if i < 0 || i >= ps.len() {
        Ok(Seq::empty())
    } else if trimmed(ps[i]).len() == 0 {
        Err("empty operand in '&&' expression"@)
    } else {
        match simple_cond_spec(trimmed(ps[i])) {
            Err(m) => Err(m),
            Ok(c) => match and_operands(ps, i + 1) {
                Err(m) => Err(m),
                Ok(rest) => Ok(seq![c] + rest),
            },
        }
    }
}

/// A chain of `&&`-separated simple conditions (the bytes `s`), or the error message.
#[verifier::opaque]
pub open spec fn and_spec(s: Seq<u8>) -> Result<CondShape, Seq<char>> {
    let ps = op_pieces(s, 3u8, 0);
    if ps.len() == 1 {
        simple_cond_spec(trimmed(ps[0]))
    } else {
        match and_operands(ps, 0) {
            Err(m) => Err(m),
            Ok(v) => Ok(CondShape::And(v)),
        }
    }
}

/// The number of simple conditions under an operand of `||`.
pub open spec fn leaves_of(c: CondShape) -> int {
    match c {
        CondShape::And(v) => if v.len() == 0 { 1 } else { v.len() as int },
        _ => 1,
    }
}

/// `a + k`, saturated at `usize::MAX`.
pub open spec fn sat_add(a: int, k: int) -> int {
    if a > usize::MAX - k { usize::MAX as int } else { a + k }
}

/// The `&&` chains of the `||` operands `ps[i..]`, after `leaves` simple
/// conditions, with the (saturated) count of simple conditions at the end.
pub open spec fn or_operands(ps: Seq<Seq<u8>>, i: int, leaves: int) -> Result<(Seq<CondShape>, int), Seq<char>>
    decreases ps.len() - i,
{
    if i < 0 || i >= ps.len() {
        Ok((Seq::empty(), leaves))
    } else if trimmed(ps[i]).len() == 0 {
        Err("empty operand in '||' expression"@)
    } else {
        match and_spec(trimmed(ps[i])) {
            Err(m) => Err(m),
            Ok(c) => match or_operands(ps, i + 1, sat_add(leaves, leaves_of(c))) {
                Err(m) => Err(m),
                Ok((rest, n)) => Ok((seq![c] + rest, n)),
            },
        }
    }
}

/// The "too many operands" message for `count` operands.
pub open spec fn too_many_message(count: nat) -> Seq<char> {
    "logical expression has "@ + crate::text::decimal_spec(count) + " operands, exceeding maximum of 64"@
}

/// An `@if` / `@elseif` condition (the bytes `s`): `||` of `&&` chains of simple
/// conditions, at most `MAX_LOGICAL_OPERANDS` simple conditions in all; or the
/// error message.
pub open spec fn condition_spec(s: Seq<u8>) -> Result<CondShape, Seq<char>> {
    let t = trimmed(s);
    let ps = op_pieces(t, 4u8, 0);
    if ps.len() > 1 {
        match or_operands(ps, 0, 0) {
            Err(m) => Err(m),
            Ok((v, n)) => if n > MAX_LOGICAL_OPERANDS {
                Err(too_many_message(n as nat))
            } else {
                Ok(CondShape::Or(v))
            },
        }
    } else {
        match and_spec(t) {
            Err(m) => Err(m),
            Ok(c) => if (c matches CondShape::And(v) && v.len() > MAX_LOGICAL_OPERANDS) {
                Err(too_many_message(c->And_0.len()))
            } else {
                Ok(c)
            },
        }
    }
}

/// The condition after a leading `!`.
#[verifier::spinoff_prover]
pub fn parse_negation_condition(rest: &str) -> (r: Result<Condition, MdsError>)
    ensures
        r matches Ok(c) ==> c is Not && condition_shape_ok(c),
        r matches Ok(c) ==> negation_spec(rest.spec_bytes()) == Ok::<CondShape, Seq<char>>(cond_shape(c)),
        r matches Err(e) ==> negation_spec(rest.spec_bytes()) is Err && syntax_error(e, negation_spec(rest.spec_bytes())->Err_0),
{
    let b = rest.as_bytes();
    if b.len() > 0 && b[0] == 33 {
        return Err(err(String::from_str("double negation is not supported")));
    }
    if find_unquoted_operator(rest).is_some() {
        return Err(err(String::from_str("cannot combine negation with comparison; use @if var != 'value': instead")));
    }
    let t = trim_str(rest);
    if t.as_str().as_bytes().len() == 0 {
        return Err(err(String::from_str("expected variable name after '!'")));
    }
    let expr = parse_expr_inner(t.as_str())?;
    if is_literal(&expr) {
        return Err(err(String::from_str("cannot use a literal value after '!' — use a variable or function call")));
    }
    Ok(Condition::Not(expr))
}

/// One condition without `&&` / `||`: a negation, a comparison or a truth test.
#[verifier::spinoff_prover]
#[verifier::rlimit(100)]
fn parse_simple_condition(s: &str) -> (r: Result<Condition, MdsError>)
    ensures
        r matches Ok(c) ==> condition_shape_ok(c) && !(c is And) && !(c is Or),
        r matches Ok(c) ==> simple_cond_spec(s.spec_bytes()) == Ok::<CondShape, Seq<char>>(cond_shape(c)),
        r matches Err(e) ==> simple_cond_spec(s.spec_bytes()) is Err && syntax_error(e, simple_cond_spec(s.spec_bytes())->Err_0),
{
    proof { reveal(simple_cond_spec); }
    let t = trim_str(s);
    let ts = t.as_str();
    let b = ts.as_bytes();
    if b.len() > 0 && b[0] == 33 {
        let rest = after(ts, 0);
        return parse_negation_condition(rest.as_str());
    }
    if let Some((i, neq)) = find_unquoted_operator(ts) {
        proof { crate::scan::lemma_first_match_bounds(b@, 0, 0); }
        let op = if neq { "!=" } else { "==" };
        let lhs = trim_str(before(ts, i).as_str());
        let rhs = trim_str(after(ts, i + 1).as_str());
        if lhs.as_str().as_bytes().len() == 0 {
            return Err(err(msg3("expected expression before '", op, "'")));
        }
        if rhs.as_str().as_bytes().len() == 0 {
            return Err(err(msg3("expected value after '", op, "'")));
        }
        let l = parse_expr_inner(lhs.as_str())?;
        let r = parse_expr_inner(rhs.as_str())?;
        if neq {
            return Ok(Condition::NotEq(l, r));
        }
        return Ok(Condition::Eq(l, r));
    }
    if has_bare_equals(ts) {
        return Err(err(String::from_str("use '==' for comparison, not '='")));
    }
    let expr = parse_expr_inner(ts)?;
    if is_literal(&expr) {
        return Err(err(String::from_str("cannot use a literal value in @if condition — use a variable or function call")));
    }
    Ok(Condition::Truthy(expr))
}

/// The number of simple conditions under an operand of `||` (an `&&` chain or one condition).
fn operand_leaves(c: &Condition) -> (r: usize)
    ensures
        r >= 1,
        c matches Condition::And(v) ==> r == v@.len() || (v@.len() == 0 && r == 1),
        r == leaves_of(cond_shape(*c)),
{
    match c {
        Condition::And(v) => if v.len() == 0 { 1 } else { v.len() },
        _ => 1,
    }
}

/// The simple conditions of the `&&` operands `parts` (`ps` by bytes).
#[verifier::spinoff_prover]
fn and_operands_of(parts: &Vec<String>, Ghost(ps): Ghost<Seq<Seq<u8>>>) -> (r: Result<Vec<Condition>, MdsError>)
    requires
        parts@.len() == ps.len(),
        forall|k: int| 0 <= k < parts@.len() ==> utf8(#[trigger] parts@[k]@) == ps[k],
    ensures
        r matches Ok(v) ==> v@.len() == parts@.len()
            && (forall|k: int| 0 <= k < v@.len() ==> condition_shape_ok(#[trigger] v@[k]) && !(v@[k] is And) && !(v@[k] is Or))
            && and_operands(ps, 0) == Ok::<Seq<CondShape>, Seq<char>>(conds_shape(v@)),
        r matches Err(e) ==> and_operands(ps, 0) is Err && syntax_error(e, and_operands(ps, 0)->Err_0),
{
    let mut operands: Vec<Condition> = Vec::new();
    let mut i: usize = 0;
    let ghost prefix: Seq<CondShape> = Seq::empty();
    assert(conds_shape(operands@) =~= Seq::<CondShape>::empty());
    while i < parts.len()
        invariant
            i <= parts@.len() == ps.len(),
            forall|k: int| 0 <= k < parts@.len() ==> utf8(#[trigger] parts@[k]@) == ps[k],
            operands@.len() == i,
            forall|k: int| 0 <= k < operands@.len() ==> condition_shape_ok(#[trigger] operands@[k])
                && !(operands@[k] is And) && !(operands@[k] is Or),
            and_operands(ps, 0) == prepend_conds(conds_shape(operands@), and_operands(ps, i as int)),
        decreases parts@.len() - i,
    {
        let ghost here = and_operands(ps, i as int);
        assert(utf8(parts@[i as int]@) == ps[i as int]);
        let t = trim_str(parts[i].as_str());
        if t.as_str().as_bytes().len() == 0 {
            assert(here == Err::<Seq<CondShape>, Seq<char>>("empty operand in '&&' expression"@));
            return Err(err(String::from_str("empty operand in '&&' expression")));
        }
        let c = match parse_simple_condition(t.as_str()) {
            Ok(c) => c,
            Err(e) => {
                assert(here == Err::<Seq<CondShape>, Seq<char>>(simple_cond_spec(trimmed(ps[i as int]))->Err_0));
                return Err(e);
            },
        };
        let ghost ov = conds_shape(operands@);
        let ghost cv = cond_shape(c);
        let ghost rest_r = and_operands(ps, i + 1);
        operands.push(c);
        proof {
            assert(conds_shape(operands@) =~= ov.push(cv));
            match rest_r {
                Ok(rest) => {
                    assert(ov + (seq![cv] + rest) =~= ov.push(cv) + rest);
                },
                Err(m) => {},
            }
        }
        i = i + 1;
    }
    assert(conds_shape(operands@) + Seq::<CondShape>::empty() =~= conds_shape(operands@));
    Ok(operands)
}

/// `r` with the conditions `v` put in front of its own.
pub open spec fn prepend_conds(v: Seq<CondShape>, r: Result<Seq<CondShape>, Seq<char>>) -> Result<Seq<CondShape>, Seq<char>> {
    match r {
        Ok(rest) => Ok(v + rest),
        Err(m) => Err(m),
    }
}

/// A chain of `&&`-separated simple conditions.
#[verifier::spinoff_prover]
fn parse_and_level(s: &str) -> (r: Result<Condition, MdsError>)
    ensures
        r matches Ok(c) ==> !(c is Or) && (c is And ==> c->And_0@.len() >= 2)
            && (!(c is And) ==> condition_shape_ok(c)),
        r matches Ok(c) ==> and_spec(s.spec_bytes()) == Ok::<CondShape, Seq<char>>(cond_shape(c)),
        r matches Err(e) ==> and_spec(s.spec_bytes()) is Err && syntax_error(e, and_spec(s.spec_bytes())->Err_0),
{
    proof { reveal(and_spec); }
    let parts = split_on_unquoted_op(s, 3);
    let ghost ps = op_pieces(s.spec_bytes(), 3u8, 0);
    assert(forall|k: int| 0 <= k < parts@.len() ==> utf8(#[trigger] parts@[k]@) == ps[k]) by {
        assert forall|k: int| 0 <= k < parts@.len() implies utf8(#[trigger] parts@[k]@) == ps[k] by {
            assert(strs_bytes(parts@)[k] == ps[k]);
        }
    }
    if parts.len() == 1 {
        let p0 = trim_str(parts[0].as_str());
        return parse_simple_condition(p0.as_str());
    }
    let operands = and_operands_of(&parts, Ghost(ps))?;
    Ok(Condition::And(operands))
}

/// The "too many operands" error.
fn too_many_operands(count: usize) -> (r: MdsError)
    ensures
        syntax_error(r, too_many_message(count as nat)),
{
    let n = decimal(count);
    err(msg3("logical expression has ", n.as_str(), " operands, exceeding maximum of 64"))
}

/// `r` with the conditions `v` put in front of its own.
pub open spec fn prepend_or(v: Seq<CondShape>, r: Result<(Seq<CondShape>, int), Seq<char>>) -> Result<(Seq<CondShape>, int), Seq<char>> {
    match r {
        Ok((rest, n)) => Ok((v + rest, n)),
        Err(m) => Err(m),
    }
}

/// The `&&` chains of the `||` operands `parts` (`ps` by bytes), with the
/// saturated count of their simple conditions.
#[verifier::spinoff_prover]
fn or_operands_of(parts: &Vec<String>, Ghost(ps): Ghost<Seq<Seq<u8>>>) -> (r: Result<(Vec<Condition>, usize), MdsError>)
    requires
        parts@.len() == ps.len(),
        forall|k: int| 0 <= k < parts@.len() ==> utf8(#[trigger] parts@[k]@) == ps[k],
    ensures
        r matches Ok((v, n)) ==> v@.len() == parts@.len() && n >= v@.len()
            && (forall|k: int| 0 <= k < v@.len() ==> {
                let c = #[trigger] v@[k];
                !(c is Or) && (c is And ==> c->And_0@.len() >= 2) && (!(c is And) ==> condition_shape_ok(c))
            })
            && or_operands(ps, 0, 0) == Ok::<(Seq<CondShape>, int), Seq<char>>((conds_shape(v@), n as int)),
        r matches Err(e) ==> or_operands(ps, 0, 0) is Err && syntax_error(e, or_operands(ps, 0, 0)->Err_0),
{
    let mut operands: Vec<Condition> = Vec::new();
    let mut leaves: usize = 0;
    let mut i: usize = 0;
    assert(conds_shape(operands@) =~= Seq::<CondShape>::empty());
    while i < parts.len()
        invariant
            i <= parts@.len() == ps.len(),
            forall|k: int| 0 <= k < parts@.len() ==> utf8(#[trigger] parts@[k]@) == ps[k],
            operands@.len() == i,
            leaves >= i,
            forall|k: int| 0 <= k < operands@.len() ==> {
                let c = #[trigger] operands@[k];
                !(c is Or) && (c is And ==> c->And_0@.len() >= 2) && (!(c is And) ==> condition_shape_ok(c))
            },
            or_operands(ps, 0, 0) == prepend_or(conds_shape(operands@), or_operands(ps, i as int, leaves as int)),
        decreases parts@.len() - i,
    {
        let ghost here = or_operands(ps, i as int, leaves as int);
        assert(utf8(parts@[i as int]@) == ps[i as int]);
        let part = trim_str(parts[i].as_str());
        if part.as_str().as_bytes().len() == 0 {
            assert(here == Err::<(Seq<CondShape>, int), Seq<char>>("empty operand in '||' expression"@));
            return Err(err(String::from_str("empty operand in '||' expression")));
        }
        let c = match parse_and_level(part.as_str()) {
            Ok(c) => c,
            Err(e) => {
                assert(here == Err::<(Seq<CondShape>, int), Seq<char>>(and_spec(trimmed(ps[i as int]))->Err_0));
                return Err(e);
            },
        };
        let k = operand_leaves(&c);
        let ghost old_leaves = leaves;
        leaves = if leaves > usize::MAX - k { usize::MAX } else { leaves + k };
        assert(leaves == sat_add(old_leaves as int, k as int));
        let ghost ov = conds_shape(operands@);
        let ghost cv = cond_shape(c);
        let ghost rest_r = or_operands(ps, i + 1, leaves as int);
        operands.push(c);
        proof {
            assert(conds_shape(operands@) =~= ov.push(cv));
            match rest_r {
                Ok((rest, n)) => {
                    assert(ov + (seq![cv] + rest) =~= ov.push(cv) + rest);
                },
                Err(m) => {},
            }
        }
        i = i + 1;
    }
    assert(conds_shape(operands@) + Seq::<CondShape>::empty() =~= conds_shape(operands@));
    Ok((operands, leaves))
}

/// Parse an `@if` / `@elseif` condition; `||` binds less tightly than `&&`.
#[verifier::spinoff_prover]
pub fn parse_condition(s: &str) -> (r: Result<Condition, MdsError>)
    ensures
        r matches Ok(c) ==> condition_shape_ok(c),
        r matches Ok(c) ==> condition_spec(s.spec_bytes()) == Ok::<CondShape, Seq<char>>(cond_shape(c)),
        r matches Err(e) ==> condition_spec(s.spec_bytes()) is Err && syntax_error(e, condition_spec(s.spec_bytes())->Err_0),
{
    let t = trim_str(s);
    let or_parts = split_on_unquoted_op(t.as_str(), 4);
    let ghost ps = op_pieces(utf8(t@), 4u8, 0);
    assert(forall|k: int| 0 <= k < or_parts@.len() ==> utf8(#[trigger] or_parts@[k]@) == ps[k]) by {
        assert forall|k: int| 0 <= k < or_parts@.len() implies utf8(#[trigger] or_parts@[k]@) == ps[k] by {
            assert(strs_bytes(or_parts@)[k] == ps[k]);
        }
    }
    if or_parts.len() > 1 {
        let (operands, leaves) = or_operands_of(&or_parts, Ghost(ps))?;
        if leaves > MAX_LOGICAL_OPERANDS {
            return Err(too_many_operands(leaves));
        }
        return Ok(Condition::Or(operands));
    }
    let c = parse_and_level(t.as_str())?;
    if let Condition::And(v) = &c {
        if v.len() > MAX_LOGICAL_OPERANDS {
            return Err(too_many_operands(v.len()));
        }
    }
    Ok(c)
}


// ── Directives ────────────────────────────────────────────────────────────────

/// `e` is a syntax error without a span, with the message `m`.
pub open spec fn syntax_error(e: MdsError, m: Seq<char>) -> bool {
    e matches MdsError::Syntax { message, span } && message@ == m && span is None
}

/// The path of a double-quoted path (the bytes `s`, trimmed): the text between the
/// first `"` and the next one; or the error message.
pub open spec fn quoted_path_spec(s: Seq<u8>) -> Result<Seq<char>, Seq<char>> {
    let t = trimmed(s);
    let end = index_of(t, 34u8, 1);
    if t.len() == 0 || t[0] != 34u8 {
        Err("expected quoted path, got: "@ + decode_utf8(t))
    } else if end >= t.len() {
        Err("unclosed quote in path"@)
    } else {
        Ok(decode_utf8(t.subrange(1, end)))
    }
}

/// The content of a double-quoted path: the text between the first `"` and the next one.
pub fn parse_quoted_path(s: &str) -> (r: Result<String, MdsError>)
    ensures
        r matches Ok(p) ==> !utf8(p@).contains(34u8),
        r matches Ok(p) ==> quoted_path_spec(s.spec_bytes()) == Ok::<Seq<char>, Seq<char>>(p@),
        r matches Err(e) ==> quoted_path_spec(s.spec_bytes()) is Err
            && syntax_error(e, quoted_path_spec(s.spec_bytes())->Err_0),
{
    let t = trim_str(s);
    let ts = t.as_str();
    let b = ts.as_bytes();
    proof { encode_utf8_decode_utf8(t@); }
    if b.len() == 0 || b[0] != 34 {
        return Err(err(msg2("expected quoted path, got: ", ts)));
    }
    proof { lemma_str_valid(ts); }
    let end = find_byte(b, 34, 1);
    if end >= b.len() {
        return Err(err(String::from_str("unclosed quote in path")));
    }
    let p = between(ts, 0, end);
    proof {
        encode_utf8_decode_utf8(p@);
        if utf8(p@).contains(34u8) {
            let k = choose|k: int| 0 <= k < utf8(p@).len() && utf8(p@)[k] == 34u8;
            assert(b@[1 + k] == 34u8);
        }
    }
    Ok(p)
}

/// `directive` is `keyword` alone or followed by a space, a tab or `{`.
pub fn is_directive_token(directive: &str, keyword: &str) -> (r: bool)
    ensures
        r == (directive@ == keyword@ || (keyword.spec_bytes().len() < directive.spec_bytes().len()
            && directive.spec_bytes().subrange(0, keyword.spec_bytes().len() as int) == keyword.spec_bytes()
            && (directive.spec_bytes()[keyword.spec_bytes().len() as int] == 32u8
                || directive.spec_bytes()[keyword.spec_bytes().len() as int] == 9u8
                || directive.spec_bytes()[keyword.spec_bytes().len() as int] == 123u8))),
{
    if str_eq(directive, keyword) {
        return true;
    }
    let d = directive.as_bytes();
    let k = keyword.as_bytes().len();
    if !starts_with(directive, keyword) || k >= d.len() {
        return false;
    }
    let c = d[k];
    c == 32 || c == 9 || c == 123
}

/// The byte length of the leading run of copies of `kw` in `b` from `i`.
/// Where the leading run of copies of `kw` in `b` from `i` ends.
pub open spec fn skip_kw(b: Seq<u8>, i: int, kw: Seq<u8>) -> int
    decreases b.len() - i,
{
    if kw.len() == 0 || i < 0 || b.len() - i < kw.len() {
        i
    } else if b.subrange(i, i + kw.len()) == kw {
        skip_kw(b, i + kw.len(), kw)
    } else {
        i
    }
}

/// The text after the keyword(s) `kw` at the start of the directive `d`, trimmed,
/// and the position where it starts.
pub open spec fn rest_spec(d: Seq<u8>, kw: Seq<u8>) -> (Seq<u8>, int) {
    let p0 = skip_kw(d, 0, kw);
    let tail = d.subrange(p0, d.len() as int);
    if p0 > 0 && p0 < d.len() && is_cont(d[p0]) {
        (trimmed(d), 0)
    } else {
        (trimmed(tail), p0 + crate::text::trim_lo(tail))
    }
}

fn skip_keywords(b: &[u8], i: usize, kw: &[u8]) -> (r: usize)
    requires
        i <= b@.len(),
    ensures
        i <= r <= b@.len(),
        r == skip_kw(b@, i as int, kw@),
    decreases b@.len() - i,
{
    let n = b.len();
    let k = kw.len();
    if k == 0 || n - i < k {
        return i;
    }
    let mut j: usize = 0;
    while j < k
        invariant
            j <= k == kw@.len(),
            i + k <= n == b@.len(),
            b@.subrange(i as int, i + j) == kw@.subrange(0, j as int),
        decreases k - j,
    {
        if b[i + j] != kw[j] {
            assert(b@.subrange(i as int, i + k)[j as int] != kw@[j as int]);
            return i;
        }
        assert(b@.subrange(i as int, i + j + 1) =~= b@.subrange(i as int, i + j).push(b@[i + j]));
        assert(kw@.subrange(0, j + 1) =~= kw@.subrange(0, j as int).push(kw@[j as int]));
        j = j + 1;
    }
    assert(kw@.subrange(0, k as int) =~= kw@);
    skip_keywords(b, i + k, kw)
}

/// The directive text after its keyword(s) and surrounding white space, with the
/// position where it starts.
fn directive_rest(d: &str, kw: &str) -> (r: (String, usize))
    ensures
        utf8(r.0@) == rest_spec(d.spec_bytes(), kw.spec_bytes()).0,
        r.1 == rest_spec(d.spec_bytes(), kw.spec_bytes()).1,
{
    let b = d.as_bytes();
    proof { lemma_str_valid(d); }
    let p0 = skip_keywords(b, 0, kw.as_bytes());
    if p0 > 0 && p0 < b.len() && 0x80 <= b[p0] && b[p0] <= 0xbf {
        return (trim_str(d), 0);
    }
    let tail = tail_from(d, p0);
    let ts = tail.as_str();
    proof { lemma_str_valid(ts); }
    let (a, z) = trim_range(ts.as_bytes());
    let rest = substring(ts, a, z);
    (rest, p0 + a)
}

/// The position after `prefix` at the start of `s`, if `s` starts with it.
fn after_prefix(s: &str, prefix: &str) -> (r: Option<String>)
    ensures
        r is Some <==> strip_prefix_spec(s.spec_bytes(), prefix.spec_bytes()) is Some,
        r matches Some(t) ==> strip_prefix_spec(s.spec_bytes(), prefix.spec_bytes()) == Some(utf8(t@)),
{
    strip_prefix(s, prefix)
}

/// What an `@import` directive declares, each text by its characters.
pub enum ImportShape {
    Alias { path: Seq<char>, alias: Seq<char>, offset: usize },
    Merge { path: Seq<char>, offset: usize },
    Selective { names: Seq<Seq<char>>, name_offsets: Seq<usize>, path: Seq<char>, offset: usize },
    Other,
}

/// The characters of each string.
pub open spec fn strs_view(v: Seq<String>) -> Seq<Seq<char>> {
    Seq::new(v.len(), |i: int| v[i]@)
}

/// The import a node declares.
pub open spec fn import_shape(n: Node) -> ImportShape {
    match n {
        Node::Import(ImportDirective::Alias { path, alias, offset }) => ImportShape::Alias { path: path@, alias: alias@, offset },
        Node::Import(ImportDirective::Merge { path, offset }) => ImportShape::Merge { path: path@, offset },
        Node::Import(ImportDirective::Selective { names, name_offsets, path, offset }) =>
            ImportShape::Selective { names: strs_view(names@), name_offsets: name_offsets@, path: path@, offset },
        _ => ImportShape::Other,
    }
}

/// The names of a selective import, from piece `i` of the comma-separated `ps` on
/// (piece `i` starting `piece_start` bytes after the text at `base`): each piece
/// trimmed, empty ones skipped, each with the position of its first byte; or the
/// error message on the first piece that is not an identifier.
pub open spec fn import_names(ps: Seq<Seq<u8>>, i: int, piece_start: usize, base: usize)
    -> Result<(Seq<Seq<char>>, Seq<usize>), Seq<char>>
    decreases ps.len() - i,
{
    if i < 0 || i >= ps.len() {
        Ok((Seq::empty(), Seq::empty()))
    } else {
        let p = ps[i];
        let name = trimmed(p);
        let next = piece_start.wrapping_add(p.len() as usize).wrapping_add(1);
        if name.len() > 0 && !is_ident(name) {
            Err("invalid import name: '"@ + decode_utf8(name) + "'"@)
        } else {
            match import_names(ps, i + 1, next, base) {
                Err(m) => Err(m),
                Ok((ns, os)) => if name.len() > 0 {
                    Ok((seq![decode_utf8(name)] + ns,
                        seq![base.wrapping_add(piece_start).wrapping_add(crate::text::trim_lo(p) as usize)] + os))
                } else {
                    Ok((ns, os))
                },
            }
        }
    }
}

/// `r` with the names `ns` and offsets `os` put in front of its own.
pub open spec fn prepend_names(ns: Seq<Seq<char>>, os: Seq<usize>, r: Result<(Seq<Seq<char>>, Seq<usize>), Seq<char>>)
    -> Result<(Seq<Seq<char>>, Seq<usize>), Seq<char>>
{
    match r {
        Ok((a, b)) => Ok((ns + a, os + b)),
        Err(m) => Err(m),
    }
}

/// The selective import `{ a, b } from "path"` in the trimmed rest `rs` of the
/// directive (which starts `rest_pos` bytes into it, at `offset`).
pub open spec fn selective_spec(rs: Seq<u8>, rest_pos: usize, offset: usize) -> Result<ImportShape, Seq<char>> {
    let brace_end = index_of(rs, 125u8, 0);
    if brace_end >= rs.len() {
        Err("unclosed { in selective import"@)
    } else {
        let ps = pieces_from(rs.subrange(1, brace_end), 7u8, 0);
        match import_names(ps, 0, 1, offset.wrapping_add(rest_pos)) {
            Err(m) => Err(m),
            Ok((ns, os)) => {
                let tail = trimmed(rs.subrange(brace_end + 1, rs.len() as int));
                let pp = match strip_prefix_spec(tail, "from ".spec_bytes()) {
                    Some(p) => Some(p),
                    None => strip_prefix_spec(tail, "from\t".spec_bytes()),
                };
                match pp {
                    None => Err("selective import requires 'from' keyword"@),
                    Some(p) => match quoted_path_spec(p) {
                        Err(m) => Err(m),
                        Ok(path) => Ok(ImportShape::Selective { names: ns, name_offsets: os, path, offset }),
                    },
                }
            },
        }
    }
}

/// The import `"path" as alias` or `"path"` in the trimmed rest `rs` of the directive.
pub open spec fn path_import_spec(rs: Seq<u8>, offset: usize) -> Result<ImportShape, Seq<char>> {
    match quoted_path_spec(rs) {
        Err(m) => Err(m),
        Ok(path) => {
            let close = if rs.len() > 0 { index_of(rs, 34u8, 1) } else { 0 };
            let tail = trimmed(if close < rs.len() { rs.subrange(close + 1, rs.len() as int) } else { Seq::empty() });
            match strip_prefix_spec(tail, "as ".spec_bytes()) {
                Some(al) => {
                    let alias = trimmed(al);
                    if !is_ident(alias) {
                        Err("invalid import alias: '"@ + decode_utf8(alias) + "'"@)
                    } else {
                        Ok(ImportShape::Alias { path, alias: decode_utf8(alias), offset })
                    }
                },
                None => if tail.len() == 0 {
                    Ok(ImportShape::Merge { path, offset })
                } else {
                    Err("unexpected text after import path: '"@ + decode_utf8(tail) + "'"@)
                },
            }
        },
    }
}

/// An `@import` directive (the bytes `d`, at `offset`): `{ a, b } from "path"`,
/// `"path" as alias` or `"path"`; or the error message.
pub open spec fn import_spec(d: Seq<u8>, offset: usize) -> Result<ImportShape, Seq<char>> {
    let (rs, rest_pos) = rest_spec(d, "@import".spec_bytes());
    if rs.len() > 0 && rs[0] == 123u8 {
        selective_spec(rs, rest_pos as usize, offset)
    } else {
        path_import_spec(rs, offset)
    }
}

/// Parse an `@import` directive at `offset`: `@import "path" as alias`, `@import "path"`
/// or `@import { a, b } from "path"`.
pub fn parse_import_directive(directive: &str, offset: usize) -> (r: Result<Node, MdsError>)
    ensures
        r matches Ok(n) ==> import_spec(directive.spec_bytes(), offset) == Ok::<ImportShape, Seq<char>>(import_shape(n)),
        r matches Err(e) ==> import_spec(directive.spec_bytes(), offset) is Err
            && syntax_error(e, import_spec(directive.spec_bytes(), offset)->Err_0),
        r matches Ok(n) ==> n is Import,
        r matches Ok(Node::Import(ImportDirective::Alias { alias, offset: o, .. })) ==> is_ident(utf8(alias@)) && o == offset,
        r matches Ok(Node::Import(ImportDirective::Merge { offset: o, .. })) ==> o == offset,
        r matches Ok(Node::Import(ImportDirective::Selective { names, name_offsets, offset: o, .. })) ==> o == offset
            && names@.len() == name_offsets@.len()
            && forall|k: int| 0 <= k < names@.len() ==> is_ident(utf8(#[trigger] names@[k]@)),
{
    let (rest, rest_pos) = directive_rest(directive, "@import");
    let rs = rest.as_str();
    let rb = rs.as_bytes();
    if rb.len() > 0 && rb[0] == 123 {
        return parse_selective_import(rs, rest_pos, offset);
    }
    parse_path_import(rs, offset)
}

/// The selective import `{ a, b } from "path"` in the trimmed rest `rs` of an
/// `@import` directive at `offset`, which starts `rest_pos` bytes into it.
#[verifier::rlimit(100)]
#[verifier::spinoff_prover]
fn parse_selective_import(rs: &str, rest_pos: usize, offset: usize) -> (r: Result<Node, MdsError>)
    requires
        rs.spec_bytes().len() > 0,
        rs.spec_bytes()[0] == 123u8,
    ensures
        r matches Ok(n) ==> n is Import,
        r matches Ok(Node::Import(ImportDirective::Selective { names, name_offsets, offset: o, .. })) ==> o == offset
            && names@.len() == name_offsets@.len()
            && forall|k: int| 0 <= k < names@.len() ==> is_ident(utf8(#[trigger] names@[k]@)),
        r matches Ok(n) ==> selective_spec(rs.spec_bytes(), rest_pos, offset) == Ok::<ImportShape, Seq<char>>(import_shape(n)),
        r matches Err(e) ==> selective_spec(rs.spec_bytes(), rest_pos, offset) is Err
            && syntax_error(e, selective_spec(rs.spec_bytes(), rest_pos, offset)->Err_0),
{
    let rb = rs.as_bytes();
    proof { lemma_str_valid(rs); }
    let brace_end = find_byte(rb, 125, 0);
    if brace_end >= rb.len() {
        return Err(err(String::from_str("unclosed { in selective import")));
    }
    let names_str = if brace_end > 1 { between(rs, 0, brace_end) } else { String::new() };
    assert(utf8(names_str@) =~= rb@.subrange(1, brace_end as int));
    let pieces = split_at_matches(names_str.as_str(), 7);
    let ghost ps = pieces_from(rb@.subrange(1, brace_end as int), 7u8, 0);
    let (names, name_offsets) = import_names_of(&pieces, Ghost(ps), offset.wrapping_add(rest_pos))?;
    let tail = after(rs, brace_end);
    let tail = trim_str(tail.as_str());
    let path_part = match after_prefix(tail.as_str(), "from ") {
        Some(p) => p,
        None => match after_prefix(tail.as_str(), "from\t") {
            Some(p) => p,
            None => return Err(err(String::from_str("selective import requires 'from' keyword"))),
        },
    };
    let path = parse_quoted_path(path_part.as_str())?;
    let r = Node::Import(ImportDirective::Selective { names, name_offsets, path, offset });
    Ok(r)
}

/// The names of a selective import from its comma-separated pieces (`ps` by
/// bytes), with the position of each, the text starting at `base`.
#[verifier::rlimit(100)]
#[verifier::spinoff_prover]
fn import_names_of(pieces: &Vec<String>, Ghost(ps): Ghost<Seq<Seq<u8>>>, base: usize)
    -> (r: Result<(Vec<String>, Vec<usize>), MdsError>)
    requires
        pieces@.len() == ps.len(),
        forall|k: int| 0 <= k < pieces@.len() ==> utf8(#[trigger] pieces@[k]@) == ps[k],
    ensures
        r matches Ok((ns, os)) ==> ns@.len() == os@.len()
            && (forall|k: int| 0 <= k < ns@.len() ==> is_ident(utf8(#[trigger] ns@[k]@)))
            && import_names(ps, 0, 1, base) == Ok::<(Seq<Seq<char>>, Seq<usize>), Seq<char>>((strs_view(ns@), os@)),
        r matches Err(e) ==> import_names(ps, 0, 1, base) is Err && syntax_error(e, import_names(ps, 0, 1, base)->Err_0),
{
    let mut names: Vec<String> = Vec::new();
    let mut name_offsets: Vec<usize> = Vec::new();
    let mut piece_start: usize = 1;
    let mut i: usize = 0;
    while i < pieces.len()
        invariant
            i <= pieces@.len() == ps.len(),
            names@.len() == name_offsets@.len(),
            forall|k: int| 0 <= k < names@.len() ==> is_ident(utf8(#[trigger] names@[k]@)),
            forall|k: int| 0 <= k < pieces@.len() ==> utf8(#[trigger] pieces@[k]@) == ps[k],
            import_names(ps, 0, 1, base) == prepend_names(strs_view(names@), name_offsets@, import_names(ps, i as int, piece_start, base)),
        decreases pieces@.len() - i,
    {
        let piece = pieces[i].as_str();
        proof { lemma_str_valid(piece); }
        let (a, z) = trim_range(piece.as_bytes());
        let name = substring(piece, a, z);
        proof { encode_utf8_decode_utf8(name@); }
        let ghost here = import_names(ps, i as int, piece_start, base);
        let plen = piece.as_bytes().len();
        let next = piece_start.wrapping_add(plen).wrapping_add(1);
        let ghost rest_r = import_names(ps, i + 1, next, base);
        if a < z {
            if !is_valid_identifier(name.as_str()) {
                proof {
                    assert(piece.spec_bytes() == ps[i as int]);
                    assert(trimmed(ps[i as int]) == utf8(name@));
                    assert(here == Err::<(Seq<Seq<char>>, Seq<usize>), Seq<char>>("invalid import name: '"@ + name@ + "'"@));
                }
                return Err(err(msg3("invalid import name: '", name.as_str(), "'")));
            }
            let pos = base.wrapping_add(piece_start).wrapping_add(a);
            let ghost nv = strs_view(names@);
            let ghost ov = name_offsets@;
            names.push(name);
            name_offsets.push(pos);
            proof {
                assert(strs_view(names@) =~= nv.push(name@));
                assert(name_offsets@ =~= ov.push(pos));
                match rest_r {
                    Ok((x, y)) => {
                        assert(nv + (seq![name@] + x) =~= nv.push(name@) + x);
                        assert(ov + (seq![pos] + y) =~= ov.push(pos) + y);
                    },
                    Err(m) => {},
                }
            }
        } else {
            proof {
                assert(here == rest_r);
            }
        }
        piece_start = next;
        i = i + 1;
    }
    proof {
        assert(import_names(ps, i as int, piece_start, base) == Ok::<(Seq<Seq<char>>, Seq<usize>), Seq<char>>((Seq::empty(), Seq::empty())));
        assert(strs_view(names@) + Seq::<Seq<char>>::empty() =~= strs_view(names@));
        assert(name_offsets@ + Seq::<usize>::empty() =~= name_offsets@);
    }
    Ok((names, name_offsets))
}

/// The import `"path" as alias` or `"path"` in the trimmed rest `rs` of an
/// `@import` directive at `offset`.
fn parse_path_import(rs: &str, offset: usize) -> (r: Result<Node, MdsError>)
    ensures
        r matches Ok(n) ==> n is Import,
        r matches Ok(Node::Import(ImportDirective::Alias { alias, offset: o, .. })) ==> is_ident(utf8(alias@)) && o == offset,
        r matches Ok(Node::Import(ImportDirective::Merge { offset: o, .. })) ==> o == offset,
        r matches Ok(n) ==> path_import_spec(rs.spec_bytes(), offset) == Ok::<ImportShape, Seq<char>>(import_shape(n)),
        r matches Err(e) ==> path_import_spec(rs.spec_bytes(), offset) is Err
            && syntax_error(e, path_import_spec(rs.spec_bytes(), offset)->Err_0),
{
    let rb = rs.as_bytes();
    proof { lemma_str_valid(rs); }
    let path = parse_quoted_path(rs)?;
    // After the closing quote of the path.
    let close = if rb.len() > 0 { find_byte(rb, 34, 1) } else { 0 };
    let tail = if close < rb.len() { after(rs, close) } else { String::new() };
    assert(utf8(tail@) =~= (if close < rb@.len() { rb@.subrange(close + 1, rb@.len() as int) } else { Seq::empty() }));
    let tail = trim_str(tail.as_str());
    proof { encode_utf8_decode_utf8(tail@); }
    if let Some(alias) = after_prefix(tail.as_str(), "as ") {
        let alias = trim_str(alias.as_str());
        proof { encode_utf8_decode_utf8(alias@); }
        if !is_valid_identifier(alias.as_str()) {
            return Err(err(msg3("invalid import alias: '", alias.as_str(), "'")));
        }
        return Ok(Node::Import(ImportDirective::Alias { path, alias, offset }));
    }
    if tail.as_str().as_bytes().len() == 0 {
        return Ok(Node::Import(ImportDirective::Merge { path, offset }));
    }
    Err(err(msg3("unexpected text after import path: '", tail.as_str(), "'")))
}

/// What an `@export` directive declares, each text by its characters.
pub enum ExportShape {
    Named { name: Seq<char>, offset: usize },
    ReExport { name: Seq<char>, path: Seq<char>, offset: usize },
    Wildcard { path: Seq<char>, offset: usize },
    Other,
}

/// The export a node declares.
pub open spec fn export_shape(n: Node) -> ExportShape {
    match n {
        Node::Export(ExportDirective::Named { name, offset }) => ExportShape::Named { name: name@, offset },
        Node::Export(ExportDirective::ReExport { name, path, offset }) => ExportShape::ReExport { name: name@, path: path@, offset },
        Node::Export(ExportDirective::Wildcard { path, offset }) => ExportShape::Wildcard { path: path@, offset },
        _ => ExportShape::Other,
    }
}

/// An `@export` directive (the bytes `d`, at `offset`): `* from "path"` (or
/// `*from "path"`), `name from "path"` (split at the first two spaces), or a bare
/// name; or the error message.
pub open spec fn export_spec(d: Seq<u8>, offset: usize) -> Result<ExportShape, Seq<char>> {
    let rs = rest_spec(d, "@export".spec_bytes()).0;
    let wild = match strip_prefix_spec(rs, "* from ".spec_bytes()) {
        Some(p) => Some(p),
        None => strip_prefix_spec(rs, "*from ".spec_bytes()),
    };
    let sp1 = index_of(rs, 32u8, 0);
    let sp2 = index_of(rs, 32u8, sp1 + 1);
    let name = trimmed(rs);
    if wild is Some {
        match quoted_path_spec(wild->0) {
            Ok(p) => Ok(ExportShape::Wildcard { path: p, offset }),
            Err(m) => Err(m),
        }
    } else if sp1 < rs.len() && sp2 < rs.len() && decode_utf8(rs.subrange(sp1 + 1, sp2)) == "from"@ {
        let n = rs.subrange(0, sp1);
        if !is_ident(n) {
            Err("invalid re-export name: '"@ + decode_utf8(n) + "'"@)
        } else {
            match quoted_path_spec(rs.subrange(sp2 + 1, rs.len() as int)) {
                Ok(p) => Ok(ExportShape::ReExport { name: decode_utf8(n), path: p, offset }),
                Err(m) => Err(m),
            }
        }
    } else if name.len() == 0 {
        Err("@export requires a name"@)
    } else if !is_ident(name) {
        Err("invalid export name: '"@ + decode_utf8(name) + "'"@)
    } else {
        Ok(ExportShape::Named { name: decode_utf8(name), offset })
    }
}

/// Parse an `@export` directive at `offset`: `@export name`, `@export name from "path"`
/// or `@export * from "path"`.
#[verifier::rlimit(40)]
pub fn parse_export_directive(directive: &str, offset: usize) -> (r: Result<Node, MdsError>)
    ensures
        r matches Ok(n) ==> n is Export,
        r matches Ok(Node::Export(ExportDirective::Named { name, offset: o })) ==> is_ident(utf8(name@)) && o == offset,
        r matches Ok(Node::Export(ExportDirective::ReExport { name, offset: o, .. })) ==> is_ident(utf8(name@)) && o == offset,
        r matches Ok(Node::Export(ExportDirective::Wildcard { offset: o, .. })) ==> o == offset,
        r matches Ok(n) ==> export_spec(directive.spec_bytes(), offset) == Ok::<ExportShape, Seq<char>>(export_shape(n)),
        r matches Err(e) ==> export_spec(directive.spec_bytes(), offset) is Err
            && syntax_error(e, export_spec(directive.spec_bytes(), offset)->Err_0),
{
    let (rest, _pos) = directive_rest(directive, "@export");
    let rs = rest.as_str();
    proof { encode_utf8_decode_utf8(rest@); }
    let wild = match after_prefix(rs, "* from ") {
        Some(p) => Some(p),
        None => after_prefix(rs, "*from "),
    };
    if let Some(from_part) = wild {
        let path = parse_quoted_path(from_part.as_str())?;
        return Ok(Node::Export(ExportDirective::Wildcard { path, offset }));
    }
    let rb = rs.as_bytes();
    let sp1 = find_byte(rb, 32, 0);
    if sp1 < rb.len() {
        let sp2 = find_byte(rb, 32, sp1 + 1);
        if sp2 < rb.len() {
            let mid = between(rs, sp1, sp2);
            proof { encode_utf8_decode_utf8(mid@); }
            if is(mid.as_str(), "from") {
                let name = before(rs, sp1);
                proof { encode_utf8_decode_utf8(name@); }
                if !is_valid_identifier(name.as_str()) {
                    return Err(err(msg3("invalid re-export name: '", name.as_str(), "'")));
                }
                let path_part = after(rs, sp2);
                let path = parse_quoted_path(path_part.as_str())?;
                return Ok(Node::Export(ExportDirective::ReExport { name, path, offset }));
            }
        }
    }
    let name = trim_str(rs);
    proof { encode_utf8_decode_utf8(name@); }
    if name.as_str().as_bytes().len() == 0 {
        return Err(err(String::from_str("@export requires a name")));
    }
    if !is_valid_identifier(name.as_str()) {
        return Err(err(msg3("invalid export name: '", name.as_str(), "'")));
    }
    Ok(Node::Export(ExportDirective::Named { name, offset }))
}

/// The loop variables of `@for` in the bytes `v`: `item`, or `key, value` split at
/// the first comma and trimmed; or the error message.
pub open spec fn for_vars_spec(v: Seq<u8>) -> Result<(Option<Seq<char>>, Seq<char>), Seq<char>> {
    let c = index_of(v, 44u8, 0);
    if c < v.len() {
        let key = trimmed(v.subrange(0, c));
        let val = trimmed(v.subrange(c + 1, v.len() as int));
        if !is_ident(key) {
            Err("invalid key variable name: '"@ + decode_utf8(key) + "'"@)
        } else if !is_ident(val) {
            Err("invalid value variable name: '"@ + decode_utf8(val) + "'"@)
        } else {
            Ok((Some(decode_utf8(key)), decode_utf8(val)))
        }
    } else if !is_ident(v) {
        Err("invalid loop variable name: '"@ + decode_utf8(v) + "'"@)
    } else {
        Ok((None, decode_utf8(v)))
    }
}

/// The loop variables of `@for`: `item` or `key, value`.
pub fn parse_for_vars(var_part: &str) -> (r: Result<(Option<String>, String), MdsError>)
    ensures
        r matches Ok((k, v)) ==> is_ident(utf8(v@)) && (k matches Some(kk) ==> is_ident(utf8(kk@))),
        r matches Ok((k, v)) ==> for_vars_spec(var_part.spec_bytes())
            == Ok::<(Option<Seq<char>>, Seq<char>), Seq<char>>((crate::rules::common::opt_chars(k), v@)),
        r matches Err(e) ==> for_vars_spec(var_part.spec_bytes()) is Err
            && syntax_error(e, for_vars_spec(var_part.spec_bytes())->Err_0),
{
    proof { encode_utf8_decode_utf8(var_part@); }
    if let Some(c) = find_opt(var_part, 44) {
        let key = trim_str(before(var_part, c).as_str());
        let val = trim_str(after(var_part, c).as_str());
        proof {
            encode_utf8_decode_utf8(key@);
            encode_utf8_decode_utf8(val@);
        }
        if !is_valid_identifier(key.as_str()) {
            return Err(err(msg3("invalid key variable name: '", key.as_str(), "'")));
        }
        if !is_valid_identifier(val.as_str()) {
            return Err(err(msg3("invalid value variable name: '", val.as_str(), "'")));
        }
        return Ok((Some(key), val));
    }
    if !is_valid_identifier(var_part) {
        return Err(err(msg3("invalid loop variable name: '", var_part, "'")));
    }
    Ok((None, var_part.to_owned()))
}

/// Each piece trimmed.
pub open spec fn trimmed_each(ps: Seq<Seq<u8>>) -> Seq<Seq<u8>> {
    Seq::new(ps.len(), |i: int| trimmed(ps[i]))
}

/// The items of a comma-separated list: its pieces between the commas outside
/// string literals, each trimmed, a last one that is empty dropped.
pub open spec fn comma_items(s: Seq<u8>) -> Seq<Seq<u8>> {
    let ts = trimmed_each(pieces_from(s, 7u8, 0));
    if ts.len() > 0 && ts.last().len() == 0 { ts.drop_last() } else { ts }
}

/// Split a parameter list on the commas outside string literals, trimming each piece;
/// a last piece that is empty is dropped.
fn split_on_unquoted_commas(s: &str) -> (r: Vec<String>)
    ensures
        r@.len() == comma_items(s.spec_bytes()).len(),
        forall|k: int| 0 <= k < r@.len() ==> utf8(#[trigger] r@[k]@) == comma_items(s.spec_bytes())[k],
{
    let pieces = split_at_matches(s, 7);
    let ghost ps = pieces_from(s.spec_bytes(), 7u8, 0);
    let ghost ts = trimmed_each(ps);
    let mut out: Vec<String> = Vec::new();
    let mut i: usize = 0;
    while i < pieces.len()
        invariant
            i <= pieces@.len() == ps.len() == ts.len(),
            ps == pieces_from(s.spec_bytes(), 7u8, 0),
            ts == trimmed_each(ps),
            forall|k: int| 0 <= k < pieces@.len() ==> utf8(#[trigger] pieces@[k]@) == ps[k],
            forall|k: int| 0 <= k < out@.len() ==> utf8(#[trigger] out@[k]@) == ts[k],
            out@.len() == (if i == pieces@.len() && i > 0 && ts.last().len() == 0 { i - 1 } else { i as int }),
        decreases pieces@.len() - i,
    {
        let t = trim_str(pieces[i].as_str());
        assert(utf8(t@) == ts[i as int]);
        if !(i + 1 == pieces.len() && t.as_str().as_bytes().len() == 0) {
            out.push(t);
        }
        i = i + 1;
    }
    proof {
        let c = comma_items(s.spec_bytes());
        if ts.len() > 0 && ts.last().len() == 0 {
            assert(c =~= ts.drop_last());
        } else {
            assert(c =~= ts);
        }
    }
    out
}

/// Whether `names` holds `name`.
fn contains_name(names: &Vec<String>, name: &str) -> (r: bool)
    ensures
        r == exists|k: int| 0 <= k < names@.len() && #[trigger] names@[k]@ == name@,
{
    let mut i: usize = 0;
    while i < names.len()
        invariant
            i <= names@.len(),
            forall|k: int| 0 <= k < i ==> #[trigger] names@[k]@ != name@,
        decreases names@.len() - i,
    {
        if str_eq(names[i].as_str(), name) {
            return true;
        }
        i = i + 1;
    }
    false
}

/// A parameter's name is an identifier and its default, if any, a literal.
pub open spec fn param_ok(p: Param) -> bool {
    is_ident(utf8(p.name@)) && (p.default matches Some(d) ==> is_literal_expr(d))
}

/// A parameter: its name and the shape of its default.
pub open spec fn param_shape(p: Param) -> (Seq<char>, Option<ExprShape>) {
    (p.name@, match p.default { Some(d) => Some(expr_shape(d)), None => None })
}

/// The shapes of a list of parameters.
pub open spec fn params_shape(v: Seq<Param>) -> Seq<(Seq<char>, Option<ExprShape>)> {
    Seq::new(v.len(), |i: int| param_shape(v[i]))
}

/// One parameter item `tok` (trimmed, not empty): `name = literal` split at the
/// first `=` outside strings not followed by `=`, or a bare name (which may not
/// follow a parameter with a default); with whether a default has been seen.
pub open spec fn param_item(tok: Seq<u8>, seen_default: bool, fn_name: Seq<char>)
    -> Result<((Seq<char>, Option<ExprShape>), bool), Seq<char>>
{
    let eq = first_match(tok, 2u8, 0);
    if eq < tok.len() {
        let lhs = trimmed(tok.subrange(0, eq));
        let rhs = trimmed(tok.subrange(eq + 1, tok.len() as int));
        if !is_ident(lhs) {
            Err("invalid parameter name: '"@ + decode_utf8(lhs) + "'"@)
        } else {
            match cond_value_spec(rhs) {
                Err(_) => Err("invalid default value for parameter '"@ + decode_utf8(lhs) + "': '"@ + decode_utf8(rhs)
                    + "' — must be a string, number, boolean, or null"@),
                Ok(v) => Ok(((decode_utf8(lhs), Some(v)), true)),
            }
        }
    } else if !is_ident(tok) {
        Err("invalid parameter name: '"@ + decode_utf8(tok) + "'"@)
    } else if seen_default {
        Err("required parameter '"@ + decode_utf8(tok) + "' cannot follow an optional parameter in @define "@ + fn_name)
    } else {
        Ok(((decode_utf8(tok), None), seen_default))
    }
}

/// The parameters of the items from `i` on, after the names `seen`: empty items
/// skipped, a repeated name refused.
pub open spec fn params_from(items: Seq<Seq<u8>>, i: int, seen: Seq<Seq<char>>, seen_default: bool, fn_name: Seq<char>)
    -> Result<Seq<(Seq<char>, Option<ExprShape>)>, Seq<char>>
    decreases items.len() - i,
{
    if i < 0 || i >= items.len() {
        Ok(Seq::empty())
    } else {
        let tok = trimmed(items[i]);
        if tok.len() == 0 {
            params_from(items, i + 1, seen, seen_default, fn_name)
        } else {
            match param_item(tok, seen_default, fn_name) {
                Err(m) => Err(m),
                Ok((p, sd)) => if seen.contains(p.0) {
                    Err("duplicate parameter name '"@ + p.0 + "' in @define "@ + fn_name)
                } else {
                    match params_from(items, i + 1, seen.push(p.0), sd, fn_name) {
                        Err(m) => Err(m),
                        Ok(rest) => Ok(seq![p] + rest),
                    }
                },
            }
        }
    }
}

/// `r` with the parameters `ps` put in front of its own.
pub open spec fn prepend_params(ps: Seq<(Seq<char>, Option<ExprShape>)>, r: Result<Seq<(Seq<char>, Option<ExprShape>)>, Seq<char>>)
    -> Result<Seq<(Seq<char>, Option<ExprShape>)>, Seq<char>>
{
    match r {
        Ok(rest) => Ok(ps + rest),
        Err(m) => Err(m),
    }
}

/// The parameter list of `@define fn_name(...)` (the bytes `s`), or the error message.
pub open spec fn define_params_spec(s: Seq<u8>, fn_name: Seq<char>) -> Result<Seq<(Seq<char>, Option<ExprShape>)>, Seq<char>> {
    params_from(comma_items(s), 0, Seq::empty(), false, fn_name)
}

/// One parameter item `ts` (trimmed, not empty), with whether a default has been
/// seen before it; gives the parameter and whether a default has been seen after it.
fn parse_param_item(ts: &str, seen_default: bool, fn_name: &str) -> (r: Result<(Param, bool), MdsError>)
    requires
        ts.spec_bytes().len() > 0,
    ensures
        r matches Ok((p, sd)) ==> param_ok(p)
            && param_item(ts.spec_bytes(), seen_default, fn_name@)
                == Ok::<((Seq<char>, Option<ExprShape>), bool), Seq<char>>((param_shape(p), sd)),
        r matches Err(e) ==> param_item(ts.spec_bytes(), seen_default, fn_name@) is Err
            && syntax_error(e, param_item(ts.spec_bytes(), seen_default, fn_name@)->Err_0),
{
    proof { encode_utf8_decode_utf8(ts@); }
    if let Some(eq) = find_unquoted_equals(ts) {
        proof {
            crate::scan::lemma_first_match_bounds(ts.spec_bytes(), 2, 0);
        }
        let lhs = trim_str(before(ts, eq).as_str());
        let rhs = trim_str(after(ts, eq).as_str());
        proof {
            encode_utf8_decode_utf8(lhs@);
            encode_utf8_decode_utf8(rhs@);
        }
        if !is_valid_identifier(lhs.as_str()) {
            return Err(err(msg3("invalid parameter name: '", lhs.as_str(), "'")));
        }
        let default = match parse_cond_value(rhs.as_str()) {
            Ok(v) => v,
            Err(_) => {
                let mut m = msg3("invalid default value for parameter '", lhs.as_str(), "': '");
                m.append(rhs.as_str());
                m.append("' — must be a string, number, boolean, or null");
                return Err(err(m));
            },
        };
        return Ok((Param { name: lhs, default: Some(default) }, true));
    }
    if !is_valid_identifier(ts) {
        return Err(err(msg3("invalid parameter name: '", ts, "'")));
    }
    if seen_default {
        let mut m = msg3("required parameter '", ts, "' cannot follow an optional parameter in @define ");
        m.append(fn_name);
        return Err(err(m));
    }
    Ok((Param { name: ts.to_owned(), default: None }, seen_default))
}

/// Parse the parameter list of `@define fn_name(...)`: `name` or `name = literal`;
/// required parameters come first and no name repeats.
#[verifier::rlimit(100)]
#[verifier::spinoff_prover]
pub fn parse_define_params(params_str: &str, fn_name: &str) -> (r: Result<Vec<Param>, MdsError>)
    ensures
        r matches Ok(ps) ==> forall|k: int| 0 <= k < ps@.len() ==> param_ok(#[trigger] ps@[k]),
        r matches Ok(ps) ==> forall|i: int, j: int| 0 <= i < j < ps@.len() ==> (#[trigger] ps@[i]).name@ != (#[trigger] ps@[j]).name@,
        r matches Ok(ps) ==> define_params_spec(params_str.spec_bytes(), fn_name@)
            == Ok::<Seq<(Seq<char>, Option<ExprShape>)>, Seq<char>>(params_shape(ps@)),
        r matches Err(e) ==> define_params_spec(params_str.spec_bytes(), fn_name@) is Err
            && syntax_error(e, define_params_spec(params_str.spec_bytes(), fn_name@)->Err_0),
{
    let tokens = split_on_unquoted_commas(params_str);
    let ghost items = comma_items(params_str.spec_bytes());
    let ghost whole = define_params_spec(params_str.spec_bytes(), fn_name@);
    let mut params: Vec<Param> = Vec::new();
    let mut seen: Vec<String> = Vec::new();
    let mut seen_default = false;
    let mut i: usize = 0;
    assert(strs_view(seen@) =~= Seq::<Seq<char>>::empty());
    assert(params_shape(params@) + Seq::<(Seq<char>, Option<ExprShape>)>::empty() =~= Seq::<(Seq<char>, Option<ExprShape>)>::empty());
    while i < tokens.len()
        invariant
            i <= tokens@.len() == items.len(),
            forall|k: int| 0 <= k < tokens@.len() ==> utf8(#[trigger] tokens@[k]@) == items[k],
            whole == define_params_spec(params_str.spec_bytes(), fn_name@),
            items == comma_items(params_str.spec_bytes()),
            seen@.len() == params@.len(),
            forall|k: int| 0 <= k < params@.len() ==> #[trigger] seen@[k]@ == params@[k].name@,
            forall|k: int| 0 <= k < params@.len() ==> param_ok(#[trigger] params@[k]),
            forall|a: int, b: int| 0 <= a < b < params@.len() ==> (#[trigger] params@[a]).name@ != (#[trigger] params@[b]).name@,
            whole == prepend_params(params_shape(params@),
                params_from(items, i as int, strs_view(seen@), seen_default, fn_name@)),
        decreases tokens@.len() - i,
    {
        let token = trim_str(tokens[i].as_str());
        let ts = token.as_str();
        let ghost here = params_from(items, i as int, strs_view(seen@), seen_default, fn_name@);
        proof { encode_utf8_decode_utf8(token@); }
        if ts.as_bytes().len() == 0 {
            i = i + 1;
            continue;
        }
        assert(ts.spec_bytes() == trimmed(items[i as int]));
        let (param, sd) = parse_param_item(ts, seen_default, fn_name)?;
        let ghost pv = param_shape(param);
        if contains_name(&seen, param.name.as_str()) {
            proof {
                let k = choose|k: int| 0 <= k < seen@.len() && #[trigger] seen@[k]@ == param.name@;
                assert(strs_view(seen@)[k] == pv.0);
                assert(strs_view(seen@).contains(pv.0));
            }
            let mut m = msg3("duplicate parameter name '", param.name.as_str(), "' in @define ");
            m.append(fn_name);
            return Err(err(m));
        }
        proof {
            if strs_view(seen@).contains(pv.0) {
                let k = choose|k: int| 0 <= k < strs_view(seen@).len() && strs_view(seen@)[k] == pv.0;
                assert(seen@[k]@ == param.name@);
            }
        }
        let ghost old_params = params@;
        let ghost old_seen = strs_view(seen@);
        let ghost rest_r = params_from(items, i + 1, old_seen.push(pv.0), sd, fn_name@);
        seen.push(param.name.clone());
        params.push(param);
        seen_default = sd;
        proof {
            assert forall|a: int, b: int| 0 <= a < b < params@.len() implies (#[trigger] params@[a]).name@ != (#[trigger] params@[b]).name@ by {
                if b == params@.len() - 1 {
                    assert(seen@[a]@ == old_params[a].name@);
                }
            }
            assert(strs_view(seen@) =~= old_seen.push(pv.0));
            assert(params_shape(params@) =~= params_shape(old_params).push(pv));
            match rest_r {
                Ok(x) => {
                    assert(params_shape(old_params) + (seq![pv] + x) =~= params_shape(old_params).push(pv) + x);
                },
                Err(m) => {},
            }
        }
        i = i + 1;
    }
    proof {
        assert(params_shape(params@) + Seq::<(Seq<char>, Option<ExprShape>)>::empty() =~= params_shape(params@));
    }
    Ok(params)
}


// ── Interpolations ────────────────────────────────────────────────────────────

/// A syntax error anchored at `offset` for `len` bytes.
fn err_at(m: String, offset: usize, len: usize) -> (r: MdsError)
    ensures
        r == (MdsError::Syntax { message: m, span: Some(crate::error::SerializedSpan { offset, length: len, line: None, column: None }) }),
{
    MdsError::syntax_at(m, offset, len)
}

/// `e` is the syntax error `m.0`, anchored at `offset` for `len` bytes when `m.1`
/// holds and without a span otherwise.
pub open spec fn interpolation_error(e: MdsError, m: (Seq<char>, bool), offset: usize, len: usize) -> bool {
    if m.1 {
        e matches MdsError::Syntax { message, span } && message@ == m.0
            && span == Some(crate::error::SerializedSpan { offset, length: len, line: None, column: None })
    } else {
        syntax_error(e, m.0)
    }
}

/// The expression `c` of an interpolation whose first `.` (at `dot`, before any
/// `(`): `ns.func(args)` or `obj.field...`; or the error message with whether it
/// is anchored at the interpolation.
pub open spec fn dot_expr_spec(c: Seq<u8>, dot: int) -> Result<ExprShape, (Seq<char>, bool)> {
    let rest = c.subrange(dot + 1, c.len() as int);
    let p = index_of(rest, 40u8, 0);
    let ns = trimmed(c.subrange(0, dot));
    let name = trimmed(rest.subrange(0, p));
    let tail = trimmed(rest.subrange(p + 1, rest.len() as int));
    if p < rest.len() {
        if !is_ident(ns) {
            Err(("invalid namespace in qualified call: '"@ + decode_utf8(ns) + "' — must be a valid identifier"@, true))
        } else if !is_ident(name) {
            Err(("invalid function name in qualified call: '"@ + decode_utf8(name) + "' — must be a valid identifier"@, true))
        } else if tail.len() == 0 || tail.last() != 41u8 {
            Err(("unclosed parenthesis in function call"@, true))
        } else {
            match args_spec(tail.drop_last(), 0) {
                Err(m) => Err((m, false)),
                Ok(v) => Ok(ExprShape::QualifiedCall(decode_utf8(ns), decode_utf8(name), v)),
            }
        }
    } else {
        match member_spec(c) {
            Ok((o, f)) => Ok(ExprShape::Member(o, f)),
            Err(reason) => Err(("invalid dot-path in interpolation: '"@ + decode_utf8(c) + "' — "@ + reason, true)),
        }
    }
}

/// The expression inside `{{ }}` (the bytes `c`, trimmed): a dot path or a
/// qualified call (a `.` before any `(`), a call, or a variable; or the error
/// message with whether it is anchored at the interpolation.
pub open spec fn interpolation_spec(c: Seq<u8>) -> Result<ExprShape, (Seq<char>, bool)> {
    let t = trimmed(c);
    let dot = index_of(t, 46u8, 0);
    let paren = index_of(t, 40u8, 0);
    let name = trimmed(t.subrange(0, paren));
    let tail = trimmed(t.subrange(paren + 1, t.len() as int));
    if dot < t.len() && (paren >= t.len() || dot < paren) {
        dot_expr_spec(t, dot)
    } else if paren < t.len() {
        if tail.len() == 0 || tail.last() != 41u8 {
            Err(("unclosed parenthesis in function call"@, true))
        } else {
            match args_spec(tail.drop_last(), 0) {
                Err(m) => Err((m, false)),
                Ok(v) => Ok(ExprShape::Call(decode_utf8(name), v)),
            }
        }
    } else if !is_ident(t) {
        Err(("invalid interpolation: '"@ + decode_utf8(t)
            + "' is not a valid expression. Use a variable name (letters, numbers, underscores), a function call like func(), or escape with \\{{ for literal braces."@, true))
    } else {
        Ok(ExprShape::Var(decode_utf8(t)))
    }
}

/// `content` has a `.` before any `(`: `ns.func(args)` or `obj.field...`.
#[verifier::spinoff_prover]
#[verifier::rlimit(60)]
pub fn parse_dot_expr(content: &str, dot_pos: usize, offset: usize, len: usize) -> (r: Result<Interpolation, MdsError>)
    requires
        dot_pos < content.spec_bytes().len(),
        content.spec_bytes()[dot_pos as int] == 46u8,
    ensures
        r matches Ok(i) ==> i.offset == offset && i.len == len && (i.expr is QualifiedCall || i.expr is MemberAccess)
            && expr_names_ok(i.expr),
        r matches Ok(i) ==> dot_expr_spec(content.spec_bytes(), dot_pos as int) == Ok::<ExprShape, (Seq<char>, bool)>(expr_shape(i.expr)),
        r matches Err(e) ==> dot_expr_spec(content.spec_bytes(), dot_pos as int) is Err
            && interpolation_error(e, dot_expr_spec(content.spec_bytes(), dot_pos as int)->Err_0, offset, len),
{
    let rest = after(content, dot_pos);
    proof { encode_utf8_decode_utf8(content@); }
    if let Some(p) = find_opt(rest.as_str(), 40) {
        let namespace = trim_str(before(content, dot_pos).as_str());
        let name = trim_str(before(rest.as_str(), p).as_str());
        proof {
            encode_utf8_decode_utf8(namespace@);
            encode_utf8_decode_utf8(name@);
        }
        if !is_valid_identifier(namespace.as_str()) {
            return Err(err_at(msg3("invalid namespace in qualified call: '", namespace.as_str(), "' — must be a valid identifier"), offset, len));
        }
        if !is_valid_identifier(name.as_str()) {
            return Err(err_at(msg3("invalid function name in qualified call: '", name.as_str(), "' — must be a valid identifier"), offset, len));
        }
        let tail = trim_str(after(rest.as_str(), p).as_str());
        let args_str = match strip_suffix_byte(tail.as_str(), 41) {
            Some(a) => a,
            None => return Err(err_at(String::from_str("unclosed parenthesis in function call"), offset, len)),
        };
        let args = parse_args(args_str.as_str())?;
        return Ok(Interpolation { expr: Expr::QualifiedCall { namespace, name, args }, offset, len });
    }
    match member_access(content) {
        Ok((object, fields)) => Ok(Interpolation { expr: Expr::MemberAccess { object, fields }, offset, len }),
        Err(reason) => {
            let mut m = msg3("invalid dot-path in interpolation: '", content, "' — ");
            m.append(reason.as_str());
            Err(err_at(m, offset, len))
        },
    }
}

/// Parse the expression inside `{{ }}`: a variable, a dot path, a call or a
/// qualified call (literals are not accepted).
#[verifier::spinoff_prover]
pub fn parse_interpolation_expr(content: &str, offset: usize) -> (r: Result<Interpolation, MdsError>)
    ensures
        r matches Ok(i) ==> i.offset == offset && !is_literal_expr(i.expr),
        r matches Ok(i) ==> i.len == trimmed(content.spec_bytes()).len()
            && interpolation_spec(content.spec_bytes()) == Ok::<ExprShape, (Seq<char>, bool)>(expr_shape(i.expr)),
        r matches Err(e) ==> interpolation_spec(content.spec_bytes()) is Err
            && interpolation_error(e, interpolation_spec(content.spec_bytes())->Err_0, offset,
                trimmed(content.spec_bytes()).len() as usize),
{
    let t = trim_str(content);
    let ts = t.as_str();
    let len = ts.as_bytes().len();
    proof { encode_utf8_decode_utf8(t@); }
    let dot = find_opt(ts, 46);
    let paren = find_opt(ts, 40);
    let dot_first = match (dot, paren) {
        (Some(d), Some(p)) => d < p,
        (Some(_), None) => true,
        _ => false,
    };
    if dot_first {
        let d = match dot {
            Some(d) => d,
            None => 0,
        };
        if d < len {
            return parse_dot_expr(ts, d, offset, len);
        }
    }
    if let Some(p) = paren {
        let name = trim_str(before(ts, p).as_str());
        let tail = trim_str(after(ts, p).as_str());
        proof { encode_utf8_decode_utf8(name@); }
        let args_str = match strip_suffix_byte(tail.as_str(), 41) {
            Some(a) => a,
            None => return Err(err_at(String::from_str("unclosed parenthesis in function call"), offset, len)),
        };
        let args = parse_args(args_str.as_str())?;
        return Ok(Interpolation { expr: Expr::Call { name, args }, offset, len });
    }
    if !is_valid_identifier(ts) {
        return Err(err_at(msg3("invalid interpolation: '", ts,
            "' is not a valid expression. Use a variable name (letters, numbers, underscores), a function call like func(), or escape with \\{{ for literal braces."),
            offset, len));
    }
    Ok(Interpolation { expr: Expr::Var(t), offset, len })
}

// ── Body newlines ─────────────────────────────────────────────────────────────

/// The bytes `b` without one leading `\r\n`, or else one leading `\n`.
pub open spec fn lead_stripped(b: Seq<u8>) -> Seq<u8> {
    match strip_prefix_spec(b, "\r\n".spec_bytes()) {
        Some(x) => x,
        None => match strip_prefix_spec(b, "\n".spec_bytes()) {
            Some(x) => x,
            None => b,
        },
    }
}

/// The bytes `b` without one trailing `\n` and then one `\r` before it.
pub open spec fn trail_stripped(b: Seq<u8>) -> Seq<u8> {
    if b.len() > 0 && b.last() == 10u8 {
        let x = b.drop_last();
        if x.len() > 0 && x.last() == 13u8 { x.drop_last() } else { x }
    } else {
        b
    }
}

/// Remove one leading `\n` (or `\r\n`) from a leading text node, dropping the node
/// when it becomes empty.
pub fn strip_leading_newline(nodes: Vec<Node>) -> (r: Vec<Node>)
    ensures
        r@.len() <= nodes@.len(),
        nodes@.len() == 0 || !(nodes@[0] is Text) ==> r@ == nodes@,
        nodes@.len() > 0 && nodes@[0] is Text && lead_stripped(utf8(nodes@[0]->Text_0.text@)).len() == 0
            ==> r@ == nodes@.drop_first(),
        nodes@.len() > 0 && nodes@[0] is Text && lead_stripped(utf8(nodes@[0]->Text_0.text@)).len() > 0 ==> {
            &&& r@.len() == nodes@.len()
            &&& r@.drop_first() == nodes@.drop_first()
            &&& r@[0] is Text
            &&& utf8(r@[0]->Text_0.text@) == lead_stripped(utf8(nodes@[0]->Text_0.text@))
            &&& r@[0]->Text_0.offset == nodes@[0]->Text_0.offset
        },
{
    let ghost orig = nodes@;
    let mut nodes = nodes;
    if nodes.len() == 0 {
        return nodes;
    }
    let first = nodes.remove(0);
    match first {
        Node::Text(t) => {
            let ts = t.text.as_str();
            let stripped = match strip_prefix(ts, "\r\n") {
                Some(x) => x,
                None => match strip_prefix(ts, "\n") {
                    Some(x) => x,
                    None => t.text.clone(),
                },
            };
            if stripped.as_str().as_bytes().len() == 0 {
                assert(nodes@ =~= orig.drop_first());
                return nodes;
            }
            nodes.insert(0, Node::Text(crate::ast::TextNode { text: stripped, offset: t.offset }));
            assert(nodes@.drop_first() =~= orig.drop_first());
            nodes
        },
        other => {
            nodes.insert(0, other);
            assert(nodes@ =~= orig);
            nodes
        },
    }
}

/// Remove one trailing `\n` (and a `\r` before it) from a trailing text node,
/// dropping the node when it becomes empty.
pub fn strip_trailing_newline(nodes: Vec<Node>) -> (r: Vec<Node>)
    ensures
        r@.len() <= nodes@.len(),
        nodes@.len() == 0 || !(nodes@.last() is Text) ==> r@ == nodes@,
        nodes@.len() > 0 && nodes@.last() is Text && trail_stripped(utf8(nodes@.last()->Text_0.text@)).len() == 0
            ==> r@ == nodes@.drop_last(),
        nodes@.len() > 0 && nodes@.last() is Text && trail_stripped(utf8(nodes@.last()->Text_0.text@)).len() > 0 ==> {
            &&& r@.len() == nodes@.len()
            &&& r@.drop_last() == nodes@.drop_last()
            &&& r@.last() is Text
            &&& utf8(r@.last()->Text_0.text@) == trail_stripped(utf8(nodes@.last()->Text_0.text@))
            &&& r@.last()->Text_0.offset == nodes@.last()->Text_0.offset
        },
{
    let ghost orig = nodes@;
    let mut nodes = nodes;
    let n = nodes.len();
    if n == 0 {
        return nodes;
    }
    let last = nodes.pop().unwrap();
    match last {
        Node::Text(t) => {
            let mut text = t.text;
            if let Some(x) = strip_suffix_byte(text.as_str(), 10) {
                text = match strip_suffix_byte(x.as_str(), 13) {
                    Some(y) => y,
                    None => x,
                };
            }
            if text.as_str().as_bytes().len() == 0 {
                assert(nodes@ =~= orig.drop_last());
                return nodes;
            }
            nodes.push(Node::Text(crate::ast::TextNode { text, offset: t.offset }));
            assert(nodes@.drop_last() =~= orig.drop_last());
            nodes
        },
        other => {
            nodes.push(other);
            assert(nodes@ =~= orig);
            nodes
        },
    }
}

} // verus!
