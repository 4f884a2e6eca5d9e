//! The tokenizer of MDS templates.
//!
//! The source is split line by line:
//! - a leading `---` line opens YAML frontmatter, closed by the next `---` line;
//! - a line whose first non-blank characters are `@` and an ASCII letter is a
//!   directive; the token holds the line from the `@` to the line end and the
//!   directive consumes its line terminator;
//! - a line whose first non-blank characters are three backticks opens a fenced
//!   code block, whose content runs verbatim up to the next such line;
//! - everything else is text, in which `{{ expr }}` is an interpolation and
//!   `\{{` an escaped (literal) pair of braces. Text tokens keep their newlines.
//!
//! Every token records the byte offset where it starts in the source.
use vstd::prelude::*;
use vstd::utf8::*;
use vstd::string::*;
use crate::error::MdsError;
use crate::text::{cut_point, lemma_after_ascii_is_cut, lemma_str_valid, substring, utf8};

verus! {

broadcast use vstd::seq::group_seq_axioms, vstd::seq_lib::group_seq_properties;

/// A lexical token with the byte offset of its first byte.
#[derive(Debug)]
pub enum Token {
    /// Plain text, newlines included.
    Text(String, usize),
    /// A directive line from its `@` up to (not including) the line terminator.
    Directive(String, usize),
    /// The content between `{{` and `}}`; the offset is that of `{{`.
    Interpolation(String, usize),
    /// An escaped `\{{`.
    EscapedBrace(usize),
    /// A code-fence line, without its line terminator.
    CodeFence(String, usize),
    /// The verbatim lines between two code fences.
    CodeContent(String, usize),
    /// A `---` frontmatter fence.
    FrontmatterFence(usize),
    /// The raw YAML between the frontmatter fences.
    FrontmatterContent(String, usize),
}

/// `s` is the text of `b` at offset `off`.
pub open spec fn slice_at(b: Seq<u8>, s: Seq<char>, off: int) -> bool {
    0 <= off && off + utf8(s).len() <= b.len() && b.subrange(off, off + utf8(s).len()) == utf8(s)
}

/// A token's text and offset agree with the source bytes `b`.
pub open spec fn token_faithful(b: Seq<u8>, t: Token) -> bool {
    match t {
        Token::Text(s, o) => slice_at(b, s@, o as int) && utf8(s@).len() > 0,
        Token::Directive(s, o) => slice_at(b, s@, o as int) && o < b.len() && b[o as int] == 64u8
            && !utf8(s@).contains(10u8),
        Token::Interpolation(s, o) => {
            &&& o + 4 + utf8(s@).len() <= b.len()
            &&& b[o as int] == 123u8 && b[o + 1] == 123u8
            &&& slice_at(b, s@, o + 2)
            &&& b[o + 2 + utf8(s@).len()] == 125u8 && b[o + 3 + utf8(s@).len()] == 125u8
        },
        Token::EscapedBrace(o) => o + 3 <= b.len() && b[o as int] == 92u8 && b[o + 1] == 123u8 && b[o + 2] == 123u8,
        Token::CodeFence(s, o) => slice_at(b, s@, o as int) && !utf8(s@).contains(10u8),
        Token::CodeContent(s, o) => slice_at(b, s@, o as int),
        Token::FrontmatterFence(o) => o + 3 <= b.len() && b[o as int] == 45u8 && b[o + 1] == 45u8 && b[o + 2] == 45u8,
        Token::FrontmatterContent(s, o) => slice_at(b, s@, o as int),
    }
}

/// The byte offset where a token starts.
pub open spec fn token_offset(t: Token) -> int {
    match t {
        Token::Text(_, o) => o as int,
        Token::Directive(_, o) => o as int,
        Token::Interpolation(_, o) => o as int,
        Token::EscapedBrace(o) => o as int,
        Token::CodeFence(_, o) => o as int,
        Token::CodeContent(_, o) => o as int,
        Token::FrontmatterFence(o) => o as int,
        Token::FrontmatterContent(_, o) => o as int,
    }
}

/// Every token is faithful to `b`, and the tokens come in strictly increasing offset order.
pub open spec fn tokens_faithful(b: Seq<u8>, ts: Seq<Token>) -> bool {
    &&& forall|i: int| 0 <= i < ts.len() ==> token_faithful(b, #[trigger] ts[i])
    &&& forall|i: int, j: int| 0 <= i < j < ts.len() ==> token_offset(#[trigger] ts[i]) < token_offset(#[trigger] ts[j])
}

// ── What a source lexes to ───────────────────────────────────────────────────

/// A token by its kind (0 text, 1 directive, 2 interpolation, 3 escaped brace,
/// 4 code fence, 5 code content, 6 frontmatter fence, 7 frontmatter content), its
/// text as bytes, and its offset.
pub type TokShape = (u8, Seq<u8>, usize);

/// The shape of a token.
pub open spec fn tok_shape(t: Token) -> TokShape {
    match t {
        Token::Text(s, o) => (0u8, utf8(s@), o),
        Token::Directive(s, o) => (1u8, utf8(s@), o),
        Token::Interpolation(s, o) => (2u8, utf8(s@), o),
        Token::EscapedBrace(o) => (3u8, Seq::empty(), o),
        Token::CodeFence(s, o) => (4u8, utf8(s@), o),
        Token::CodeContent(s, o) => (5u8, utf8(s@), o),
        Token::FrontmatterFence(o) => (6u8, Seq::empty(), o),
        Token::FrontmatterContent(s, o) => (7u8, utf8(s@), o),
    }
}

/// The shapes of a list of tokens.
pub open spec fn tok_shapes(ts: Seq<Token>) -> Seq<TokShape> {
    ts.map_values(|t: Token| tok_shape(t))
}

/// The index of the first `\n` at or after `i`, or the length.
pub open spec fn line_end_spec(b: Seq<u8>, i: int) -> int
    decreases b.len() - i,
{
    if i < 0 || i >= b.len() {
        b.len() as int
    } else if b[i] == 10u8 {
        i
    } else {
        line_end_spec(b, i + 1)
    }
}

/// The first position at or after `i` (before `e`) that is not a space or a tab.
pub open spec fn skip_blanks_spec(b: Seq<u8>, i: int, e: int) -> int
    decreases e - i,
{
    if i < 0 || i >= e {
        i
    } else if b[i] == 32u8 || b[i] == 9u8 {
        skip_blanks_spec(b, i + 1, e)
    } else {
        i
    }
}

/// The end `e` of a line's content without a trailing `\r`.
pub open spec fn trim_cr_spec(b: Seq<u8>, start: int, e: int) -> int {
    if e > start && b[e - 1] == 13u8 { e - 1 } else { e }
}

/// The line at `ls` is exactly `---`, optionally followed by `\r`.
pub open spec fn fence_dashes_spec(b: Seq<u8>, ls: int) -> bool {
    let c = trim_cr_spec(b, ls, line_end_spec(b, ls));
    c >= ls && c - ls == 3 && b[ls] == 45u8 && b[ls + 1] == 45u8 && b[ls + 2] == 45u8
}

/// The first `---` line at or after the line starting at `ls`.
pub open spec fn fm_close_spec(b: Seq<u8>, ls: int) -> Option<int>
    decreases b.len() - ls,
{
    if ls < 0 || ls >= b.len() {
        None
    } else if fence_dashes_spec(b, ls) {
        Some(ls)
    } else if line_end_spec(b, ls) >= b.len() || line_end_spec(b, ls) < ls {
        None
    } else {
        fm_close_spec(b, line_end_spec(b, ls) + 1)
    }
}

/// The frontmatter tokens of `b` and the position after them (none and 0 when `b`
/// does not open with a `---` line); `None` when the frontmatter is not closed.
pub open spec fn frontmatter_spec(b: Seq<u8>) -> Option<(Seq<TokShape>, int)> {
    let e0 = line_end_spec(b, 0);
    let c0 = e0 + 1;
    if !fence_dashes_spec(b, 0) {
        Some((Seq::empty(), 0))
    } else if e0 >= b.len() {
        None
    } else {
        match fm_close_spec(b, c0) {
            None => None,
            Some(ls) => {
                let e = line_end_spec(b, ls);
                Some((seq![(6u8, Seq::empty(), 0usize)]
                    + (if c0 < ls { seq![(7u8, b.subrange(c0, ls), c0 as usize)] } else { Seq::empty() })
                    + seq![(6u8, Seq::empty(), ls as usize)],
                    if e < b.len() { e + 1 } else { b.len() as int }))
            },
        }
    }
}

/// The line at `ls` starts (after blanks) with three backticks.
pub open spec fn fence_line_spec(b: Seq<u8>, ls: int) -> bool {
    let e2 = line_end_spec(b, ls);
    let p2 = skip_blanks_spec(b, ls, e2);
    p2 < e2 && e2 - p2 >= 3 && b[p2] == 96u8 && b[p2 + 1] == 96u8 && b[p2 + 2] == 96u8
}

/// The first fence line at or after the line starting at `ls`, or the length.
pub open spec fn fence_close_spec(b: Seq<u8>, ls: int) -> int
    decreases b.len() - ls,
{
    if ls < 0 || ls >= b.len() {
        b.len() as int
    } else if fence_line_spec(b, ls) {
        ls
    } else if line_end_spec(b, ls) >= b.len() || line_end_spec(b, ls) < ls {
        b.len() as int
    } else {
        fence_close_spec(b, line_end_spec(b, ls) + 1)
    }
}

/// The tokens of the fenced code block that opens at `p` on the line ending at `e`,
/// and the position after it.
pub open spec fn fence_spec(b: Seq<u8>, p: int, e: int) -> (Seq<TokShape>, int) {
    let n = b.len() as int;
    let c = trim_cr_spec(b, p, e);
    let c0 = if e < n { e + 1 } else { n };
    let ls = fence_close_spec(b, c0);
    let opening = seq![(4u8, b.subrange(p, c), p as usize)];
    let content = if c0 < ls { seq![(5u8, b.subrange(c0, ls), c0 as usize)] } else { Seq::empty() };
    if ls < n && fence_line_spec(b, ls) {
        let e2 = line_end_spec(b, ls);
        let p2 = skip_blanks_spec(b, ls, e2);
        let c2 = trim_cr_spec(b, p2, e2);
        (opening + content + seq![(4u8, b.subrange(p2, c2), p2 as usize)], if e2 < n { e2 + 1 } else { n })
    } else {
        (opening + content, n)
    }
}

/// The first `}}` at or after `j` (its first index), or a position past the last
/// pair start when there is none.
pub open spec fn close_braces(b: Seq<u8>, j: int) -> int
    decreases b.len() - j,
{
    if j < 0 || j >= b.len() - 1 {
        j
    } else if b[j] == 125u8 && b[j + 1] == 125u8 {
        j
    } else {
        close_braces(b, j + 1)
    }
}

/// The pending text token `[t0, pos)`, when there is one.
pub open spec fn flush(b: Seq<u8>, ht: bool, t0: int, pos: int) -> Seq<TokShape> {
    if ht { seq![(0u8, b.subrange(t0, pos), t0 as usize)] } else { Seq::empty() }
}

/// `r` with the tokens `pre` put in front.
pub open spec fn prepend_toks(pre: Seq<TokShape>, r: Result<Seq<TokShape>, usize>) -> Result<Seq<TokShape>, usize> {
    match r {
        Ok(v) => Ok(pre + v),
        Err(o) => Err(o),
    }
}

/// The tokens of `b` from `pos` on, text pending from `t0` when `ht`; or the offset
/// of a `{{` that no `}}` closes.
#[verifier::opaque]
pub open spec fn lex_spec(b: Seq<u8>, pos: int, ht: bool, t0: int) -> Result<Seq<TokShape>, usize>
    decreases b.len() - pos,
{
    let n = b.len() as int;
    if pos < 0 || pos >= n {
        Ok(flush(b, ht, t0, n))
    } else {
        let at_ls = pos == 0 || b[pos - 1] == 10u8;
        let e = line_end_spec(b, pos);
        let p = skip_blanks_spec(b, pos, e);
        let is_dir = at_ls && p < e && e - p > 1 && b[p] == 64u8
            && ((65 <= b[p + 1] <= 90) || (97 <= b[p + 1] <= 122));
        let is_fence = at_ls && p < e && e - p >= 3 && b[p] == 96u8 && b[p + 1] == 96u8 && b[p + 2] == 96u8;
        if is_dir {
            let next = if e < n { e + 1 } else { n };
            if next <= pos {
                Ok(Seq::empty())
            } else {
                prepend_toks(flush(b, ht, t0, pos) + seq![(1u8, b.subrange(p, trim_cr_spec(b, p, e)), p as usize)],
                    lex_spec(b, next, false, 0))
            }
        } else if is_fence {
            let f = fence_spec(b, p, e);
            if f.1 <= pos {
                Ok(Seq::empty())
            } else {
                prepend_toks(flush(b, ht, t0, pos) + f.0, lex_spec(b, f.1, false, 0))
            }
        } else if b[pos] == 92u8 && n - pos > 2 && b[pos + 1] == 123u8 && b[pos + 2] == 123u8 {
            prepend_toks(flush(b, ht, t0, pos) + seq![(3u8, Seq::empty(), pos as usize)], lex_spec(b, pos + 3, false, 0))
        } else if b[pos] == 123u8 && n - pos > 1 && b[pos + 1] == 123u8 {
            let j = close_braces(b, pos + 2);
            if j >= n - 1 || j < pos + 2 {
                Err(pos as usize)
            } else {
                prepend_toks(flush(b, ht, t0, pos) + seq![(2u8, b.subrange(pos + 2, j), pos as usize)], lex_spec(b, j + 2, false, 0))
            }
        } else {
            lex_spec(b, pos + 1, true, if ht { t0 } else { pos })
        }
    }
}

/// What `b` lexes to: its tokens; or `None` for unclosed frontmatter, or the
/// offset of an unclosed `{{`.
pub open spec fn tokenize_spec(b: Seq<u8>) -> Result<Seq<TokShape>, Option<usize>> {
    match frontmatter_spec(b) {
        None => Err(None),
        Some((fm, pos)) => match lex_spec(b, pos, false, 0) {
            Ok(v) => Ok(fm + v),
            Err(o) => Err(Some(o)),
        },
    }
}

/// `e` is the error of the lexing failure `o` (see [`tokenize_spec`]).
pub open spec fn lex_error(e: MdsError, o: Option<usize>) -> bool {
    match o {
        None => e matches MdsError::Syntax { message, span } && message@ == "unclosed frontmatter (missing closing ---)"@
            && span == Some(crate::error::SerializedSpan { offset: 0, length: 3, line: None, column: None }),
        Some(off) => e matches MdsError::Syntax { message, span } && message@ == "unclosed interpolation: '{{' without a matching '}}'"@
            && span == Some(crate::error::SerializedSpan { offset: off, length: 2, line: None, column: None }),
    }
}

proof fn lemma_prepend_toks(a: Seq<TokShape>, c: Seq<TokShape>, r: Result<Seq<TokShape>, usize>)
    ensures
        prepend_toks(a, prepend_toks(c, r)) == prepend_toks(a + c, r),
{
    match r {
        Ok(v) => { assert(a + (c + v) =~= (a + c) + v); },
        Err(_) => {},
    }
}

/// The end of the line starting at or containing `i`: the index of the next `\n`, or the length.
fn line_end(b: &[u8], i: usize) -> (e: usize)
    requires
        i <= b@.len(),
    ensures
        i <= e <= b@.len(),
        e == b@.len() || b@[e as int] == 10u8,
        forall|k: int| i <= k < e ==> b@[k] != 10u8,
        e == line_end_spec(b@, i as int),
{
    let mut e = i;
    while e < b.len() && b[e] != 10
        invariant
            i <= e <= b@.len(),
            forall|k: int| i <= k < e ==> b@[k] != 10u8,
            line_end_spec(b@, e as int) == line_end_spec(b@, i as int),
        decreases b@.len() - e,
    {
        e = e + 1;
    }
    e
}

/// The first position at or after `i` that is not a space or a tab (bounded by `e`).
fn skip_blanks(b: &[u8], i: usize, e: usize) -> (p: usize)
    requires
        i <= e <= b@.len(),
    ensures
        i <= p <= e,
        forall|k: int| i <= k < p ==> b@[k] == 32u8 || b@[k] == 9u8,
        p < e ==> b@[p as int] != 32u8 && b@[p as int] != 9u8,
        p == skip_blanks_spec(b@, i as int, e as int),
{
    let mut p = i;
    while p < e && (b[p] == 32 || b[p] == 9)
        invariant
            i <= p <= e,
            e <= b@.len(),
            forall|k: int| i <= k < p ==> b@[k] == 32u8 || b@[k] == 9u8,
            skip_blanks_spec(b@, p as int, e as int) == skip_blanks_spec(b@, i as int, e as int),
        decreases e - p,
    {
        p = p + 1;
    }
    p
}

fn is_ascii_letter(c: u8) -> (r: bool)
    ensures
        r == ((65 <= c <= 90) || (97 <= c <= 122)),
{
    (65 <= c && c <= 90) || (97 <= c && c <= 122)
}

/// The end of the line content `[start, e)` without a trailing `\r`.
fn trim_cr(b: &[u8], start: usize, e: usize) -> (r: usize)
    requires
        start <= e <= b@.len(),
    ensures
        start <= r <= e,
        r == e || (r == e - 1 && b@[r as int] == 13u8),
        r == trim_cr_spec(b@, start as int, e as int),
{
    if e > start && b[e - 1] == 13 {
        e - 1
    } else {
        e
    }
}

/// The line at `ls` is exactly `---` (optionally followed by `\r`).
fn is_fence_dashes(b: &[u8], ls: usize) -> (r: bool)
    requires
        ls <= b@.len(),
    ensures
        r ==> ls + 3 <= b@.len() && b@[ls as int] == 45u8 && b@[ls + 1] == 45u8 && b@[ls + 2] == 45u8,
        r == fence_dashes_spec(b@, ls as int),
{
    let e = line_end(b, ls);
    let c = trim_cr(b, ls, e);
    c >= ls && c - ls == 3 && b[ls] == 45 && b[ls + 1] == 45 && b[ls + 2] == 45
}

/// Append `source[start..end)` as a token built by `kind` (0 text, 1 directive, 2 fence, 3 code, 4 frontmatter).
fn slice_text(source: &str, start: usize, end: usize) -> (r: String)
    requires
        start <= end <= source.spec_bytes().len(),
        cut_point(source.spec_bytes(), start as int),
        cut_point(source.spec_bytes(), end as int),
    ensures
        utf8(r@) == source.spec_bytes().subrange(start as int, end as int),
        slice_at(source.spec_bytes(), r@, start as int),
{
    substring(source, start, end)
}

/// Position `i > 0` follows a newline: it starts a character.
proof fn lemma_after_newline(b: Seq<u8>, i: int)
    requires
        valid_utf8(b),
        0 < i <= b.len(),
        b[i - 1] == 10u8,
    ensures
        cut_point(b, i),
{
    lemma_after_ascii_is_cut(b, i);
}

/// Every token of `ts` starts before `bound`.
pub open spec fn offsets_below(ts: Seq<Token>, bound: int) -> bool {
    forall|i: int| 0 <= i < ts.len() ==> token_offset(#[trigger] ts[i]) < bound
}

/// Append a faithful token that starts after every token already present.
fn push_token(tokens: &mut Vec<Token>, t: Token, Ghost(b): Ghost<Seq<u8>>)
    requires
        tokens_faithful(b, old(tokens)@),
        token_faithful(b, t),
        offsets_below(old(tokens)@, token_offset(t)),
    ensures
        final(tokens)@ == old(tokens)@.push(t),
        tokens_faithful(b, final(tokens)@),
        forall|bound: int| bound > token_offset(t) ==> offsets_below(final(tokens)@, bound),
        tok_shapes(final(tokens)@) == tok_shapes(old(tokens)@).push(tok_shape(t)),
{
    tokens.push(t);
    assert(tok_shapes(tokens@) =~= tok_shapes(old(tokens)@).push(tok_shape(t)));
    assert forall|bound: int| bound > token_offset(t) implies offsets_below(tokens@, bound) by {
        assert forall|i: int| 0 <= i < tokens@.len() implies token_offset(#[trigger] tokens@[i]) < bound by {
            if i < tokens@.len() - 1 {
                assert(tokens@[i] == old(tokens)@[i]);
            }
        }
    }
}

/// `[p, c)` holds no newline.
proof fn lemma_no_newline(b: Seq<u8>, p: int, c: int)
    requires
        0 <= p <= c <= b.len(),
        forall|k: int| p <= k < c ==> b[k] != 10u8,
    ensures
        !b.subrange(p, c).contains(10u8),
{
    if b.subrange(p, c).contains(10u8) {
        let k = choose|k: int| 0 <= k < c - p && b.subrange(p, c)[k] == 10u8;
        assert(b[p + k] == 10u8);
    }
}

/// Lex the leading frontmatter; returns the position after it (0 when there is none).
fn lex_frontmatter(source: &str, tokens: &mut Vec<Token>) -> (r: Result<usize, MdsError>)
    requires
        old(tokens)@.len() == 0,
    ensures
        r matches Ok(pos) ==> {
            &&& pos <= source.spec_bytes().len()
            &&& cut_point(source.spec_bytes(), pos as int)
            &&& tokens_faithful(source.spec_bytes(), final(tokens)@)
            &&& offsets_below(final(tokens)@, pos as int)
            &&& frontmatter_spec(source.spec_bytes()) == Some((tok_shapes(final(tokens)@), pos as int))
        },
        r is Err <==> frontmatter_spec(source.spec_bytes()) is None,
        r matches Err(e) ==> e matches MdsError::Syntax { message, span } && message@ == "unclosed frontmatter (missing closing ---)"@
            && span == Some(crate::error::SerializedSpan { offset: 0, length: 3, line: None, column: None }),
{
    let b = source.as_bytes();
    let ghost bs = b@;
    let n = b.len();
    proof {
        lemma_str_valid(source);
    }
    if !is_fence_dashes(b, 0) {
        assert(tok_shapes(tokens@) =~= Seq::<TokShape>::empty());
        return Ok(0);
    }
    let e0 = line_end(b, 0);
    if e0 == n {
        return Err(MdsError::syntax_at(String::from_str("unclosed frontmatter (missing closing ---)"), 0, 3));
    }
    push_token(tokens, Token::FrontmatterFence(0), Ghost(bs));
    assert(tok_shapes(old(tokens)@) =~= Seq::<TokShape>::empty());
    let c0 = e0 + 1;
    proof { lemma_after_newline(bs, c0 as int); }
    let mut ls = c0;
    loop
        invariant
            c0 <= ls <= n,
            n == bs.len(),
            b@ == bs,
            bs == source.spec_bytes(),
            valid_utf8(bs),
            cut_point(bs, c0 as int),
            cut_point(bs, ls as int),
            c0 > 0,
            c0 == line_end_spec(bs, 0) + 1,
            fence_dashes_spec(bs, 0),
            line_end_spec(bs, 0) < n,
            fm_close_spec(bs, ls as int) == fm_close_spec(bs, c0 as int),
            tok_shapes(tokens@) == seq![(6u8, Seq::<u8>::empty(), 0usize)],
            tokens_faithful(bs, tokens@),
            offsets_below(tokens@, c0 as int),
        ensures
            c0 <= ls <= n,
            cut_point(bs, ls as int),
            ls + 3 <= n && bs[ls as int] == 45u8 && bs[ls + 1] == 45u8 && bs[ls + 2] == 45u8,
            fm_close_spec(bs, c0 as int) == Some(ls as int),
            tok_shapes(tokens@) == seq![(6u8, Seq::<u8>::empty(), 0usize)],
            tokens_faithful(bs, tokens@),
            offsets_below(tokens@, c0 as int),
        decreases n - ls,
    {
        if ls >= n {
            return Err(MdsError::syntax_at(String::from_str("unclosed frontmatter (missing closing ---)"), 0, 3));
        }
        if is_fence_dashes(b, ls) {
            break;
        }
        let e = line_end(b, ls);
        if e == n {
            return Err(MdsError::syntax_at(String::from_str("unclosed frontmatter (missing closing ---)"), 0, 3));
        }
        proof { lemma_after_newline(bs, e + 1); }
        ls = e + 1;
    }
    let ghost mid: Seq<TokShape> = if c0 < ls { seq![(7u8, bs.subrange(c0 as int, ls as int), c0)] } else { Seq::empty() };
    if c0 < ls {
        let content = slice_text(source, c0, ls);
        push_token(tokens, Token::FrontmatterContent(content, c0), Ghost(bs));
    }
    assert(tok_shapes(tokens@) =~= seq![(6u8, Seq::<u8>::empty(), 0usize)] + mid);
    push_token(tokens, Token::FrontmatterFence(ls), Ghost(bs));
    assert(tok_shapes(tokens@) =~= seq![(6u8, Seq::<u8>::empty(), 0usize)] + mid + seq![(6u8, Seq::<u8>::empty(), ls)]);
    let e = line_end(b, ls);
    if e < n {
        proof { lemma_after_newline(bs, e + 1); }
        Ok(e + 1)
    } else {
        Ok(n)
    }
}

/// Lex a fenced code block whose opening fence starts at `p` on the line ending at `e`;
/// returns the position after the block.
fn lex_fence(source: &str, tokens: &mut Vec<Token>, p: usize, e: usize) -> (pos: usize)
    requires
        p < e <= source.spec_bytes().len(),
        e - p >= 3,
        source.spec_bytes()[p as int] == 96u8,
        e == source.spec_bytes().len() || source.spec_bytes()[e as int] == 10u8,
        forall|k: int| p <= k < e ==> source.spec_bytes()[k] != 10u8,
        tokens_faithful(source.spec_bytes(), old(tokens)@),
        offsets_below(old(tokens)@, p as int),
    ensures
        p < pos <= source.spec_bytes().len(),
        cut_point(source.spec_bytes(), pos as int),
        tokens_faithful(source.spec_bytes(), final(tokens)@),
        offsets_below(final(tokens)@, pos as int),
        tok_shapes(final(tokens)@) == tok_shapes(old(tokens)@) + fence_spec(source.spec_bytes(), p as int, e as int).0,
        pos == fence_spec(source.spec_bytes(), p as int, e as int).1,
{
    let b = source.as_bytes();
    let ghost bs = b@;
    let ghost t0 = tok_shapes(tokens@);
    let n = b.len();
    proof { lemma_str_valid(source); }
    let c = trim_cr(b, p, e);
    proof { lemma_no_newline(bs, p as int, c as int); }
    let line = slice_text(source, p, c);
    push_token(tokens, Token::CodeFence(line, p), Ghost(bs));
    let c0 = if e < n { e + 1 } else { n };
    if e < n {
        proof { lemma_after_newline(bs, c0 as int); }
    }
    let mut ls = c0;
    while ls < n
        invariant
            c0 <= ls <= n,
            n == bs.len(),
            b@ == bs,
            p < c0,
            cut_point(bs, ls as int),
            cut_point(bs, c0 as int),
            valid_utf8(bs),
            c0 == (if e < n { e + 1 } else { n as int }),
            fence_close_spec(bs, ls as int) == fence_close_spec(bs, c0 as int),
            tokens_faithful(bs, tokens@),
            offsets_below(tokens@, c0 as int),
            tok_shapes(tokens@) == t0 + seq![(4u8, bs.subrange(p as int, trim_cr_spec(bs, p as int, e as int)), p)],
        ensures
            c0 <= ls <= n,
            cut_point(bs, ls as int),
            fence_close_spec(bs, c0 as int) == ls,
            tokens_faithful(bs, tokens@),
            offsets_below(tokens@, c0 as int),
            tok_shapes(tokens@) == t0 + seq![(4u8, bs.subrange(p as int, trim_cr_spec(bs, p as int, e as int)), p)],
        decreases n - ls,
    {
        let e2 = line_end(b, ls);
        let p2 = skip_blanks(b, ls, e2);
        if p2 < e2 && e2 - p2 >= 3 && b[p2] == 96 && b[p2 + 1] == 96 && b[p2 + 2] == 96 {
            break;
        }
        if e2 == n {
            ls = n;
        } else {
            proof { lemma_after_newline(bs, e2 + 1); }
            ls = e2 + 1;
        }
    }
    let ghost opening = seq![(4u8, bs.subrange(p as int, trim_cr_spec(bs, p as int, e as int)), p)];
    let ghost content: Seq<TokShape> = if c0 < ls { seq![(5u8, bs.subrange(c0 as int, ls as int), c0)] } else { Seq::empty() };
    if c0 < ls {
        let content = slice_text(source, c0, ls);
        push_token(tokens, Token::CodeContent(content, c0), Ghost(bs));
    }
    assert(tok_shapes(tokens@) =~= t0 + (opening + content));
    if ls < n {
        let e2 = line_end(b, ls);
        let p2 = skip_blanks(b, ls, e2);
        if p2 < e2 && e2 - p2 >= 3 && b[p2] == 96 && b[p2 + 1] == 96 && b[p2 + 2] == 96 {
            let c2 = trim_cr(b, p2, e2);
            proof { lemma_no_newline(bs, p2 as int, c2 as int); }
            let fence = slice_text(source, p2, c2);
            push_token(tokens, Token::CodeFence(fence, p2), Ghost(bs));
            assert(tok_shapes(tokens@) =~= t0 + (opening + content + seq![(4u8, bs.subrange(p2 as int, c2 as int), p2)]));
            if e2 < n {
                proof { lemma_after_newline(bs, e2 + 1); }
                return e2 + 1;
            }
            return n;
        }
    }
    n
}

/// Tokenize a template source.
///
/// Fails on unclosed frontmatter and on `{{` without a closing `}}`; the tokens are
/// exactly those of [`tokenize_spec`].
#[verifier::spinoff_prover]
#[verifier::rlimit(100)]
pub fn tokenize(source: &str) -> (r: Result<Vec<Token>, MdsError>)
    ensures
        r matches Ok(ts) ==> tokens_faithful(source.spec_bytes(), ts@),
        r matches Ok(ts) ==> tokenize_spec(source.spec_bytes()) == Ok::<Seq<TokShape>, Option<usize>>(tok_shapes(ts@)),
        r is Err <==> tokenize_spec(source.spec_bytes()) is Err,
        r matches Err(e) ==> lex_error(e, tokenize_spec(source.spec_bytes())->Err_0),
{
    let b = source.as_bytes();
    let ghost bs = b@;
    let n = b.len();
    proof {
        lemma_str_valid(source);
    }
    let mut tokens: Vec<Token> = Vec::new();
    let mut pos = match lex_frontmatter(source, &mut tokens) {
        Ok(p) => p,
        Err(e) => return Err(e),
    };
    let ghost fm = tok_shapes(tokens@);
    let ghost pos0 = pos as int;
    let mut has_text = false;
    let mut text_start: usize = 0;
    assert(fm + Seq::<TokShape>::empty() =~= fm);
    while pos < n
        invariant
            pos <= n,
            n == bs.len(),
            b@ == bs,
            bs == source.spec_bytes(),
            valid_utf8(bs),
            has_text ==> text_start < pos && cut_point(bs, text_start as int),
            !has_text ==> cut_point(bs, pos as int),
            tokens_faithful(bs, tokens@),
            offsets_below(tokens@, if has_text { text_start as int } else { pos as int }),
            frontmatter_spec(bs) == Some((fm, pos0)),
            !has_text ==> text_start == 0,
            prepend_toks(fm, lex_spec(bs, pos0, false, 0)) == prepend_toks(tok_shapes(tokens@), lex_spec(bs, pos as int, has_text, text_start as int)),
        decreases n - pos,
    {
        let ghost before = tok_shapes(tokens@);
        let ghost pre = flush(bs, has_text, text_start as int, pos as int);
        let ghost p0 = pos as int;
        let ghost ht0 = has_text;
        let ghost ts0 = text_start as int;
        let at_line_start = pos == 0 || b[pos - 1] == 10;
        if at_line_start {
            if pos > 0 {
                proof { lemma_after_newline(bs, pos as int); }
            }
            let e = line_end(b, pos);
            let p = skip_blanks(b, pos, e);
            let is_directive = p < e && e - p > 1 && b[p] == 64 && is_ascii_letter(b[p + 1]);
            let is_fence = p < e && e - p >= 3 && b[p] == 96 && b[p + 1] == 96 && b[p + 2] == 96;
            if is_directive || is_fence {
                if has_text {
                    let t = slice_text(source, text_start, pos);
                    push_token(&mut tokens, Token::Text(t, text_start), Ghost(bs));
                    has_text = false;
                    text_start = 0;
                }
                assert(tok_shapes(tokens@) =~= before + pre);
                if is_directive {
                    let c = trim_cr(b, p, e);
                    proof { lemma_no_newline(bs, p as int, c as int); }
                    let line = slice_text(source, p, c);
                    push_token(&mut tokens, Token::Directive(line, p), Ghost(bs));
                    if e < n {
                        proof { lemma_after_newline(bs, e + 1); }
                        pos = e + 1;
                    } else {
                        pos = n;
                    }
                    proof {
                        let d = seq![(1u8, bs.subrange(p as int, c as int), p)];
                        assert(tok_shapes(tokens@) =~= before + (pre + d));
                        assert(lex_spec(bs, p0, ht0, ts0) == prepend_toks(pre + d, lex_spec(bs, pos as int, false, 0))) by { reveal(lex_spec); }
                        lemma_prepend_toks(before, pre + d, lex_spec(bs, pos as int, false, 0));
                    }
                } else {
                    let ghost mid = tok_shapes(tokens@);
                    pos = lex_fence(source, &mut tokens, p, e);
                    proof {
                        let f = fence_spec(bs, p as int, e as int);
                        assert(tok_shapes(tokens@) =~= before + (pre + f.0));
                        assert(lex_spec(bs, p0, ht0, ts0) == prepend_toks(pre + f.0, lex_spec(bs, pos as int, false, 0))) by { reveal(lex_spec); }
                        lemma_prepend_toks(before, pre + f.0, lex_spec(bs, pos as int, false, 0));
                    }
                }
                continue;
            }
        }
        if b[pos] == 92 && n - pos > 2 && b[pos + 1] == 123 && b[pos + 2] == 123 {
            if has_text {
                let t = slice_text(source, text_start, pos);
                push_token(&mut tokens, Token::Text(t, text_start), Ghost(bs));
                has_text = false;
                text_start = 0;
            }
            assert(tok_shapes(tokens@) =~= before + pre);
            push_token(&mut tokens, Token::EscapedBrace(pos), Ghost(bs));
            proof { lemma_after_ascii_is_cut(bs, pos + 3); }
            pos = pos + 3;
            proof {
                let d = seq![(3u8, Seq::<u8>::empty(), p0 as usize)];
                assert(tok_shapes(tokens@) =~= before + (pre + d));
                assert(lex_spec(bs, p0, ht0, ts0) == prepend_toks(pre + d, lex_spec(bs, pos as int, false, 0))) by { reveal(lex_spec); }
                lemma_prepend_toks(before, pre + d, lex_spec(bs, pos as int, false, 0));
            }
            continue;
        }
        if b[pos] == 123 && n - pos > 1 && b[pos + 1] == 123 {
            let mut j = pos + 2;
            while j < n - 1 && !(b[j] == 125 && b[j + 1] == 125)
                invariant
                    pos + 2 <= j <= n,
                    n == bs.len(),
                    b@ == bs,
                    close_braces(bs, j as int) == close_braces(bs, pos + 2),
                decreases n - j,
            {
                j = j + 1;
            }
            if j >= n - 1 {
                proof {
                    assert(lex_spec(bs, p0, ht0, ts0) == Err::<Seq<TokShape>, usize>(p0 as usize)) by { reveal(lex_spec); }
                }
                return Err(MdsError::syntax_at(String::from_str("unclosed interpolation: '{{' without a matching '}}'"), pos, 2));
            }
            if has_text {
                let t = slice_text(source, text_start, pos);
                push_token(&mut tokens, Token::Text(t, text_start), Ghost(bs));
                has_text = false;
                text_start = 0;
            }
            assert(tok_shapes(tokens@) =~= before + pre);
            proof {
                lemma_after_ascii_is_cut(bs, pos + 2);
            }
            let inner = slice_text(source, pos + 2, j);
            push_token(&mut tokens, Token::Interpolation(inner, pos), Ghost(bs));
            proof { lemma_after_ascii_is_cut(bs, j + 2); }
            pos = j + 2;
            proof {
                let d = seq![(2u8, bs.subrange(p0 + 2, j as int), p0 as usize)];
                assert(tok_shapes(tokens@) =~= before + (pre + d));
                assert(lex_spec(bs, p0, ht0, ts0) == prepend_toks(pre + d, lex_spec(bs, pos as int, false, 0))) by { reveal(lex_spec); }
                lemma_prepend_toks(before, pre + d, lex_spec(bs, pos as int, false, 0));
            }
            continue;
        }
        if !has_text {
            has_text = true;
            text_start = pos;
        }
        pos = pos + 1;
        assert(lex_spec(bs, p0, ht0, ts0) == lex_spec(bs, pos as int, has_text, text_start as int)) by { reveal(lex_spec); }
    }
    let ghost before = tok_shapes(tokens@);
    if has_text {
        let t = slice_text(source, text_start, n);
        push_token(&mut tokens, Token::Text(t, text_start), Ghost(bs));
    }
    proof {
        let fl = flush(bs, has_text, text_start as int, n as int);
        assert(tok_shapes(tokens@) =~= before + fl);
        assert(lex_spec(bs, pos as int, has_text, text_start as int) == Ok::<Seq<TokShape>, usize>(fl)) by { reveal(lex_spec); }
    }
    Ok(tokens)
}

} // verus!
