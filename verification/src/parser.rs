//! The parser: a recursive descent over the token stream that builds the AST.
//!
//! Blocks nest at most `MAX_NESTING_DEPTH` deep and an `@if` takes at most
//! `MAX_ELSEIF_BRANCHES` `@elseif` arms. `@message` blocks do not nest, and
//! `@block` placeholders stand at the top level only.
use vstd::prelude::*;
use vstd::string::*;
use crate::ast::{
    BlockNode, DefineBlock, ElseifBranch, Expr, ExtendsDirective, ForBlock, Frontmatter, IfBlock,
    IncludeDirective, MessageBlock, Module, Node, Param, TextNode,
};
use crate::error::{MdsError, SerializedSpan};
use crate::lexer::Token;
use crate::limits::{MAX_ELSEIF_BRANCHES, MAX_NESTING_DEPTH};
use crate::parser_helpers::{
    is_directive_token, is_literal, is_valid_identifier, msg2, msg3, parse_condition, parse_define_params,
    parse_expr_inner, parse_for_vars, parse_export_directive, parse_import_directive, parse_interpolation_expr,
    parse_quoted_path, strip_trailing_directive_colon, has_unterminated_string,
};
use crate::text::{cut_point, find_byte, lemma_after_ascii_is_cut, lemma_str_valid, starts_with, str_eq, substring, tail_from, trim_str, trimmed, utf8};
use crate::grammar::{
    define_header_spec, depth_error, leaf_directive_spec, role_spec, arms_outcome, lemma_prepend_arm_push, lemma_prepend_node_push, module_outcome, node_outcome, nodes_outcome,
    prepend_arms, prepend_nodes, NodeShape, body_spec, colon_error_spec, consume_end_spec, directive_spec, directive_text, elseif_spec, elseifs_shape, ends_body_spec,
    err_shape, extends_spec, for_spec, frontmatter_spec, if_spec, in_keyword, line_error, message_spec, block_spec,
    define_spec, module_shape, module_spec, node_shape, nodes_shape,
};
use crate::parser_helpers::{params_shape, strip_prefix_spec, CondShape};
use vstd::utf8::*;

verus! {

broadcast use vstd::seq::group_seq_axioms, vstd::seq_lib::group_seq_properties;

/// The mutable state of one parse.
pub struct ParseState {
    /// The index of the next token.
    pub pos: usize,
    /// The current block nesting depth.
    pub depth: usize,
    /// Inside a `@message` body.
    pub inside_message: bool,
    /// Inside a `@block` body.
    pub inside_block: bool,
}

/// Where a body ends: at the end of the tokens, at `@end`, or at `@end`, `@else:` or `@elseif`.
pub enum BodyEnd {
    Top,
    End,
    IfArm,
}

/// The length of the line of `source` that starts at `offset` (to the next `\n`
/// or the end), or 0 when `offset` is out of range or inside a character.
pub open spec fn line_len_spec(b: Seq<u8>, offset: int) -> int
    decreases b.len() - offset,
{
    if offset < 0 || offset >= b.len() || b[offset] == 10u8 {
        0
    } else {
        1 + line_len_spec(b, offset + 1)
    }
}

/// The byte length of the source line that starts at `offset`.
pub fn directive_line_len(source: &str, offset: usize) -> (r: usize)
    ensures
        r == (if cut_point(source.spec_bytes(), offset as int) { line_len_spec(source.spec_bytes(), offset as int) } else { 0 }),
{
    let b = source.as_bytes();
    let n = b.len();
    if offset > n || (offset < n && 0x80 <= b[offset] && b[offset] <= 0xbf) {
        return 0;
    }
    let mut i = offset;
    while i < n && b[i] != 10
        invariant
            offset <= i <= n == b@.len(),
            line_len_spec(b@, offset as int) == (i - offset) + line_len_spec(b@, i as int),
        decreases n - i,
    {
        i = i + 1;
    }
    i - offset
}

/// A syntax error anchored at the directive line starting at `offset`.
fn syntax_at(source: &str, message: String, offset: usize) -> (r: MdsError)
    ensures
        r is Syntax,
        err_shape(r) == line_error(source.spec_bytes(), message@, offset),
{
    let len = directive_line_len(source, offset);
    MdsError::syntax_at(message, offset, len)
}

/// Attach the directive line at `offset` to an error without a span.
fn or_span_at(source: &str, e: MdsError, offset: usize) -> (r: MdsError)
    ensures
        e matches MdsError::Syntax { message, span: None } ==> err_shape(r) == line_error(source.spec_bytes(), message@, offset),
{
    let len = directive_line_len(source, offset);
    e.or_span(offset, len)
}

/// The missing-colon error of `directive`: a targeted message when `rest` leaves a
/// string literal open.
fn colon_error(source: &str, directive: &str, rest: &str, offset: usize) -> (r: MdsError)
    ensures
        r is Syntax,
        err_shape(r) == colon_error_spec(source.spec_bytes(), directive@, rest.spec_bytes(), offset),
{
    if has_unterminated_string(rest) {
        syntax_at(source, msg3("unterminated string literal in ", directive, " condition"), offset)
    } else {
        syntax_at(source, msg2(directive, " directive must end with ':'"), offset)
    }
}

/// The trimmed text of a directive token at `pos`, with its offset.
fn directive_at(tokens: &Vec<Token>, pos: usize) -> (r: Option<(String, usize)>)
    requires
        pos < tokens@.len(),
    ensures
        r is Some <==> tokens@[pos as int] is Directive,
        r matches Some((t, off)) ==> directive_text(tokens@, pos as int) == Some((utf8(t@), off)),
        r is None ==> directive_text(tokens@, pos as int) is None,
{
    match &tokens[pos] {
        Token::Directive(d, off) => Some((trim_str(d.as_str()), *off)),
        _ => None,
    }
}

/// The code of a body end in [`ends_body_spec`].
pub open spec fn end_code(end: BodyEnd) -> u8 {
    match end {
        BodyEnd::Top => 0,
        BodyEnd::End => 1,
        BodyEnd::IfArm => 2,
    }
}

/// Whether a trimmed directive ends a body of kind `end`.
fn ends_body(d: &str, end: &BodyEnd) -> (r: bool)
    ensures
        r == ends_body_spec(d.spec_bytes(), end_code(*end)),
{
    proof { encode_utf8_decode_utf8(d@); }
    match end {
        BodyEnd::Top => false,
        BodyEnd::End => str_eq(d, "@end"),
        BodyEnd::IfArm => str_eq(d, "@end") || str_eq(d, "@else:") || starts_with(d, "@elseif "),
    }
}

/// `s` without the leading `prefix`, when it starts with it.
fn strip_lead(s: &str, prefix: &str) -> (r: Option<String>)
    ensures
        r is Some <==> strip_prefix_spec(s.spec_bytes(), prefix.spec_bytes()) is Some,
        r matches Some(t) ==> strip_prefix_spec(s.spec_bytes(), prefix.spec_bytes()) == Some(utf8(t@)),
{
    if !starts_with(s, prefix) {
        return None;
    }
    let b = s.as_bytes();
    let k = prefix.as_bytes().len();
    if k < b.len() && 0x80 <= b[k] && b[k] <= 0xbf {
        return None;
    }
    Some(tail_from(s, k))
}

/// The first position of `" in "` in `b`, or the length.
fn find_in_keyword(b: &[u8]) -> (r: usize)
    ensures
        r <= b@.len(),
        r < b@.len() ==> r + 4 <= b@.len() && b@[r as int] == 32u8 && b@[r + 1] == 105u8 && b@[r + 2] == 110u8 && b@[r + 3] == 32u8,
        r == in_keyword(b@, 0),
{
    let n = b.len();
    let mut i: usize = 0;
    while n >= 4 && i <= n - 4
        invariant
            i <= n == b@.len(),
            in_keyword(b@, i as int) == in_keyword(b@, 0),
        decreases n - i,
    {
        if b[i] == 32 && b[i + 1] == 105 && b[i + 2] == 110 && b[i + 3] == 32 {
            return i;
        }
        i = i + 1;
    }
    n
}

/// Parse a token stream into a module: exactly what [`module_spec`] gives for the
/// tokens and the source.
pub fn parse_with_ctx(tokens: &Vec<Token>, source: &str) -> (r: Result<Module, MdsError>)
    ensures
        module_spec(tokens@, source.spec_bytes()) == module_outcome(r),
{
    let mut st = ParseState { pos: 0, depth: 0, inside_message: false, inside_block: false };
    parse_module(&mut st, tokens, source)
}

fn parse_module(st: &mut ParseState, tokens: &Vec<Token>, source: &str) -> (r: Result<Module, MdsError>)
    requires
        old(st).pos == 0,
        old(st).depth == 0,
        !old(st).inside_message,
        !old(st).inside_block,
    ensures
        module_spec(tokens@, source.spec_bytes()) == module_outcome(r),
{
    let frontmatter = parse_frontmatter(st, tokens);
    let extends = match parse_extends_if_present(st, tokens, source) {
        Ok(x) => x,
        Err(e) => return Err(e),
    };
    let body = match parse_body(st, tokens, source, &BodyEnd::Top) {
        Ok(b) => b,
        Err(e) => return Err(e),
    };
    Ok(Module { frontmatter, extends, body })
}

/// The leading frontmatter, if any.
fn parse_frontmatter(st: &mut ParseState, tokens: &Vec<Token>) -> (r: Option<Frontmatter>)
    requires
        old(st).pos <= tokens@.len(),
    ensures
        old(st).pos <= final(st).pos <= tokens@.len(),
        final(st).depth == old(st).depth,
        final(st).inside_message == old(st).inside_message,
        final(st).inside_block == old(st).inside_block,
        frontmatter_spec(tokens@, old(st).pos as int)
            == (match r { Some(f) => Some(f.raw@), None => None::<Seq<char>> }, final(st).pos as int),
{
    if st.pos >= tokens.len() {
        return None;
    }
    match &tokens[st.pos] {
        Token::FrontmatterFence(_) => {},
        _ => return None,
    }
    st.pos = st.pos + 1;
    let mut fm: Option<Frontmatter> = None;
    if st.pos < tokens.len() {
        if let Token::FrontmatterContent(content, _) = &tokens[st.pos] {
            fm = Some(Frontmatter { raw: content.clone() });
            st.pos = st.pos + 1;
        }
    }
    if st.pos < tokens.len() {
        if let Token::FrontmatterFence(_) = &tokens[st.pos] {
            st.pos = st.pos + 1;
        }
    }
    fm
}

/// A leading `@extends "path"`, after blank text only.
fn parse_extends_if_present(st: &mut ParseState, tokens: &Vec<Token>, source: &str) -> (r: Result<Option<ExtendsDirective>, MdsError>)
    requires
        old(st).pos <= tokens@.len(),
    ensures
        old(st).pos <= final(st).pos <= tokens@.len(),
        final(st).depth == old(st).depth,
        final(st).inside_message == old(st).inside_message,
        final(st).inside_block == old(st).inside_block,
        r matches Ok(x) ==> extends_spec(tokens@, source.spec_bytes(), old(st).pos as int, old(st).pos as int)
            == Ok::<(Option<(Seq<char>, usize)>, int), crate::grammar::ErrShape>(
                (match x { Some(e) => Some((e.path@, e.offset)), None => None }, final(st).pos as int)),
        r matches Err(e) ==> extends_spec(tokens@, source.spec_bytes(), old(st).pos as int, old(st).pos as int)
            == Err::<(Option<(Seq<char>, usize)>, int), crate::grammar::ErrShape>(err_shape(e)),
{
    let mut scan = st.pos;
    while scan < tokens.len()
        invariant
            st.pos <= scan <= tokens@.len(),
            st.pos == old(st).pos,
            st.depth == old(st).depth,
            st.inside_message == old(st).inside_message,
            st.inside_block == old(st).inside_block,
            extends_spec(tokens@, source.spec_bytes(), scan as int, st.pos as int)
                == extends_spec(tokens@, source.spec_bytes(), old(st).pos as int, old(st).pos as int),
        decreases tokens@.len() - scan,
    {
        match &tokens[scan] {
            Token::Text(t, _) => {
                let tt = trim_str(t.as_str());
                if tt.as_str().as_bytes().len() != 0 {
                    return Ok(None);
                }
                scan = scan + 1;
            },
            Token::Directive(d, off) => {
                let trimmed = trim_str(d.as_str());
                let ts = trimmed.as_str();
                proof { encode_utf8_decode_utf8(trimmed@); }
                if str_eq(ts, "@extends") || starts_with(ts, "@extends ") {
                    st.pos = scan + 1;
                    let offset = *off;
                    let rest = match strip_lead(ts, "@extends") {
                        Some(r) => trim_str(r.as_str()),
                        None => String::new(),
                    };
                    if rest.as_str().as_bytes().len() == 0 {
                        return Err(syntax_at(source, String::from_str("@extends requires a quoted path: @extends \"./base.mds\""), offset));
                    }
                    let path = parse_quoted_path(rest.as_str())?;
                    return Ok(Some(ExtendsDirective { path, offset }));
                }
                return Ok(None);
            },
            _ => return Ok(None),
        }
    }
    Ok(None)
}

/// Increment the nesting depth, failing past `MAX_NESTING_DEPTH`.
fn enter_block(st: &mut ParseState) -> (r: Result<(), MdsError>)
    requires
        old(st).depth <= MAX_NESTING_DEPTH,
    ensures
        final(st).pos == old(st).pos,
        final(st).inside_message == old(st).inside_message,
        final(st).inside_block == old(st).inside_block,
        r is Ok <==> old(st).depth < MAX_NESTING_DEPTH,
        r is Ok ==> final(st).depth == old(st).depth + 1,
        r is Err ==> final(st).depth == old(st).depth,
        r matches Err(e) ==> err_shape(e) == depth_error(),
{
    if st.depth >= MAX_NESTING_DEPTH {
        return Err(MdsError::syntax(String::from_str("nesting depth exceeds maximum of 64")));
    }
    st.depth = st.depth + 1;
    Ok(())
}

/// Consume the `@end` that closes `block_name`, returning its offset.
fn consume_end(st: &mut ParseState, tokens: &Vec<Token>, source: &str, block_name: &str, opener_offset: usize) -> (r: Result<usize, MdsError>)
    requires
        old(st).pos <= tokens@.len(),
    ensures
        old(st).pos <= final(st).pos <= tokens@.len(),
        final(st).depth == old(st).depth,
        final(st).inside_message == old(st).inside_message,
        final(st).inside_block == old(st).inside_block,
        r matches Ok(o) ==> consume_end_spec(tokens@, source.spec_bytes(), old(st).pos as int, block_name@,
            utf8(block_name@).len(), opener_offset) == Ok::<(usize, int), crate::grammar::ErrShape>((o, final(st).pos as int)),
        r matches Err(e) ==> consume_end_spec(tokens@, source.spec_bytes(), old(st).pos as int, block_name@,
            utf8(block_name@).len(), opener_offset) == Err::<(usize, int), crate::grammar::ErrShape>(err_shape(e)),
{
    if st.pos < tokens.len() {
        if let Token::Directive(d, off) = &tokens[st.pos] {
            let t = trim_str(d.as_str());
            proof { encode_utf8_decode_utf8(t@); }
            if str_eq(t.as_str(), "@end") {
                let end_offset = *off;
                st.pos = st.pos + 1;
                return Ok(end_offset);
            }
            let mut m = msg3("expected @end to close ", block_name, " block, got '");
            m.append(t.as_str());
            m.append("'");
            return Err(syntax_at(source, m, *off));
        }
    }
    Err(MdsError::syntax_at(msg3("unclosed ", block_name, " block (missing @end)"), opener_offset, block_name.as_bytes().len()))
}

/// Parse body nodes up to (not past) the terminator of `end`, or to the end of the tokens.
#[verifier::spinoff_prover]
#[verifier::rlimit(50)]
fn parse_body(st: &mut ParseState, tokens: &Vec<Token>, source: &str, end: &BodyEnd) -> (r: Result<Vec<Node>, MdsError>)
    requires
        old(st).pos <= tokens@.len(),
        old(st).depth <= MAX_NESTING_DEPTH,
    ensures
        old(st).pos <= final(st).pos <= tokens@.len(),
        r is Ok ==> final(st).depth == old(st).depth && final(st).inside_message == old(st).inside_message
            && final(st).inside_block == old(st).inside_block,
        body_spec(tokens@, source.spec_bytes(), old(st).pos as int, old(st).depth as int, old(st).inside_message,
            old(st).inside_block, end_code(*end)) == nodes_outcome(r, final(st).pos as int),
    decreases tokens@.len() - old(st).pos, 1int,
{
    let ghost ts = tokens@;
    let ghost src = source.spec_bytes();
    let ghost code = end_code(*end);
    let ghost (d0, im, ib) = (st.depth as int, st.inside_message, st.inside_block);
    let mut nodes: Vec<Node> = Vec::new();
    assert(nodes_shape(nodes@) =~= Seq::<NodeShape>::empty());
    assert(Seq::<NodeShape>::empty() + body_spec(ts, src, st.pos as int, d0, im, ib, code)->Ok_0.0
        =~= body_spec(ts, src, st.pos as int, d0, im, ib, code)->Ok_0.0);
    while st.pos < tokens.len()
        invariant
            old(st).pos <= st.pos <= tokens@.len(),
            ts == tokens@,
            src == source.spec_bytes(),
            code == end_code(*end),
            d0 == old(st).depth,
            im == old(st).inside_message,
            ib == old(st).inside_block,
            st.depth == old(st).depth,
            st.depth <= MAX_NESTING_DEPTH,
            st.inside_message == old(st).inside_message,
            st.inside_block == old(st).inside_block,
            body_spec(ts, src, old(st).pos as int, d0, im, ib, code)
                == prepend_nodes(nodes_shape(nodes@), body_spec(ts, src, st.pos as int, d0, im, ib, code)),
        decreases tokens@.len() - st.pos,
    {
        let pos = st.pos;
        proof { reveal(body_spec); }
        match &tokens[pos] {
            Token::Directive(d, _) => {
                let t = trim_str(d.as_str());
                if ends_body(t.as_str(), end) {
                    assert(nodes_shape(nodes@) + Seq::<NodeShape>::empty() =~= nodes_shape(nodes@));
                    return Ok(nodes);
                }
                let node = match parse_directive(st, tokens, source) {
                    Ok(n) => n,
                    Err(e) => return Err(e),
                };
                proof { lemma_prepend_node_push(nodes@, node, body_spec(ts, src, st.pos as int, d0, im, ib, code)); }
                nodes.push(node);
            },
            Token::Text(text, offset) => {
                let node = Node::Text(TextNode { text: text.clone(), offset: *offset });
                proof { lemma_prepend_node_push(nodes@, node, body_spec(ts, src, pos + 1, d0, im, ib, code)); }
                nodes.push(node);
                st.pos = pos + 1;
            },
            Token::Interpolation(expr, offset) => {
                let interp = match parse_interpolation_expr(expr.as_str(), *offset) {
                    Ok(i) => i,
                    Err(e) => return Err(e),
                };
                let node = Node::Interpolation(interp);
                proof { lemma_prepend_node_push(nodes@, node, body_spec(ts, src, pos + 1, d0, im, ib, code)); }
                nodes.push(node);
                st.pos = pos + 1;
            },
            Token::EscapedBrace(offset) => {
                let node = Node::EscapedBrace { offset: *offset };
                proof { lemma_prepend_node_push(nodes@, node, body_spec(ts, src, pos + 1, d0, im, ib, code)); }
                nodes.push(node);
                st.pos = pos + 1;
            },
            Token::CodeFence(fence, offset) => {
                let mut text = fence.clone();
                text.append("\n");
                let node = Node::Text(TextNode { text, offset: *offset });
                proof { lemma_prepend_node_push(nodes@, node, body_spec(ts, src, pos + 1, d0, im, ib, code)); }
                nodes.push(node);
                st.pos = pos + 1;
            },
            Token::CodeContent(content, offset) => {
                let node = Node::Text(TextNode { text: content.clone(), offset: *offset });
                proof { lemma_prepend_node_push(nodes@, node, body_spec(ts, src, pos + 1, d0, im, ib, code)); }
                nodes.push(node);
                st.pos = pos + 1;
            },
            _ => {
                st.pos = pos + 1;
            },
        }
    }
    proof { reveal(body_spec); }
    assert(nodes_shape(nodes@) + Seq::<NodeShape>::empty() =~= nodes_shape(nodes@));
    Ok(nodes)
}

/// Parse the directive at the current position.
#[verifier::spinoff_prover]
#[verifier::rlimit(50)]
fn parse_directive(st: &mut ParseState, tokens: &Vec<Token>, source: &str) -> (r: Result<Node, MdsError>)
    requires
        old(st).pos < tokens@.len(),
        old(st).depth <= MAX_NESTING_DEPTH,
    ensures
        old(st).pos < final(st).pos <= tokens@.len(),
        r is Ok ==> final(st).depth == old(st).depth && final(st).inside_message == old(st).inside_message
            && final(st).inside_block == old(st).inside_block,
        directive_spec(tokens@, source.spec_bytes(), old(st).pos as int, old(st).depth as int, old(st).inside_message,
            old(st).inside_block) == node_outcome(r, final(st).pos as int),
    decreases tokens@.len() - old(st).pos, 0int,
{
    proof { reveal(directive_spec); }
    let _n = tokens.len();
    let (dir, offset) = match &tokens[st.pos] {
        Token::Directive(d, o) => (d.clone(), *o),
        _ => {
            st.pos = st.pos + 1;
            return Err(MdsError::syntax(String::from_str("expected directive")));
        },
    };
    st.pos = st.pos + 1;
    let trimmed = trim_str(dir.as_str());
    let ts = trimmed.as_str();
    proof { encode_utf8_decode_utf8(trimmed@); }
    if let Some(rest) = strip_lead(ts, "@if ") {
        return parse_if_block(st, tokens, source, rest.as_str(), offset);
    }
    if let Some(rest) = strip_lead(ts, "@for ") {
        return parse_for_block(st, tokens, source, rest.as_str(), offset);
    }
    if let Some(rest) = strip_lead(ts, "@define ") {
        return parse_define_block(st, tokens, source, rest.as_str(), offset);
    }
    if let Some(rest) = strip_lead(ts, "@message ") {
        return parse_message_block(st, tokens, source, rest.as_str(), offset);
    }
    if let Some(rest) = strip_lead(ts, "@block ") {
        return parse_block(st, tokens, source, rest.as_str(), offset);
    }
    parse_leaf_directive(source, ts, dir.as_str().as_bytes().len(), offset)
}

/// A directive without a body: `@import`, `@export`, `@include`, or the error of a
/// misplaced or unknown directive.
#[verifier::spinoff_prover]
#[verifier::rlimit(50)]
fn parse_leaf_directive(source: &str, ts: &str, dir_len: usize, offset: usize) -> (r: Result<Node, MdsError>)
    ensures
        leaf_directive_spec(source.spec_bytes(), ts.spec_bytes(), dir_len as nat, offset)
            == match r { Ok(n) => Ok::<NodeShape, crate::grammar::ErrShape>(node_shape(n)), Err(e) => Err(err_shape(e)) },
{
    proof {
        reveal(leaf_directive_spec);
        encode_utf8_decode_utf8(ts@);
        encode_utf8_decode_utf8("@import"@);
        encode_utf8_decode_utf8("@export"@);
    }
    if is_directive_token(ts, "@import") {
        return parse_import_directive(ts, offset);
    }
    if is_directive_token(ts, "@export") {
        return parse_export_directive(ts, offset);
    }
    if let Some(rest) = strip_lead(ts, "@include ") {
        let alias = trim_str(rest.as_str());
        proof { encode_utf8_decode_utf8(alias@); }
        if !is_valid_identifier(alias.as_str()) {
            return Err(syntax_at(source, msg3("invalid include alias: '", alias.as_str(), "'"), offset));
        }
        return Ok(Node::Include(IncludeDirective { alias, offset }));
    }
    if str_eq(ts, "@else") {
        return Err(syntax_at(source, String::from_str("found '@else' without colon — use '@else:' (with trailing colon)"), offset));
    }
    if starts_with(ts, "@elseif ") || str_eq(ts, "@elseif") {
        return Err(syntax_at(source, String::from_str("@elseif must appear inside an @if block"), offset));
    }
    if starts_with(ts, "@elseif:") {
        return Err(syntax_at(source, String::from_str("found '@elseif:' without a condition — use '@elseif <condition>:' (condition required)"), offset));
    }
    if str_eq(ts, "@extends") || starts_with(ts, "@extends ") {
        return Err(MdsError::Extends {
            message: String::from_str("@extends must be the first directive after frontmatter — only one @extends is allowed and it must appear before any other content"),
            span: Some(SerializedSpan::at(offset, dir_len)),
        });
    }
    Err(syntax_at(source, msg3("unknown directive: ", ts,
        ". Valid directives: @if, @elseif, @else:, @end, @for, @define, @import, @export, @include, @message, @block, @extends"), offset))
}

#[verifier::spinoff_prover]
#[verifier::rlimit(50)]
fn parse_if_block(st: &mut ParseState, tokens: &Vec<Token>, source: &str, rest: &str, offset: usize) -> (r: Result<Node, MdsError>)
    requires
        old(st).pos <= tokens@.len(),
        old(st).depth <= MAX_NESTING_DEPTH,
    ensures
        old(st).pos <= final(st).pos <= tokens@.len(),
        r is Ok ==> final(st).depth == old(st).depth && final(st).inside_message == old(st).inside_message
            && final(st).inside_block == old(st).inside_block,
        if_spec(tokens@, source.spec_bytes(), old(st).pos as int, old(st).depth as int, old(st).inside_message,
            old(st).inside_block, rest.spec_bytes(), offset) == node_outcome(r, final(st).pos as int),
    decreases tokens@.len() - old(st).pos, 2int,
{
    proof { reveal(if_spec); }
    match enter_block(st) {
        Ok(()) => {},
        Err(e) => return Err(e),
    }
    let trimmed = trim_str(rest);
    let cond_str = match strip_trailing_directive_colon(trimmed.as_str()) {
        Some(c) => c,
        None => return Err(colon_error(source, "@if", trimmed.as_str(), offset)),
    };
    let condition = match parse_condition(cond_str.as_str()) {
        Ok(c) => c,
        Err(e) => return Err(or_span_at(source, e, offset)),
    };
    let then_body = match parse_body(st, tokens, source, &BodyEnd::IfArm) {
        Ok(b) => b,
        Err(e) => return Err(e),
    };
    let elseif_branches = match collect_elseif_branches(st, tokens, source) {
        Ok(b) => b,
        Err(e) => return Err(e),
    };
    let mut else_body: Option<Vec<Node>> = None;
    let mut else_offset: Option<usize> = None;
    if st.pos < tokens.len() {
        if let Some((d, off)) = directive_at(tokens, st.pos) {
            proof { encode_utf8_decode_utf8(d@); }
            if str_eq(d.as_str(), "@else:") {
                st.pos = st.pos + 1;
                let body = match parse_body(st, tokens, source, &BodyEnd::End) {
                    Ok(b) => b,
                    Err(e) => return Err(e),
                };
                else_body = Some(body);
                else_offset = Some(off);
            }
        }
    }
    let end_offset = match consume_end(st, tokens, source, "@if", offset) {
        Ok(o) => o,
        Err(e) => return Err(e),
    };
    st.depth = st.depth - 1;
    Ok(Node::If(IfBlock { condition, elseif_branches, then_body, else_body, offset, else_offset, end_offset }))
}

/// The consecutive `@elseif` arms after a then-body.
#[verifier::spinoff_prover]
#[verifier::rlimit(50)]
fn collect_elseif_branches(st: &mut ParseState, tokens: &Vec<Token>, source: &str) -> (r: Result<Vec<ElseifBranch>, MdsError>)
    requires
        old(st).pos <= tokens@.len(),
        old(st).depth <= MAX_NESTING_DEPTH,
    ensures
        old(st).pos <= final(st).pos <= tokens@.len(),
        r is Ok ==> final(st).depth == old(st).depth && final(st).inside_message == old(st).inside_message
            && final(st).inside_block == old(st).inside_block,
        r matches Ok(v) ==> v@.len() <= MAX_ELSEIF_BRANCHES,
        elseif_spec(tokens@, source.spec_bytes(), old(st).pos as int, old(st).depth as int, old(st).inside_message,
            old(st).inside_block, 0) == arms_outcome(r, final(st).pos as int),
    decreases tokens@.len() - old(st).pos, 1int,
{
    let ghost ts = tokens@;
    let ghost src = source.spec_bytes();
    let ghost (d0, im, ib) = (st.depth as int, st.inside_message, st.inside_block);
    let ghost p0 = st.pos as int;
    let mut branches: Vec<ElseifBranch> = Vec::new();
    proof {
        assert(elseifs_shape(branches@) =~= Seq::<(CondShape, Seq<NodeShape>, usize)>::empty());
        match elseif_spec(ts, src, p0, d0, im, ib, 0) {
            Ok((a, q)) => { assert(Seq::<(CondShape, Seq<NodeShape>, usize)>::empty() + a =~= a); },
            Err(_) => {},
        }
    }
    loop
        invariant
            old(st).pos <= st.pos <= tokens@.len(),
            ts == tokens@,
            src == source.spec_bytes(),
            p0 == old(st).pos,
            d0 == old(st).depth,
            im == old(st).inside_message,
            ib == old(st).inside_block,
            st.depth == old(st).depth,
            st.depth <= MAX_NESTING_DEPTH,
            st.inside_message == old(st).inside_message,
            st.inside_block == old(st).inside_block,
            branches@.len() <= MAX_ELSEIF_BRANCHES,
            elseif_spec(ts, src, p0, d0, im, ib, 0)
                == prepend_arms(elseifs_shape(branches@), elseif_spec(ts, src, st.pos as int, d0, im, ib, branches@.len())),
        ensures
            old(st).pos <= st.pos <= tokens@.len(),
            st.depth == old(st).depth,
            st.inside_message == old(st).inside_message,
            st.inside_block == old(st).inside_block,
            branches@.len() <= MAX_ELSEIF_BRANCHES,
            elseif_spec(ts, src, p0, d0, im, ib, 0)
                == prepend_arms(elseifs_shape(branches@), elseif_spec(ts, src, st.pos as int, d0, im, ib, branches@.len())),
            elseif_spec(ts, src, st.pos as int, d0, im, ib, branches@.len()) == Ok::<(Seq<(CondShape, Seq<NodeShape>, usize)>, int), crate::grammar::ErrShape>(
                (Seq::empty(), st.pos as int)),
        decreases tokens@.len() - st.pos,
    {
        proof { reveal(elseif_spec); }
        if st.pos >= tokens.len() {
            break;
        }
        let (d, off) = match directive_at(tokens, st.pos) {
            Some(x) => x,
            None => break,
        };
        let rest = match strip_lead(d.as_str(), "@elseif ") {
            Some(r) => r,
            None => break,
        };
        if branches.len() >= MAX_ELSEIF_BRANCHES {
            return Err(syntax_at(source, String::from_str("@if block has more than 256 @elseif branches"), off));
        }
        let ghost pos = st.pos as int;
        st.pos = st.pos + 1;
        let rest = trim_str(rest.as_str());
        let cond_str = match strip_trailing_directive_colon(rest.as_str()) {
            Some(c) => c,
            None => return Err(colon_error(source, "@elseif", rest.as_str(), off)),
        };
        let condition = match parse_condition(cond_str.as_str()) {
            Ok(c) => c,
            Err(e) => return Err(or_span_at(source, e, off)),
        };
        let body = match parse_body(st, tokens, source, &BodyEnd::IfArm) {
            Ok(b) => b,
            Err(e) => return Err(e),
        };
        let branch = ElseifBranch { condition, body, offset: off };
        proof {
            lemma_prepend_arm_push(branches@, branch, elseif_spec(ts, src, st.pos as int, d0, im, ib, branches@.len() + 1));
        }
        branches.push(branch);
    }
    proof {
        assert(elseifs_shape(branches@) + Seq::<(CondShape, Seq<NodeShape>, usize)>::empty() =~= elseifs_shape(branches@));
    }
    Ok(branches)
}

#[verifier::spinoff_prover]
#[verifier::rlimit(100)]
fn parse_for_block(st: &mut ParseState, tokens: &Vec<Token>, source: &str, rest: &str, offset: usize) -> (r: Result<Node, MdsError>)
    requires
        old(st).pos <= tokens@.len(),
        old(st).depth <= MAX_NESTING_DEPTH,
    ensures
        old(st).pos <= final(st).pos <= tokens@.len(),
        r is Ok ==> final(st).depth == old(st).depth && final(st).inside_message == old(st).inside_message
            && final(st).inside_block == old(st).inside_block,
        for_spec(tokens@, source.spec_bytes(), old(st).pos as int, old(st).depth as int, old(st).inside_message,
            old(st).inside_block, rest.spec_bytes(), offset) == node_outcome(r, final(st).pos as int),
    decreases tokens@.len() - old(st).pos, 2int,
{
    proof { reveal(for_spec); }
    match enter_block(st) {
        Ok(()) => {},
        Err(e) => return Err(e),
    }
    let trimmed = trim_str(rest);
    let inner = match strip_trailing_directive_colon(trimmed.as_str()) {
        Some(c) => c,
        None => return Err(colon_error(source, "@for", trimmed.as_str(), offset)),
    };
    let is = inner.as_str();
    let ib = is.as_bytes();
    let in_idx = find_in_keyword(ib);
    if in_idx >= ib.len() {
        return Err(syntax_at(source, String::from_str("@for must follow pattern: @for <var> in <iterable>:"), offset));
    }
    proof {
        lemma_str_valid(is);
        lemma_after_ascii_is_cut(ib@, in_idx + 4);
    }
    let var_part = trim_str(substring(is, 0, in_idx).as_str());
    let iterable_str = trim_str(tail_from(is, in_idx + 4).as_str());
    proof { encode_utf8_decode_utf8(iterable_str@); }
    let (key_var, var) = match parse_for_vars(var_part.as_str()) {
        Ok(x) => x,
        Err(e) => return Err(e),
    };
    let iterable = match parse_expr_inner(iterable_str.as_str()) {
        Ok(e) => e,
        Err(e) => return Err(or_span_at(source, e, offset)),
    };
    if is_literal(&iterable) {
        return Err(syntax_at(source, msg3("cannot use a literal value as @for iterable: '", iterable_str.as_str(),
            "' — use a variable or function call"), offset));
    }
    let body = match parse_body(st, tokens, source, &BodyEnd::End) {
        Ok(b) => b,
        Err(e) => return Err(e),
    };
    let end_offset = match consume_end(st, tokens, source, "@for", offset) {
        Ok(o) => o,
        Err(e) => return Err(e),
    };
    st.depth = st.depth - 1;
    Ok(Node::For(ForBlock { var, key_var, iterable, body, offset, end_offset }))
}

#[verifier::spinoff_prover]
#[verifier::rlimit(50)]
fn parse_message_block(st: &mut ParseState, tokens: &Vec<Token>, source: &str, rest: &str, offset: usize) -> (r: Result<Node, MdsError>)
    requires
        old(st).pos <= tokens@.len(),
        old(st).depth <= MAX_NESTING_DEPTH,
    ensures
        old(st).pos <= final(st).pos <= tokens@.len(),
        r is Ok ==> final(st).depth == old(st).depth && final(st).inside_message == old(st).inside_message
            && final(st).inside_block == old(st).inside_block,
        message_spec(tokens@, source.spec_bytes(), old(st).pos as int, old(st).depth as int, old(st).inside_message,
            old(st).inside_block, rest.spec_bytes(), offset) == node_outcome(r, final(st).pos as int),
    decreases tokens@.len() - old(st).pos, 2int,
{
    proof { reveal(message_spec); }
    if st.inside_message {
        return Err(syntax_at(source, String::from_str("@message blocks cannot be nested inside another @message block"), offset));
    }
    let trimmed = trim_str(rest);
    let role_str = match strip_trailing_directive_colon(trimmed.as_str()) {
        Some(c) => c,
        None => return Err(colon_error(source, "@message", trimmed.as_str(), offset)),
    };
    let role_t = trim_str(role_str.as_str());
    let rs = role_t.as_str();
    let rb = rs.as_bytes();
    proof { encode_utf8_decode_utf8(role_t@); }
    let role = if rb.len() >= 2 && rb[0] == 123 && rb[rb.len() - 1] == 125 {
        proof {
            lemma_str_valid(rs);
            lemma_after_ascii_is_cut(rb@, 1);
        }
        let inner = trim_str(substring(rs, 1, rb.len() - 1).as_str());
        match parse_expr_inner(inner.as_str()) {
            Ok(e) => e,
            Err(e) => return Err(or_span_at(source, e, offset)),
        }
    } else {
        if rb.len() == 0 {
            return Err(syntax_at(source, String::from_str("@message role must not be empty — use e.g. @message system:"), offset));
        }
        Expr::StringLiteral(role_t)
    };
    assert(role_spec(source.spec_bytes(), utf8(role_t@), offset) == Ok::<crate::parser_helpers::ExprShape, crate::grammar::ErrShape>(
        crate::parser_helpers::expr_shape(role)));
    let d0 = st.depth;
    match enter_block(st) {
        Ok(()) => {},
        Err(e) => return Err(e),
    }
    st.inside_message = true;
    let body = match parse_body(st, tokens, source, &BodyEnd::End) {
        Ok(b) => b,
        Err(e) => {
            st.inside_message = false;
            st.depth = d0;
            return Err(e);
        },
    };
    let end = consume_end(st, tokens, source, "@message", offset);
    st.inside_message = false;
    st.depth = d0;
    match end {
        Ok(_) => {},
        Err(e) => return Err(e),
    }
    Ok(Node::Message(MessageBlock { role, body, offset }))
}

#[verifier::spinoff_prover]
#[verifier::rlimit(50)]
fn parse_block(st: &mut ParseState, tokens: &Vec<Token>, source: &str, rest: &str, offset: usize) -> (r: Result<Node, MdsError>)
    requires
        old(st).pos <= tokens@.len(),
        old(st).depth <= MAX_NESTING_DEPTH,
    ensures
        old(st).pos <= final(st).pos <= tokens@.len(),
        r is Ok ==> final(st).depth == old(st).depth && final(st).inside_message == old(st).inside_message
            && final(st).inside_block == old(st).inside_block,
        block_spec(tokens@, source.spec_bytes(), old(st).pos as int, old(st).depth as int, old(st).inside_message,
            old(st).inside_block, rest.spec_bytes(), offset) == node_outcome(r, final(st).pos as int),
    decreases tokens@.len() - old(st).pos, 2int,
{
    proof { reveal(block_spec); }
    if st.inside_block {
        return Err(syntax_at(source, String::from_str("@block cannot be nested inside another @block"), offset));
    }
    if st.inside_message {
        return Err(syntax_at(source, String::from_str("@block cannot be nested inside a @message block"), offset));
    }
    if st.depth > 0 {
        return Err(syntax_at(source, String::from_str("@block is top-level only — it cannot appear inside @if, @for, or @define"), offset));
    }
    let trimmed = trim_str(rest);
    let name_str = match strip_trailing_directive_colon(trimmed.as_str()) {
        Some(c) => c,
        None => return Err(colon_error(source, "@block", trimmed.as_str(), offset)),
    };
    let name = trim_str(name_str.as_str());
    proof { encode_utf8_decode_utf8(name@); }
    if name.as_str().as_bytes().len() == 0 {
        return Err(syntax_at(source, String::from_str("@block name must not be empty — use e.g. @block instructions:"), offset));
    }
    if !is_valid_identifier(name.as_str()) {
        return Err(syntax_at(source, msg3("invalid @block name: '", name.as_str(), "' — must be a valid identifier"), offset));
    }
    let d0 = st.depth;
    match enter_block(st) {
        Ok(()) => {},
        Err(e) => return Err(e),
    }
    st.inside_block = true;
    let body = match parse_body(st, tokens, source, &BodyEnd::End) {
        Ok(b) => b,
        Err(e) => {
            st.inside_block = false;
            st.depth = d0;
            return Err(e);
        },
    };
    let end = consume_end(st, tokens, source, "@block", offset);
    st.inside_block = false;
    st.depth = d0;
    match end {
        Ok(_) => {},
        Err(e) => return Err(e),
    }
    Ok(Node::Block(BlockNode { name, body, offset }))
}

/// The header of an `@define`: the function's name and parameters.
#[verifier::spinoff_prover]
#[verifier::rlimit(50)]
fn parse_define_header(source: &str, rest: &str, offset: usize) -> (r: Result<(String, Vec<Param>), MdsError>)
    ensures
        define_header_spec(source.spec_bytes(), rest.spec_bytes(), offset) == match r {
            Ok((n, ps)) => Ok::<(Seq<char>, Seq<(Seq<char>, Option<crate::parser_helpers::ExprShape>)>), crate::grammar::ErrShape>(
                (n@, params_shape(ps@))),
            Err(e) => Err(err_shape(e)),
        },
{
    let t = trim_str(rest);
    let ts = t.as_str();
    let tb = ts.as_bytes();
    if tb.len() == 0 || tb[tb.len() - 1] != 58 {
        return Err(syntax_at(source, String::from_str("@define directive must end with ':'"), offset));
    }
    proof { lemma_str_valid(ts); }
    let head = trim_str(substring(ts, 0, tb.len() - 1).as_str());
    let hs = head.as_str();
    let hb = hs.as_bytes();
    let paren_start = find_byte(hb, 40, 0);
    if paren_start >= hb.len() {
        return Err(syntax_at(source, String::from_str("@define must have parameter list: @define name(params):"), offset));
    }
    let paren_end = find_byte(hb, 41, 0);
    if paren_end >= hb.len() || paren_end < paren_start {
        return Err(syntax_at(source, String::from_str("@define: unclosed parenthesis"), offset));
    }
    proof {
        lemma_str_valid(hs);
        lemma_after_ascii_is_cut(hb@, paren_start + 1);
    }
    let name = trim_str(substring(hs, 0, paren_start).as_str());
    proof { encode_utf8_decode_utf8(name@); }
    if !is_valid_identifier(name.as_str()) {
        return Err(syntax_at(source, msg3("invalid function name: '", name.as_str(), "'"), offset));
    }
    let params_str = substring(hs, paren_start + 1, paren_end);
    let params = match parse_define_params(params_str.as_str(), name.as_str()) {
        Ok(p) => p,
        Err(e) => return Err(e),
    };
    Ok((name, params))
}

#[verifier::spinoff_prover]
#[verifier::rlimit(100)]
fn parse_define_block(st: &mut ParseState, tokens: &Vec<Token>, source: &str, rest: &str, offset: usize) -> (r: Result<Node, MdsError>)
    requires
        old(st).pos <= tokens@.len(),
        old(st).depth <= MAX_NESTING_DEPTH,
    ensures
        old(st).pos <= final(st).pos <= tokens@.len(),
        r is Ok ==> final(st).depth == old(st).depth && final(st).inside_message == old(st).inside_message
            && final(st).inside_block == old(st).inside_block,
        define_spec(tokens@, source.spec_bytes(), old(st).pos as int, old(st).depth as int, old(st).inside_message,
            old(st).inside_block, rest.spec_bytes(), offset) == node_outcome(r, final(st).pos as int),
    decreases tokens@.len() - old(st).pos, 2int,
{
    proof { reveal(define_spec); }
    match enter_block(st) {
        Ok(()) => {},
        Err(e) => return Err(e),
    }
    let (name, params) = match parse_define_header(source, rest, offset) {
        Ok(x) => x,
        Err(e) => return Err(e),
    };
    let body = match parse_body(st, tokens, source, &BodyEnd::End) {
        Ok(b) => b,
        Err(e) => return Err(e),
    };
    let end_offset = match consume_end(st, tokens, source, "@define", offset) {
        Ok(o) => o,
        Err(e) => return Err(e),
    };
    st.depth = st.depth - 1;
    Ok(Node::Define(DefineBlock { name, params, body, offset, end_offset }))
}

} // verus!
