//! What a template parses to, stated over the token stream: the syntax tree by
//! shapes (texts by their characters) and each error by its kind, message and
//! span. The parser in `parser` is proved to compute exactly this.
use vstd::prelude::*;
use vstd::string::*;
use vstd::utf8::*;
use crate::ast::{ElseifBranch, Module, Node};
use crate::error::{MdsError, SerializedSpan};
use crate::lexer::Token;
use crate::limits::{MAX_ELSEIF_BRANCHES, MAX_NESTING_DEPTH};
use crate::parser_helpers::{
    condition_spec, cond_shape, directive_colon_spec, expr_shape, expr_spec, export_shape, export_spec,
    for_vars_spec, define_params_spec, import_shape, import_spec, interpolation_spec, is_ident, literal_shape,
    params_shape, quoted_path_spec, strip_prefix_spec, CondShape, ExportShape, ExprShape, ImportShape,
};
use crate::scan::scan_state;
use crate::text::{cut_point, index_of, trimmed, utf8};

verus! {

// ── Shapes ───────────────────────────────────────────────────────────────────

/// A node of the syntax tree, each text by its characters.
pub enum NodeShape {
    Text(Seq<char>, usize),
    Interpolation(ExprShape, usize, usize),
    EscapedBrace(usize),
    If {
        condition: CondShape,
        elseifs: Seq<(CondShape, Seq<NodeShape>, usize)>,
        then_body: Seq<NodeShape>,
        else_body: Option<Seq<NodeShape>>,
        offset: usize,
        else_offset: Option<usize>,
        end_offset: usize,
    },
    For { var: Seq<char>, key_var: Option<Seq<char>>, iterable: ExprShape, body: Seq<NodeShape>, offset: usize, end_offset: usize },
    Define { name: Seq<char>, params: Seq<(Seq<char>, Option<ExprShape>)>, body: Seq<NodeShape>, offset: usize, end_offset: usize },
    Import(ImportShape),
    Export(ExportShape),
    Include(Seq<char>, usize),
    Message { role: ExprShape, body: Seq<NodeShape>, offset: usize },
    Block { name: Seq<char>, body: Seq<NodeShape>, offset: usize },
}

/// A parsed template: the raw frontmatter, the `@extends` path and offset, the body.
pub struct ModuleShape {
    pub frontmatter: Option<Seq<char>>,
    pub extends: Option<(Seq<char>, usize)>,
    pub body: Seq<NodeShape>,
}

/// An error by its kind (0 syntax, 1 extends, 2 resource limit), message and span.
pub type ErrShape = (u8, Seq<char>, Option<SerializedSpan>);

/// The shape of an error.
pub open spec fn err_shape(e: MdsError) -> ErrShape {
    match e {
        MdsError::Syntax { message, span } => (0u8, message@, span),
        MdsError::Extends { message, span } => (1u8, message@, span),
        MdsError::ResourceLimit { message } => (2u8, message@, None),
    }
}

/// The shape of a node.
pub open spec fn node_shape(n: Node) -> NodeShape
    decreases n,
{
    match n {
        Node::Text(t) => NodeShape::Text(t.text@, t.offset),
        Node::Interpolation(i) => NodeShape::Interpolation(expr_shape(i.expr), i.offset, i.len),
        Node::EscapedBrace { offset } => NodeShape::EscapedBrace(offset),
        Node::If(b) => NodeShape::If {
            condition: cond_shape(b.condition),
            elseifs: elseifs_shape(b.elseif_branches@),
            then_body: nodes_shape(b.then_body@),
            else_body: match b.else_body { Some(v) => Some(nodes_shape(v@)), None => None },
            offset: b.offset,
            else_offset: b.else_offset,
            end_offset: b.end_offset,
        },
        Node::For(f) => NodeShape::For {
            var: f.var@,
            key_var: match f.key_var { Some(k) => Some(k@), None => None },
            iterable: expr_shape(f.iterable),
            body: nodes_shape(f.body@),
            offset: f.offset,
            end_offset: f.end_offset,
        },
        Node::Define(d) => NodeShape::Define {
            name: d.name@,
            params: params_shape(d.params@),
            body: nodes_shape(d.body@),
            offset: d.offset,
            end_offset: d.end_offset,
        },
        Node::Import(i) => NodeShape::Import(import_shape(Node::Import(i))),
        Node::Export(e) => NodeShape::Export(export_shape(Node::Export(e))),
        Node::Include(i) => NodeShape::Include(i.alias@, i.offset),
        Node::Message(m) => NodeShape::Message { role: expr_shape(m.role), body: nodes_shape(m.body@), offset: m.offset },
        Node::Block(b) => NodeShape::Block { name: b.name@, body: nodes_shape(b.body@), offset: b.offset },
    }
}

/// The shapes of a list of nodes.
pub open spec fn nodes_shape(v: Seq<Node>) -> Seq<NodeShape>
    decreases v,
{
    Seq::new(v.len(), |i: int| if 0 <= i < v.len() { node_shape(v[i]) } else { NodeShape::EscapedBrace(0) })
}

/// The shape of an `@elseif` arm.
pub open spec fn elseif_shape(b: ElseifBranch) -> (CondShape, Seq<NodeShape>, usize)
    decreases b,
{
    (cond_shape(b.condition), nodes_shape(b.body@), b.offset)
}

/// The shapes of a list of `@elseif` arms.
pub open spec fn elseifs_shape(v: Seq<ElseifBranch>) -> Seq<(CondShape, Seq<NodeShape>, usize)>
    decreases v,
{
    Seq::new(v.len(), |i: int| if 0 <= i < v.len() { elseif_shape(v[i]) } else { (CondShape::And(Seq::empty()), Seq::empty(), 0) })
}

/// The shape of a module.
pub open spec fn module_shape(m: Module) -> ModuleShape {
    ModuleShape {
        frontmatter: match m.frontmatter { Some(f) => Some(f.raw@), None => None },
        extends: match m.extends { Some(e) => Some((e.path@, e.offset)), None => None },
        body: nodes_shape(m.body@),
    }
}

// ── Errors ───────────────────────────────────────────────────────────────────

/// The span of the source line that starts at `offset` (empty when `offset` is not
/// the start of a character).
pub open spec fn line_span(src: Seq<u8>, offset: usize) -> Option<SerializedSpan> {
    Some(SerializedSpan {
        offset,
        length: (if cut_point(src, offset as int) { crate::parser::line_len_spec(src, offset as int) } else { 0 }) as usize,
        line: None,
        column: None,
    })
}

/// A syntax error with `message`, anchored at the directive line at `offset`.
pub open spec fn line_error(src: Seq<u8>, message: Seq<char>, offset: usize) -> ErrShape {
    (0u8, message, line_span(src, offset))
}

/// A syntax error without a span.
pub open spec fn plain_error(message: Seq<char>) -> ErrShape {
    (0u8, message, None)
}

/// The missing-colon error of `directive` whose text after the keyword is `rest`.
pub open spec fn colon_error_spec(src: Seq<u8>, directive: Seq<char>, rest: Seq<u8>, offset: usize) -> ErrShape {
    if scan_state(rest, rest.len() as int).0 {
        line_error(src, "unterminated string literal in "@ + directive + " condition"@, offset)
    } else {
        line_error(src, directive + " directive must end with ':'"@, offset)
    }
}

/// The error of exceeding the nesting depth.
pub open spec fn depth_error() -> ErrShape {
    plain_error("nesting depth exceeds maximum of 64"@)
}

// ── Directive text ───────────────────────────────────────────────────────────

/// `t` begins with the bytes `p`.
pub open spec fn has_prefix(t: Seq<u8>, p: Seq<u8>) -> bool {
    p.len() <= t.len() && t.subrange(0, p.len() as int) == p
}

/// `t` is the keyword `kw` alone or followed by a space, a tab or `{`.
pub open spec fn directive_token_spec(t: Seq<u8>, kw: Seq<u8>) -> bool {
    t == kw || (kw.len() < t.len() && t.subrange(0, kw.len() as int) == kw
        && (t[kw.len() as int] == 32u8 || t[kw.len() as int] == 9u8 || t[kw.len() as int] == 123u8))
}

/// The trimmed directive `t` ends a body that ends at `end` (0: never, 1: `@end`,
/// 2: `@end`, `@else:` or `@elseif ...`).
pub open spec fn ends_body_spec(t: Seq<u8>, end: u8) -> bool {
    if end == 0 {
        false
    } else if end == 1 {
        decode_utf8(t) == "@end"@
    } else {
        decode_utf8(t) == "@end"@ || decode_utf8(t) == "@else:"@ || has_prefix(t, "@elseif ".spec_bytes())
    }
}

/// The first position of ` in ` in `b`, or the length.
pub open spec fn in_keyword(b: Seq<u8>, i: int) -> int
    decreases b.len() - i,
{
    if i < 0 || i + 4 > b.len() {
        b.len() as int
    } else if b[i] == 32u8 && b[i + 1] == 105u8 && b[i + 2] == 110u8 && b[i + 3] == 32u8 {
        i
    } else {
        in_keyword(b, i + 1)
    }
}

/// The trimmed text of the directive token at `pos`, when there is one there.
pub open spec fn directive_text(ts: Seq<Token>, pos: int) -> Option<(Seq<u8>, usize)> {
    if 0 <= pos < ts.len() {
        match ts[pos] {
            Token::Directive(d, off) => Some((trimmed(utf8(d@)), off)),
            _ => None,
        }
    } else {
        None
    }
}

// ── The grammar ──────────────────────────────────────────────────────────────

/// The `@end` closing `name` (of byte length `name_len`) at `pos`: its offset and
/// the next position; or the error.
pub open spec fn consume_end_spec(ts: Seq<Token>, src: Seq<u8>, pos: int, name: Seq<char>, name_len: nat, opener: usize)
    -> Result<(usize, int), ErrShape>
{
    match directive_text(ts, pos) {
        Some((t, off)) => if decode_utf8(t) == "@end"@ {
            Ok((off, pos + 1))
        } else {
            Err(line_error(src, "expected @end to close "@ + name + " block, got '"@ + decode_utf8(t) + "'"@, off))
        },
        None => Err((0u8, "unclosed "@ + name + " block (missing @end)"@,
            Some(SerializedSpan { offset: opener, length: name_len as usize, line: None, column: None }))),
    }
}

/// The body nodes from `pos` up to (not past) the terminator of `end` (see
/// [`ends_body_spec`]) or the end of the tokens, at nesting `depth`, inside a
/// `@message` (`im`) or a `@block` (`ib`): the nodes and the position after them.
#[verifier::opaque]
pub open spec fn body_spec(ts: Seq<Token>, src: Seq<u8>, pos: int, depth: int, im: bool, ib: bool, end: u8)
    -> Result<(Seq<NodeShape>, int), ErrShape>
    decreases ts.len() - pos, 1int,
{
    if pos < 0 || pos >= ts.len() {
        Ok((Seq::empty(), pos))
    } else {
        match ts[pos] {
            Token::Directive(d, _) => if ends_body_spec(trimmed(utf8(d@)), end) {
                Ok((Seq::empty(), pos))
            } else {
                match directive_spec(ts, src, pos, depth, im, ib) {
                    Err(e) => Err(e),
                    Ok((n, p)) => if p <= pos || p > ts.len() {
                        // A directive always moves past its token.
                        Ok((Seq::empty(), p))
                    } else {
                        match body_spec(ts, src, p, depth, im, ib, end) {
                            Err(e) => Err(e),
                            Ok((rest, q)) => Ok((seq![n] + rest, q)),
                        }
                    },
                }
            },
            Token::Text(t, off) => prepend_node(NodeShape::Text(t@, off), body_spec(ts, src, pos + 1, depth, im, ib, end)),
            Token::Interpolation(e, off) => match interpolation_spec(utf8(e@)) {
                Err(m) => Err(if m.1 {
                    (0u8, m.0, Some(SerializedSpan { offset: off, length: trimmed(utf8(e@)).len() as usize, line: None, column: None }))
                } else {
                    plain_error(m.0)
                }),
                Ok(x) => prepend_node(NodeShape::Interpolation(x, off, trimmed(utf8(e@)).len() as usize),
                    body_spec(ts, src, pos + 1, depth, im, ib, end)),
            },
            Token::EscapedBrace(off) => prepend_node(NodeShape::EscapedBrace(off), body_spec(ts, src, pos + 1, depth, im, ib, end)),
            Token::CodeFence(f, off) => prepend_node(NodeShape::Text(f@ + "\n"@, off), body_spec(ts, src, pos + 1, depth, im, ib, end)),
            Token::CodeContent(c, off) => prepend_node(NodeShape::Text(c@, off), body_spec(ts, src, pos + 1, depth, im, ib, end)),
            _ => body_spec(ts, src, pos + 1, depth, im, ib, end),
        }
    }
}

/// `r` with the node `n` put in front of its nodes.
pub open spec fn prepend_node(n: NodeShape, r: Result<(Seq<NodeShape>, int), ErrShape>) -> Result<(Seq<NodeShape>, int), ErrShape> {
    match r {
        Ok((rest, q)) => Ok((seq![n] + rest, q)),
        Err(e) => Err(e),
    }
}

/// The directive at `pos` (a directive token): the node and the position after
/// it; or the error.
#[verifier::opaque]
pub open spec fn directive_spec(ts: Seq<Token>, src: Seq<u8>, pos: int, depth: int, im: bool, ib: bool)
    -> Result<(NodeShape, int), ErrShape>
    decreases ts.len() - pos, 0int,
{
    if !(0 <= pos < ts.len()) || !(ts[pos] is Directive) {
        Err(plain_error("expected directive"@))
    } else {
        let dir = ts[pos]->Directive_0;
        let offset = ts[pos]->Directive_1;
        let t = trimmed(utf8(dir@));
        let p = pos + 1;
        if strip_prefix_spec(t, "@if ".spec_bytes()) is Some {
            if_spec(ts, src, p, depth, im, ib, strip_prefix_spec(t, "@if ".spec_bytes())->0, offset)
        } else if strip_prefix_spec(t, "@for ".spec_bytes()) is Some {
            for_spec(ts, src, p, depth, im, ib, strip_prefix_spec(t, "@for ".spec_bytes())->0, offset)
        } else if strip_prefix_spec(t, "@define ".spec_bytes()) is Some {
            define_spec(ts, src, p, depth, im, ib, strip_prefix_spec(t, "@define ".spec_bytes())->0, offset)
        } else if strip_prefix_spec(t, "@message ".spec_bytes()) is Some {
            message_spec(ts, src, p, depth, im, ib, strip_prefix_spec(t, "@message ".spec_bytes())->0, offset)
        } else if strip_prefix_spec(t, "@block ".spec_bytes()) is Some {
            block_spec(ts, src, p, depth, im, ib, strip_prefix_spec(t, "@block ".spec_bytes())->0, offset)
        } else {
            match leaf_directive_spec(src, t, utf8(dir@).len(), offset) {
                Ok(n) => Ok((n, p)),
                Err(e) => Err(e),
            }
        }
    }
}

/// A directive without a body (the trimmed text `t`, the raw token `dir_len` bytes
/// long, at `offset`) that is none of `@if`, `@for`, `@define`, `@message`, `@block`:
/// its node, or the error.
#[verifier::opaque]
pub open spec fn leaf_directive_spec(src: Seq<u8>, t: Seq<u8>, dir_len: nat, offset: usize) -> Result<NodeShape, ErrShape> {
    if directive_token_spec(t, "@import".spec_bytes()) {
        match import_spec(t, offset) {
            Ok(x) => Ok(NodeShape::Import(x)),
            Err(m) => Err(plain_error(m)),
        }
    } else if directive_token_spec(t, "@export".spec_bytes()) {
        match export_spec(t, offset) {
            Ok(x) => Ok(NodeShape::Export(x)),
            Err(m) => Err(plain_error(m)),
        }
    } else if strip_prefix_spec(t, "@include ".spec_bytes()) is Some {
        let alias = trimmed(strip_prefix_spec(t, "@include ".spec_bytes())->0);
        if !is_ident(alias) {
            Err(line_error(src, "invalid include alias: '"@ + decode_utf8(alias) + "'"@, offset))
        } else {
            Ok(NodeShape::Include(decode_utf8(alias), offset))
        }
    } else if decode_utf8(t) == "@else"@ {
        Err(line_error(src, "found '@else' without colon — use '@else:' (with trailing colon)"@, offset))
    } else if has_prefix(t, "@elseif ".spec_bytes()) || decode_utf8(t) == "@elseif"@ {
        Err(line_error(src, "@elseif must appear inside an @if block"@, offset))
    } else if has_prefix(t, "@elseif:".spec_bytes()) {
        Err(line_error(src, "found '@elseif:' without a condition — use '@elseif <condition>:' (condition required)"@, offset))
    } else if decode_utf8(t) == "@extends"@ || has_prefix(t, "@extends ".spec_bytes()) {
        Err((1u8, "@extends must be the first directive after frontmatter — only one @extends is allowed and it must appear before any other content"@,
            Some(SerializedSpan { offset, length: dir_len as usize, line: None, column: None })))
    } else {
        Err(line_error(src, "unknown directive: "@ + decode_utf8(t)
            + ". Valid directives: @if, @elseif, @else:, @end, @for, @define, @import, @export, @include, @message, @block, @extends"@, offset))
    }
}

/// An `@if` block whose condition text (after `@if `) is `rest`, its body starting
/// at `pos`.
#[verifier::opaque]
pub open spec fn if_spec(ts: Seq<Token>, src: Seq<u8>, pos: int, depth: int, im: bool, ib: bool, rest: Seq<u8>, offset: usize)
    -> Result<(NodeShape, int), ErrShape>
    decreases ts.len() - pos, 2int,
{
    let t = trimmed(rest);
    if depth >= MAX_NESTING_DEPTH {
        Err(depth_error())
    } else if directive_colon_spec(t) is None {
        Err(colon_error_spec(src, "@if"@, t, offset))
    } else {
        match condition_spec(directive_colon_spec(t)->0) {
            Err(m) => Err(line_error(src, m, offset)),
            Ok(c) => match body_spec(ts, src, pos, depth + 1, im, ib, 2) {
                Err(e) => Err(e),
                Ok((then_body, p1)) => if p1 < pos || p1 > ts.len() {
                    Err(depth_error())
                } else {
                    match elseif_spec(ts, src, p1, depth + 1, im, ib, 0) {
                        Err(e) => Err(e),
                        Ok((arms, p2)) => if p2 < pos || p2 > ts.len() {
                            Err(depth_error())
                        } else {
                            let else_part: Result<(Option<Seq<NodeShape>>, Option<usize>, int), ErrShape> =
                                match directive_text(ts, p2) {
                                    Some((d, off)) => if decode_utf8(d) == "@else:"@ {
                                        match body_spec(ts, src, p2 + 1, depth + 1, im, ib, 1) {
                                            Err(e) => Err(e),
                                            Ok((b, p3)) => Ok((Some(b), Some(off), p3)),
                                        }
                                    } else {
                                        Ok((None, None, p2))
                                    },
                                    None => Ok((None, None, p2)),
                                };
                            match else_part {
                                Err(e) => Err(e),
                                Ok((else_body, else_offset, p3)) => match consume_end_spec(ts, src, p3, "@if"@, utf8("@if"@).len(), offset) {
                                    Err(e) => Err(e),
                                    Ok((end_offset, p4)) => Ok((NodeShape::If {
                                        condition: c,
                                        elseifs: arms,
                                        then_body,
                                        else_body,
                                        offset,
                                        else_offset,
                                        end_offset,
                                    }, p4)),
                                },
                            }
                        }
                    }
                },
            },
        }
    }
}

/// The consecutive `@elseif` arms from `pos`, after `count` arms.
#[verifier::opaque]
pub open spec fn elseif_spec(ts: Seq<Token>, src: Seq<u8>, pos: int, depth: int, im: bool, ib: bool, count: nat)
    -> Result<(Seq<(CondShape, Seq<NodeShape>, usize)>, int), ErrShape>
    decreases ts.len() - pos, 1int,
{
    match directive_text(ts, pos) {
        None => Ok((Seq::empty(), pos)),
        Some((d, off)) => match strip_prefix_spec(d, "@elseif ".spec_bytes()) {
            None => Ok((Seq::empty(), pos)),
            Some(r) => {
                let rest = trimmed(r);
                if count >= MAX_ELSEIF_BRANCHES {
                    Err(line_error(src, "@if block has more than 256 @elseif branches"@, off))
                } else if directive_colon_spec(rest) is None {
                    Err(colon_error_spec(src, "@elseif"@, rest, off))
                } else {
                    match condition_spec(directive_colon_spec(rest)->0) {
                        Err(m) => Err(line_error(src, m, off)),
                        Ok(c) => match body_spec(ts, src, pos + 1, depth, im, ib, 2) {
                            Err(e) => Err(e),
                            Ok((body, p1)) => if p1 <= pos || p1 > ts.len() {
                                Err(depth_error())
                            } else {
                                match elseif_spec(ts, src, p1, depth, im, ib, count + 1) {
                                    Err(e) => Err(e),
                                    Ok((arms, p2)) => Ok((seq![(c, body, off)] + arms, p2)),
                                }
                            },
                        },
                    }
                }
            },
        },
    }
}

/// An `@for` loop whose header (after `@for `) is `rest`, its body starting at `pos`.
#[verifier::opaque]
pub open spec fn for_spec(ts: Seq<Token>, src: Seq<u8>, pos: int, depth: int, im: bool, ib: bool, rest: Seq<u8>, offset: usize)
    -> Result<(NodeShape, int), ErrShape>
    decreases ts.len() - pos, 2int,
{
    let t = trimmed(rest);
    let inner = directive_colon_spec(t)->0;
    let idx = in_keyword(inner, 0);
    let var_part = trimmed(inner.subrange(0, idx));
    let iterable = trimmed(inner.subrange(idx + 4, inner.len() as int));
    if depth >= MAX_NESTING_DEPTH {
        Err(depth_error())
    } else if directive_colon_spec(t) is None {
        Err(colon_error_spec(src, "@for"@, t, offset))
    } else if idx >= inner.len() {
        Err(line_error(src, "@for must follow pattern: @for <var> in <iterable>:"@, offset))
    } else {
        match for_vars_spec(var_part) {
            Err(m) => Err(plain_error(m)),
            Ok((key_var, var)) => match expr_spec(iterable) {
                Err(m) => Err(line_error(src, m, offset)),
                Ok(e) => if literal_shape(e) {
                    Err(line_error(src, "cannot use a literal value as @for iterable: '"@ + decode_utf8(iterable)
                        + "' — use a variable or function call"@, offset))
                } else {
                    match body_spec(ts, src, pos, depth + 1, im, ib, 1) {
                        Err(e) => Err(e),
                        Ok((body, p1)) => match consume_end_spec(ts, src, p1, "@for"@, utf8("@for"@).len(), offset) {
                            Err(e) => Err(e),
                            Ok((end_offset, p2)) => Ok((NodeShape::For { var, key_var, iterable: e, body, offset, end_offset }, p2)),
                        },
                    }
                },
            },
        }
    }
}

/// The header of an `@define` (the text after `@define ` is `rest`): the function's
/// name and parameters; or the error.
pub open spec fn define_header_spec(src: Seq<u8>, rest: Seq<u8>, offset: usize)
    -> Result<(Seq<char>, Seq<(Seq<char>, Option<ExprShape>)>), ErrShape>
{
    let t = trimmed(rest);
    let head = trimmed(t.subrange(0, t.len() - 1));
    let ps = index_of(head, 40u8, 0);
    let pe = index_of(head, 41u8, 0);
    let name = trimmed(head.subrange(0, ps));
    let params = head.subrange(ps + 1, pe);
    if t.len() == 0 || t.last() != 58u8 {
        Err(line_error(src, "@define directive must end with ':'"@, offset))
    } else if ps >= head.len() {
        Err(line_error(src, "@define must have parameter list: @define name(params):"@, offset))
    } else if pe >= head.len() || pe < ps {
        Err(line_error(src, "@define: unclosed parenthesis"@, offset))
    } else if !is_ident(name) {
        Err(line_error(src, "invalid function name: '"@ + decode_utf8(name) + "'"@, offset))
    } else {
        match define_params_spec(params, decode_utf8(name)) {
            Err(m) => Err(plain_error(m)),
            Ok(pv) => Ok((decode_utf8(name), pv)),
        }
    }
}

/// An `@define` function whose header (after `@define `) is `rest`, its body
/// starting at `pos`.
#[verifier::opaque]
pub open spec fn define_spec(ts: Seq<Token>, src: Seq<u8>, pos: int, depth: int, im: bool, ib: bool, rest: Seq<u8>, offset: usize)
    -> Result<(NodeShape, int), ErrShape>
    decreases ts.len() - pos, 2int,
{
    if depth >= MAX_NESTING_DEPTH {
        Err(depth_error())
    } else {
        match define_header_spec(src, rest, offset) {
            Err(e) => Err(e),
            Ok((name, pv)) => match body_spec(ts, src, pos, depth + 1, im, ib, 1) {
                Err(e) => Err(e),
                Ok((body, p1)) => match consume_end_spec(ts, src, p1, "@define"@, utf8("@define"@).len(), offset) {
                    Err(e) => Err(e),
                    Ok((end_offset, p2)) => Ok((NodeShape::Define { name, params: pv, body, offset, end_offset }, p2)),
                },
            },
        }
    }
}

/// The role of `@message role:` (the trimmed text before the colon is `r`): an
/// expression in single braces, or the text itself; or the error.
pub open spec fn role_spec(src: Seq<u8>, r: Seq<u8>, offset: usize) -> Result<ExprShape, ErrShape> {
    if r.len() >= 2 && r[0] == 123u8 && r.last() == 125u8 {
        match expr_spec(trimmed(r.subrange(1, r.len() - 1))) {
            Err(m) => Err(line_error(src, m, offset)),
            Ok(e) => Ok(e),
        }
    } else if r.len() == 0 {
        Err(line_error(src, "@message role must not be empty — use e.g. @message system:"@, offset))
    } else {
        Ok(ExprShape::Str(decode_utf8(r)))
    }
}

/// A `@message` block whose header (after `@message `) is `rest`, its body starting
/// at `pos`.
#[verifier::opaque]
pub open spec fn message_spec(ts: Seq<Token>, src: Seq<u8>, pos: int, depth: int, im: bool, ib: bool, rest: Seq<u8>, offset: usize)
    -> Result<(NodeShape, int), ErrShape>
    decreases ts.len() - pos, 2int,
{
    let t = trimmed(rest);
    if im {
        Err(line_error(src, "@message blocks cannot be nested inside another @message block"@, offset))
    } else if directive_colon_spec(t) is None {
        Err(colon_error_spec(src, "@message"@, t, offset))
    } else {
        match role_spec(src, trimmed(directive_colon_spec(t)->0), offset) {
            Err(e) => Err(e),
            Ok(role) => if depth >= MAX_NESTING_DEPTH {
                Err(depth_error())
            } else {
                match body_spec(ts, src, pos, depth + 1, true, ib, 1) {
                    Err(e) => Err(e),
                    Ok((body, p1)) => match consume_end_spec(ts, src, p1, "@message"@, utf8("@message"@).len(), offset) {
                        Err(e) => Err(e),
                        Ok((_, p2)) => Ok((NodeShape::Message { role, body, offset }, p2)),
                    },
                }
            },
        }
    }
}

/// A top-level `@block` whose header (after `@block `) is `rest`, its body starting
/// at `pos`.
#[verifier::opaque]
pub open spec fn block_spec(ts: Seq<Token>, src: Seq<u8>, pos: int, depth: int, im: bool, ib: bool, rest: Seq<u8>, offset: usize)
    -> Result<(NodeShape, int), ErrShape>
    decreases ts.len() - pos, 2int,
{
    let t = trimmed(rest);
    let name = trimmed(directive_colon_spec(t)->0);
    if ib {
        Err(line_error(src, "@block cannot be nested inside another @block"@, offset))
    } else if im {
        Err(line_error(src, "@block cannot be nested inside a @message block"@, offset))
    } else if depth > 0 {
        Err(line_error(src, "@block is top-level only — it cannot appear inside @if, @for, or @define"@, offset))
    } else if directive_colon_spec(t) is None {
        Err(colon_error_spec(src, "@block"@, t, offset))
    } else if name.len() == 0 {
        Err(line_error(src, "@block name must not be empty — use e.g. @block instructions:"@, offset))
    } else if !is_ident(name) {
        Err(line_error(src, "invalid @block name: '"@ + decode_utf8(name) + "' — must be a valid identifier"@, offset))
    } else {
        match body_spec(ts, src, pos, depth + 1, im, true, 1) {
            Err(e) => Err(e),
            Ok((body, p1)) => match consume_end_spec(ts, src, p1, "@block"@, utf8("@block"@).len(), offset) {
                Err(e) => Err(e),
                Ok((_, p2)) => Ok((NodeShape::Block { name: decode_utf8(name), body, offset }, p2)),
            },
        }
    }
}

/// The leading frontmatter from `pos`: its raw text and the position after it.
pub open spec fn frontmatter_spec(ts: Seq<Token>, pos: int) -> (Option<Seq<char>>, int) {
    if 0 <= pos < ts.len() && ts[pos] is FrontmatterFence {
        let p1 = pos + 1;
        let (fm, p2) = if p1 < ts.len() && ts[p1] is FrontmatterContent {
            (Some(ts[p1]->FrontmatterContent_0@), p1 + 1)
        } else {
            (None, p1)
        };
        if p2 < ts.len() && ts[p2] is FrontmatterFence { (fm, p2 + 1) } else { (fm, p2) }
    } else {
        (None, pos)
    }
}

/// A leading `@extends "path"`, looked for from `scan` after blank text (the parse
/// is at `pos`): the path and offset with the position after the directive, or
/// none with `pos`; or the error.
pub open spec fn extends_spec(ts: Seq<Token>, src: Seq<u8>, scan: int, pos: int) -> Result<(Option<(Seq<char>, usize)>, int), ErrShape>
    decreases ts.len() - scan,
{
    if scan < 0 || scan >= ts.len() {
        Ok((None, pos))
    } else {
        match ts[scan] {
            Token::Text(t, _) => if trimmed(utf8(t@)).len() != 0 {
                Ok((None, pos))
            } else {
                extends_spec(ts, src, scan + 1, pos)
            },
            Token::Directive(d, off) => {
                let t = trimmed(utf8(d@));
                if decode_utf8(t) == "@extends"@ || has_prefix(t, "@extends ".spec_bytes()) {
                    let rest = match strip_prefix_spec(t, "@extends".spec_bytes()) {
                        Some(r) => trimmed(r),
                        None => Seq::empty(),
                    };
                    if rest.len() == 0 {
                        Err(line_error(src, "@extends requires a quoted path: @extends \"./base.mds\""@, off))
                    } else {
                        match quoted_path_spec(rest) {
                            Err(m) => Err(plain_error(m)),
                            Ok(path) => Ok((Some((path, off)), scan + 1)),
                        }
                    }
                } else {
                    Ok((None, pos))
                }
            },
            _ => Ok((None, pos)),
        }
    }
}

/// What the tokens `ts` of the source `src` parse to: the frontmatter, an
/// `@extends`, and the body; or the error.
pub open spec fn module_spec(ts: Seq<Token>, src: Seq<u8>) -> Result<ModuleShape, ErrShape> {
    let (fm, p1) = frontmatter_spec(ts, 0);
    match extends_spec(ts, src, p1, p1) {
        Err(e) => Err(e),
        Ok((ext, p2)) => match body_spec(ts, src, p2, 0, false, false, 0) {
            Err(e) => Err(e),
            Ok((body, _)) => Ok(ModuleShape { frontmatter: fm, extends: ext, body }),
        },
    }
}

// ── Outcomes ─────────────────────────────────────────────────────────────────

/// What parsing one node gave: its shape and the position after it, or the error.
pub open spec fn node_outcome(r: Result<Node, MdsError>, pos: int) -> Result<(NodeShape, int), ErrShape> {
    match r {
        Ok(n) => Ok((node_shape(n), pos)),
        Err(e) => Err(err_shape(e)),
    }
}

/// What parsing a list of nodes gave: their shapes and the position after them, or the error.
pub open spec fn nodes_outcome(r: Result<Vec<Node>, MdsError>, pos: int) -> Result<(Seq<NodeShape>, int), ErrShape> {
    match r {
        Ok(v) => Ok((nodes_shape(v@), pos)),
        Err(e) => Err(err_shape(e)),
    }
}

/// What parsing `@elseif` arms gave: their shapes and the position after them, or the error.
pub open spec fn arms_outcome(r: Result<Vec<ElseifBranch>, MdsError>, pos: int)
    -> Result<(Seq<(CondShape, Seq<NodeShape>, usize)>, int), ErrShape>
{
    match r {
        Ok(v) => Ok((elseifs_shape(v@), pos)),
        Err(e) => Err(err_shape(e)),
    }
}

/// What parsing a module gave: its shape, or the error.
pub open spec fn module_outcome(r: Result<Module, MdsError>) -> Result<ModuleShape, ErrShape> {
    match r {
        Ok(m) => Ok(module_shape(m)),
        Err(e) => Err(err_shape(e)),
    }
}

/// `r` with the nodes `prefix` put in front of its nodes.
pub open spec fn prepend_nodes(prefix: Seq<NodeShape>, r: Result<(Seq<NodeShape>, int), ErrShape>) -> Result<(Seq<NodeShape>, int), ErrShape> {
    match r {
        Ok((rest, q)) => Ok((prefix + rest, q)),
        Err(e) => Err(e),
    }
}

/// `r` with the arms `prefix` put in front of its arms.
pub open spec fn prepend_arms(
    prefix: Seq<(CondShape, Seq<NodeShape>, usize)>,
    r: Result<(Seq<(CondShape, Seq<NodeShape>, usize)>, int), ErrShape>,
) -> Result<(Seq<(CondShape, Seq<NodeShape>, usize)>, int), ErrShape> {
    match r {
        Ok((rest, q)) => Ok((prefix + rest, q)),
        Err(e) => Err(e),
    }
}

/// Putting the shape of `x` in front, then the shapes of `v`, is putting the shapes
/// of `v` with `x` pushed in front.
pub proof fn lemma_prepend_node_push(v: Seq<Node>, x: Node, r: Result<(Seq<NodeShape>, int), ErrShape>)
    ensures
        prepend_nodes(nodes_shape(v), prepend_node(node_shape(x), r)) == prepend_nodes(nodes_shape(v.push(x)), r),
{
    assert(nodes_shape(v.push(x)) =~= nodes_shape(v).push(node_shape(x)));
    match r {
        Ok((rest, q)) => {
            assert(nodes_shape(v) + (seq![node_shape(x)] + rest) =~= nodes_shape(v.push(x)) + rest);
        },
        Err(_) => {},
    }
}

/// The arm counterpart of [`lemma_prepend_node_push`].
pub proof fn lemma_prepend_arm_push(
    v: Seq<ElseifBranch>,
    x: ElseifBranch,
    r: Result<(Seq<(CondShape, Seq<NodeShape>, usize)>, int), ErrShape>,
)
    ensures
        prepend_arms(elseifs_shape(v), match r {
            Ok((rest, q)) => Ok((seq![elseif_shape(x)] + rest, q)),
            Err(e) => Err(e),
        }) == prepend_arms(elseifs_shape(v.push(x)), r),
{
    assert(elseifs_shape(v.push(x)) =~= elseifs_shape(v).push(elseif_shape(x)));
    match r {
        Ok((rest, q)) => {
            assert(elseifs_shape(v) + (seq![elseif_shape(x)] + rest) =~= elseifs_shape(v.push(x)) + rest);
        },
        Err(_) => {},
    }
}

} // verus!
