use mds_lint::error::MdsError;
use mds_lint::lexer::{tokenize, Token};

#[test]
fn lexer_frontmatter_tokens_and_offsets() {
    let ts = tokenize("---\na: 1\n---\nhi\n").unwrap();
    assert_eq!(ts.len(), 4);
    assert!(matches!(&ts[0], Token::FrontmatterFence(0)));
    assert!(matches!(&ts[1], Token::FrontmatterContent(s, 4) if s == "a: 1\n"));
    assert!(matches!(&ts[2], Token::FrontmatterFence(9)));
    assert!(matches!(&ts[3], Token::Text(s, 13) if s == "hi\n"));
}

#[test]
fn lexer_unclosed_frontmatter_fails() {
    match tokenize("---\na: 1\n") {
        Err(MdsError::Syntax { message, span }) => {
            assert_eq!(message, "unclosed frontmatter (missing closing ---)");
            assert_eq!(span.map(|s| (s.offset, s.length)), Some((0, 3)));
        }
        other => panic!("expected a syntax error, got {:?}", other),
    }
}

#[test]
fn lexer_unclosed_interpolation_points_at_braces() {
    match tokenize("ab {{ x\n") {
        Err(MdsError::Syntax { message, span }) => {
            assert_eq!(message, "unclosed interpolation: '{{' without a matching '}}'");
            assert_eq!(span.map(|s| (s.offset, s.length)), Some((3, 2)));
        }
        other => panic!("expected a syntax error, got {:?}", other),
    }
}

#[test]
fn lexer_text_interpolation_escape_and_directive() {
    let ts = tokenize("a {{ x }} \\{{\n  @if y:\n").unwrap();
    assert_eq!(ts.len(), 6);
    assert!(matches!(&ts[0], Token::Text(s, 0) if s == "a "));
    assert!(matches!(&ts[1], Token::Interpolation(s, 2) if s == " x "));
    assert!(matches!(&ts[2], Token::Text(s, 9) if s == " "));
    assert!(matches!(&ts[3], Token::EscapedBrace(10)));
    assert!(matches!(&ts[4], Token::Text(s, 13) if s == "\n"));
    assert!(matches!(&ts[5], Token::Directive(s, 16) if s == "@if y:"));
}

#[test]
fn lexer_code_fence_content_is_verbatim() {
    let ts = tokenize("```rust\n@if x:\n```\nend\n").unwrap();
    assert_eq!(ts.len(), 4);
    assert!(matches!(&ts[0], Token::CodeFence(s, 0) if s == "```rust"));
    assert!(matches!(&ts[1], Token::CodeContent(s, 8) if s == "@if x:\n"));
    assert!(matches!(&ts[2], Token::CodeFence(s, 15) if s == "```"));
    assert!(matches!(&ts[3], Token::Text(s, 19) if s == "end\n"));
}
