//! Errors raised while tokenizing, parsing and analysing a template.
use vstd::prelude::*;

verus! {

/// A byte span into the source, with optional 1-based line/column.
#[derive(Clone, Copy, Debug, PartialEq, Eq)]
pub struct SerializedSpan {
    /// Byte offset of the first byte of the span.
    pub offset: usize,
    /// Length of the span in bytes.
    pub length: usize,
    /// 1-based line number, when known.
    pub line: Option<usize>,
    /// 1-based column number, when known.
    pub column: Option<usize>,
}

impl SerializedSpan {
    /// A span at `offset` of `length` bytes without line/column information.
    pub fn at(offset: usize, length: usize) -> (r: SerializedSpan)
        ensures
            r == (SerializedSpan { offset, length, line: None, column: None }),
    {
        SerializedSpan { offset, length, line: None, column: None }
    }
}

/// The error kinds of the template pipeline.
#[derive(Debug)]
pub enum MdsError {
    /// A template syntax error, optionally anchored at a span of the source.
    Syntax { message: String, span: Option<SerializedSpan> },
    /// A misplaced or malformed `@extends` directive.
    Extends { message: String, span: Option<SerializedSpan> },
    /// A resource limit (nesting depth, operand count) was exceeded.
    ResourceLimit { message: String },
}

impl MdsError {
    /// A syntax error without a span.
    pub fn syntax(message: String) -> (r: MdsError)
        ensures
            r == (MdsError::Syntax { message, span: None }),
    {
        MdsError::Syntax { message, span: None }
    }

    /// A syntax error anchored at `offset` for `length` bytes.
    pub fn syntax_at(message: String, offset: usize, length: usize) -> (r: MdsError)
        ensures
            r == (MdsError::Syntax { message, span: Some(SerializedSpan { offset, length, line: None, column: None }) }),
    {
        MdsError::Syntax { message, span: Some(SerializedSpan::at(offset, length)) }
    }

    /// A resource-limit error.
    pub fn resource_limit(message: String) -> (r: MdsError)
        ensures
            r == (MdsError::ResourceLimit { message }),
    {
        MdsError::ResourceLimit { message }
    }

    /// Attach a span to a syntax error that has none; other errors are unchanged.
    pub fn or_span(self, offset: usize, length: usize) -> (r: MdsError)
        ensures
            match self {
                MdsError::Syntax { message, span: None } => r == (MdsError::Syntax {
                    message,
                    span: Some(SerializedSpan { offset, length, line: None, column: None }),
                }),
                _ => r == self,
            },
    {
        match self {
            MdsError::Syntax { message, span: None } => MdsError::Syntax {
                message,
                span: Some(SerializedSpan::at(offset, length)),
            },
            other => other,
        }
    }

    /// The message carried by the error.
    pub fn message(&self) -> (r: &String)
        ensures
            r == match self {
                MdsError::Syntax { message, .. } => message,
                MdsError::Extends { message, .. } => message,
                MdsError::ResourceLimit { message } => message,
            },
    {
        match self {
            MdsError::Syntax { message, .. } => message,
            MdsError::Extends { message, .. } => message,
            MdsError::ResourceLimit { message } => message,
        }
    }

    /// The display form: a kind prefix followed by the message.
    pub open spec fn display_text(&self) -> Seq<char> {
        match self {
            MdsError::Syntax { message, .. } => "syntax error: "@ + message@,
            MdsError::Extends { message, .. } => "extends error: "@ + message@,
            MdsError::ResourceLimit { message } => "resource limit exceeded: "@ + message@,
        }
    }

    /// The display form: a kind prefix followed by the message.
    pub fn to_display_string(&self) -> (r: String)
        ensures
            r@ == self.display_text(),
            r@ == match self {
                MdsError::Syntax { message, .. } => "syntax error: "@ + message@,
                MdsError::Extends { message, .. } => "extends error: "@ + message@,
                MdsError::ResourceLimit { message } => "resource limit exceeded: "@ + message@,
            },
    {
        let (prefix, message) = match self {
            MdsError::Syntax { message, .. } => ("syntax error: ", message),
            MdsError::Extends { message, .. } => ("extends error: ", message),
            MdsError::ResourceLimit { message } => ("resource limit exceeded: ", message),
        };
        let mut out = String::from_str(prefix);
        out.append(message.as_str());
        out
    }
}

} // verus!
