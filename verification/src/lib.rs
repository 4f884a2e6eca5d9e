//! Static analysis for MDS (Markdown Script) templates: the lexer and parser,
//! the lint rules, the diagnostic model and the `--fix` planner.
use vstd::prelude::*;

pub mod ast;
pub mod config;
pub mod diagnostic;
pub mod error;
pub mod facts;
pub mod fix;
pub mod grammar;
pub mod lexer;
pub mod limits;
pub mod lint;
pub mod number;
pub mod options;
pub mod parser;
pub mod rules;
pub mod parser_helpers;
pub mod report;
pub mod scan;
pub mod text;
pub mod tier;

verus! {

} // verus!
