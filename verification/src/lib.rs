//! Recovers structured data embedded as `Name(key = value, ...)` object
//! literals inside free-form log messages, and re-renders that structure as
//! indented JSON, leaving the surrounding prose untouched.
//!
//! The pipeline is: span splitting (balanced-parenthesis scan) -> lexer ->
//! recursive-descent parser -> AST -> renderer.

pub mod ast;
pub mod chars;
pub mod lexer;
pub mod number;
pub mod parser;
pub mod roundtrip;
pub mod visitor;
