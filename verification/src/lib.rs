//! Lossless MLIR syntax: tokenization, dialect registration, operation
//! formats, text edits, and the syntax-tree views built on them.

pub mod source;
pub mod lexer;
pub mod representation;
pub mod dialect;
pub mod parser;
pub mod diff;
pub mod query;
pub mod formatter;

