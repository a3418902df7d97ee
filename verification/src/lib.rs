//! Lossless front end for a declarative markup language.
//!
//! The crate turns raw source text into a concrete syntax tree that keeps
//! every byte of the input, together with an ordered list of recoverable
//! diagnostics.  It holds the generic machinery only: the byte lexer, the
//! cursor-based parsing engine, the tree builder, and the error-recovery
//! primitives.  The grammar rules that decide what a document looks like
//! drive this engine from outside through the public primitives of
//! [`parser::Parser`].

pub mod kind;
pub mod lexer;
pub mod parser;
pub mod token;
pub mod tree;
