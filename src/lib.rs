//! A reference interpreter for a small stack-based, strongly typed contract
//! language: a lexer and parser from source text to an instruction tree, a
//! printer back to text, a typechecker that elaborates the tree against an
//! abstract stack of types, and an interpreter that runs the typed tree under
//! a gas budget. Naturals and integers are unbounded (module `bigint`).
//!
//! The module `host` holds the decisions that a smart-rollup host wrapper
//! makes around its raw host calls.

pub mod ast;
pub mod bigint;
pub mod gas;
pub mod host;
pub mod interpreter;
pub mod lexer;
pub mod parser;
pub mod printer;
pub mod typechecker;
