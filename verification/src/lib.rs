//! A small S-expression language: a tokenizer that turns a byte buffer into
//! an abstract syntax tree, and a tree-walking evaluator over a registry of
//! named primitives. Every function is specified against a mathematical
//! model of the grammar and proved to match it.

pub mod display;
pub mod eval;
pub mod parse_error;
pub mod tokenize;
