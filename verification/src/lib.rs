//! Lexical scanning for a small Lisp-like language.
//!
//! The crate's one component is the [`tokenizer`] module: a pull-based
//! scanner that turns source text into identifiers, string literals and
//! structural delimiter tokens, skipping whitespace and line comments.

pub mod tokenizer;
