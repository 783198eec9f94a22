//! A compiler from declarative token specifications — a small regex dialect
//! plus literal token rules — into executable finite-state recognizers.
//!
//! The pipeline: a regex lexer tokenizes the pattern language, a recursive
//! descent parser builds a syntax tree, a registry resolves named character
//! categories and subexpressions, Thompson construction produces an epsilon
//! NFA, and subset construction turns that into a DFA driven by a scanner.

pub mod builtin;
pub mod convert;
pub mod derive_input;
pub mod dfsa;
pub mod grammar;
pub mod hir;
pub mod lexer;
pub mod location;
pub mod matchers;
pub mod mir;
pub mod nefsa;
pub mod nfsa;
pub mod parser;
pub mod position;
pub mod set_ordering;
pub mod text_reader;
pub mod token;
