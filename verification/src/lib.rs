//! Front end of an assembler for a reduced AArch64-like syntax: a lexer that
//! turns source text into positioned tokens, a fixed instruction registry, and
//! a recursive-descent parser that builds a syntax tree of typed nodes.

pub mod ast;
pub mod instruction;
pub mod parser;
pub mod text;
pub mod tokenizer;
