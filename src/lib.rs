//! A compiler and stack machine for a small imperative language: source text
//! is scanned into tokens, parsed into a syntax tree, turned into a flat
//! instruction sequence with absolute jumps, and run.
use vstd::prelude::*;

pub mod lexer;
pub mod parser;
pub mod bytecode;
pub mod vm;
pub mod pipeline;

verus! {

} // verus!
