//! A small compiler front end: a position-tracking tokenizer and a
//! scope-aware generator of textual QBE intermediate code.
use vstd::prelude::*;

pub mod ast;
pub mod generator;
pub mod lexer;
pub mod qbe;
pub mod text;

verus! {

} // verus!
