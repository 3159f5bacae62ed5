//! The syntax tree that the generator reads, as the parser builds it.
use vstd::prelude::*;

verus! {

/// A source-level type.
#[derive(Debug)]
pub enum Type {
    Any,
    Int,
    Bool,
    Str,
    Array(Box<Type>),
    Struct(String),
}

/// A named argument with its declared type, if any.
#[derive(Debug)]
pub struct Variable {
    pub name: String,
    pub ty: Option<Type>,
}

#[derive(Debug)]
pub enum Expression {
    Int(usize),
}

#[derive(Debug)]
pub enum Statement {
    /// A list of statements with a scope of its own
    Block(Vec<Statement>),
    /// Return from the function, optionally with a value
    Return(Option<Expression>),
}

#[derive(Debug)]
pub struct Function {
    pub name: String,
    pub arguments: Vec<Variable>,
    pub return_type: Option<Type>,
    pub body: Statement,
}

#[derive(Debug)]
pub struct Module {
    pub functions: Vec<Function>,
}

} // verus!
