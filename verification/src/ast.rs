//! The parts of the syntax tree that hold no floating-point values.

use vstd::prelude::*;

verus! {

pub type VarType = (Option<String>, Option<String>);

pub type VarName = String;

/// A variable: its optional type annotation (a type and a type argument)
/// and its name.
#[derive(Debug)]
pub struct Var(pub VarType, pub VarName);

#[derive(Debug)]
pub enum Opcode {
    TernaryIf,
    TernaryElse,
    NotEqual,
    Equal,
    Greater,
    Gte,
    Less,
    Lte,
    And,
    Or,
    Mul,
    Div,
    Add,
    Sub,
    Mod,
}

} // verus!
