use crate::ast::Program;
use vstd::prelude::*;

verus! {

/// The types a declaration may be annotated with.
#[derive(Debug, Clone, Copy, PartialEq, Eq, Structural)]
pub enum Type {
    Int,
    Bool,
    Char,
}

/// A checker that owns the program it is going to check.
#[derive(Debug, Clone)]
pub struct TypeChecker {
    program: Program,
}

} // verus!
