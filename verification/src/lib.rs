//! A small compiler front end: a lexer, a recursive-descent parser and an
//! emitter of a three-address intermediate representation.

pub mod ast;
pub mod front_laws;
pub mod ir;
pub mod ir_laws;
pub mod ir_order;
pub mod lexer;
pub mod parser;
pub mod text;
pub mod type_checker;
