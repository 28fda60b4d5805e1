//! A small arithmetic language: a lexer, a recursive-descent parser, and a
//! tree-walking evaluator, each specified and verified against a
//! mathematical model of its behaviour.

pub mod token;
pub mod error;
pub mod ast;
pub mod lexer;
pub mod parser;
pub mod env;
pub mod visitor;
pub mod intepreter;
pub mod laws;
pub mod printer;
