//! A small calculator: a streaming tokenizer, a recursive-descent parser
//! with an explicit precedence grammar, and a tree-walking evaluator with
//! mixed integer / floating-point arithmetic.

pub mod ast;
pub mod error;
pub mod interpreter;
pub mod lexer;
pub mod parser;
