//! A verified single-line arithmetic calculator: a lexer that turns a line
//! of text into classified tokens, a recursive-descent parser that builds
//! an expression tree while tracking declared variable names, and a
//! tree-walking interpreter that evaluates trees to IEEE 754 binary64
//! values, stores assignments as unevaluated expressions, and rejects
//! self-referential bindings.

pub mod ast;
pub mod cli;
pub mod errors;
pub mod interpreter;
pub mod lexer;
pub mod parser;
pub mod num;
pub mod tokens;
