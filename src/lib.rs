pub mod ast;
pub mod eval;
pub mod lexer;
pub mod parser;
