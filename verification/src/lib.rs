pub mod expr;
pub mod gen;
pub mod lexer;
pub mod parser;
