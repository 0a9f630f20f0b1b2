//! Reads parenthesized prefix forms and renders them in call syntax.
pub mod lexer;
pub mod parser;
pub mod render;
