//! A small infix calculator: a lexer over the four arithmetic operators and
//! decimal number literals, and a precedence-climbing parser that turns an
//! expression string into a binary expression tree.

pub mod lexer;
pub mod parser;
