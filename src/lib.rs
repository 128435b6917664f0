//! A pattern-matching engine built from two bytecode virtual machines: a
//! backtracking regular-expression matcher and a lexer that assembles named
//! token trees on top of it.
pub mod chars;
pub mod lexer;
pub mod regex;
pub mod vm;

pub use lexer::instruction::Statement;
pub use lexer::Lexer;
pub use regex::Regex;
