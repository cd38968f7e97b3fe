//! Tokens, syntax trees and the two grammars read by the predicate accessor.

pub mod charset;
pub mod lexer;
pub mod node;
pub mod parser;
pub mod stream;
pub mod token;

pub use parser::Parser;
pub use token::Token;
