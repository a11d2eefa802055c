//! The lexical and syntactic front end: tokenizer and parser.

pub mod parser;
pub mod tokenizer;

pub use parser::parse;
pub use tokenizer::tokenize;
