//! The generator language: tokens, the tokenizer and the parser.
pub mod parser;
pub mod tokenizer;
pub mod token;
