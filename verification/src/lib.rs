//! Lexical front end of the NineScript compiler: source locations, tokens,
//! a plain character tokenizer and the indentation-aware scanner that feeds
//! the grammar.

pub mod ast;
pub mod location;
pub mod text;
pub mod types;
pub mod error;
pub mod token;
pub mod scanner;
pub mod source;
pub mod lexer;
