//! A grammar engine for compact command-line usage patterns: a tokenizer,
//! a recursive-descent parser, a tree with canonicalization and
//! pretty-printing, and a bounded expansion into the concrete invocations a
//! pattern denotes.

pub mod ast;
pub mod expand;
pub mod laws;
pub mod parser;
pub mod roundtrip;
pub mod token;
pub mod util;

pub use ast::Expr;
pub use expand::expand;
pub use parser::ParseResult;
pub use parser::parse;
pub use token::Token;
pub use token::Tokenizer;
pub use token::tokenize;
pub use util::ReadResult;
pub use util::read_ast;
