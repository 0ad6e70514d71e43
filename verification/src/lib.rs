//! BitterASM: a metalanguage for constructing assembly languages.
pub mod token;
pub mod text;
pub mod lexer;
pub mod types;
pub mod ast;
pub mod facets;
pub mod parser;
pub mod formats;
pub mod diagnostics;
pub mod formatter;
pub mod link;
pub mod cli;
pub mod pack;
pub mod loader;
pub mod emit;
