//! Parsing of identifiers from UTF-8 source text.
pub mod arena;
pub mod chars;
pub mod forms;
pub mod grammar;
pub mod ident;
pub mod keyword;
pub mod laws;
pub mod outcomes;
pub mod parser;
pub mod problems;
pub mod refusals;
pub mod scans;
pub mod state;
pub mod text;
pub mod vocabulary;
