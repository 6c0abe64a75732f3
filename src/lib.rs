//! Front end of a small language: a scanner that turns source text into
//! tokens, and a tree builder that turns tokens into a syntax tree.
pub mod text;
pub mod tokeniser;
pub mod parser;
pub mod laws;
