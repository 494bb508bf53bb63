//! A structural source-transformation engine for a small declaration
//! dialect: source text is parsed into a tree of declarations, a tagged
//! union type is extended with a new variant, every dispatch function is
//! kept exhaustive by a synthesized match arm, and the tree is printed
//! back as canonical text.

pub mod text;
pub mod ast;
pub mod parser;
pub mod printer;
pub mod roundtrip;
pub mod types;
pub mod engine;
pub mod laws;
