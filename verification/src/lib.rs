//! A tree-walking interpreter for an eight-operator tape language.
//!
//! Source bytes are lexed into tokens, tokens are grouped into a tree of
//! loop bodies, and the tree is evaluated against a sparse tape of bytes.

pub mod tokenizer;
pub mod interpreter;
pub mod encoding;
pub mod machine;
