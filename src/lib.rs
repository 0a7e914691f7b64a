//! A front end and code generator for a small parenthesised language: a
//! parser from source text to an abstract tree, checks on the tree's shape,
//! and a lowering of the tree to lines of intermediate representation.

pub mod utils;
pub mod abstract_tree;
pub mod backend;
pub mod compiler;
pub mod parser;
pub mod laws;
