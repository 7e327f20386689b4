//! The transaction language: its types, its syntax and its translation to
//! bytecode.

pub mod arguments;
pub mod ast;
pub mod binding;
pub mod bytecode;
pub mod compile;
pub mod container;
pub mod correctness;
pub mod effects;
pub mod error;
pub mod grammar;
pub mod machine;
pub mod meaning;
pub mod syntax;
pub mod types;
