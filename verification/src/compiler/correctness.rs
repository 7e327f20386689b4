//! Translated programs do what their sources mean.

pub mod call;
pub mod code;
pub mod control;
pub mod expression;
pub mod flow;
pub mod growth;
pub mod program;
pub mod statement;
pub mod typing;
