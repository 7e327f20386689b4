//! The parsed body of a transaction program.

use super::error::Span;
use super::syntax::Token;
use vstd::prelude::*;

verus! {

/// The suffix of an integer literal.
#[derive(Clone, Copy, Debug, PartialEq, Eq, Structural)]
pub enum Suffix {
    Absent,
    I64,
    U64,
    U32,
    U16,
    Other,
}

#[derive(Debug, PartialEq, Eq)]
pub enum Literal {
    Bool(bool),
    /// An integer: its value where that fits `u64`, and its suffix.
    Int(Option<u64>, Suffix),
    Str(String),
    ByteStr(Vec<u8>),
    Other,
}

#[derive(Clone, Copy, Debug, PartialEq, Eq, Structural)]
pub enum UnaryOp {
    Neg,
    Not,
    Other,
}

#[derive(Clone, Copy, Debug, PartialEq, Eq, Structural)]
pub enum BinaryOp {
    Add,
    Sub,
    Mul,
    Div,
    Rem,
    And,
    Or,
    BitAnd,
    BitOr,
    BitXor,
    Shl,
    Shr,
    Equal,
    NotEqual,
    Less,
    LessEqual,
    Greater,
    GreaterEqual,
}

/// The field of a field expression.
#[derive(Clone, Copy, Debug, PartialEq, Eq, Structural)]
pub enum Member {
    Index(u32),
    Named,
}

#[derive(Debug, PartialEq, Eq)]
pub struct Expr {
    pub span: Span,
    pub kind: ExprKind,
}

#[derive(Debug, PartialEq, Eq)]
pub enum ExprKind {
    Paren(Box<Expr>),
    /// A path of one plain name.
    Name(String),
    /// Any other path.
    Path,
    Literal(Literal),
    Unary(UnaryOp, Box<Expr>),
    Binary(BinaryOp, Box<Expr>, Box<Expr>),
    Index(Box<Expr>, Box<Expr>),
    Tuple(Vec<Expr>),
    Field(Box<Expr>, Member),
    Call(Box<Expr>, Vec<Expr>),
    /// An assignment, with the operator of a compound one.
    Assign(Option<BinaryOp>, Box<Expr>, Box<Expr>),
    If(Box<Expr>, Block, Option<Box<Expr>>),
    /// A block without a label.
    Block(Block),
    Return(Option<Box<Expr>>),
    /// Anything else that Rust allows.
    Other,
}

#[derive(Debug, PartialEq, Eq)]
pub struct Block {
    pub span: Span,
    pub stmts: Vec<Stmt>,
}

#[derive(Debug, PartialEq, Eq)]
pub enum Stmt {
    Let(LetStmt),
    Expr(Expr),
    /// An item or a macro.
    Other(Span),
}

/// The name that a `let` binds.
#[derive(Debug, PartialEq, Eq)]
pub struct Binding {
    pub span: Span,
    pub name: String,
    pub mutable: bool,
    /// Whether the pattern has `ref` or a subpattern.
    pub refined: bool,
}

#[derive(Debug, PartialEq, Eq)]
pub struct LetStmt {
    pub span: Span,
    /// Where the pattern stands, without its type.
    pub pattern: Span,
    /// The name, where the pattern is one.
    pub binding: Option<Binding>,
    /// The tokens of the type annotation.
    pub annotation: Option<Vec<Token>>,
    pub init: Option<Expr>,
    /// Whether an `else` block follows the initializer.
    pub diverges: bool,
}

} // verus!
