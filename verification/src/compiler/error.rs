//! Diagnostics of the transaction compiler.

use super::types;
use super::types::{Shape, Type};
use crate::text;
use crate::text::to_decimal;
use vstd::prelude::*;

verus! {

/// Where a piece of source text stands. The compiler only carries these
/// numbers from its input to its diagnostics.
pub type Span = usize;

/// The span of the whole program.
pub const CALL_SITE: Span = 0;

/// A rejected program: where, and why.
#[derive(Debug, PartialEq, Eq)]
pub struct CompileError {
    pub span: Span,
    pub problem: Problem,
}

/// Why a program is rejected.
#[derive(Debug, PartialEq, Eq)]
pub enum Problem {
    /// A rule with a fixed text.
    Rule(&'static str),
    /// The input ends where this is expected.
    Ended(&'static str),
    /// A keyword of Rust stands where a name is expected.
    Keyword(String),
    /// A value has another shape than its place requires.
    Mismatch { expected: Type, found: Type },
    /// A binary operation does not take these operands.
    Operands { left: Type, right: Type },
    /// A named operation does not take this operand.
    Operand { operation: String, found: Type },
    /// A named operation takes another number of operands.
    Arity { operation: String, operands: usize },
    /// A literal must be an unsigned integer of at most this value.
    Literal(u64),
}

/// The model of a [`CompileError`].
pub struct Fault {
    pub span: Span,
    pub reason: Reason,
}

/// The model of a [`Problem`].
pub enum Reason {
    Rule(&'static str),
    Ended(&'static str),
    Keyword(Seq<char>),
    Mismatch { expected: Shape, found: Shape },
    Operands { left: Shape, right: Shape },
    Operand { operation: Seq<char>, found: Shape },
    Arity { operation: Seq<char>, operands: usize },
    Literal(u64),
}

impl Problem {
    pub open spec fn view(self) -> Reason {
        match self {
            Problem::Rule(text) => Reason::Rule(text),
            Problem::Ended(text) => Reason::Ended(text),
            Problem::Keyword(name) => Reason::Keyword(name@),
            Problem::Mismatch { expected, found } => Reason::Mismatch {
                expected: expected@,
                found: found@,
            },
            Problem::Operands { left, right } => Reason::Operands { left: left@, right: right@ },
            Problem::Operand { operation, found } => Reason::Operand {
                operation: operation@,
                found: found@,
            },
            Problem::Arity { operation, operands } => Reason::Arity {
                operation: operation@,
                operands,
            },
            Problem::Literal(max) => Reason::Literal(max),
        }
    }
}

impl CompileError {
    pub open spec fn view(self) -> Fault {
        Fault { span: self.span, reason: self.problem@ }
    }

    /// A rejection by a rule with a fixed text.
    pub fn rule(span: Span, text: &'static str) -> (error: CompileError)
        ensures
            error@ == fault(span, text),
    {
        CompileError { span, problem: Problem::Rule(text) }
    }
}

/// A rejection by a rule with a fixed text.
pub open spec fn fault(span: Span, text: &'static str) -> Fault {
    Fault { span, reason: Reason::Rule(text) }
}

// ---- Texts ---------------------------------------------------------------

/// How a type is written in a diagnostic.
pub open spec fn described(shape: Shape) -> Seq<char>
    decreases shape, 0nat,
{
    match shape {
        Shape::Unit => "Unit"@,
        Shape::Bool => "Bool"@,
        Shape::I64 => "I64"@,
        Shape::U64 => "U64"@,
        Shape::Bytes(n) => "Bytes("@ + text::decimal(n as nat) + ")"@,
        Shape::String(n) => "String("@ + text::decimal(n as nat) + ")"@,
        Shape::Tuple(fields) => "Tuple(["@ + listed(fields, fields.len()) + "])"@,
        Shape::Rows(key, value, n) => "Rows("@ + described(*key) + ", "@ + described(*value)
            + ", "@ + text::decimal(n as nat) + ")"@,
    }
}

/// How the first `n` types of `fields` are written, with commas between them.
pub open spec fn listed(fields: Seq<Shape>, n: nat) -> Seq<char>
    decreases fields, n,
{
    if n == 0 || n > fields.len() {
        Seq::empty()
    } else if n == 1 {
        described(fields[0])
    } else {
        listed(fields, (n - 1) as nat) + ", "@ + described(fields[n - 1])
    }
}

/// Append how a type is written.
fn describe(ty: &Type, out: &mut String)
    ensures
        final(out)@ == old(out)@ + described(ty@),
    decreases ty,
{
    match ty {
        Type::Unit => {
            out.append("Unit");
        },
        Type::Bool => {
            out.append("Bool");
        },
        Type::I64 => {
            out.append("I64");
        },
        Type::U64 => {
            out.append("U64");
        },
        Type::Bytes(n) => {
            out.append("Bytes(");
            out.append(to_decimal(*n as u64).as_str());
            out.append(")");
        },
        Type::String(n) => {
            out.append("String(");
            out.append(to_decimal(*n as u64).as_str());
            out.append(")");
        },
        Type::Tuple(fields) => {
            let ghost start = out@;
            let ghost list = types::shapes(fields@);
            proof {
                types::lemma_tuple_view(*fields);
            }
            out.append("Tuple([");
            let mut i: usize = 0;
            assert(listed(list, 0) =~= Seq::empty());
            assert(out@ =~= start + "Tuple(["@ + listed(list, 0));
            while i < fields.len()
                invariant
                    *ty == Type::Tuple(*fields),
                    list == types::shapes(fields@),
                    i <= fields@.len(),
                    out@ == start + "Tuple(["@ + listed(list, i as nat),
                decreases fields@.len() - i,
            {
                assert(decreases_to!(ty => ty->Tuple_0));
                if i > 0 {
                    out.append(", ");
                }
                describe(&fields[i], out);
                assert(list[i as int] == fields@[i as int]@);
                assert(out@ =~= start + "Tuple(["@ + listed(list, (i + 1) as nat));
                i += 1;
            }
            out.append("])");
            assert(out@ =~= start + described(ty@));
        },
        Type::Rows(key, value, n) => {
            let ghost start = out@;
            out.append("Rows(");
            describe(key, out);
            out.append(", ");
            describe(value, out);
            out.append(", ");
            out.append(to_decimal(*n as u64).as_str());
            out.append(")");
            assert(out@ =~= start + described(ty@));
        },
    }
}

/// The text of a rejection.
pub open spec fn reason_text(reason: Reason) -> Seq<char> {
    match reason {
        Reason::Rule(text) => text@,
        Reason::Ended(text) => "unexpected end of input, "@ + text@,
        Reason::Keyword(name) => "expected identifier, found keyword `"@ + name + "`"@,
        Reason::Mismatch { expected, found } => "VM type mismatch: expected "@ + described(
            expected,
        ) + ", found "@ + described(found),
        Reason::Operands { left, right } => "invalid VM operands: "@ + described(left) + " and "@
            + described(right),
        Reason::Operand { operation, found } => "invalid operand for "@ + operation + ": "@
            + described(found),
        Reason::Arity { operation, operands } => operation + " requires "@ + text::decimal(
            operands as nat,
        ) + " operands"@,
        Reason::Literal(max) => "expected an unsigned integer literal no greater than "@
            + text::decimal(max as nat),
    }
}

impl CompileError {
    /// The text of this rejection.
    pub fn message(&self) -> (message: String)
        ensures
            message@ == reason_text(self@.reason),
    {
        let mut message = String::new();
        match &self.problem {
            Problem::Rule(text) => {
                message.append(text);
            },
            Problem::Ended(text) => {
                message.append("unexpected end of input, ");
                message.append(text);
            },
            Problem::Keyword(name) => {
                message.append("expected identifier, found keyword `");
                message.append(name.as_str());
                message.append("`");
            },
            Problem::Mismatch { expected, found } => {
                message.append("VM type mismatch: expected ");
                describe(expected, &mut message);
                message.append(", found ");
                describe(found, &mut message);
            },
            Problem::Operands { left, right } => {
                message.append("invalid VM operands: ");
                describe(left, &mut message);
                message.append(" and ");
                describe(right, &mut message);
            },
            Problem::Operand { operation, found } => {
                message.append("invalid operand for ");
                message.append(operation.as_str());
                message.append(": ");
                describe(found, &mut message);
            },
            Problem::Arity { operation, operands } => {
                message.append(operation.as_str());
                message.append(" requires ");
                message.append(to_decimal(*operands as u64).as_str());
                message.append(" operands");
            },
            Problem::Literal(max) => {
                message.append("expected an unsigned integer literal no greater than ");
                message.append(to_decimal(*max).as_str());
            },
        }
        assert(message@ =~= reason_text(self@.reason));
        message
    }
}

} // verus!
