//! Translation of expressions.

use super::super::ast::{BinaryOp, Expr, ExprKind, Literal, Member, Suffix, UnaryOp};
use super::super::bytecode;
use super::super::bytecode::blob;
use super::super::error;
use super::super::error::{CompileError, Fault, Problem, Reason, Span};
use super::super::types;
use super::super::types::{Shape, Type};
use super::intrinsics;
use super::intrinsics::{address, compile_call};
use super::{two, Compiler, State, Valued};
use crate::bytes;
use crate::bytes::push_u64;
use crate::external::same_text;
use vstd::prelude::*;

verus! {

pub const TOO_LARGE: &'static str = "number too large to fit in target type";

pub const NOT_A_NAME: &'static str = "expected a VM name, not a Rust path or call";

pub const UNKNOWN_LOCAL: &'static str =
    "unknown VM local; external values must be declared in captures { ... }";

pub const UNSUPPORTED: &'static str =
    "unsupported VM expression; loops, Rust calls, casts, and value-producing blocks are not allowed";

// ---- Names and literals --------------------------------------------------

/// The plain name that an expression is.
pub open spec fn name_of(e: Expr) -> Result<Seq<char>, Fault> {
    match e.kind {
        ExprKind::Name(name) => Ok(name@),
        _ => Err(error::fault(e.span, NOT_A_NAME)),
    }
}

/// The plain name that an expression is.
pub fn path_name(e: &Expr) -> (name: Result<&String, CompileError>)
    ensures
        match name {
            Ok(name) => e.kind == ExprKind::Name(*name) && name_of(*e) == Ok::<Seq<char>, Fault>(
                name@,
            ),
            Err(error) => name_of(*e) == Err::<Seq<char>, Fault>(error@),
        },
{
    match &e.kind {
        ExprKind::Name(name) => Ok(name),
        _ => Err(CompileError::rule(e.span, NOT_A_NAME)),
    }
}

/// The two's complement bytes of `-magnitude`.
pub open spec fn negated(magnitude: u64) -> u64 {
    if magnitude == 0 {
        0
    } else {
        (0x1_0000_0000_0000_0000 - magnitude) as u64
    }
}

/// The type and the encoding of a literal.
pub open spec fn literal(l: Literal, span: Span, expected: Option<Shape>) -> Result<
    (Shape, Seq<u8>),
    Fault,
> {
    match l {
        Literal::Bool(value) => Ok(
            (
                Shape::Bool,
                seq![
                    if value {
                        1u8
                    } else {
                        0u8
                    },
                ],
            ),
        ),
        Literal::Int(value, suffix) => if suffix == Suffix::U64 || (suffix == Suffix::Absent
            && expected == Some(Shape::U64)) {
            match value {
                Some(n) => Ok((Shape::U64, bytes::le64(n))),
                None => Err(error::fault(span, TOO_LARGE)),
            }
        } else if suffix == Suffix::I64 || suffix == Suffix::Absent {
            match value {
                Some(n) => if n <= i64::MAX {
                    Ok((Shape::I64, bytes::le64(n)))
                } else {
                    Err(error::fault(span, TOO_LARGE))
                },
                None => Err(error::fault(span, TOO_LARGE)),
            }
        } else {
            Err(error::fault(span, "VM integer literals support only i64 and u64 suffixes"))
        },
        Literal::Str(text) => match bytecode::with_blob(
            Seq::empty(),
            vstd::utf8::encode_utf8(text@),
        ) {
            Some(value) => Ok(
                (Shape::String(vstd::utf8::encode_utf8(text@).len() as u32), value),
            ),
            None => Err(error::fault(error::CALL_SITE, bytecode::ENCODING_LIMIT)),
        },
        Literal::ByteStr(text) => match bytecode::with_blob(Seq::empty(), text@) {
            Some(value) => Ok((Shape::Bytes(text@.len() as u32), value)),
            None => Err(error::fault(error::CALL_SITE, bytecode::ENCODING_LIMIT)),
        },
        Literal::Other => Err(error::fault(span, "unsupported VM literal")),
    }
}

/// The magnitude of a negated literal.
pub open spec fn negative(value: Option<u64>, suffix: Suffix, span: Span, literal: Span) -> Result<
    u64,
    Fault,
> {
    if suffix != Suffix::Absent && suffix != Suffix::I64 {
        Err(error::fault(span, "negative literals must be i64"))
    } else {
        match value {
            None => Err(error::fault(literal, TOO_LARGE)),
            Some(n) => if n > 0x8000_0000_0000_0000 {
                Err(error::fault(span, "integer literal is outside i64"))
            } else {
                Ok(n)
            },
        }
    }
}

// ---- Operators -----------------------------------------------------------

/// The opcode of an operator.
pub open spec fn opcode_of(op: BinaryOp) -> Option<u8> {
    match op {
        BinaryOp::Add => Some(0x10u8),
        BinaryOp::Sub => Some(0x11u8),
        BinaryOp::Mul => Some(0x12u8),
        BinaryOp::Div => Some(0x13u8),
        BinaryOp::Rem => Some(0x14u8),
        BinaryOp::Equal | BinaryOp::NotEqual => Some(0x20u8),
        BinaryOp::Less => Some(0x21u8),
        BinaryOp::LessEqual => Some(0x22u8),
        BinaryOp::Greater => Some(0x23u8),
        BinaryOp::GreaterEqual => Some(0x24u8),
        BinaryOp::BitAnd => Some(0x30u8),
        BinaryOp::BitOr => Some(0x31u8),
        BinaryOp::BitXor => Some(0x32u8),
        BinaryOp::Shl => Some(0x34u8),
        BinaryOp::Shr => Some(0x35u8),
        BinaryOp::And | BinaryOp::Or => None,
    }
}

/// The opcode of an operator.
fn binary_op(op: BinaryOp) -> (opcode: Option<u8>)
    ensures
        opcode == opcode_of(op),
{
    match op {
        BinaryOp::Add => Some(0x10u8),
        BinaryOp::Sub => Some(0x11u8),
        BinaryOp::Mul => Some(0x12u8),
        BinaryOp::Div => Some(0x13u8),
        BinaryOp::Rem => Some(0x14u8),
        BinaryOp::Equal => Some(0x20u8),
        BinaryOp::NotEqual => Some(0x20u8),
        BinaryOp::Less => Some(0x21u8),
        BinaryOp::LessEqual => Some(0x22u8),
        BinaryOp::Greater => Some(0x23u8),
        BinaryOp::GreaterEqual => Some(0x24u8),
        BinaryOp::BitAnd => Some(0x30u8),
        BinaryOp::BitOr => Some(0x31u8),
        BinaryOp::BitXor => Some(0x32u8),
        BinaryOp::Shl => Some(0x34u8),
        BinaryOp::Shr => Some(0x35u8),
        BinaryOp::And => None,
        BinaryOp::Or => None,
    }
}

/// The opcode of the operator of a compound assignment.
pub open spec fn compound_opcode(op: Option<BinaryOp>) -> Option<u8> {
    match op {
        Some(op) => match op {
            BinaryOp::Add | BinaryOp::Sub | BinaryOp::Mul | BinaryOp::Div | BinaryOp::Rem
            | BinaryOp::BitAnd | BinaryOp::BitOr | BinaryOp::BitXor | BinaryOp::Shl
            | BinaryOp::Shr => opcode_of(op),
            _ => None,
        },
        None => None,
    }
}

/// The opcode of the operator of a compound assignment.
pub fn assignment_op(op: Option<BinaryOp>) -> (opcode: Option<u8>)
    ensures
        opcode == compound_opcode(op),
{
    match op {
        Some(op) => match op {
            BinaryOp::Add | BinaryOp::Sub | BinaryOp::Mul | BinaryOp::Div | BinaryOp::Rem
            | BinaryOp::BitAnd | BinaryOp::BitOr | BinaryOp::BitXor | BinaryOp::Shl
            | BinaryOp::Shr => binary_op(op),
            _ => None,
        },
        None => None,
    }
}

/// Whether an opcode compares.
pub open spec fn compares(opcode: u8) -> bool {
    0x20 <= opcode <= 0x24
}

/// Whether an opcode shifts.
pub open spec fn shifts(opcode: u8) -> bool {
    opcode == 0x34 || opcode == 0x35
}

/// `and`, `or` and `xor` of booleans have opcodes of their own.
pub open spec fn typed_opcode(opcode: u8, left: Shape) -> u8 {
    if 0x30 <= opcode <= 0x32 && left == Shape::Bool {
        (opcode - 8) as u8
    } else {
        opcode
    }
}

pub open spec fn integer(ty: Shape) -> bool {
    ty is I64 || ty is U64
}

/// Whether an operation takes operands of these types.
pub open spec fn takes(opcode: u8, a: Shape, b: Shape) -> bool {
    if 0x10 <= opcode <= 0x14 || 0x30 <= opcode <= 0x32 {
        integer(a) && a == b
    } else if compares(opcode) {
        !(a is Rows) && types::same_shape(a, b)
    } else if 0x28 <= opcode <= 0x2a {
        a == Shape::Bool && b == Shape::Bool
    } else if shifts(opcode) {
        integer(a) && b == Shape::U64
    } else {
        false
    }
}

/// A binary operation on two registers.
pub open spec fn binary(s: State, opcode: u8, left: u16, right: u16, span: Span) -> Valued {
    let a = s.registers[left as int];
    let b = s.registers[right as int];
    let op = typed_opcode(opcode, a);
    if !takes(op, a, b) {
        Err(Fault { span, reason: Reason::Operands { left: a, right: b } })
    } else {
        super::produced(
            s,
            if 0x20 <= op <= 0x2a {
                Shape::Bool
            } else {
                a
            },
            op,
            seq![left, right],
            span,
        )
    }
}

/// A binary operation on two registers.
pub fn binary_instruction(
    compiler: &mut Compiler,
    opcode: u8,
    left: u16,
    right: u16,
    span: Span,
) -> (register: Result<u16, CompileError>)
    requires
        left < old(compiler)@.registers.len(),
        right < old(compiler)@.registers.len(),
    ensures
        match register {
            Ok(r) => binary(old(compiler)@, opcode, left, right, span) == Ok::<
                (State, u16),
                Fault,
            >((final(compiler)@, r)),
            Err(e) => binary(old(compiler)@, opcode, left, right, span) == Err::<
                (State, u16),
                Fault,
            >(e@),
        },
{
    let a = compiler.ty(left).duplicate();
    let b = compiler.ty(right).duplicate();
    let op: u8 = if 0x30 <= opcode && opcode <= 0x32 && a.same(&Type::Bool) {
        opcode - 8
    } else {
        opcode
    };
    let valid = if (0x10 <= op && op <= 0x14) || (0x30 <= op && op <= 0x32) {
        a.is_integer() && a.same(&b)
    } else if 0x20 <= op && op <= 0x24 {
        !a.is_rows() && a.same_shape(&b)
    } else if 0x28 <= op && op <= 0x2a {
        a.same(&Type::Bool) && b.same(&Type::Bool)
    } else if op == 0x34 || op == 0x35 {
        a.is_integer() && b.same(&Type::U64)
    } else {
        false
    };
    if !valid {
        return Err(CompileError { span, problem: Problem::Operands { left: a, right: b } });
    }
    let ty = if 0x20 <= op && op <= 0x2a {
        Type::Bool
    } else {
        a
    };
    compiler.produce(ty, op, two(left, right), span)
}

/// The tuple of some registers.
pub open spec fn tuple_of(s: State, fields: Seq<u16>, span: Span) -> Valued {
    super::produced(
        s,
        Shape::Tuple(fields.map_values(|r: u16| s.registers[r as int])),
        0x58,
        seq![(fields.len() % 65536) as u16] + fields,
        span,
    )
}

/// The tuple of some registers.
pub fn tuple_instruction(compiler: &mut Compiler, fields: Vec<u16>, span: Span) -> (register:
    Result<u16, CompileError>)
    requires
        forall|i: int|
            0 <= i < fields@.len() ==> #[trigger] fields@[i] < old(compiler)@.registers.len(),
    ensures
        match register {
            Ok(r) => tuple_of(old(compiler)@, fields@, span) == Ok::<(State, u16), Fault>(
                (final(compiler)@, r),
            ),
            Err(e) => tuple_of(old(compiler)@, fields@, span) == Err::<(State, u16), Fault>(e@),
        },
{
    let mut list: Vec<Type> = Vec::new();
    let mut operands: Vec<u16> = super::one((fields.len() % 65536) as u16);
    let ghost head = operands@;
    let mut i: usize = 0;
    while i < fields.len()
        invariant
            *compiler == *old(compiler),
            forall|i: int|
                0 <= i < fields@.len() ==> #[trigger] fields@[i] < old(compiler)@.registers.len(),
            i <= fields@.len(),
            list@.len() == i,
            forall|k: int|
                0 <= k < i ==> (#[trigger] list@[k])@ == compiler@.registers[fields@[k] as int],
            operands@ == head + fields@.subrange(0, i as int),
        decreases fields@.len() - i,
    {
        list.push(compiler.ty(fields[i]).duplicate());
        operands.push(fields[i]);
        i += 1;
        assert(operands@ =~= head + fields@.subrange(0, i as int));
    }
    proof {
        types::lemma_tuple_view(list);
        assert(types::shapes(list@) =~= fields@.map_values(
            |r: u16| old(compiler)@.registers[r as int],
        ));
        assert(operands@ =~= seq![(fields@.len() % 65536) as u16] + fields@);
    }
    compiler.produce(Type::Tuple(list), 0x58, operands, span)
}

/// One field of a tuple.
pub open spec fn field_of(s: State, source: u16, index: int, span: Span) -> Valued {
    match s.registers[source as int] {
        Shape::Tuple(fields) => if index < fields.len() {
            super::produced(
                s,
                fields[index],
                0x59,
                seq![source, (index % 65536) as u16],
                span,
            )
        } else {
            Err(error::fault(span, "tuple field index out of bounds"))
        },
        _ => Err(error::fault(span, "field requires a tuple")),
    }
}

/// One field of a tuple.
pub fn field_instruction(compiler: &mut Compiler, source: u16, index: usize, span: Span) -> (register:
    Result<u16, CompileError>)
    requires
        source < old(compiler)@.registers.len(),
    ensures
        match register {
            Ok(r) => field_of(old(compiler)@, source, index as int, span) == Ok::<
                (State, u16),
                Fault,
            >((final(compiler)@, r)),
            Err(e) => field_of(old(compiler)@, source, index as int, span) == Err::<
                (State, u16),
                Fault,
            >(e@),
        },
{
    let ty = match compiler.ty(source) {
        Type::Tuple(fields) => {
            proof {
                types::lemma_tuple_view(*fields);
            }
            if index < fields.len() {
                fields[index].duplicate()
            } else {
                return Err(CompileError::rule(span, "tuple field index out of bounds"));
            }
        },
        _ => {
            return Err(CompileError::rule(span, "field requires a tuple"));
        },
    };
    compiler.produce(ty, 0x59, two(source, (index % 65536) as u16), span)
}

// ---- Hints ---------------------------------------------------------------

/// Whether an operator gives a boolean whatever its operands are.
pub open spec fn decides(op: BinaryOp) -> bool {
    op == BinaryOp::Equal || op == BinaryOp::NotEqual || op == BinaryOp::Less || op
        == BinaryOp::LessEqual || op == BinaryOp::Greater || op == BinaryOp::GreaterEqual || op
        == BinaryOp::And || op == BinaryOp::Or
}

/// The first of two optional types.
pub open spec fn either(a: Option<Shape>, b: Option<Shape>) -> Option<Shape> {
    if a is Some {
        a
    } else {
        b
    }
}

/// The type that an expression shows without being translated.
pub open spec fn hint(s: State, e: Expr) -> Option<Shape>
    decreases e,
{
    match e.kind {
        ExprKind::Paren(inner) => hint(s, *inner),
        ExprKind::Name(name) => match super::find(s.locals, name@) {
            Some(local) => Some(s.registers[local.register as int]),
            None => None,
        },
        ExprKind::Index(table, _) => match table.kind {
            ExprKind::Name(name) => match super::find(s.tables, name@) {
                Some(table) => Some(table.value),
                None => None,
            },
            _ => None,
        },
        ExprKind::Literal(Literal::Int(_, Suffix::U64)) => Some(Shape::U64),
        ExprKind::Literal(Literal::Int(_, Suffix::I64)) => Some(Shape::I64),
        ExprKind::Literal(Literal::Bool(_)) => Some(Shape::Bool),
        ExprKind::Binary(op, left, right) => if decides(op) {
            Some(Shape::Bool)
        } else if op == BinaryOp::Shl || op == BinaryOp::Shr {
            hint(s, *left)
        } else {
            either(hint(s, *left), hint(s, *right))
        },
        ExprKind::Assign(Some(_), left, right) => either(hint(s, *left), hint(s, *right)),
        ExprKind::Call(function, args) => match function.kind {
            ExprKind::Name(name) => if name@ == "__capture"@ && args@.len() == 1 {
                match args@[0].kind {
                    ExprKind::Name(name) => match super::find(s.captures, name@) {
                        Some(register) => Some(s.registers[register as int]),
                        None => None,
                    },
                    _ => None,
                }
            } else {
                None
            },
            _ => None,
        },
        _ => None,
    }
}

/// The type that an expression shows without being translated.
pub fn type_hint(compiler: &Compiler, e: &Expr) -> (ty: Option<Type>)
    requires
        compiler@.wf(),
    ensures
        super::opt(ty) == hint(compiler@, *e),
    decreases e,
{
    match &e.kind {
        ExprKind::Paren(inner) => type_hint(compiler, inner),
        ExprKind::Name(name) => {
            proof {
                super::lemma_find(compiler@.locals, name@);
            }
            match compiler.local(name.as_str()) {
                Some(local) => Some(compiler.ty(local.register).duplicate()),
                None => None,
            }
        },
        ExprKind::Index(table, _) => match &table.kind {
            ExprKind::Name(name) => match compiler.table(name.as_str()) {
                Some(table) => Some(table.value),
                None => None,
            },
            _ => None,
        },
        ExprKind::Literal(Literal::Int(_, suffix)) => match suffix {
            Suffix::U64 => Some(Type::U64),
            Suffix::I64 => Some(Type::I64),
            _ => None,
        },
        ExprKind::Literal(Literal::Bool(_)) => Some(Type::Bool),
        ExprKind::Binary(op, left, right) => match op {
            BinaryOp::Equal => Some(Type::Bool),
            BinaryOp::NotEqual => Some(Type::Bool),
            BinaryOp::Less => Some(Type::Bool),
            BinaryOp::LessEqual => Some(Type::Bool),
            BinaryOp::Greater => Some(Type::Bool),
            BinaryOp::GreaterEqual => Some(Type::Bool),
            BinaryOp::And => Some(Type::Bool),
            BinaryOp::Or => Some(Type::Bool),
            BinaryOp::Shl => type_hint(compiler, left),
            BinaryOp::Shr => type_hint(compiler, left),
            _ => match type_hint(compiler, left) {
                Some(ty) => Some(ty),
                None => type_hint(compiler, right),
            },
        },
        ExprKind::Assign(Some(_), left, right) => match type_hint(compiler, left) {
            Some(ty) => Some(ty),
            None => type_hint(compiler, right),
        },
        ExprKind::Call(function, args) => match &function.kind {
            ExprKind::Name(name) => {
                if same_text(name.as_str(), "__capture") && args.len() == 1 {
                    match &args[0].kind {
                        ExprKind::Name(name) => {
                            proof {
                                super::lemma_find(compiler@.captures, name@);
                            }
                            match compiler.capture(name.as_str()) {
                                Some(register) => Some(compiler.ty(register).duplicate()),
                                None => None,
                            }
                        },
                        _ => None,
                    }
                } else {
                    None
                }
            },
            _ => None,
        },
        _ => None,
    }
}

/// The type to translate the left operand for.
pub open spec fn left_hint(
    s: State,
    opcode: u8,
    right: Expr,
    expected: Option<Shape>,
) -> Option<Shape> {
    if compares(opcode) {
        hint(s, right)
    } else if shifts(opcode) {
        expected
    } else {
        either(expected, hint(s, right))
    }
}

/// The type to translate the right operand for.
pub open spec fn right_type(opcode: u8, left: Shape) -> Shape {
    if shifts(opcode) {
        Shape::U64
    } else {
        left
    }
}

/// The type to translate the left operand for.
pub fn operand_hint(compiler: &Compiler, opcode: u8, right: &Expr, expected: Option<&Type>) -> (ty:
    Option<Type>)
    requires
        compiler@.wf(),
    ensures
        super::opt(ty) == left_hint(compiler@, opcode, *right, super::wanted(expected)),
{
    if 0x20 <= opcode && opcode <= 0x24 {
        return type_hint(compiler, right);
    }
    if let Some(ty) = expected {
        return Some(ty.duplicate());
    }
    if opcode == 0x34 || opcode == 0x35 {
        None
    } else {
        type_hint(compiler, right)
    }
}

// ---- Expressions ---------------------------------------------------------

/// An expression in a place that may require a shape.
pub open spec fn expression(s: State, e: Expr, expected: Option<Shape>) -> Valued
    decreases e, 2int,
{
    match unchecked(s, e, expected) {
        Err(error) => Err(error),
        Ok((s1, r)) => match expected {
            Some(ty) => if types::same_shape(s1.registers[r as int], ty) {
                Ok((s1, r))
            } else {
                Err(super::mismatch(e.span, ty, s1.registers[r as int]))
            },
            None => Ok((s1, r)),
        },
    }
}

/// An expression before its shape is checked.
pub open spec fn unchecked(s: State, e: Expr, expected: Option<Shape>) -> Valued
    decreases e, 1int,
{
    match e.kind {
        ExprKind::Paren(inner) => expression(s, *inner, expected),
        ExprKind::Name(name) => match super::find(s.locals, name@) {
            Some(local) => Ok((s, local.register)),
            None => Err(error::fault(e.span, UNKNOWN_LOCAL)),
        },
        ExprKind::Path => Err(error::fault(e.span, NOT_A_NAME)),
        ExprKind::Literal(l) => match literal(l, e.span, expected) {
            Err(error) => Err(error),
            Ok((ty, value)) => super::with_constant(s, ty, value, e.span),
        },
        ExprKind::Unary(op, inner) => match (op, inner.kind) {
            (UnaryOp::Neg, ExprKind::Literal(Literal::Int(value, suffix))) => match negative(
                value,
                suffix,
                e.span,
                inner.span,
            ) {
                Err(error) => Err(error),
                Ok(magnitude) => super::with_constant(
                    s,
                    Shape::I64,
                    bytes::le64(negated(magnitude)),
                    e.span,
                ),
            },
            _ => match expression(s, *inner, expected) {
                Err(error) => Err(error),
                Ok((s1, source)) => match unary_opcode(op, s1.registers[source as int]) {
                    None => Err(
                        error::fault(e.span, "unsupported unary operation or operand type"),
                    ),
                    Some(opcode) => super::produced(
                        s1,
                        s1.registers[source as int],
                        opcode,
                        seq![source],
                        e.span,
                    ),
                },
            },
        },
        ExprKind::Binary(op, left, right) => if op == BinaryOp::And || op == BinaryOp::Or {
            match expression(s, *left, Some(Shape::Bool)) {
                Err(error) => Err(error),
                Ok((s1, l)) => match opened(s1, l, op == BinaryOp::And, e.span) {
                    Err(error) => Err(error),
                    Ok((s2, result)) => match expression(s2, *right, Some(Shape::Bool)) {
                        Err(error) => Err(error),
                        Ok((s3, r)) => closed(s3, s2.code.len() - 1, result, r, e.span),
                    },
                },
            }
        } else {
            let opcode = opcode_of(op).unwrap();
            match expression(s, *left, left_hint(s, opcode, *right, expected)) {
                Err(error) => Err(error),
                Ok((s1, l)) => match expression(
                    s1,
                    *right,
                    Some(right_type(opcode, s1.registers[l as int])),
                ) {
                    Err(error) => Err(error),
                    Ok((s2, r)) => match binary(s2, opcode, l, r, e.span) {
                        Err(error) => Err(error),
                        Ok((s3, result)) => if op == BinaryOp::NotEqual {
                            super::produced(s3, Shape::Bool, 0x2b, seq![result], e.span)
                        } else {
                            Ok((s3, result))
                        },
                    },
                },
            }
        },
        ExprKind::Index(..) => match intrinsics::place(s, e) {
            Err(error) => Err(error),
            Ok((s1, table, key)) => super::read_from(
                s1,
                table.value,
                0x40,
                table.index,
                key,
                e.span,
            ),
        },
        ExprKind::Tuple(elements) => if elements@.len() == 0 {
            super::with_constant(s, Shape::Unit, Seq::empty(), e.span)
        } else {
            match expressions(s, elements@, field_hints(expected), 0) {
                Err(error) => Err(error),
                Ok((s1, fields)) => tuple_of(s1, fields, e.span),
            }
        },
        ExprKind::Field(base, member) => match expression(s, *base, None) {
            Err(error) => Err(error),
            Ok((s1, source)) => match member {
                Member::Named => Err(
                    error::fault(e.span, "VM tuples have numeric fields only"),
                ),
                Member::Index(index) => field_of(s1, source, index as int, e.span),
            },
        },
        ExprKind::Call(function, args) => intrinsics::called(
            s,
            e.span,
            *function,
            args@,
            expected,
        ),
        ExprKind::Assign(Some(_), _, _) => Err(error::fault(e.span, "unsupported VM operator")),
        _ => Err(error::fault(e.span, UNSUPPORTED)),
    }
}

/// The opcode of a unary operator on an operand of type `ty`.
pub open spec fn unary_opcode(op: UnaryOp, ty: Shape) -> Option<u8> {
    match (op, ty) {
        (UnaryOp::Neg, Shape::I64) => Some(0x15u8),
        (UnaryOp::Not, Shape::Bool) => Some(0x2bu8),
        (UnaryOp::Not, Shape::I64) => Some(0x33u8),
        (UnaryOp::Not, Shape::U64) => Some(0x33u8),
        _ => None,
    }
}

/// The hints for the fields of a tuple.
pub open spec fn field_hints(expected: Option<Shape>) -> Seq<Shape> {
    match expected {
        Some(Shape::Tuple(fields)) => fields,
        _ => Seq::empty(),
    }
}

/// The registers of the expressions from the `i`-th on.
pub open spec fn expressions(s: State, list: Seq<Expr>, hints: Seq<Shape>, i: int) -> Result<
    (State, Seq<u16>),
    Fault,
>
    decreases list, list.len() - i,
{
    if !(0 <= i < list.len()) {
        Ok((s, Seq::empty()))
    } else {
        match expression(
            s,
            list[i],
            if i < hints.len() {
                Some(hints[i])
            } else {
                None
            },
        ) {
            Err(error) => Err(error),
            Ok((s1, r)) => match expressions(s1, list, hints, i + 1) {
                Err(error) => Err(error),
                Ok((s2, rest)) => Ok((s2, seq![r] + rest)),
            },
        }
    }
}

/// The start of `&&` or `||`: a result register that holds the left operand,
/// and a jump over the right operand. The last instruction is that jump.
pub open spec fn opened(s: State, left: u16, and: bool, span: Span) -> Valued {
    match super::with_register(s, Shape::Bool, span) {
        Err(error) => Err(error),
        Ok((s1, result)) => match super::with_instruction(
            s1,
            super::plain(0x03, seq![result, left]),
            span,
        ) {
            Err(error) => Err(error),
            Ok(s2) => match super::with_instruction(s2, super::open_jump(Some(left)), span) {
                Err(error) => Err(error),
                Ok(s3) => if and {
                    Ok((s3, result))
                } else {
                    match super::with_instruction(s3, super::open_jump(None), span) {
                        Err(error) => Err(error),
                        Ok(s4) => Ok((super::patched(s4, s4.code.len() - 2), result)),
                    }
                },
            },
        },
    }
}

/// The end of `&&` or `||`: the right operand becomes the result, and the jump
/// at `skip` leads behind it.
pub open spec fn closed(s: State, skip: int, result: u16, right: u16, span: Span) -> Valued {
    match super::with_instruction(s, super::plain(0x03, seq![result, right]), span) {
        Err(error) => Err(error),
        Ok(s1) => Ok((super::patched(s1, skip), result)),
    }
}

/// Translate an expression in a place that may require a shape.
pub fn compile_expr(compiler: &mut Compiler, e: &Expr, expected: Option<&Type>) -> (register: Result<
    u16,
    CompileError,
>)
    requires
        old(compiler)@.wf(),
    ensures
        match register {
            Ok(r) => expression(old(compiler)@, *e, super::wanted(expected)) == Ok::<
                (State, u16),
                Fault,
            >((final(compiler)@, r)),
            Err(error) => expression(old(compiler)@, *e, super::wanted(expected)) == Err::<
                (State, u16),
                Fault,
            >(error@),
        },
        register matches Ok(r) ==> final(compiler)@.wf() && r < final(compiler)@.registers.len()
            && super::grows_in_scope(old(compiler)@, final(compiler)@),
    decreases e, 2int,
{
    let register: u16 = compile_unchecked(compiler, e, expected)?;
    if let Some(ty) = expected {
        super::require_shape(compiler.ty(register), ty, e.span)?;
    }
    Ok(register)
}

/// The type and the encoding of a literal.
fn compile_literal(l: &Literal, span: Span, expected: Option<&Type>) -> (value: Result<
    (Type, Vec<u8>),
    CompileError,
>)
    ensures
        match value {
            Ok((ty, value)) => literal(*l, span, super::wanted(expected)) == Ok::<
                (Shape, Seq<u8>),
                Fault,
            >((ty@, value@)),
            Err(error) => literal(*l, span, super::wanted(expected)) == Err::<
                (Shape, Seq<u8>),
                Fault,
            >(error@),
        },
{
    match l {
        Literal::Bool(value) => {
            let mut out: Vec<u8> = Vec::new();
            out.push(
                if *value {
                    1
                } else {
                    0
                },
            );
            assert(out@ =~= literal(*l, span, super::wanted(expected))->Ok_0.1);
            Ok((Type::Bool, out))
        },
        Literal::Int(value, suffix) => {
            let unsigned = match suffix {
                Suffix::U64 => true,
                Suffix::I64 => false,
                Suffix::Absent => match expected {
                    Some(ty) => ty.same(&Type::U64),
                    None => false,
                },
                _ => {
                    return Err(
                        CompileError::rule(
                            span,
                            "VM integer literals support only i64 and u64 suffixes",
                        ),
                    );
                },
            };
            let n: u64 = match value {
                Some(n) => *n,
                None => {
                    return Err(CompileError::rule(span, TOO_LARGE));
                },
            };
            if !unsigned && n > i64::MAX as u64 {
                return Err(CompileError::rule(span, TOO_LARGE));
            }
            let mut out: Vec<u8> = Vec::new();
            push_u64(&mut out, n);
            assert(out@ =~= bytes::le64(n));
            if unsigned {
                Ok((Type::U64, out))
            } else {
                Ok((Type::I64, out))
            }
        },
        Literal::Str(text) => {
            let mut out: Vec<u8> = Vec::new();
            let value = text.as_str().as_bytes();
            blob(value, &mut out)?;
            Ok((Type::String(value.len() as u32), out))
        },
        Literal::ByteStr(text) => {
            let mut out: Vec<u8> = Vec::new();
            blob(text.as_slice(), &mut out)?;
            Ok((Type::Bytes(text.len() as u32), out))
        },
        Literal::Other => Err(CompileError::rule(span, "unsupported VM literal")),
    }
}

/// Translate an expression before its shape is checked.
#[verifier::rlimit(40)]
fn compile_unchecked(compiler: &mut Compiler, e: &Expr, expected: Option<&Type>) -> (register: Result<
    u16,
    CompileError,
>)
    requires
        old(compiler)@.wf(),
    ensures
        match register {
            Ok(r) => unchecked(old(compiler)@, *e, super::wanted(expected)) == Ok::<
                (State, u16),
                Fault,
            >((final(compiler)@, r)),
            Err(error) => unchecked(old(compiler)@, *e, super::wanted(expected)) == Err::<
                (State, u16),
                Fault,
            >(error@),
        },
        register matches Ok(r) ==> final(compiler)@.wf() && r < final(compiler)@.registers.len()
            && super::grows_in_scope(old(compiler)@, final(compiler)@),
    decreases e, 1int,
{
    let span: Span = e.span;
    match &e.kind {
        ExprKind::Paren(inner) => compile_expr(compiler, inner, expected),
        ExprKind::Name(name) => {
            proof {
                super::lemma_find(compiler@.locals, name@);
            }
            match compiler.local(name.as_str()) {
                Some(local) => Ok(local.register),
                None => Err(CompileError::rule(span, UNKNOWN_LOCAL)),
            }
        },
        ExprKind::Path => Err(CompileError::rule(span, NOT_A_NAME)),
        ExprKind::Literal(l) => {
            let (ty, value) = compile_literal(l, span, expected)?;
            compiler.constant(ty, value, span)
        },
        ExprKind::Unary(op, inner) => {
            if *op == UnaryOp::Neg {
                if let ExprKind::Literal(Literal::Int(value, suffix)) = &inner.kind {
                    if *suffix != Suffix::Absent && *suffix != Suffix::I64 {
                        return Err(CompileError::rule(span, "negative literals must be i64"));
                    }
                    let magnitude: u64 = match value {
                        Some(n) => *n,
                        None => {
                            return Err(CompileError::rule(inner.span, TOO_LARGE));
                        },
                    };
                    if magnitude > 0x8000_0000_0000_0000 {
                        return Err(CompileError::rule(span, "integer literal is outside i64"));
                    }
                    let complement: u64 = if magnitude == 0 {
                        0
                    } else {
                        u64::MAX - magnitude + 1
                    };
                    let mut value: Vec<u8> = Vec::new();
                    push_u64(&mut value, complement);
                    assert(value@ =~= bytes::le64(negated(magnitude)));
                    return compiler.constant(Type::I64, value, span);
                }
            }
            let source: u16 = compile_expr(compiler, inner, expected)?;
            let ty = compiler.ty(source).duplicate();
            let opcode: u8 = match (*op, &ty) {
                (UnaryOp::Neg, Type::I64) => 0x15,
                (UnaryOp::Not, Type::Bool) => 0x2b,
                (UnaryOp::Not, Type::I64) => 0x33,
                (UnaryOp::Not, Type::U64) => 0x33,
                _ => {
                    return Err(
                        CompileError::rule(span, "unsupported unary operation or operand type"),
                    );
                },
            };
            compiler.produce(ty, opcode, super::one(source), span)
        },
        ExprKind::Binary(op, left, right) => {
            if *op == BinaryOp::And || *op == BinaryOp::Or {
                compile_circuit(compiler, e)
            } else {
                let opcode: u8 = binary_op(*op).unwrap();
                let ty = operand_hint(compiler, opcode, right, expected);
                let l: u16 = compile_expr(compiler, left, ty.as_ref())?;
                let wanted_right = if opcode == 0x34 || opcode == 0x35 {
                    Type::U64
                } else {
                    compiler.ty(l).duplicate()
                };
                let r: u16 = compile_expr(compiler, right, Some(&wanted_right))?;
                let result: u16 = binary_instruction(compiler, opcode, l, r, span)?;
                if *op == BinaryOp::NotEqual {
                    compiler.produce(Type::Bool, 0x2b, super::one(result), span)
                } else {
                    Ok(result)
                }
            }
        },
        ExprKind::Index(..) => {
            let (table, key) = address(compiler, e)?;
            compiler.read_table(table.value, 0x40, table.index, key, span)
        },
        ExprKind::Tuple(elements) => {
            if elements.len() == 0 {
                let value: Vec<u8> = Vec::new();
                assert(value@ =~= Seq::empty());
                compiler.constant(Type::Unit, value, span)
            } else {
                let fields = compile_list(compiler, elements, expected)?;
                tuple_instruction(compiler, fields, span)
            }
        },
        ExprKind::Field(base, member) => {
            let source: u16 = compile_expr(compiler, base, None)?;
            match member {
                Member::Named => Err(
                    CompileError::rule(span, "VM tuples have numeric fields only"),
                ),
                Member::Index(index) => field_instruction(compiler, source, *index as usize, span),
            }
        },
        ExprKind::Call(function, args) => {
            compile_call(compiler, span, function, args, expected)
        },
        ExprKind::Assign(Some(_), _, _) => {
            Err(CompileError::rule(span, "unsupported VM operator"))
        },
        _ => Err(CompileError::rule(span, UNSUPPORTED)),
    }
}

/// Translate a list of expressions, with the fields of `expected` as hints.
pub fn compile_list(compiler: &mut Compiler, list: &Vec<Expr>, expected: Option<&Type>) -> (registers:
    Result<Vec<u16>, CompileError>)
    requires
        old(compiler)@.wf(),
    ensures
        match registers {
            Ok(registers) => expressions(
                old(compiler)@,
                list@,
                field_hints(super::wanted(expected)),
                0,
            ) == Ok::<(State, Seq<u16>), Fault>((final(compiler)@, registers@)),
            Err(error) => expressions(
                old(compiler)@,
                list@,
                field_hints(super::wanted(expected)),
                0,
            ) == Err::<(State, Seq<u16>), Fault>(error@),
        },
        registers matches Ok(registers) ==> {
            &&& final(compiler)@.wf()
            &&& super::grows_in_scope(old(compiler)@, final(compiler)@)
            &&& forall|i: int|
                0 <= i < registers@.len() ==> #[trigger] registers@[i]
                    < final(compiler)@.registers.len()
        },
    decreases list@, list@.len(),
{
    let ghost hints = field_hints(super::wanted(expected));
    let ghost whole = expressions(compiler@, list@, hints, 0);
    let mut registers: Vec<u16> = Vec::new();
    let mut i: usize = 0;
    proof {
        if let Ok((s, rest)) = whole {
            assert(registers@ + rest =~= rest);
        }
    }
    while i < list.len()
        invariant
            hints == field_hints(super::wanted(expected)),
            whole == expressions(old(compiler)@, list@, hints, 0),
            i <= list@.len(),
            compiler@.wf(),
            super::grows_in_scope(old(compiler)@, compiler@),
            forall|k: int|
                0 <= k < registers@.len() ==> #[trigger] registers@[k] < compiler@.registers.len(),
            match expressions(compiler@, list@, hints, i as int) {
                Ok((s, rest)) => whole == Ok::<(State, Seq<u16>), Fault>((s, registers@ + rest)),
                Err(error) => whole == Err::<(State, Seq<u16>), Fault>(error),
            },
        decreases list@.len() - i,
    {
        let field_type = match expected {
            Some(Type::Tuple(fields)) => {
                proof {
                    types::lemma_tuple_view(*fields);
                }
                if i < fields.len() {
                    Some(&fields[i])
                } else {
                    None
                }
            },
            _ => None,
        };
        assert(super::wanted(field_type) == if i < hints.len() {
            Some(hints[i as int])
        } else {
            None
        });
        assert(decreases_to!(list@ => list@[i as int]));
        let ghost before = compiler@;
        let ghost done = registers@;
        let r: u16 = compile_expr(compiler, &list[i], field_type)?;
        registers.push(r);
        proof {
            if let Ok((s, rest)) = expressions(compiler@, list@, hints, i + 1) {
                assert(registers@ + rest =~= done + (seq![r] + rest));
            }
        }
        i += 1;
    }
    assert(registers@ + Seq::empty() =~= registers@);
    Ok(registers)
}

/// Start `&&` or `||`.
fn open_circuit(compiler: &mut Compiler, left: u16, and: bool, span: Span) -> (register: Result<
    u16,
    CompileError,
>)
    requires
        old(compiler)@.wf(),
    ensures
        match register {
            Ok(r) => opened(old(compiler)@, left, and, span) == Ok::<(State, u16), Fault>(
                (final(compiler)@, r),
            ),
            Err(error) => opened(old(compiler)@, left, and, span) == Err::<(State, u16), Fault>(
                error@,
            ),
        },
        register matches Ok(r) ==> {
            &&& final(compiler)@.wf()
            &&& r < final(compiler)@.registers.len()
            &&& super::keeps(old(compiler)@, final(compiler)@)
            &&& final(compiler)@.locals == old(compiler)@.locals
            &&& final(compiler)@.code.len() > old(compiler)@.code.len()
            &&& final(compiler)@.code.last().operands.len() >= 4
            &&& super::forward_but(
                final(compiler)@.code,
                old(compiler)@.code.len() as int,
                set![final(compiler)@.code.len() - 1],
            )
        },
{
    broadcast use bytes::group_le;

    let ghost start = compiler@.code.len() as int;
    let result: u16 = compiler.register(Type::Bool, span)?;
    compiler.emit_words(0x03, two(result, left), span)?;
    let branch: usize = compiler.jump(Some(left), span)?;
    assert(super::forward_but(compiler@.code, start, set![branch as int]));
    if !and {
        let skip: usize = compiler.jump(None, span)?;
        let ghost open = set![branch as int, skip as int];
        assert(super::forward_but(compiler@.code, start, open));
        proof {
            super::lemma_patched(compiler@, start, open, branch as int);
            assert(open.remove(branch as int) =~= set![skip as int]);
        }
        compiler.patch_jump(branch);
    }
    Ok(result)
}

/// Translate `&&` or `||`.
fn compile_circuit(compiler: &mut Compiler, e: &Expr) -> (register: Result<u16, CompileError>)
    requires
        old(compiler)@.wf(),
        e.kind matches ExprKind::Binary(op, _, _) && (op == BinaryOp::And || op == BinaryOp::Or),
    ensures
        match register {
            Ok(r) => unchecked(old(compiler)@, *e, None) == Ok::<(State, u16), Fault>(
                (final(compiler)@, r),
            ),
            Err(error) => unchecked(old(compiler)@, *e, None) == Err::<(State, u16), Fault>(
                error@,
            ),
        },
        register matches Ok(r) ==> final(compiler)@.wf() && r < final(compiler)@.registers.len()
            && super::grows_in_scope(old(compiler)@, final(compiler)@),
    decreases e, 0int,
{
    let span: Span = e.span;
    match &e.kind {
        ExprKind::Binary(op, left, right) => {
            let and = *op == BinaryOp::And;
            let ghost start = compiler@;
            let l: u16 = compile_expr(compiler, left, Some(&Type::Bool))?;
            let ghost compared = compiler@;
            let result: u16 = open_circuit(compiler, l, and, span)?;
            let skip: usize = compiler.instructions.len() - 1;
            let ghost before = compiler@;
            let r: u16 = compile_expr(compiler, right, Some(&Type::Bool))?;
            assert(compiler@.code[skip as int] == before.code[skip as int]);
            proof {
                super::lemma_forward(
                    before,
                    compiler@,
                    compared.code.len() as int,
                    set![skip as int],
                );
            }
            close_circuit(compiler, skip, result, r, span, Ghost(compared.code.len() as int))
        },
        _ => Err(CompileError::rule(span, UNSUPPORTED)),
    }
}

/// Finish `&&` or `||`.
fn close_circuit(
    compiler: &mut Compiler,
    skip: usize,
    result: u16,
    right: u16,
    span: Span,
    Ghost(start): Ghost<int>,
) -> (register: Result<u16, CompileError>)
    requires
        old(compiler)@.wf(),
        0 <= start,
        super::forward_but(old(compiler)@.code, start, set![skip as int]),
        skip < old(compiler)@.code.len(),
        old(compiler)@.code[skip as int].operands.len() >= 4,
    ensures
        match register {
            Ok(r) => closed(old(compiler)@, skip as int, result, right, span) == Ok::<
                (State, u16),
                Fault,
            >((final(compiler)@, r)) && r == result,
            Err(error) => closed(old(compiler)@, skip as int, result, right, span) == Err::<
                (State, u16),
                Fault,
            >(error@),
        },
        register is Ok ==> {
            &&& final(compiler)@.registers == old(compiler)@.registers
            &&& final(compiler)@.locals == old(compiler)@.locals
            &&& final(compiler)@.captures == old(compiler)@.captures
            &&& final(compiler)@.tables == old(compiler)@.tables
            &&& final(compiler)@.wf()
            &&& final(compiler)@.code.len() > old(compiler)@.code.len()
            &&& super::forward_from(final(compiler)@.code, start)
            &&& forall|i: int|
                0 <= i < old(compiler)@.code.len() && i != skip ==> #[trigger] final(compiler)@.code[i] == old(compiler)@.code[i]
        },
{
    compiler.emit_words(0x03, two(result, right), span)?;
    proof {
        super::lemma_patched(compiler@, start, set![skip as int], skip as int);
    }
    compiler.patch_jump(skip);
    Ok(result)
}

} // verus!
