//! Translation of named operations.

use super::super::ast::{Expr, ExprKind, Literal, Suffix};
use super::super::bytecode::Code;
use super::super::error;
use super::super::error::{CompileError, Fault, Problem, Reason, Span};
use super::super::types::{Shape, Type, VALUE_LIMIT};
use super::expr;
use super::expr::{
    binary_instruction, compile_expr, compile_list, field_instruction, operand_hint, path_name,
    tuple_instruction,
};
use super::{Compiler, State, TableInfo, TableShape, Valued};
use crate::bytes;
use crate::bytes::{push_u32, push_u64};
use crate::external::same_text;
use vstd::prelude::*;

verus! {

/// A named operation.
#[derive(Clone, Copy, Debug, PartialEq, Eq, Structural)]
pub enum Intrinsic {
    Copy,
    Load,
    Exists,
    Negate,
    ToI64,
    ToU64,
    BoolNot,
    BitNot,
    RowsLen,
    ByteLen,
    Utf8Bytes,
    ParseUtf8,
    Sha256,
    /// A binary operation, by its opcode.
    Binary(u8),
    RowsKey,
    RowsValue,
    Concat,
    Field,
    SliceBytes,
    Scan,
}

/// The operation that `name` names.
pub open spec fn intrinsic(name: Seq<char>) -> Option<Intrinsic> {
    if name == "copy"@ {
        Some(Intrinsic::Copy)
    } else if name == "load"@ {
        Some(Intrinsic::Load)
    } else if name == "exists"@ {
        Some(Intrinsic::Exists)
    } else if name == "neg_checked"@ {
        Some(Intrinsic::Negate)
    } else if name == "to_i64_checked"@ {
        Some(Intrinsic::ToI64)
    } else if name == "to_u64_checked"@ {
        Some(Intrinsic::ToU64)
    } else if name == "bool_not"@ {
        Some(Intrinsic::BoolNot)
    } else if name == "bit_not"@ {
        Some(Intrinsic::BitNot)
    } else if name == "rows_len"@ {
        Some(Intrinsic::RowsLen)
    } else if name == "byte_len"@ {
        Some(Intrinsic::ByteLen)
    } else if name == "utf8_bytes"@ {
        Some(Intrinsic::Utf8Bytes)
    } else if name == "parse_utf8"@ {
        Some(Intrinsic::ParseUtf8)
    } else if name == "sha256"@ {
        Some(Intrinsic::Sha256)
    } else if name == "add_checked"@ {
        Some(Intrinsic::Binary(0x10))
    } else if name == "sub_checked"@ {
        Some(Intrinsic::Binary(0x11))
    } else if name == "mul_checked"@ {
        Some(Intrinsic::Binary(0x12))
    } else if name == "div_checked"@ {
        Some(Intrinsic::Binary(0x13))
    } else if name == "rem_checked"@ {
        Some(Intrinsic::Binary(0x14))
    } else if name == "eq"@ {
        Some(Intrinsic::Binary(0x20))
    } else if name == "lt"@ {
        Some(Intrinsic::Binary(0x21))
    } else if name == "le"@ {
        Some(Intrinsic::Binary(0x22))
    } else if name == "gt"@ {
        Some(Intrinsic::Binary(0x23))
    } else if name == "ge"@ {
        Some(Intrinsic::Binary(0x24))
    } else if name == "bool_and"@ {
        Some(Intrinsic::Binary(0x28))
    } else if name == "bool_or"@ {
        Some(Intrinsic::Binary(0x29))
    } else if name == "bool_xor"@ {
        Some(Intrinsic::Binary(0x2a))
    } else if name == "bit_and"@ {
        Some(Intrinsic::Binary(0x30))
    } else if name == "bit_or"@ {
        Some(Intrinsic::Binary(0x31))
    } else if name == "bit_xor"@ {
        Some(Intrinsic::Binary(0x32))
    } else if name == "shl_wrap"@ {
        Some(Intrinsic::Binary(0x34))
    } else if name == "shr"@ {
        Some(Intrinsic::Binary(0x35))
    } else if name == "rows_key"@ {
        Some(Intrinsic::RowsKey)
    } else if name == "rows_value"@ {
        Some(Intrinsic::RowsValue)
    } else if name == "concat"@ {
        Some(Intrinsic::Concat)
    } else if name == "field"@ {
        Some(Intrinsic::Field)
    } else if name == "slice_bytes"@ {
        Some(Intrinsic::SliceBytes)
    } else if name == "scan_bounded"@ {
        Some(Intrinsic::Scan)
    } else {
        None
    }
}

/// The operation that `name` names.
fn find_intrinsic(name: &str) -> (found: Option<Intrinsic>)
    ensures
        found == intrinsic(name@),
{
    if same_text(name, "copy") {
        Some(Intrinsic::Copy)
    } else if same_text(name, "load") {
        Some(Intrinsic::Load)
    } else if same_text(name, "exists") {
        Some(Intrinsic::Exists)
    } else if same_text(name, "neg_checked") {
        Some(Intrinsic::Negate)
    } else if same_text(name, "to_i64_checked") {
        Some(Intrinsic::ToI64)
    } else if same_text(name, "to_u64_checked") {
        Some(Intrinsic::ToU64)
    } else if same_text(name, "bool_not") {
        Some(Intrinsic::BoolNot)
    } else if same_text(name, "bit_not") {
        Some(Intrinsic::BitNot)
    } else if same_text(name, "rows_len") {
        Some(Intrinsic::RowsLen)
    } else if same_text(name, "byte_len") {
        Some(Intrinsic::ByteLen)
    } else if same_text(name, "utf8_bytes") {
        Some(Intrinsic::Utf8Bytes)
    } else if same_text(name, "parse_utf8") {
        Some(Intrinsic::ParseUtf8)
    } else if same_text(name, "sha256") {
        Some(Intrinsic::Sha256)
    } else if same_text(name, "add_checked") {
        Some(Intrinsic::Binary(0x10))
    } else if same_text(name, "sub_checked") {
        Some(Intrinsic::Binary(0x11))
    } else if same_text(name, "mul_checked") {
        Some(Intrinsic::Binary(0x12))
    } else if same_text(name, "div_checked") {
        Some(Intrinsic::Binary(0x13))
    } else if same_text(name, "rem_checked") {
        Some(Intrinsic::Binary(0x14))
    } else if same_text(name, "eq") {
        Some(Intrinsic::Binary(0x20))
    } else if same_text(name, "lt") {
        Some(Intrinsic::Binary(0x21))
    } else if same_text(name, "le") {
        Some(Intrinsic::Binary(0x22))
    } else if same_text(name, "gt") {
        Some(Intrinsic::Binary(0x23))
    } else if same_text(name, "ge") {
        Some(Intrinsic::Binary(0x24))
    } else if same_text(name, "bool_and") {
        Some(Intrinsic::Binary(0x28))
    } else if same_text(name, "bool_or") {
        Some(Intrinsic::Binary(0x29))
    } else if same_text(name, "bool_xor") {
        Some(Intrinsic::Binary(0x2a))
    } else if same_text(name, "bit_and") {
        Some(Intrinsic::Binary(0x30))
    } else if same_text(name, "bit_or") {
        Some(Intrinsic::Binary(0x31))
    } else if same_text(name, "bit_xor") {
        Some(Intrinsic::Binary(0x32))
    } else if same_text(name, "shl_wrap") {
        Some(Intrinsic::Binary(0x34))
    } else if same_text(name, "shr") {
        Some(Intrinsic::Binary(0x35))
    } else if same_text(name, "rows_key") {
        Some(Intrinsic::RowsKey)
    } else if same_text(name, "rows_value") {
        Some(Intrinsic::RowsValue)
    } else if same_text(name, "concat") {
        Some(Intrinsic::Concat)
    } else if same_text(name, "field") {
        Some(Intrinsic::Field)
    } else if same_text(name, "slice_bytes") {
        Some(Intrinsic::SliceBytes)
    } else if same_text(name, "scan_bounded") {
        Some(Intrinsic::Scan)
    } else {
        None
    }
}

/// How many operands an operation takes.
pub open spec fn arity(op: Intrinsic) -> usize {
    match op {
        Intrinsic::Binary(_) | Intrinsic::RowsKey | Intrinsic::RowsValue | Intrinsic::Concat
        | Intrinsic::Field => 2,
        Intrinsic::SliceBytes => 3,
        Intrinsic::Scan => 6,
        _ => 1,
    }
}

fn operand_count(op: Intrinsic) -> (count: usize)
    ensures
        count == arity(op),
{
    match op {
        Intrinsic::Binary(_) => 2,
        Intrinsic::RowsKey => 2,
        Intrinsic::RowsValue => 2,
        Intrinsic::Concat => 2,
        Intrinsic::Field => 2,
        Intrinsic::SliceBytes => 3,
        Intrinsic::Scan => 6,
        _ => 1,
    }
}

// ---- Operands ------------------------------------------------------------

/// The unsigned integer literal that an expression is.
pub open spec fn immediate_of(e: Expr, max: u64) -> Result<u64, Fault> {
    match e.kind {
        ExprKind::Literal(Literal::Int(value, suffix)) => match value {
            None => Err(error::fault(e.span, expr::TOO_LARGE)),
            Some(n) => if n <= max && (suffix == Suffix::Absent || suffix == Suffix::U16 || suffix
                == Suffix::U32 || suffix == Suffix::U64) {
                Ok(n)
            } else {
                Err(Fault { span: e.span, reason: Reason::Literal(max) })
            },
        },
        _ => Err(Fault { span: e.span, reason: Reason::Literal(max) }),
    }
}

/// The unsigned integer literal that an expression is.
pub fn immediate(e: &Expr, max: u64) -> (value: Result<u64, CompileError>)
    ensures
        match value {
            Ok(n) => immediate_of(*e, max) == Ok::<u64, Fault>(n) && n <= max,
            Err(error) => immediate_of(*e, max) == Err::<u64, Fault>(error@),
        },
{
    if let ExprKind::Literal(Literal::Int(value, suffix)) = &e.kind {
        match value {
            None => {
                return Err(CompileError::rule(e.span, expr::TOO_LARGE));
            },
            Some(n) => {
                if *n <= max && (*suffix == Suffix::Absent || *suffix == Suffix::U16 || *suffix
                    == Suffix::U32 || *suffix == Suffix::U64) {
                    return Ok(*n);
                }
            },
        }
    }
    Err(CompileError { span: e.span, problem: Problem::Literal(max) })
}

/// The table that an expression names.
pub open spec fn table_of(s: State, e: Expr) -> Result<TableShape, Fault> {
    match expr::name_of(e) {
        Err(error) => Err(error),
        Ok(name) => match super::find(s.tables, name) {
            Some(table) => Ok(table),
            None => Err(
                error::fault(e.span, "unknown table; declare it in tables { ... }"),
            ),
        },
    }
}

/// The table that an expression names.
fn table_info(compiler: &Compiler, e: &Expr) -> (table: Result<TableInfo, CompileError>)
    ensures
        match table {
            Ok(table) => table_of(compiler@, *e) == Ok::<TableShape, Fault>(table@),
            Err(error) => table_of(compiler@, *e) == Err::<TableShape, Fault>(error@),
        },
        table matches Ok(found) ==> compiler@.wf() ==> found.index < compiler@.tables.len(),
{
    let name = path_name(e)?;
    proof {
        super::lemma_find(compiler@.tables, name@);
    }
    match compiler.table(name.as_str()) {
        Some(table) => Ok(table),
        None => Err(CompileError::rule(e.span, "unknown table; declare it in tables { ... }")),
    }
}

/// The table and the key register of `table[key]`.
pub open spec fn place(s: State, e: Expr) -> Result<(State, TableShape, u16), Fault>
    decreases e, 0int,
{
    match e.kind {
        ExprKind::Index(table, key) => match table_of(s, *table) {
            Err(error) => Err(error),
            Ok(table) => match expr::expression(s, *key, Some(table.key)) {
                Err(error) => Err(error),
                Ok((s1, register)) => Ok((s1, table, register)),
            },
        },
        _ => Err(error::fault(e.span, "expected table[key]")),
    }
}

/// The table and the key register of `table[key]`.
pub fn address(compiler: &mut Compiler, e: &Expr) -> (place: Result<(TableInfo, u16), CompileError>)
    requires
        old(compiler)@.wf(),
    ensures
        match place {
            Ok((table, key)) => self::place(old(compiler)@, *e) == Ok::<
                (State, TableShape, u16),
                Fault,
            >((final(compiler)@, table@, key)),
            Err(error) => self::place(old(compiler)@, *e) == Err::<
                (State, TableShape, u16),
                Fault,
            >(error@),
        },
        place matches Ok((table, key)) ==> final(compiler)@.wf() && key
            < final(compiler)@.registers.len() && table.index < final(compiler)@.tables.len()
            && super::grows_in_scope(
            old(compiler)@,
            final(compiler)@,
        ),
    decreases e, 0int,
{
    match &e.kind {
        ExprKind::Index(table, key) => {
            let table = table_info(compiler, table)?;
            let register: u16 = compile_expr(compiler, key, Some(&table.key))?;
            Ok((table, register))
        },
        _ => Err(CompileError::rule(e.span, "expected table[key]")),
    }
}

// ---- Calls ---------------------------------------------------------------

/// A call in an expression.
pub open spec fn called(
    s: State,
    span: Span,
    function: Expr,
    args: Seq<Expr>,
    expected: Option<Shape>,
) -> Valued
    decreases args, args.len() + 2,
{
    match expr::name_of(function) {
        Err(error) => Err(error),
        Ok(name) => if name == "__capture"@ && args.len() == 1 {
            match expr::name_of(args[0]) {
                Err(error) => Err(error),
                Ok(name) => match super::find(s.captures, name) {
                    Some(register) => Ok((s, register)),
                    None => Err(error::fault(span, "unknown capture")),
                },
            }
        } else if name == "tuple"@ {
            match expr::expressions(s, args, expr::field_hints(expected), 0) {
                Err(error) => Err(error),
                Ok((s1, fields)) => expr::tuple_of(s1, fields, span),
            }
        } else {
            match intrinsic(name) {
                None => Err(
                    error::fault(
                        span,
                        "unknown VM operation; Rust function calls are not allowed",
                    ),
                ),
                Some(op) => if args.len() != arity(op) {
                    Err(
                        Fault {
                            span,
                            reason: Reason::Arity { operation: name, operands: arity(op) },
                        },
                    )
                } else {
                    operation(s, span, name, op, args, expected)
                },
            }
        },
    }
}

/// A named operation with the right number of operands.
pub open spec fn operation(
    s: State,
    span: Span,
    name: Seq<char>,
    op: Intrinsic,
    args: Seq<Expr>,
    expected: Option<Shape>,
) -> Valued
    decreases args, args.len() + 1,
{
    if args.len() != arity(op) {
        arbitrary()
    } else {
        match op {
            Intrinsic::Scan => scanned(s, span, args),
            Intrinsic::Load => match place(s, args[0]) {
                Err(error) => Err(error),
                Ok((s1, table, key)) => super::read_from(
                    s1,
                    table.value,
                    0x40,
                    table.index,
                    key,
                    span,
                ),
            },
            Intrinsic::Exists => match place(s, args[0]) {
                Err(error) => Err(error),
                Ok((s1, table, key)) => super::read_from(
                    s1,
                    Shape::Bool,
                    0x41,
                    table.index,
                    key,
                    span,
                ),
            },
            Intrinsic::Binary(opcode) => match expr::expression(
                s,
                args[0],
                expr::left_hint(s, opcode, args[1], expected),
            ) {
                Err(error) => Err(error),
                Ok((s1, left)) => match expr::expression(
                    s1,
                    args[1],
                    Some(expr::right_type(opcode, s1.registers[left as int])),
                ) {
                    Err(error) => Err(error),
                    Ok((s2, right)) => if 0x30 <= opcode <= 0x32 && !expr::integer(
                        s2.registers[left as int],
                    ) {
                        Err(
                            error::fault(
                                span,
                                "bitwise intrinsics require integers; use bool_and/or/xor for booleans",
                            ),
                        )
                    } else {
                        expr::binary(s2, opcode, left, right, span)
                    },
                },
            },
            _ => match expr::expression(s, args[0], operand_type(op, expected)) {
                Err(error) => Err(error),
                Ok((s1, source)) => applied(s1, span, name, op, source, args),
            },
        }
    }
}

/// The type to translate the first operand for.
pub open spec fn operand_type(op: Intrinsic, expected: Option<Shape>) -> Option<Shape> {
    match op {
        Intrinsic::Copy | Intrinsic::Concat | Intrinsic::BitNot => expected,
        Intrinsic::Negate | Intrinsic::ToU64 => Some(Shape::I64),
        Intrinsic::ToI64 => Some(Shape::U64),
        Intrinsic::BoolNot => Some(Shape::Bool),
        _ => None,
    }
}

/// The opcode and the result of an operation on one operand of type `ty`.
pub open spec fn unary(op: Intrinsic, ty: Shape) -> Option<(u8, Shape)> {
    match (op, ty) {
        (Intrinsic::Copy, _) => Some((0x03u8, ty)),
        (Intrinsic::Negate, Shape::I64) => Some((0x15u8, Shape::I64)),
        (Intrinsic::ToI64, Shape::U64) => Some((0x16u8, Shape::I64)),
        (Intrinsic::ToU64, Shape::I64) => Some((0x17u8, Shape::U64)),
        (Intrinsic::BoolNot, Shape::Bool) => Some((0x2bu8, Shape::Bool)),
        (Intrinsic::BitNot, Shape::I64) => Some((0x33u8, Shape::I64)),
        (Intrinsic::BitNot, Shape::U64) => Some((0x33u8, Shape::U64)),
        (Intrinsic::RowsLen, Shape::Rows(..)) => Some((0x49u8, Shape::U64)),
        (Intrinsic::ByteLen, Shape::Bytes(_)) => Some((0x50u8, Shape::U64)),
        (Intrinsic::ByteLen, Shape::String(_)) => Some((0x50u8, Shape::U64)),
        (Intrinsic::Utf8Bytes, Shape::String(n)) => Some((0x53u8, Shape::Bytes(n))),
        (Intrinsic::ParseUtf8, Shape::Bytes(n)) => Some((0x54u8, Shape::String(n))),
        (Intrinsic::Sha256, Shape::Bytes(_)) => Some((0x55u8, Shape::Bytes(32))),
        _ => None,
    }
}

/// The bound of two values one after the other, within the largest value.
pub open spec fn joined(a: u32, b: u32) -> u32 {
    if a + b <= VALUE_LIMIT - 4 {
        (a + b) as u32
    } else {
        (VALUE_LIMIT - 4) as u32
    }
}

/// An operation on a translated first operand.
pub open spec fn applied(
    s: State,
    span: Span,
    name: Seq<char>,
    op: Intrinsic,
    source: u16,
    args: Seq<Expr>,
) -> Valued
    decreases args, args.len(),
{
    let ty = s.registers[source as int];
    if args.len() != arity(op) {
        arbitrary()
    } else if op == Intrinsic::Field {
        match immediate_of(args[1], 255) {
            Err(error) => Err(error),
            Ok(index) => expr::field_of(s, source, index as int, span),
        }
    } else {
        match (op, ty) {
            (Intrinsic::RowsKey, Shape::Rows(key, _, _)) => match expr::expression(
                s,
                args[1],
                Some(Shape::U64),
            ) {
                Err(error) => Err(error),
                Ok((s1, row)) => super::produced(s1, *key, 0x4a, seq![source, row], span),
            },
            (Intrinsic::RowsValue, Shape::Rows(_, value, _)) => match expr::expression(
                s,
                args[1],
                Some(Shape::U64),
            ) {
                Err(error) => Err(error),
                Ok((s1, row)) => super::produced(s1, *value, 0x4b, seq![source, row], span),
            },
            (Intrinsic::Concat, Shape::Bytes(a)) => match expr::expression(s, args[1], Some(ty)) {
                Err(error) => Err(error),
                Ok((s1, right)) => super::produced(
                    s1,
                    Shape::Bytes(joined(a, bound_of(s1.registers[right as int]))),
                    0x51,
                    seq![source, right],
                    span,
                ),
            },
            (Intrinsic::Concat, Shape::String(a)) => match expr::expression(
                s,
                args[1],
                Some(ty),
            ) {
                Err(error) => Err(error),
                Ok((s1, right)) => super::produced(
                    s1,
                    Shape::String(joined(a, bound_of(s1.registers[right as int]))),
                    0x51,
                    seq![source, right],
                    span,
                ),
            },
            (Intrinsic::SliceBytes, Shape::Bytes(n)) => match expr::expression(
                s,
                args[1],
                Some(Shape::U64),
            ) {
                Err(error) => Err(error),
                Ok((s1, start)) => match expr::expression(s1, args[2], Some(Shape::U64)) {
                    Err(error) => Err(error),
                    Ok((s2, length)) => super::produced(
                        s2,
                        Shape::Bytes(n),
                        0x52,
                        seq![source, start, length],
                        span,
                    ),
                },
            },
            _ => match unary(op, ty) {
                Some((opcode, result)) => super::produced(s, result, opcode, seq![source], span),
                None => Err(Fault { span, reason: Reason::Operand { operation: name, found: ty } }),
            },
        }
    }
}

/// The bound of a byte string or text.
pub open spec fn bound_of(ty: Shape) -> u32 {
    match ty {
        Shape::Bytes(n) => n,
        Shape::String(n) => n,
        _ => 0,
    }
}

/// Whether an expression is the name `unbounded`.
pub open spec fn unbounded(e: Expr) -> bool {
    expr::name_of(e) == Ok::<Seq<char>, Fault>("unbounded"@)
}

/// An endpoint of a scan: none, or a key of the table, which the scan may take
/// in.
pub open spec fn endpoint(s: State, e: Expr, included: bool, key: Shape) -> Valued
    decreases e, 3int,
{
    if unbounded(e) {
        if included {
            Err(error::fault(e.span, "unbounded endpoints cannot be inclusive"))
        } else {
            Ok((s, 0xffffu16))
        }
    } else {
        expr::expression(s, e, Some(key))
    }
}

/// The instruction of a scan.
pub open spec fn scan_code(
    result: u16,
    table: u16,
    lower: u16,
    upper: u16,
    flags: u64,
    rows: u64,
    limit: u64,
) -> Code {
    Code {
        opcode: 0x48,
        operands: super::words(seq![result, table, lower, upper]) + seq![flags as u8, 0u8]
            + bytes::le32(rows as u32) + bytes::le64(limit),
        table: Some((2, table)),
    }
}

/// The result register and the instruction of a scan.
pub open spec fn scan_into(
    s: State,
    span: Span,
    table: TableShape,
    lower: u16,
    upper: u16,
    flags: u64,
    rows: u64,
    limit: u64,
) -> Valued {
    match super::with_register(
        s,
        Shape::Rows(Box::new(table.key), Box::new(table.value), rows as u32),
        span,
    ) {
        Err(error) => Err(error),
        Ok((s1, result)) => match super::with_instruction(
            s1,
            scan_code(result, table.index, lower, upper, flags, rows, limit),
            span,
        ) {
            Err(error) => Err(error),
            Ok(s2) => Ok((s2, result)),
        },
    }
}

/// A bounded scan.
pub open spec fn scanned(s: State, span: Span, args: Seq<Expr>) -> Valued
    decreases args, args.len(),
{
    if args.len() != 6 {
        arbitrary()
    } else {
        match table_of(s, args[0]) {
            Err(error) => Err(error),
            Ok(table) => match immediate_of(args[3], 3) {
                Err(error) => Err(error),
                Ok(flags) => match immediate_of(args[4], 65535) {
                    Err(error) => Err(error),
                    Ok(rows) => match immediate_of(args[5], 67108864) {
                        Err(error) => Err(error),
                        Ok(limit) => match endpoint(
                            s,
                            args[1],
                            flags % 2 == 1,
                            table.key,
                        ) {
                            Err(error) => Err(error),
                            Ok((s1, lower)) => match endpoint(
                                s1,
                                args[2],
                                flags / 2 == 1,
                                table.key,
                            ) {
                                Err(error) => Err(error),
                                Ok((s2, upper)) => scan_into(
                                    s2,
                                    span,
                                    table,
                                    lower,
                                    upper,
                                    flags,
                                    rows,
                                    limit,
                                ),
                            },
                        },
                    },
                },
            },
        }
    }
}

/// Translate a call in an expression.
pub fn compile_call(
    compiler: &mut Compiler,
    span: Span,
    function: &Expr,
    args: &Vec<Expr>,
    expected: Option<&Type>,
) -> (register: Result<u16, CompileError>)
    requires
        old(compiler)@.wf(),
    ensures
        match register {
            Ok(r) => called(old(compiler)@, span, *function, args@, super::wanted(expected))
                == Ok::<(State, u16), Fault>((final(compiler)@, r)),
            Err(error) => called(
                old(compiler)@,
                span,
                *function,
                args@,
                super::wanted(expected),
            ) == Err::<(State, u16), Fault>(error@),
        },
        register matches Ok(r) ==> final(compiler)@.wf() && r < final(compiler)@.registers.len()
            && super::grows_in_scope(old(compiler)@, final(compiler)@),
    decreases args@, args@.len() + 2,
{
    let name = path_name(function)?;
    if same_text(name.as_str(), "__capture") && args.len() == 1 {
        let name = path_name(&args[0])?;
        proof {
            super::lemma_find(compiler@.captures, name@);
        }
        return match compiler.capture(name.as_str()) {
            Some(register) => Ok(register),
            None => Err(CompileError::rule(span, "unknown capture")),
        };
    }
    if same_text(name.as_str(), "tuple") {
        let fields = compile_list(compiler, args, expected)?;
        return tuple_instruction(compiler, fields, span);
    }
    let op = match find_intrinsic(name.as_str()) {
        Some(op) => op,
        None => {
            return Err(
                CompileError::rule(
                    span,
                    "unknown VM operation; Rust function calls are not allowed",
                ),
            );
        },
    };
    if args.len() != operand_count(op) {
        return Err(
            CompileError {
                span,
                problem: Problem::Arity { operation: name.clone(), operands: operand_count(op) },
            },
        );
    }
    compile_operation(compiler, span, name, op, args, expected)
}

/// Translate a named operation.
fn compile_operation(
    compiler: &mut Compiler,
    span: Span,
    name: &String,
    op: Intrinsic,
    args: &Vec<Expr>,
    expected: Option<&Type>,
) -> (register: Result<u16, CompileError>)
    requires
        old(compiler)@.wf(),
        args@.len() == arity(op),
    ensures
        match register {
            Ok(r) => operation(old(compiler)@, span, name@, op, args@, super::wanted(expected))
                == Ok::<(State, u16), Fault>((final(compiler)@, r)),
            Err(error) => operation(
                old(compiler)@,
                span,
                name@,
                op,
                args@,
                super::wanted(expected),
            ) == Err::<(State, u16), Fault>(error@),
        },
        register matches Ok(r) ==> final(compiler)@.wf() && r < final(compiler)@.registers.len()
            && super::grows_in_scope(old(compiler)@, final(compiler)@),
    decreases args@, args@.len() + 1,
{
    assert(decreases_to!(args@ => args@[0]));
    match op {
        Intrinsic::Scan => scan(compiler, span, args),
        Intrinsic::Load => {
            let (table, key) = address(compiler, &args[0])?;
            compiler.read_table(table.value, 0x40, table.index, key, span)
        },
        Intrinsic::Exists => {
            let (table, key) = address(compiler, &args[0])?;
            compiler.read_table(Type::Bool, 0x41, table.index, key, span)
        },
        Intrinsic::Binary(opcode) => {
            assert(decreases_to!(args@ => args@[1]));
            let ty = operand_hint(compiler, opcode, &args[1], expected);
            let left: u16 = compile_expr(compiler, &args[0], ty.as_ref())?;
            let wanted_right = if opcode == 0x34 || opcode == 0x35 {
                Type::U64
            } else {
                compiler.ty(left).duplicate()
            };
            let right: u16 = compile_expr(compiler, &args[1], Some(&wanted_right))?;
            if 0x30 <= opcode && opcode <= 0x32 && !compiler.ty(left).is_integer() {
                return Err(
                    CompileError::rule(
                        span,
                        "bitwise intrinsics require integers; use bool_and/or/xor for booleans",
                    ),
                );
            }
            binary_instruction(compiler, opcode, left, right, span)
        },
        _ => {
            let source: u16 = match op {
                Intrinsic::Copy => compile_expr(compiler, &args[0], expected)?,
                Intrinsic::Concat => compile_expr(compiler, &args[0], expected)?,
                Intrinsic::BitNot => compile_expr(compiler, &args[0], expected)?,
                Intrinsic::Negate => compile_expr(compiler, &args[0], Some(&Type::I64))?,
                Intrinsic::ToU64 => compile_expr(compiler, &args[0], Some(&Type::I64))?,
                Intrinsic::ToI64 => compile_expr(compiler, &args[0], Some(&Type::U64))?,
                Intrinsic::BoolNot => compile_expr(compiler, &args[0], Some(&Type::Bool))?,
                _ => compile_expr(compiler, &args[0], None)?,
            };
            compile_applied(compiler, span, name, op, source, args)
        },
    }
}

/// Translate an operation on a translated first operand.
#[verifier::rlimit(40)]
fn compile_applied(
    compiler: &mut Compiler,
    span: Span,
    name: &String,
    op: Intrinsic,
    source: u16,
    args: &Vec<Expr>,
) -> (register: Result<u16, CompileError>)
    requires
        old(compiler)@.wf(),
        args@.len() == arity(op),
        source < old(compiler)@.registers.len(),
    ensures
        match register {
            Ok(r) => applied(old(compiler)@, span, name@, op, source, args@) == Ok::<
                (State, u16),
                Fault,
            >((final(compiler)@, r)),
            Err(error) => applied(old(compiler)@, span, name@, op, source, args@) == Err::<
                (State, u16),
                Fault,
            >(error@),
        },
        register matches Ok(r) ==> final(compiler)@.wf() && r < final(compiler)@.registers.len()
            && super::grows_in_scope(old(compiler)@, final(compiler)@),
    decreases args@, args@.len(),
{
    let ty = compiler.ty(source).duplicate();
    match (op, &ty) {
        (Intrinsic::Field, _) => {
            let index: u64 = immediate(&args[1], 255)?;
            field_instruction(compiler, source, index as usize, span)
        },
        (Intrinsic::RowsKey, Type::Rows(key, _, _)) => {
            assert(decreases_to!(args@ => args@[1]));
            let row: u16 = compile_expr(compiler, &args[1], Some(&Type::U64))?;
            compiler.produce(key.duplicate(), 0x4a, super::two(source, row), span)
        },
        (Intrinsic::RowsValue, Type::Rows(_, value, _)) => {
            assert(decreases_to!(args@ => args@[1]));
            let row: u16 = compile_expr(compiler, &args[1], Some(&Type::U64))?;
            compiler.produce(value.duplicate(), 0x4b, super::two(source, row), span)
        },
        (Intrinsic::Concat, Type::Bytes(a)) => {
            assert(decreases_to!(args@ => args@[1]));
            let right: u16 = compile_expr(compiler, &args[1], Some(&ty))?;
            let bound: u32 = join_bounds(*a, bound(compiler.ty(right)));
            compiler.produce(Type::Bytes(bound), 0x51, super::two(source, right), span)
        },
        (Intrinsic::Concat, Type::String(a)) => {
            assert(decreases_to!(args@ => args@[1]));
            let right: u16 = compile_expr(compiler, &args[1], Some(&ty))?;
            let bound: u32 = join_bounds(*a, bound(compiler.ty(right)));
            compiler.produce(Type::String(bound), 0x51, super::two(source, right), span)
        },
        (Intrinsic::SliceBytes, Type::Bytes(n)) => {
            assert(decreases_to!(args@ => args@[1]));
            assert(decreases_to!(args@ => args@[2]));
            let start: u16 = compile_expr(compiler, &args[1], Some(&Type::U64))?;
            let length: u16 = compile_expr(compiler, &args[2], Some(&Type::U64))?;
            compiler.produce(Type::Bytes(*n), 0x52, super::three(source, start, length), span)
        },
        (Intrinsic::Copy, _) => compiler.produce(
            ty.duplicate(),
            0x03,
            super::one(source),
            span,
        ),
        (Intrinsic::Negate, Type::I64) => compiler.produce(
            Type::I64,
            0x15,
            super::one(source),
            span,
        ),
        (Intrinsic::ToI64, Type::U64) => compiler.produce(
            Type::I64,
            0x16,
            super::one(source),
            span,
        ),
        (Intrinsic::ToU64, Type::I64) => compiler.produce(
            Type::U64,
            0x17,
            super::one(source),
            span,
        ),
        (Intrinsic::BoolNot, Type::Bool) => compiler.produce(
            Type::Bool,
            0x2b,
            super::one(source),
            span,
        ),
        (Intrinsic::BitNot, Type::I64) => compiler.produce(
            Type::I64,
            0x33,
            super::one(source),
            span,
        ),
        (Intrinsic::BitNot, Type::U64) => compiler.produce(
            Type::U64,
            0x33,
            super::one(source),
            span,
        ),
        (Intrinsic::RowsLen, Type::Rows(..)) => compiler.produce(
            Type::U64,
            0x49,
            super::one(source),
            span,
        ),
        (Intrinsic::ByteLen, Type::Bytes(_)) => compiler.produce(
            Type::U64,
            0x50,
            super::one(source),
            span,
        ),
        (Intrinsic::ByteLen, Type::String(_)) => compiler.produce(
            Type::U64,
            0x50,
            super::one(source),
            span,
        ),
        (Intrinsic::Utf8Bytes, Type::String(n)) => compiler.produce(
            Type::Bytes(*n),
            0x53,
            super::one(source),
            span,
        ),
        (Intrinsic::ParseUtf8, Type::Bytes(n)) => compiler.produce(
            Type::String(*n),
            0x54,
            super::one(source),
            span,
        ),
        (Intrinsic::Sha256, Type::Bytes(_)) => compiler.produce(
            Type::Bytes(32),
            0x55,
            super::one(source),
            span,
        ),
        _ => Err(
            CompileError {
                span,
                problem: Problem::Operand { operation: name.clone(), found: ty.duplicate() },
            },
        ),
    }
}

/// The bound of a byte string or text.
fn bound(ty: &Type) -> (n: u32)
    ensures
        n == bound_of(ty@),
{
    match ty {
        Type::Bytes(n) => *n,
        Type::String(n) => *n,
        _ => 0,
    }
}

/// The bound of two values one after the other.
fn join_bounds(a: u32, b: u32) -> (n: u32)
    ensures
        n == joined(a, b),
{
    let sum: u64 = a as u64 + b as u64;
    if sum <= VALUE_LIMIT - 4 {
        sum as u32
    } else {
        (VALUE_LIMIT - 4) as u32
    }
}

/// Translate an endpoint of a scan.
fn compile_endpoint(compiler: &mut Compiler, e: &Expr, included: bool, key: &Type) -> (register:
    Result<u16, CompileError>)
    requires
        old(compiler)@.wf(),
    ensures
        match register {
            Ok(r) => endpoint(old(compiler)@, *e, included, key@) == Ok::<(State, u16), Fault>(
                (final(compiler)@, r),
            ),
            Err(error) => endpoint(old(compiler)@, *e, included, key@) == Err::<
                (State, u16),
                Fault,
            >(error@),
        },
        register is Ok ==> final(compiler)@.wf() && super::grows_in_scope(
            old(compiler)@,
            final(compiler)@,
        ),
    decreases e, 3int,
{
    if let ExprKind::Name(name) = &e.kind {
        if same_text(name.as_str(), "unbounded") {
            if included {
                return Err(CompileError::rule(e.span, "unbounded endpoints cannot be inclusive"));
            }
            return Ok(0xffff);
        }
    }
    compile_expr(compiler, e, Some(key))
}

/// Translate a bounded scan.
fn scan(compiler: &mut Compiler, span: Span, args: &Vec<Expr>) -> (register: Result<
    u16,
    CompileError,
>)
    requires
        old(compiler)@.wf(),
        args@.len() == 6,
    ensures
        match register {
            Ok(r) => scanned(old(compiler)@, span, args@) == Ok::<(State, u16), Fault>(
                (final(compiler)@, r),
            ),
            Err(error) => scanned(old(compiler)@, span, args@) == Err::<(State, u16), Fault>(
                error@,
            ),
        },
        register matches Ok(r) ==> final(compiler)@.wf() && r < final(compiler)@.registers.len()
            && super::grows_in_scope(old(compiler)@, final(compiler)@),
    decreases args@, args@.len(),
{
    let table = table_info(compiler, &args[0])?;
    let flags: u64 = immediate(&args[3], 3)?;
    let rows: u64 = immediate(&args[4], 65535)?;
    let limit: u64 = immediate(&args[5], 67108864)?;
    assert(decreases_to!(args@ => args@[1]));
    assert(decreases_to!(args@ => args@[2]));
    let lower: u16 = compile_endpoint(compiler, &args[1], flags % 2 == 1, &table.key)?;
    let upper: u16 = compile_endpoint(compiler, &args[2], flags / 2 == 1, &table.key)?;
    finish_scan(compiler, span, table, lower, upper, flags, rows, limit)
}

/// Add the result register and the instruction of a scan.
fn finish_scan(
    compiler: &mut Compiler,
    span: Span,
    table: TableInfo,
    lower: u16,
    upper: u16,
    flags: u64,
    rows: u64,
    limit: u64,
) -> (register: Result<u16, CompileError>)
    requires
        old(compiler)@.wf(),
        table.index < old(compiler)@.tables.len(),
        flags <= 3,
        rows <= 65535,
    ensures
        match register {
            Ok(r) => scan_into(
                old(compiler)@,
                span,
                table@,
                lower,
                upper,
                flags,
                rows,
                limit,
            ) == Ok::<(State, u16), Fault>((final(compiler)@, r)),
            Err(error) => scan_into(
                old(compiler)@,
                span,
                table@,
                lower,
                upper,
                flags,
                rows,
                limit,
            ) == Err::<(State, u16), Fault>(error@),
        },
        register matches Ok(r) ==> final(compiler)@.wf() && r < final(compiler)@.registers.len()
            && super::grows_in_scope(old(compiler)@, final(compiler)@),
{
    let ty = Type::Rows(
        Box::new(table.key.duplicate()),
        Box::new(table.value.duplicate()),
        rows as u32,
    );
    let result: u16 = compiler.register(ty, span)?;
    let mut list: Vec<u16> = super::three(result, table.index, lower);
    list.push(upper);
    assert(list@ =~= seq![result, table.index, lower, upper]);
    proof {
        super::lemma_words(list@);
    }
    let mut operands = super::operand_bytes(&list);
    operands.push(flags as u8);
    operands.push(0);
    push_u32(&mut operands, rows as u32);
    push_u64(&mut operands, limit);
    assert(operands@ =~= scan_code(
        result,
        table.index,
        lower,
        upper,
        flags,
        rows,
        limit,
    ).operands);
    compiler.emit(0x48, operands, Some((2, table.index)), span)?;
    Ok(result)
}

} // verus!
