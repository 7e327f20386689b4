//! What version-1 instructions do, apart from how programs are translated to
//! them.
//!
//! Values are mathematical. That a value keeps the bound of its byte string or
//! text, and the resource limits, are left out.

use super::bytecode::Code;
use super::types::Shape;
use crate::bytes;
use crate::external;
use vstd::prelude::*;
use vstd::utf8::*;

verus! {

// ---- Values --------------------------------------------------------------

/// A value of the transaction language.
pub enum Value {
    Unit,
    Bool(bool),
    I64(int),
    U64(int),
    Bytes(Seq<u8>),
    /// The UTF-8 bytes of a text.
    Text(Seq<u8>),
    Tuple(Seq<Value>),
    Rows(Seq<(Value, Value)>),
}

/// Why a transaction is aborted.
pub enum Stop {
    /// A number that its type does not hold, a division by zero, or a shift by
    /// too many bits.
    Arithmetic,
    /// An index or a part that lies outside.
    Outside,
    /// Bytes that are no text.
    Text,
    /// A row that is not there.
    Missing,
    /// A row that is there already.
    Present,
    /// The code of `require` or `abort`.
    User(u32),
    /// Operands that the instruction does not take.
    Malformed,
    /// A limit of a scan.
    Limit,
}

/// Whether a value is one of a type, whatever the bounds of the type.
#[verifier::opaque]
pub open spec fn has_type(v: Value, ty: Shape) -> bool
    decreases ty,
{
    match (v, ty) {
        (Value::Unit, Shape::Unit) => true,
        (Value::Bool(_), Shape::Bool) => true,
        (Value::I64(n), Shape::I64) => i64::MIN <= n <= i64::MAX,
        (Value::U64(n), Shape::U64) => 0 <= n <= u64::MAX,
        (Value::Bytes(_), Shape::Bytes(_)) => true,
        (Value::Text(_), Shape::String(_)) => true,
        (Value::Tuple(fields), Shape::Tuple(types)) => fields.len() == types.len() && forall|i: int|
            0 <= i < types.len() ==> has_type(fields[i], #[trigger] types[i]),
        (Value::Rows(rows), Shape::Rows(key, value, _)) => forall|i: int|
            0 <= i < rows.len() ==> has_type((#[trigger] rows[i]).0, *key) && has_type(
                rows[i].1,
                *value,
            ),
        _ => false,
    }
}

// ---- Operations ----------------------------------------------------------

/// An operation on values.
pub enum Operation {
    Copy,
    Add,
    Subtract,
    Multiply,
    Divide,
    Remainder,
    Negate,
    ToI64,
    ToU64,
    Equal,
    Less,
    LessEqual,
    Greater,
    GreaterEqual,
    BoolAnd,
    BoolOr,
    BoolXor,
    BoolNot,
    BitAnd,
    BitOr,
    BitXor,
    BitNot,
    ShiftLeft,
    ShiftRight,
    RowsLen,
    RowsKey,
    RowsValue,
    ByteLen,
    Concat,
    Slice,
    TextBytes,
    ParseText,
    Sha256,
}

/// How many values an operation takes.
pub open spec fn operand_count(op: Operation) -> nat {
    match op {
        Operation::Copy | Operation::Negate | Operation::ToI64 | Operation::ToU64
        | Operation::BoolNot | Operation::BitNot | Operation::RowsLen | Operation::ByteLen
        | Operation::TextBytes | Operation::ParseText | Operation::Sha256 => 1,
        Operation::Slice => 3,
        _ => 2,
    }
}

/// The operation of an opcode.
pub open spec fn operation(opcode: u8) -> Option<Operation> {
    match opcode {
        0x03 => Some(Operation::Copy),
        0x10 => Some(Operation::Add),
        0x11 => Some(Operation::Subtract),
        0x12 => Some(Operation::Multiply),
        0x13 => Some(Operation::Divide),
        0x14 => Some(Operation::Remainder),
        0x15 => Some(Operation::Negate),
        0x16 => Some(Operation::ToI64),
        0x17 => Some(Operation::ToU64),
        0x20 => Some(Operation::Equal),
        0x21 => Some(Operation::Less),
        0x22 => Some(Operation::LessEqual),
        0x23 => Some(Operation::Greater),
        0x24 => Some(Operation::GreaterEqual),
        0x28 => Some(Operation::BoolAnd),
        0x29 => Some(Operation::BoolOr),
        0x2a => Some(Operation::BoolXor),
        0x2b => Some(Operation::BoolNot),
        0x30 => Some(Operation::BitAnd),
        0x31 => Some(Operation::BitOr),
        0x32 => Some(Operation::BitXor),
        0x33 => Some(Operation::BitNot),
        0x34 => Some(Operation::ShiftLeft),
        0x35 => Some(Operation::ShiftRight),
        0x49 => Some(Operation::RowsLen),
        0x4a => Some(Operation::RowsKey),
        0x4b => Some(Operation::RowsValue),
        0x50 => Some(Operation::ByteLen),
        0x51 => Some(Operation::Concat),
        0x52 => Some(Operation::Slice),
        0x53 => Some(Operation::TextBytes),
        0x54 => Some(Operation::ParseText),
        0x55 => Some(Operation::Sha256),
        _ => None,
    }
}

/// A signed number, where it is one.
pub open spec fn signed(n: int) -> Result<Value, Stop> {
    if i64::MIN <= n <= i64::MAX {
        Ok(Value::I64(n))
    } else {
        Err(Stop::Arithmetic)
    }
}

/// An unsigned number, where it is one.
pub open spec fn unsigned(n: int) -> Result<Value, Stop> {
    if 0 <= n <= u64::MAX {
        Ok(Value::U64(n))
    } else {
        Err(Stop::Arithmetic)
    }
}

/// The quotient of two numbers, towards zero.
pub open spec fn quotient(a: int, b: int) -> int {
    if a >= 0 {
        a / b
    } else {
        -((-a) / b)
    }
}

/// What `a op b` is for two numbers.
pub open spec fn arithmetic(op: Operation, a: int, b: int) -> Option<int> {
    match op {
        Operation::Add => Some(a + b),
        Operation::Subtract => Some(a - b),
        Operation::Multiply => Some(a * b),
        Operation::Divide => if b == 0 {
            None
        } else {
            Some(quotient(a, b))
        },
        Operation::Remainder => if b == 0 {
            None
        } else {
            Some(a - b * quotient(a, b))
        },
        _ => None,
    }
}

/// What `a op b` is for two signed numbers, bit by bit.
pub open spec fn signed_bits(op: Operation, a: i64, b: i64) -> i64 {
    match op {
        Operation::BitAnd => a & b,
        Operation::BitOr => a | b,
        _ => a ^ b,
    }
}

/// What `a op b` is for two unsigned numbers, bit by bit.
pub open spec fn unsigned_bits(op: Operation, a: u64, b: u64) -> u64 {
    match op {
        Operation::BitAnd => a & b,
        Operation::BitOr => a | b,
        _ => a ^ b,
    }
}

/// Whether `a op b` holds for two numbers.
pub open spec fn ordered(op: Operation, a: int, b: int) -> bool {
    match op {
        Operation::Less => a < b,
        Operation::LessEqual => a <= b,
        Operation::Greater => a > b,
        _ => a >= b,
    }
}

/// What is left open here: the order of values that are no numbers, what
/// deleting a row that is not there gives, and what a scan of some rows gives.
pub struct Host {
    pub order: spec_fn(Operation, Value, Value) -> bool,
    pub deletes_missing: Option<Stop>,
    pub scan: spec_fn(Map<(u16, Value), Value>, ScanRequest) -> Result<Value, Stop>,
}

/// What a scan asks for.
pub struct ScanRequest {
    pub table: u16,
    pub lower: Option<Value>,
    pub upper: Option<Value>,
    pub lower_included: bool,
    pub upper_included: bool,
    pub rows: u32,
    pub bytes: u64,
}

/// What an operation gives on some values.
#[verifier::opaque]
pub open spec fn perform(host: Host, op: Operation, args: Seq<Value>) -> Result<Value, Stop> {
    if args.len() != operand_count(op) {
        Err(Stop::Malformed)
    } else {
        match op {
            Operation::Copy => Ok(args[0]),
            Operation::Add | Operation::Subtract | Operation::Multiply | Operation::Divide
            | Operation::Remainder => match (args[0], args[1]) {
                (Value::I64(a), Value::I64(b)) => match arithmetic(op, a, b) {
                    Some(n) => signed(n),
                    None => Err(Stop::Arithmetic),
                },
                (Value::U64(a), Value::U64(b)) => match arithmetic(op, a, b) {
                    Some(n) => unsigned(n),
                    None => Err(Stop::Arithmetic),
                },
                _ => Err(Stop::Malformed),
            },
            Operation::Negate => match args[0] {
                Value::I64(a) => signed(-a),
                _ => Err(Stop::Malformed),
            },
            Operation::ToI64 => match args[0] {
                Value::U64(a) => signed(a),
                _ => Err(Stop::Malformed),
            },
            Operation::ToU64 => match args[0] {
                Value::I64(a) => unsigned(a),
                _ => Err(Stop::Malformed),
            },
            Operation::Equal => Ok(Value::Bool(args[0] == args[1])),
            Operation::Less | Operation::LessEqual | Operation::Greater
            | Operation::GreaterEqual => match (args[0], args[1]) {
                (Value::I64(a), Value::I64(b)) => Ok(Value::Bool(ordered(op, a, b))),
                (Value::U64(a), Value::U64(b)) => Ok(Value::Bool(ordered(op, a, b))),
                _ => Ok(Value::Bool((host.order)(op, args[0], args[1]))),
            },
            Operation::BoolAnd => match (args[0], args[1]) {
                (Value::Bool(a), Value::Bool(b)) => Ok(Value::Bool(a && b)),
                _ => Err(Stop::Malformed),
            },
            Operation::BoolOr => match (args[0], args[1]) {
                (Value::Bool(a), Value::Bool(b)) => Ok(Value::Bool(a || b)),
                _ => Err(Stop::Malformed),
            },
            Operation::BoolXor => match (args[0], args[1]) {
                (Value::Bool(a), Value::Bool(b)) => Ok(Value::Bool(a != b)),
                _ => Err(Stop::Malformed),
            },
            Operation::BoolNot => match args[0] {
                Value::Bool(a) => Ok(Value::Bool(!a)),
                _ => Err(Stop::Malformed),
            },
            Operation::BitAnd | Operation::BitOr | Operation::BitXor => match (args[0], args[1]) {
                (Value::I64(a), Value::I64(b)) => Ok(
                    Value::I64(signed_bits(op, a as i64, b as i64) as int),
                ),
                (Value::U64(a), Value::U64(b)) => Ok(
                    Value::U64(unsigned_bits(op, a as u64, b as u64) as int),
                ),
                _ => Err(Stop::Malformed),
            },
            Operation::BitNot => match args[0] {
                Value::I64(a) => signed(-1 - a),
                Value::U64(a) => unsigned(u64::MAX - a),
                _ => Err(Stop::Malformed),
            },
            Operation::ShiftLeft => match (args[0], args[1]) {
                (Value::I64(a), Value::U64(n)) => if n < 64 {
                    Ok(Value::I64(((a as i64) << (n as u64)) as int))
                } else {
                    Err(Stop::Arithmetic)
                },
                (Value::U64(a), Value::U64(n)) => if n < 64 {
                    Ok(Value::U64(((a as u64) << (n as u64)) as int))
                } else {
                    Err(Stop::Arithmetic)
                },
                _ => Err(Stop::Malformed),
            },
            Operation::ShiftRight => match (args[0], args[1]) {
                (Value::I64(a), Value::U64(n)) => if n < 64 {
                    Ok(Value::I64(((a as i64) >> (n as u64)) as int))
                } else {
                    Err(Stop::Arithmetic)
                },
                (Value::U64(a), Value::U64(n)) => if n < 64 {
                    Ok(Value::U64(((a as u64) >> (n as u64)) as int))
                } else {
                    Err(Stop::Arithmetic)
                },
                _ => Err(Stop::Malformed),
            },
            Operation::RowsLen => match args[0] {
                Value::Rows(rows) => unsigned(rows.len() as int),
                _ => Err(Stop::Malformed),
            },
            Operation::RowsKey => match (args[0], args[1]) {
                (Value::Rows(rows), Value::U64(i)) => if 0 <= i < rows.len() {
                    Ok(rows[i].0)
                } else {
                    Err(Stop::Outside)
                },
                _ => Err(Stop::Malformed),
            },
            Operation::RowsValue => match (args[0], args[1]) {
                (Value::Rows(rows), Value::U64(i)) => if 0 <= i < rows.len() {
                    Ok(rows[i].1)
                } else {
                    Err(Stop::Outside)
                },
                _ => Err(Stop::Malformed),
            },
            Operation::ByteLen => match args[0] {
                Value::Bytes(s) => unsigned(s.len() as int),
                Value::Text(s) => unsigned(s.len() as int),
                _ => Err(Stop::Malformed),
            },
            Operation::Concat => match (args[0], args[1]) {
                (Value::Bytes(a), Value::Bytes(b)) => Ok(Value::Bytes(a + b)),
                (Value::Text(a), Value::Text(b)) => Ok(Value::Text(a + b)),
                _ => Err(Stop::Malformed),
            },
            Operation::Slice => match (args[0], args[1], args[2]) {
                (Value::Bytes(s), Value::U64(start), Value::U64(length)) => if 0 <= start && 0
                    <= length && start + length <= s.len() {
                    Ok(Value::Bytes(s.subrange(start, start + length)))
                } else {
                    Err(Stop::Outside)
                },
                _ => Err(Stop::Malformed),
            },
            Operation::TextBytes => match args[0] {
                Value::Text(s) => Ok(Value::Bytes(s)),
                _ => Err(Stop::Malformed),
            },
            Operation::ParseText => match args[0] {
                Value::Bytes(s) => if valid_utf8(s) {
                    Ok(Value::Text(s))
                } else {
                    Err(Stop::Text)
                },
                _ => Err(Stop::Malformed),
            },
            Operation::Sha256 => match args[0] {
                Value::Bytes(s) => Ok(Value::Bytes(external::sha256_of(s))),
                _ => Err(Stop::Malformed),
            },
        }
    }
}

// ---- Running -------------------------------------------------------------

/// A program in memory. Table operands are the places of the declarations.
pub struct Image {
    pub code: Seq<Code>,
    pub constants: Seq<(Shape, Seq<u8>)>,
    pub arguments: Seq<Value>,
    pub host: Host,
}

/// What a run has computed so far. The rows are those that the transaction
/// finds, by the place of their table and their key.
pub struct Memory {
    pub registers: Map<u16, Value>,
    pub rows: Map<(u16, Value), Value>,
}

/// What one instruction does.
pub enum Turn {
    /// Go on with the instruction at a place.
    To(Memory, int),
    Stopped(Stop),
    Returned(Value),
}

/// What a run between two places does.
pub enum Course {
    /// It gets to the second place.
    At(Memory),
    /// It leads past it.
    Past,
    Stopped(Stop),
    Returned(Value, Memory),
}

/// The value of a constant.
pub open spec fn constant(ty: Shape, s: Seq<u8>) -> Value {
    match ty {
        Shape::Bool => Value::Bool(s[0] == 1),
        Shape::I64 => {
            let n = bytes::un64(s) as int;
            Value::I64(
                if n >= 0x8000_0000_0000_0000 {
                    n - 0x1_0000_0000_0000_0000
                } else {
                    n
                },
            )
        },
        Shape::U64 => Value::U64(bytes::un64(s) as int),
        Shape::Bytes(_) => Value::Bytes(s.subrange(4, s.len() as int)),
        Shape::String(_) => Value::Text(s.subrange(4, s.len() as int)),
        _ => Value::Unit,
    }
}

/// The `k`-th 16-bit operand of an instruction.
pub open spec fn word(code: Code, k: int) -> u16 {
    bytes::un16(bytes::part(code.operands, 2 * k, 2))
}

/// The register that the `k`-th operand names.
pub open spec fn read(m: Memory, code: Code, k: int) -> Value {
    m.registers[word(code, k)]
}

/// The registers that `n` operands from the `k`-th on name.
pub open spec fn read_all(m: Memory, code: Code, k: int, n: nat) -> Seq<Value> {
    Seq::new(n, |i: int| read(m, code, k + i))
}

/// The end of a scan that the `k`-th operand names; the last register number
/// stands for none.
pub open spec fn end_of(m: Memory, code: Code, k: int) -> Option<Value> {
    if word(code, k) == 0xffff {
        None
    } else {
        Some(read(m, code, k))
    }
}

/// What a scan instruction asks for.
pub open spec fn scan_request(m: Memory, code: Code) -> ScanRequest {
    ScanRequest {
        table: word(code, 1),
        lower: end_of(m, code, 2),
        upper: end_of(m, code, 3),
        lower_included: code.operands[8] % 2 == 1,
        upper_included: code.operands[8] / 2 == 1,
        rows: bytes::un32(bytes::part(code.operands, 10, 4)),
        bytes: bytes::un64(bytes::part(code.operands, 14, 8)),
    }
}

/// Memory with a value in the register that the first operand names.
pub open spec fn with_result(m: Memory, code: Code, v: Value) -> Memory {
    Memory { registers: m.registers.insert(word(code, 0), v), ..m }
}

/// What the instruction at a place does.
#[verifier::opaque]
pub open spec fn turn(p: Image, m: Memory, at: int) -> Turn {
    let code = p.code[at];
    let next = at + 1;
    match operation(code.opcode) {
        Some(op) => match perform(p.host, op, read_all(m, code, 1, operand_count(op))) {
            Ok(v) => Turn::To(with_result(m, code, v), next),
            Err(stop) => Turn::Stopped(stop),
        },
        None => match code.opcode {
            0x01 => Turn::To(
                with_result(
                    m,
                    code,
                    constant(
                        p.constants[word(code, 1) as int].0,
                        p.constants[word(code, 1) as int].1,
                    ),
                ),
                next,
            ),
            0x02 => Turn::To(with_result(m, code, p.arguments[word(code, 1) as int]), next),
            0x40 => if m.rows.contains_key((word(code, 1), read(m, code, 2))) {
                Turn::To(with_result(m, code, m.rows[(word(code, 1), read(m, code, 2))]), next)
            } else {
                Turn::Stopped(Stop::Missing)
            },
            0x41 => Turn::To(
                with_result(
                    m,
                    code,
                    Value::Bool(m.rows.contains_key((word(code, 1), read(m, code, 2)))),
                ),
                next,
            ),
            0x42 => if m.rows.contains_key((word(code, 0), read(m, code, 1))) {
                Turn::Stopped(Stop::Present)
            } else {
                Turn::To(
                    Memory {
                        rows: m.rows.insert(
                            (word(code, 0), read(m, code, 1)),
                            read(m, code, 2),
                        ),
                        ..m
                    },
                    next,
                )
            },
            0x43 => Turn::To(
                Memory {
                    rows: m.rows.insert((word(code, 0), read(m, code, 1)), read(m, code, 2)),
                    ..m
                },
                next,
            ),
            0x44 => match p.host.deletes_missing {
                Some(stop) if !m.rows.contains_key((word(code, 0), read(m, code, 1))) =>
                    Turn::Stopped(stop),
                _ => Turn::To(
                    Memory { rows: m.rows.remove((word(code, 0), read(m, code, 1))), ..m },
                    next,
                ),
            },
            0x48 => match (p.host.scan)(m.rows, scan_request(m, code)) {
                Ok(v) => Turn::To(with_result(m, code, v), next),
                Err(stop) => Turn::Stopped(stop),
            },
            0x58 => Turn::To(
                with_result(
                    m,
                    code,
                    Value::Tuple(read_all(m, code, 2, word(code, 1) as nat)),
                ),
                next,
            ),
            0x59 => match read(m, code, 1) {
                Value::Tuple(fields) => if word(code, 2) < fields.len() {
                    Turn::To(with_result(m, code, fields[word(code, 2) as int]), next)
                } else {
                    Turn::Stopped(Stop::Malformed)
                },
                _ => Turn::Stopped(Stop::Malformed),
            },
            0x60 => Turn::To(m, bytes::un32(bytes::part(code.operands, 0, 4)) as int),
            0x61 => match read(m, code, 0) {
                Value::Bool(true) => Turn::To(m, next),
                Value::Bool(false) => Turn::To(
                    m,
                    bytes::un32(bytes::part(code.operands, 2, 4)) as int,
                ),
                _ => Turn::Stopped(Stop::Malformed),
            },
            0x62 => match read(m, code, 0) {
                Value::Bool(true) => Turn::To(m, next),
                Value::Bool(false) => Turn::Stopped(
                    Stop::User(bytes::un32(bytes::part(code.operands, 2, 4))),
                ),
                _ => Turn::Stopped(Stop::Malformed),
            },
            0x63 => Turn::Stopped(Stop::User(bytes::un32(bytes::part(code.operands, 0, 4)))),
            0x64 => Turn::Returned(read(m, code, 0)),
            _ => Turn::Stopped(Stop::Malformed),
        },
    }
}

/// A run from the instruction at `at` until it gets to the one at `end`. Jumps
/// lead forward.
#[verifier::opaque]
pub open spec fn run(p: Image, m: Memory, at: int, end: int) -> Course
    decreases end - at,
{
    if at == end {
        Course::At(m)
    } else if !(0 <= at < end) {
        Course::Past
    } else {
        match turn(p, m, at) {
            Turn::To(next, to) => if at < to <= end {
                run(p, next, to, end)
            } else {
                Course::Past
            },
            Turn::Stopped(stop) => Course::Stopped(stop),
            Turn::Returned(v) => Course::Returned(v, m),
        }
    }
}

/// A run through a place is the run to it and the run from it on.
pub proof fn lemma_run_on(p: Image, m: Memory, at: int, middle: int, end: int)
    requires
        0 <= at <= middle <= end,
    ensures
        match run(p, m, at, middle) {
            Course::At(next) => run(p, m, at, end) == run(p, next, middle, end),
            Course::Past => true,
            other => run(p, m, at, end) == other,
        },
    decreases middle - at,
{
    reveal(run);
    if at < middle {
        if let Turn::To(next, to) = turn(p, m, at) {
            if at < to <= middle {
                lemma_run_on(p, next, to, middle, end);
            }
        }
    }
}

} // verus!
