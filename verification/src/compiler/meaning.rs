//! What the expressions and statements of the transaction language mean, apart
//! from how they are translated.

use super::ast::{BinaryOp, Expr, ExprKind, Literal, Member, Suffix, UnaryOp};
use super::machine;
use super::machine::{Host, Operation, ScanRequest, Stop, Value};
use vstd::prelude::*;
use vstd::utf8::*;

verus! {

// ---- Meanings of expressions ---------------------------------------------

/// What an expression finds: the locals and captures by their names, the later
/// ones last, the declared tables, and the rows by the place of their table and
/// their key.
pub struct Env {
    pub locals: Seq<(Seq<char>, Value)>,
    pub captures: Seq<(Seq<char>, Value)>,
    pub tables: Seq<Seq<char>>,
    pub rows: Map<(u16, Value), Value>,
    pub host: Host,
}

/// Whether a name stands for a value: that of its latest entry.
pub open spec fn latest(list: Seq<(Seq<char>, Value)>, name: Seq<char>, v: Value) -> bool {
    exists|i: int|
        0 <= i < list.len() && #[trigger] list[i] == (name, v) && forall|j: int|
            i < j < list.len() ==> (#[trigger] list[j]).0 != name
}

/// Whether an expression is the name of the `i`-th table.
pub open spec fn names_table(env: Env, e: Expr, i: int) -> bool {
    &&& 0 <= i < env.tables.len()
    &&& e.kind matches ExprKind::Name(name) && env.tables[i] == name@
    &&& forall|j: int| i < j < env.tables.len() ==> #[trigger] env.tables[j] != env.tables[i]
}

/// Whether a literal is written for a value. An integer without a suffix may be
/// signed or unsigned: its place decides.
pub open spec fn written_for(l: Literal, v: Value) -> bool {
    match l {
        Literal::Bool(value) => v == Value::Bool(value),
        Literal::Int(Some(n), Suffix::I64) => v == Value::I64(n as int),
        Literal::Int(Some(n), Suffix::U64) => v == Value::U64(n as int),
        Literal::Int(Some(n), _) => v == Value::I64(n as int) || v == Value::U64(n as int),
        Literal::Str(text) => v == Value::Text(encode_utf8(text@)),
        Literal::ByteStr(text) => v == Value::Bytes(text@),
        _ => false,
    }
}

/// What a unary operator gives.
pub open spec fn unary_value(host: Host, op: UnaryOp, a: Value) -> Result<Value, Stop> {
    match (op, a) {
        (UnaryOp::Neg, _) => machine::perform(host, Operation::Negate, seq![a]),
        (_, Value::Bool(_)) => machine::perform(host, Operation::BoolNot, seq![a]),
        _ => machine::perform(host, Operation::BitNot, seq![a]),
    }
}

/// What an operator other than `&&` and `||` gives.
pub open spec fn binary_value(host: Host, op: BinaryOp, a: Value, b: Value) -> Result<Value, Stop> {
    let logical = a is Bool;
    match op {
        BinaryOp::Add => machine::perform(host, Operation::Add, seq![a, b]),
        BinaryOp::Sub => machine::perform(host, Operation::Subtract, seq![a, b]),
        BinaryOp::Mul => machine::perform(host, Operation::Multiply, seq![a, b]),
        BinaryOp::Div => machine::perform(host, Operation::Divide, seq![a, b]),
        BinaryOp::Rem => machine::perform(host, Operation::Remainder, seq![a, b]),
        BinaryOp::Equal => Ok(Value::Bool(a == b)),
        BinaryOp::NotEqual => Ok(Value::Bool(a != b)),
        BinaryOp::Less => machine::perform(host, Operation::Less, seq![a, b]),
        BinaryOp::LessEqual => machine::perform(host, Operation::LessEqual, seq![a, b]),
        BinaryOp::Greater => machine::perform(host, Operation::Greater, seq![a, b]),
        BinaryOp::GreaterEqual => machine::perform(host, Operation::GreaterEqual, seq![a, b]),
        BinaryOp::BitAnd => machine::perform(
            host,
            if logical {
                Operation::BoolAnd
            } else {
                Operation::BitAnd
            },
            seq![a, b],
        ),
        BinaryOp::BitOr => machine::perform(
            host,
            if logical {
                Operation::BoolOr
            } else {
                Operation::BitOr
            },
            seq![a, b],
        ),
        BinaryOp::BitXor => machine::perform(
            host,
            if logical {
                Operation::BoolXor
            } else {
                Operation::BitXor
            },
            seq![a, b],
        ),
        BinaryOp::Shl => machine::perform(host, Operation::ShiftLeft, seq![a, b]),
        BinaryOp::Shr => machine::perform(host, Operation::ShiftRight, seq![a, b]),
        BinaryOp::And | BinaryOp::Or => Err(Stop::Malformed),
    }
}

/// What a named operation does.
pub enum Form {
    Performs(Operation),
    Load,
    Exists,
    Field,
    Scan,
}

/// What a name of an operation stands for.
#[verifier::opaque]
pub open spec fn named(name: Seq<char>) -> Option<Form> {
    if name == "copy"@ {
        Some(Form::Performs(Operation::Copy))
    } else if name == "load"@ {
        Some(Form::Load)
    } else if name == "exists"@ {
        Some(Form::Exists)
    } else if name == "neg_checked"@ {
        Some(Form::Performs(Operation::Negate))
    } else if name == "to_i64_checked"@ {
        Some(Form::Performs(Operation::ToI64))
    } else if name == "to_u64_checked"@ {
        Some(Form::Performs(Operation::ToU64))
    } else if name == "bool_not"@ {
        Some(Form::Performs(Operation::BoolNot))
    } else if name == "bit_not"@ {
        Some(Form::Performs(Operation::BitNot))
    } else if name == "rows_len"@ {
        Some(Form::Performs(Operation::RowsLen))
    } else if name == "byte_len"@ {
        Some(Form::Performs(Operation::ByteLen))
    } else if name == "utf8_bytes"@ {
        Some(Form::Performs(Operation::TextBytes))
    } else if name == "parse_utf8"@ {
        Some(Form::Performs(Operation::ParseText))
    } else if name == "sha256"@ {
        Some(Form::Performs(Operation::Sha256))
    } else if name == "add_checked"@ {
        Some(Form::Performs(Operation::Add))
    } else if name == "sub_checked"@ {
        Some(Form::Performs(Operation::Subtract))
    } else if name == "mul_checked"@ {
        Some(Form::Performs(Operation::Multiply))
    } else if name == "div_checked"@ {
        Some(Form::Performs(Operation::Divide))
    } else if name == "rem_checked"@ {
        Some(Form::Performs(Operation::Remainder))
    } else if name == "eq"@ {
        Some(Form::Performs(Operation::Equal))
    } else if name == "lt"@ {
        Some(Form::Performs(Operation::Less))
    } else if name == "le"@ {
        Some(Form::Performs(Operation::LessEqual))
    } else if name == "gt"@ {
        Some(Form::Performs(Operation::Greater))
    } else if name == "ge"@ {
        Some(Form::Performs(Operation::GreaterEqual))
    } else if name == "bool_and"@ {
        Some(Form::Performs(Operation::BoolAnd))
    } else if name == "bool_or"@ {
        Some(Form::Performs(Operation::BoolOr))
    } else if name == "bool_xor"@ {
        Some(Form::Performs(Operation::BoolXor))
    } else if name == "bit_and"@ {
        Some(Form::Performs(Operation::BitAnd))
    } else if name == "bit_or"@ {
        Some(Form::Performs(Operation::BitOr))
    } else if name == "bit_xor"@ {
        Some(Form::Performs(Operation::BitXor))
    } else if name == "shl_wrap"@ {
        Some(Form::Performs(Operation::ShiftLeft))
    } else if name == "shr"@ {
        Some(Form::Performs(Operation::ShiftRight))
    } else if name == "rows_key"@ {
        Some(Form::Performs(Operation::RowsKey))
    } else if name == "rows_value"@ {
        Some(Form::Performs(Operation::RowsValue))
    } else if name == "concat"@ {
        Some(Form::Performs(Operation::Concat))
    } else if name == "field"@ {
        Some(Form::Field)
    } else if name == "slice_bytes"@ {
        Some(Form::Performs(Operation::Slice))
    } else if name == "scan_bounded"@ {
        Some(Form::Scan)
    } else {
        None
    }
}

/// One field of a tuple.
pub open spec fn field_value(a: Value, index: int) -> Result<Value, Stop> {
    match a {
        Value::Tuple(fields) => if 0 <= index < fields.len() {
            Ok(fields[index])
        } else {
            Err(Stop::Malformed)
        },
        _ => Err(Stop::Malformed),
    }
}

/// What reading a row gives: its value, or whether it is there.
pub open spec fn row_value(env: Env, table: int, key: Value, exists_only: bool) -> Result<
    Value,
    Stop,
> {
    let there = env.rows.contains_key((table as u16, key));
    if exists_only {
        Ok(Value::Bool(there))
    } else if there {
        Ok(env.rows[(table as u16, key)])
    } else {
        Err(Stop::Missing)
    }
}

/// What may come out of a part of a program: a value, or the reason why the
/// transaction is aborted.
pub type Meaning<A> = spec_fn(Result<A, Stop>) -> bool;

/// One outcome alone.
pub open spec fn exactly<A>(r: Result<A, Stop>) -> Meaning<A> {
    |o: Result<A, Stop>| o == r
}

/// One part after another, which is given the value of the first. Where the
/// first part aborts, so does the whole.
pub open spec fn chained<A, B>(first: Meaning<A>, next: spec_fn(A) -> Meaning<B>) -> Meaning<B> {
    |o: Result<B, Stop>|
        exists|a: Result<A, Stop>| #[trigger]
            first(a) && match a {
                Err(stop) => o == Err::<B, Stop>(stop),
                Ok(x) => next(x)(o),
            }
}

/// What an expression means. Operands are evaluated from left to right; `&&` and
/// `||` leave out an operand that does not matter.
#[verifier::opaque]
pub open spec fn meaning_of(env: Env, e: Expr) -> Meaning<Value>
    decreases e, 2int,
{
    match e.kind {
        ExprKind::Paren(inner) => meaning_of(env, *inner),
        ExprKind::Name(name) => |o: Result<Value, Stop>|
            o matches Ok(v) && latest(env.locals, name@, v),
        ExprKind::Literal(l) => |o: Result<Value, Stop>| o matches Ok(v) && written_for(l, v),
        ExprKind::Unary(op, inner) => match (op, inner.kind) {
            (UnaryOp::Neg, ExprKind::Literal(Literal::Int(Some(n), _))) => exactly(
                Ok(Value::I64(-(n as int))),
            ),
            _ => chained(
                meaning_of(env, *inner),
                |x: Value| exactly(unary_value(env.host, op, x)),
            ),
        },
        ExprKind::Binary(op, left, right) => chained(
            meaning_of(env, *left),
            |x: Value|
                if (op == BinaryOp::And && x == Value::Bool(false)) || (op == BinaryOp::Or && x
                    == Value::Bool(true)) {
                    exactly(Ok(x))
                } else if op == BinaryOp::And || op == BinaryOp::Or {
                    meaning_of(env, *right)
                } else {
                    chained(
                        meaning_of(env, *right),
                        |y: Value| exactly(binary_value(env.host, op, x, y)),
                    )
                },
        ),
        ExprKind::Index(..) => row_meaning(env, e, false),
        ExprKind::Tuple(elements) => if elements@.len() == 0 {
            exactly(Ok(Value::Unit))
        } else {
            chained(
                list_meaning(env, elements@, 0),
                |list: Seq<Value>| exactly(Ok(Value::Tuple(list))),
            )
        },
        ExprKind::Field(base, Member::Index(index)) => chained(
            meaning_of(env, *base),
            |x: Value| exactly(field_value(x, index as int)),
        ),
        ExprKind::Call(function, args) => match function.kind {
            ExprKind::Name(name) => call_meaning(env, name@, args@),
            _ => |o: Result<Value, Stop>| false,
        },
        _ => |o: Result<Value, Stop>| false,
    }
}

/// What reading `table[key]` means: its value, or whether it is there.
#[verifier::opaque]
pub open spec fn row_meaning(env: Env, e: Expr, exists_only: bool) -> Meaning<Value>
    decreases e, 1int,
{
    match e.kind {
        ExprKind::Index(table, key) => chained(
            meaning_of(env, *key),
            |x: Value|
                |o: Result<Value, Stop>|
                    exists|i: int| #[trigger]
                        names_table(env, *table, i) && o == row_value(env, i, x, exists_only),
        ),
        _ => |o: Result<Value, Stop>| false,
    }
}

/// What the expressions from the `i`-th on mean.
#[verifier::opaque]
pub open spec fn list_meaning(env: Env, list: Seq<Expr>, i: int) -> Meaning<Seq<Value>>
    decreases list, list.len() - i,
{
    if !(0 <= i < list.len()) {
        exactly(Ok(Seq::empty()))
    } else {
        chained(
            meaning_of(env, list[i]),
            |x: Value|
                chained(
                    list_meaning(env, list, i + 1),
                    |more: Seq<Value>| exactly(Ok(seq![x] + more)),
                ),
        )
    }
}

/// The number that an integer literal is.
pub open spec fn literal_number(e: Expr) -> Option<int> {
    match e.kind {
        ExprKind::Literal(Literal::Int(Some(n), _)) => Some(n as int),
        _ => None,
    }
}

/// What a call means.
#[verifier::opaque]
pub open spec fn call_meaning(env: Env, name: Seq<char>, args: Seq<Expr>) -> Meaning<Value>
    decreases args, args.len() + 1,
{
    let never = |o: Result<Value, Stop>| false;
    if name == "__capture"@ && args.len() == 1 {
        |o: Result<Value, Stop>|
            args[0].kind matches ExprKind::Name(name) && (o matches Ok(v) && latest(
                env.captures,
                name@,
                v,
            ))
    } else if name == "tuple"@ {
        chained(
            list_meaning(env, args, 0),
            |list: Seq<Value>| exactly(Ok(Value::Tuple(list))),
        )
    } else {
        match named(name) {
            None => never,
            Some(Form::Load) => if args.len() == 1 {
                row_meaning(env, args[0], false)
            } else {
                never
            },
            Some(Form::Exists) => if args.len() == 1 {
                row_meaning(env, args[0], true)
            } else {
                never
            },
            Some(Form::Field) => if args.len() == 2 && literal_number(args[1]) is Some {
                chained(
                    meaning_of(env, args[0]),
                    |x: Value| exactly(field_value(x, literal_number(args[1])->0)),
                )
            } else {
                never
            },
            Some(Form::Scan) => scan_meaning(env, args),
            Some(Form::Performs(op)) => chained(
                list_meaning(env, args, 0),
                |list: Seq<Value>| exactly(machine::perform(env.host, op, list)),
            ),
        }
    }
}

/// What an end of a scan means: none, or a key.
#[verifier::opaque]
pub open spec fn end_meaning(env: Env, e: Expr) -> Meaning<Option<Value>>
    decreases e, 3int,
{
    if e.kind matches ExprKind::Name(name) && name@ == "unbounded"@ {
        exactly(Ok(None))
    } else {
        chained(meaning_of(env, e), |x: Value| exactly(Ok(Some(x))))
    }
}

/// What a scan means. The first bit of the flags includes the lower end, the
/// second one the upper end.
#[verifier::opaque]
pub open spec fn scan_meaning(env: Env, args: Seq<Expr>) -> Meaning<Value>
    decreases args, args.len(),
{
    if args.len() == 6 && literal_number(args[3]) is Some && literal_number(args[4]) is Some
        && literal_number(args[5]) is Some {
        let flags = literal_number(args[3])->0;
        chained(
            end_meaning(env, args[1]),
            |lower: Option<Value>|
                chained(
                    end_meaning(env, args[2]),
                    |upper: Option<Value>|
                        |o: Result<Value, Stop>|
                            exists|table: int| #[trigger]
                                names_table(env, args[0], table) && o == (env.host.scan)(
                                    env.rows,
                                    ScanRequest {
                                        table: table as u16,
                                        lower,
                                        upper,
                                        lower_included: flags == 1 || flags == 3,
                                        upper_included: flags == 2 || flags == 3,
                                        rows: literal_number(args[4])->0 as u32,
                                        bytes: literal_number(args[5])->0 as u64,
                                    },
                                ),
                ),
        )
    } else {
        |o: Result<Value, Stop>| false
    }
}

// ---- How meanings are put together ---------------------------------------

pub proof fn lemma_unary_means(env: Env, e: Expr, a: Result<Value, Stop>)
    requires
        e.kind matches ExprKind::Unary(op, inner) && !(op == UnaryOp::Neg && (
        inner.kind matches ExprKind::Literal(Literal::Int(Some(_), _)))) && meaning_of(
            env,
            *inner,
        )(a),
    ensures
        meaning_of(env, e)(
            match a {
                Err(stop) => Err(stop),
                Ok(x) => unary_value(env.host, e.kind->Unary_0, x),
            },
        ),
{
    reveal(meaning_of);
    reveal(list_meaning);
}

pub proof fn lemma_left_stops(env: Env, e: Expr, stop: Stop)
    requires
        e.kind matches ExprKind::Binary(_, left, _) && meaning_of(env, *left)(Err(stop)),
    ensures
        meaning_of(env, e)(Err(stop)),
{
    reveal(meaning_of);
    reveal(list_meaning);
}

pub proof fn lemma_binary_means(env: Env, e: Expr, x: Value, b: Result<Value, Stop>)
    requires
        e.kind matches ExprKind::Binary(op, left, right) && op != BinaryOp::And && op
            != BinaryOp::Or && meaning_of(env, *left)(Ok(x)) && meaning_of(env, *right)(b),
    ensures
        meaning_of(env, e)(
            match b {
                Err(stop) => Err(stop),
                Ok(y) => binary_value(env.host, e.kind->Binary_0, x, y),
            },
        ),
{
    reveal(meaning_of);
    reveal(list_meaning);
}

/// `&&` or `||` whose left operand decides.
pub proof fn lemma_circuit_decided(env: Env, e: Expr, x: Value)
    requires
        e.kind matches ExprKind::Binary(op, left, right) && meaning_of(env, *left)(Ok(x)) && ((op
            == BinaryOp::And && x == Value::Bool(false)) || (op == BinaryOp::Or && x
            == Value::Bool(true))),
    ensures
        meaning_of(env, e)(Ok(x)),
{
    reveal(meaning_of);
    reveal(list_meaning);
}

/// `&&` or `||` whose right operand decides.
pub proof fn lemma_circuit_open(env: Env, e: Expr, x: Value, b: Result<Value, Stop>)
    requires
        e.kind matches ExprKind::Binary(op, left, right) && meaning_of(env, *left)(Ok(x))
            && meaning_of(env, *right)(b) && ((op == BinaryOp::And && x == Value::Bool(true)) || (
        op == BinaryOp::Or && x == Value::Bool(false))),
    ensures
        meaning_of(env, e)(b),
{
    reveal(meaning_of);
    reveal(list_meaning);
}

pub proof fn lemma_row_means(
    env: Env,
    e: Expr,
    a: Result<Value, Stop>,
    i: int,
    exists_only: bool,
)
    requires
        e.kind matches ExprKind::Index(table, key) && meaning_of(env, *key)(a) && names_table(
            env,
            *table,
            i,
        ),
    ensures
        row_meaning(env, e, exists_only)(
            match a {
                Err(stop) => Err(stop),
                Ok(x) => row_value(env, i, x, exists_only),
            },
        ),
{
    reveal(row_meaning);
    reveal(meaning_of);
}

pub proof fn lemma_field_means(env: Env, e: Expr, a: Result<Value, Stop>)
    requires
        e.kind matches ExprKind::Field(base, Member::Index(_)) && meaning_of(env, *base)(a),
    ensures
        meaning_of(env, e)(
            match a {
                Err(stop) => Err(stop),
                Ok(x) => field_value(x, e.kind->Field_1->Index_0 as int),
            },
        ),
{
    reveal(meaning_of);
    reveal(list_meaning);
}

pub proof fn lemma_tuple_means(env: Env, e: Expr, a: Result<Seq<Value>, Stop>)
    requires
        e.kind matches ExprKind::Tuple(elements) && elements@.len() > 0 && list_meaning(
            env,
            elements@,
            0,
        )(a),
    ensures
        meaning_of(env, e)(
            match a {
                Err(stop) => Err(stop),
                Ok(list) => Ok(Value::Tuple(list)),
            },
        ),
{
    reveal(meaning_of);
    reveal(list_meaning);
}

pub proof fn lemma_list_ends(env: Env, list: Seq<Expr>, i: int)
    requires
        !(0 <= i < list.len()),
    ensures
        list_meaning(env, list, i)(Ok(Seq::empty())),
{
    reveal(list_meaning);
    reveal(meaning_of);
}

pub proof fn lemma_list_stops(env: Env, list: Seq<Expr>, i: int, stop: Stop)
    requires
        0 <= i < list.len(),
        meaning_of(env, list[i])(Err(stop)),
    ensures
        list_meaning(env, list, i)(Err(stop)),
{
    reveal(list_meaning);
    reveal(meaning_of);
}

pub proof fn lemma_list_means(
    env: Env,
    list: Seq<Expr>,
    i: int,
    x: Value,
    rest: Result<Seq<Value>, Stop>,
)
    requires
        0 <= i < list.len(),
        meaning_of(env, list[i])(Ok(x)),
        list_meaning(env, list, i + 1)(rest),
    ensures
        list_meaning(env, list, i)(
            match rest {
                Err(stop) => Err(stop),
                Ok(more) => Ok(seq![x] + more),
            },
        ),
{
    reveal(list_meaning);
    reveal(meaning_of);
}

/// The last operand.
pub proof fn lemma_last_means(env: Env, list: Seq<Expr>, i: int, a: Result<Value, Stop>)
    requires
        0 <= i,
        i + 1 == list.len(),
        meaning_of(env, list[i])(a),
    ensures
        list_meaning(env, list, i)(
            match a {
                Err(stop) => Err(stop),
                Ok(x) => Ok(seq![x]),
            },
        ),
{
    lemma_list_ends(env, list, i + 1);
    match a {
        Err(stop) => {
            lemma_list_stops(env, list, i, stop);
        },
        Ok(x) => {
            lemma_list_means(env, list, i, x, Ok(Seq::empty()));
            assert(seq![x] + Seq::<Value>::empty() =~= seq![x]);
        },
    }
}

/// The last two operands.
pub proof fn lemma_last_two_mean(
    env: Env,
    list: Seq<Expr>,
    i: int,
    x: Value,
    b: Result<Value, Stop>,
)
    requires
        0 <= i,
        i + 2 == list.len(),
        meaning_of(env, list[i])(Ok(x)),
        meaning_of(env, list[i + 1])(b),
    ensures
        list_meaning(env, list, i)(
            match b {
                Err(stop) => Err(stop),
                Ok(y) => Ok(seq![x, y]),
            },
        ),
{
    lemma_last_means(env, list, i + 1, b);
    match b {
        Err(stop) => {
            lemma_list_means(env, list, i, x, Err(stop));
        },
        Ok(y) => {
            lemma_list_means(env, list, i, x, Ok(seq![y]));
            assert(seq![x] + seq![y] =~= seq![x, y]);
        },
    }
}

/// A call of an operation on values.
pub proof fn lemma_performs_means(
    env: Env,
    name: Seq<char>,
    args: Seq<Expr>,
    op: Operation,
    a: Result<Seq<Value>, Stop>,
)
    requires
        !(name == "__capture"@ && args.len() == 1),
        name != "tuple"@,
        named(name) == Some(Form::Performs(op)),
        list_meaning(env, args, 0)(a),
    ensures
        call_meaning(env, name, args)(
            match a {
                Err(stop) => Err(stop),
                Ok(list) => machine::perform(env.host, op, list),
            },
        ),
{
    reveal(call_meaning);
    reveal(list_meaning);
    reveal(row_meaning);
    reveal(meaning_of);
    reveal(scan_meaning);
}

/// A call of `tuple`.
pub proof fn lemma_tuple_call_means(
    env: Env,
    name: Seq<char>,
    args: Seq<Expr>,
    a: Result<Seq<Value>, Stop>,
)
    requires
        !(name == "__capture"@ && args.len() == 1),
        name == "tuple"@,
        list_meaning(env, args, 0)(a),
    ensures
        call_meaning(env, name, args)(
            match a {
                Err(stop) => Err(stop),
                Ok(list) => Ok(Value::Tuple(list)),
            },
        ),
{
    reveal(call_meaning);
    reveal(list_meaning);
    reveal(row_meaning);
    reveal(meaning_of);
    reveal(scan_meaning);
}

/// A call of `load` or `exists`.
pub proof fn lemma_row_call_means(
    env: Env,
    name: Seq<char>,
    args: Seq<Expr>,
    exists_only: bool,
    o: Result<Value, Stop>,
)
    requires
        name != "__capture"@ || args.len() != 1,
        name != "tuple"@,
        named(name) == Some(
            if exists_only {
                Form::Exists
            } else {
                Form::Load
            },
        ),
        args.len() == 1,
        row_meaning(env, args[0], exists_only)(o),
    ensures
        call_meaning(env, name, args)(o),
{
    reveal(call_meaning);
    reveal(list_meaning);
    reveal(row_meaning);
    reveal(meaning_of);
    reveal(scan_meaning);
}

/// A call of `field`.
pub proof fn lemma_field_call_means(
    env: Env,
    name: Seq<char>,
    args: Seq<Expr>,
    index: int,
    a: Result<Value, Stop>,
)
    requires
        name != "tuple"@,
        named(name) == Some(Form::Field),
        args.len() == 2,
        literal_number(args[1]) == Some(index),
        meaning_of(env, args[0])(a),
    ensures
        call_meaning(env, name, args)(
            match a {
                Err(stop) => Err(stop),
                Ok(x) => field_value(x, index),
            },
        ),
{
    reveal(call_meaning);
    reveal(list_meaning);
    reveal(row_meaning);
    reveal(meaning_of);
    reveal(scan_meaning);
}

/// A call of `scan_bounded`.
pub proof fn lemma_scan_call_means(
    env: Env,
    name: Seq<char>,
    args: Seq<Expr>,
    o: Result<Value, Stop>,
)
    requires
        name != "tuple"@,
        named(name) == Some(Form::Scan),
        args.len() == 6,
        scan_meaning(env, args)(o),
    ensures
        call_meaning(env, name, args)(o),
{
    reveal(call_meaning);
    reveal(list_meaning);
    reveal(row_meaning);
    reveal(meaning_of);
    reveal(scan_meaning);
}

/// A call of a capture.
pub proof fn lemma_capture_means(env: Env, args: Seq<Expr>, v: Value)
    requires
        args.len() == 1,
        args[0].kind matches ExprKind::Name(name) && latest(env.captures, name@, v),
    ensures
        call_meaning(env, "__capture"@, args)(Ok(v)),
{
    reveal(call_meaning);
    reveal(list_meaning);
    reveal(row_meaning);
    reveal(meaning_of);
    reveal(scan_meaning);
}

pub proof fn lemma_end_means(env: Env, e: Expr, a: Result<Value, Stop>)
    requires
        !(e.kind matches ExprKind::Name(name) && name@ == "unbounded"@),
        meaning_of(env, e)(a),
    ensures
        end_meaning(env, e)(
            match a {
                Err(stop) => Err(stop),
                Ok(x) => Ok(Some(x)),
            },
        ),
{
    reveal(end_meaning);
    reveal(meaning_of);
}

pub proof fn lemma_unbounded_means(env: Env, e: Expr)
    requires
        e.kind matches ExprKind::Name(name) && name@ == "unbounded"@,
    ensures
        end_meaning(env, e)(Ok(None)),
{
    reveal(end_meaning);
    reveal(meaning_of);
}

pub proof fn lemma_lower_stops(env: Env, args: Seq<Expr>, stop: Stop)
    requires
        args.len() == 6,
        literal_number(args[3]) is Some,
        literal_number(args[4]) is Some,
        literal_number(args[5]) is Some,
        end_meaning(env, args[1])(Err(stop)),
    ensures
        scan_meaning(env, args)(Err(stop)),
{
    reveal(scan_meaning);
    reveal(end_meaning);
    reveal(meaning_of);
}

pub proof fn lemma_scan_means(
    env: Env,
    args: Seq<Expr>,
    table: int,
    lower: Option<Value>,
    b: Result<Option<Value>, Stop>,
)
    requires
        args.len() == 6,
        literal_number(args[3]) is Some,
        literal_number(args[4]) is Some,
        literal_number(args[5]) is Some,
        names_table(env, args[0], table),
        end_meaning(env, args[1])(Ok(lower)),
        end_meaning(env, args[2])(b),
    ensures
        scan_meaning(env, args)(
            match b {
                Err(stop) => Err(stop),
                Ok(upper) => (env.host.scan)(
                    env.rows,
                    ScanRequest {
                        table: table as u16,
                        lower,
                        upper,
                        lower_included: literal_number(args[3])->0 == 1 || literal_number(
                            args[3],
                        )->0 == 3,
                        upper_included: literal_number(args[3])->0 == 2 || literal_number(
                            args[3],
                        )->0 == 3,
                        rows: literal_number(args[4])->0 as u32,
                        bytes: literal_number(args[5])->0 as u64,
                    },
                ),
            },
        ),
{
    reveal(scan_meaning);
    reveal(end_meaning);
    reveal(meaning_of);
}

} // verus!
