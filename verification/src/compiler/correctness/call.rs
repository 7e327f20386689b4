//! Translated calls compute what they mean.

use super::super::ast::{Expr, ExprKind};
use super::super::compile;
use super::super::compile::expr;
use super::super::compile::intrinsics;
use super::super::compile::intrinsics::Intrinsic;
use super::super::compile::{State, TableShape};
use super::super::error::{Fault, Span};
use super::super::machine;
use super::super::machine::{Course, Host, Image, Memory, Operation, ScanRequest, Stop, Value};
use super::super::meaning;
use super::super::meaning::{Env, Form};
use super::super::types;
use super::super::types::Shape;
use super::code;
use super::expression;
use super::growth;
use crate::bytes;
use vstd::prelude::*;

verus! {

/// What an operation of the compiler stands for.
spec fn form_of(op: Intrinsic) -> Form {
    match op {
        Intrinsic::Copy => Form::Performs(Operation::Copy),
        Intrinsic::Load => Form::Load,
        Intrinsic::Exists => Form::Exists,
        Intrinsic::Negate => Form::Performs(Operation::Negate),
        Intrinsic::ToI64 => Form::Performs(Operation::ToI64),
        Intrinsic::ToU64 => Form::Performs(Operation::ToU64),
        Intrinsic::BoolNot => Form::Performs(Operation::BoolNot),
        Intrinsic::BitNot => Form::Performs(Operation::BitNot),
        Intrinsic::RowsLen => Form::Performs(Operation::RowsLen),
        Intrinsic::ByteLen => Form::Performs(Operation::ByteLen),
        Intrinsic::Utf8Bytes => Form::Performs(Operation::TextBytes),
        Intrinsic::ParseUtf8 => Form::Performs(Operation::ParseText),
        Intrinsic::Sha256 => Form::Performs(Operation::Sha256),
        Intrinsic::Binary(opcode) => Form::Performs(machine::operation(opcode)->0),
        Intrinsic::RowsKey => Form::Performs(Operation::RowsKey),
        Intrinsic::RowsValue => Form::Performs(Operation::RowsValue),
        Intrinsic::Concat => Form::Performs(Operation::Concat),
        Intrinsic::Field => Form::Field,
        Intrinsic::SliceBytes => Form::Performs(Operation::Slice),
        Intrinsic::Scan => Form::Scan,
    }
}

/// Names of operations stand for what they say.
proof fn lemma_named(name: Seq<char>)
    ensures
        intrinsics::intrinsic(name) matches Some(op) ==> meaning::named(name) == Some(form_of(op))
            && (op matches Intrinsic::Binary(opcode) ==> machine::operation(opcode) is Some
            && machine::operand_count(machine::operation(opcode)->0) == 2),
{
    reveal(meaning::named);
}

pub proof fn lemma_call(
    p: Image,
    env: Env,
    m: Memory,
    s: State,
    span: Span,
    function: Expr,
    args: Seq<Expr>,
    expected: Option<Shape>,
)
    requires
        expression::ready(p, env, m, s, intrinsics::called(s, span, function, args, expected)),
    ensures
        function.kind matches ExprKind::Name(name) && expression::computes(
            p,
            m,
            s,
            meaning::call_meaning(env, name@, args),
            intrinsics::called(s, span, function, args, expected),
        ),
    decreases args, args.len() + 2,
{
    let name = function.kind->Name_0@;
    if name == "__capture"@ && args.len() == 1 {
        let captured = args[0].kind->Name_0@;
        code::lemma_capture(env, s, m, captured);
        code::lemma_stays(p, m, s);
        let register = compile::find(s.captures, captured)->0;
        meaning::lemma_capture_means(env, args, m.registers[register]);
    } else if name == "tuple"@ {
        expression::lemma_tuple_list(p, env, m, s, args, expected, span);
        let (s1, fields) = expr::expressions(s, args, expr::field_hints(expected), 0)->Ok_0;
        let c = code::ran(p, m, s, s1);
        meaning::lemma_tuple_call_means(env, name, args, expression::answers(c, fields));
    } else {
        let op = intrinsics::intrinsic(name)->0;
        lemma_operation(p, env, m, s, span, name, op, args, expected);
    }
}

proof fn lemma_operation(
    p: Image,
    env: Env,
    m: Memory,
    s: State,
    span: Span,
    name: Seq<char>,
    op: Intrinsic,
    args: Seq<Expr>,
    expected: Option<Shape>,
)
    requires
        intrinsics::intrinsic(name) == Some(op),
        args.len() == intrinsics::arity(op),
        !(name == "__capture"@ && args.len() == 1),
        name != "tuple"@,
        expression::ready(p, env, m, s, intrinsics::operation(s, span, name, op, args, expected)),
    ensures
        expression::computes(
            p,
            m,
            s,
            meaning::call_meaning(env, name, args),
            intrinsics::operation(s, span, name, op, args, expected),
        ),
    decreases args, args.len() + 1,
{
    lemma_named(name);
    assert(decreases_to!(args => args[0]));
    match op {
        Intrinsic::Scan => {
            lemma_scan(p, env, m, s, span, args);
            let (s1, r) = intrinsics::scanned(s, span, args)->Ok_0;
            let c = code::ran(p, m, s, s1);
            meaning::lemma_scan_call_means(env, name, args, code::answer(c, r));
        },
        Intrinsic::Load => {
            let (s1, table, key) = intrinsics::place(s, args[0])->Ok_0;
            expression::lemma_row(p, env, m, s, args[0], 0x40, table.value, span);
            let result = compile::read_from(s1, table.value, 0x40, table.index, key, span);
            let (s2, r) = result->Ok_0;
            let c = code::ran(p, m, s, s2);
            meaning::lemma_row_call_means(env, name, args, false, code::answer(c, r));
        },
        Intrinsic::Exists => {
            let (s1, table, key) = intrinsics::place(s, args[0])->Ok_0;
            expression::lemma_row(p, env, m, s, args[0], 0x41, Shape::Bool, span);
            let result = compile::read_from(s1, Shape::Bool, 0x41, table.index, key, span);
            let (s2, r) = result->Ok_0;
            let c = code::ran(p, m, s, s2);
            meaning::lemma_row_call_means(env, name, args, true, code::answer(c, r));
        },
        Intrinsic::Binary(opcode) => {
            lemma_binary_call(p, env, m, s, span, name, opcode, args, expected);
        },
        _ => {
            let h = intrinsics::operand_type(op, expected);
            code::lemma_matched_facts(env, s, m);
            growth::lemma_grown(s, args[0], h);
            let (s1, source) = expr::expression(s, args[0], h)->Ok_0;
            growth::lemma_grown_applied(s1, span, name, op, source, args);
            let (s2, r) = intrinsics::applied(s1, span, name, op, source, args)->Ok_0;
            code::lemma_loaded(p, s1, s2, s.code.len() as int, s1.code.len() as int);
            expression::lemma_expression(p, env, m, s, args[0], h);
            code::lemma_compose(p, m, s, s1, s2);
            let c1 = code::ran(p, m, s, s1);
            match c1 {
                Course::At(m1) => {
                    code::lemma_matched(env, s, s1, m, m1);
                    lemma_applied(p, env, m1, s1, span, name, op, source, args);
                },
                Course::Stopped(stop) => {
                    if op == Intrinsic::Field {
                        let index = intrinsics::immediate_of(args[1], 255)->Ok_0;
                        meaning::lemma_field_call_means(
                            env,
                            name,
                            args,
                            index as int,
                            Err(stop),
                        );
                    } else {
                        meaning::lemma_list_stops(env, args, 0, stop);
                        let o = form_of(op)->Performs_0;
                        meaning::lemma_performs_means(env, name, args, o, Err(stop));
                    }
                },
                _ => {},
            }
        },
    }
}

proof fn lemma_binary_call(
    p: Image,
    env: Env,
    m: Memory,
    s: State,
    span: Span,
    name: Seq<char>,
    opcode: u8,
    args: Seq<Expr>,
    expected: Option<Shape>,
)
    requires
        machine::operation(opcode) matches Some(op) && machine::operand_count(op) == 2
            && meaning::named(name) == Some(Form::Performs(op)),
        args.len() == 2,
        name != "tuple"@,
        expression::ready(
            p,
            env,
            m,
            s,
            intrinsics::operation(s, span, name, Intrinsic::Binary(opcode), args, expected),
        ),
    ensures
        expression::computes(
            p,
            m,
            s,
            meaning::call_meaning(env, name, args),
            intrinsics::operation(s, span, name, Intrinsic::Binary(opcode), args, expected),
        ),
    decreases args, args.len(),
{
    let op = machine::operation(opcode)->0;
    assert(decreases_to!(args => args[0]));
    assert(decreases_to!(args => args[1]));
    let h = expr::left_hint(s, opcode, args[1], expected);
    code::lemma_matched_facts(env, s, m);
    growth::lemma_grown(s, args[0], h);
    let (s1, l) = expr::expression(s, args[0], h)->Ok_0;
    let ty = Some(expr::right_type(opcode, s1.registers[l as int]));
    growth::lemma_grown(s1, args[1], ty);
    let (s2, r) = expr::expression(s1, args[1], ty)->Ok_0;
    let last = expr::binary(s2, opcode, l, r, span);
    assert(intrinsics::operation(s, span, name, Intrinsic::Binary(opcode), args, expected) == last);
    assert(expr::typed_opcode(opcode, s2.registers[l as int]) == opcode);
    let (s3, result) = last->Ok_0;
    assert(growth::extends(s2, s3));
    growth::lemma_extends(s1, s2, s3);
    code::lemma_loaded(p, s1, s3, s.code.len() as int, s1.code.len() as int);
    code::lemma_loaded(p, s2, s3, s1.code.len() as int, s2.code.len() as int);
    expression::lemma_part(p, env, s, args[0], h);
    expression::lemma_part(p, env, s1, args[1], ty);
    lemma_binary_run(p, env, m, s, span, name, args, s1, l, s2, r, opcode);
}

/// A binary operation on two operands.
proof fn lemma_binary_run(
    p: Image,
    env: Env,
    m: Memory,
    s: State,
    span: Span,
    name: Seq<char>,
    args: Seq<Expr>,
    s1: State,
    l: u16,
    s2: State,
    r: u16,
    opcode: u8,
)
    requires
        machine::operation(opcode) matches Some(op) && machine::operand_count(op) == 2
            && meaning::named(name) == Some(Form::Performs(op)),
        args.len() == 2,
        name != "tuple"@,
        code::matched(env, s, m),
        p.host == env.host,
        expression::part(p, env, s, args[0], s1, l),
        expression::part(p, env, s1, args[1], s2, r),
        expr::typed_opcode(opcode, s2.registers[l as int]) == opcode,
        expr::binary(s2, opcode, l, r, span) matches Ok((s3, _)) && code::loaded(
            p,
            s3,
            s.code.len() as int,
        ),
    ensures
        expression::computes(
            p,
            m,
            s,
            meaning::call_meaning(env, name, args),
            expr::binary(s2, opcode, l, r, span),
        ),
{
    let op = machine::operation(opcode)->0;
    let a = s2.registers[l as int];
    let b = s2.registers[r as int];
    let ty = if 0x20 <= opcode <= 0x2a {
        Shape::Bool
    } else {
        a
    };
    let last = compile::produced(s2, ty, opcode, seq![l, r], span);
    assert(expr::binary(s2, opcode, l, r, span) == last);
    growth::lemma_grown_produced(s2, ty, opcode, seq![l, r], span);
    let (s3, result) = last->Ok_0;
    growth::lemma_extends(s1, s2, s3);
    code::lemma_loaded(p, s1, s3, s.code.len() as int, s1.code.len() as int);
    code::lemma_compose(p, m, s, s1, s3);
    match code::ran(p, m, s, s1) {
        Course::At(m1) => {
            code::lemma_matched(env, s, s1, m, m1);
            let x = m1.registers[l];
            assert(s1.registers[l as int] == a);
            assert forall|y: Value| #[trigger] machine::has_type(y, b) implies match machine::perform(
                p.host,
                op,
                seq![x, y],
            ) {
                Ok(v) => machine::has_type(v, ty),
                Err(stop) => stop !is Malformed,
            } by {
                code::lemma_binary_typed(p.host, opcode, op, a, b, x, y);
            }
            lemma_second_operand(p, env, m1, s1, span, name, args, l, s2, r, ty, opcode, op);
        },
        Course::Stopped(stop) => {
            meaning::lemma_list_stops(env, args, 0, stop);
            meaning::lemma_performs_means(env, name, args, op, Err(stop));
        },
        _ => {},
    }
}

/// An operation on one typed operand.
proof fn lemma_unary_intrinsic(host: Host, op: Intrinsic, ty: Shape, x: Value)
    requires
        intrinsics::unary(op, ty) is Some,
        machine::has_type(x, ty),
    ensures
        ({
            let (opcode, result) = intrinsics::unary(op, ty)->0;
            &&& machine::operation(opcode) matches Some(o)
            &&& form_of(op) == Form::Performs(o)
            &&& machine::operand_count(o) == 1
            &&& match machine::perform(host, o, seq![x]) {
                Ok(v) => machine::has_type(v, result),
                Err(stop) => stop !is Malformed,
            }
        }),
{
    reveal(machine::has_type);
    reveal(machine::perform);
}

/// An operation on the operand in `source`, which is that of the first argument.
proof fn lemma_applied(
    p: Image,
    env: Env,
    m: Memory,
    s: State,
    span: Span,
    name: Seq<char>,
    op: Intrinsic,
    source: u16,
    args: Seq<Expr>,
)
    requires
        meaning::named(name) == Some(form_of(op)),
        args.len() == intrinsics::arity(op),
        !(op is Scan || op is Load || op is Exists || op is Binary),
        !(name == "__capture"@ && args.len() == 1),
        name != "tuple"@,
        source < s.registers.len(),
        machine::has_type(m.registers[source], s.registers[source as int]),
        meaning::meaning_of(env, args[0])(Ok(m.registers[source])),
        expression::ready(p, env, m, s, intrinsics::applied(s, span, name, op, source, args)),
    ensures
        expression::computes(
            p,
            m,
            s,
            meaning::call_meaning(env, name, args),
            intrinsics::applied(s, span, name, op, source, args),
        ),
    decreases args, args.len(),
{
    code::lemma_matched_facts(env, s, m);
    let ty = s.registers[source as int];
    let x = m.registers[source];
    if op == Intrinsic::Field {
        let index = intrinsics::immediate_of(args[1], 255)->Ok_0;
        code::lemma_field_instruction(p, m, s, source, index as int, span);
        meaning::lemma_field_call_means(env, name, args, index as int, Ok(x));
    } else if op == Intrinsic::RowsKey || op == Intrinsic::RowsValue || op == Intrinsic::Concat {
        lemma_applied_two(p, env, m, s, span, name, op, source, args);
    } else if op == Intrinsic::SliceBytes {
        lemma_applied_slice(p, env, m, s, span, name, source, args);
    } else {
        let (opcode, result) = intrinsics::unary(op, ty)->0;
        lemma_unary_intrinsic(p.host, op, ty, x);
        let o = machine::operation(opcode)->0;
        code::lemma_produced(p, m, s, result, opcode, seq![source], span, o);
        assert(code::values(m, seq![source]) =~= seq![x]);
        meaning::lemma_last_means(env, args, 0, Ok(x));
        meaning::lemma_performs_means(env, name, args, o, Ok(seq![x]));
    }
}

/// An operation on the operand in `source`, which is that of the first argument,
/// and on that of the second one.
proof fn lemma_second_operand(
    p: Image,
    env: Env,
    m: Memory,
    s: State,
    span: Span,
    name: Seq<char>,
    args: Seq<Expr>,
    source: u16,
    s1: State,
    r: u16,
    result: Shape,
    opcode: u8,
    o: Operation,
)
    requires
        meaning::named(name) == Some(Form::Performs(o)),
        machine::operation(opcode) == Some(o),
        machine::operand_count(o) == 2,
        args.len() == 2,
        name != "tuple"@,
        source < s.registers.len(),
        code::matched(env, s, m),
        p.host == env.host,
        meaning::meaning_of(env, args[0])(Ok(m.registers[source])),
        expression::part(p, env, s, args[1], s1, r),
        forall|y: Value| #[trigger]
            machine::has_type(y, s1.registers[r as int]) ==> match machine::perform(
                p.host,
                o,
                seq![m.registers[source], y],
            ) {
                Ok(v) => machine::has_type(v, result),
                Err(stop) => stop !is Malformed,
            },
        compile::produced(s1, result, opcode, seq![source, r], span) matches Ok((s2, _))
            && code::loaded(p, s2, s.code.len() as int),
    ensures
        expression::computes(
            p,
            m,
            s,
            meaning::call_meaning(env, name, args),
            compile::produced(s1, result, opcode, seq![source, r], span),
        ),
{
    let x = m.registers[source];
    let operands = seq![source, r];
    growth::lemma_grown_produced(s1, result, opcode, operands, span);
    let (s2, q) = compile::produced(s1, result, opcode, operands, span)->Ok_0;
    code::lemma_loaded(p, s1, s2, s.code.len() as int, s1.code.len() as int);
    code::lemma_compose(p, m, s, s1, s2);
    let c1 = code::ran(p, m, s, s1);
    meaning::lemma_last_two_mean(env, args, 0, x, code::answer(c1, r));
    meaning::lemma_performs_means(
        env,
        name,
        args,
        o,
        match code::answer(c1, r) {
            Err(stop) => Err(stop),
            Ok(y) => Ok(seq![x, y]),
        },
    );
    if let Course::At(m1) = c1 {
        let y = m1.registers[r];
        assert(m1.registers[source] == x);
        code::lemma_produced(p, m1, s1, result, opcode, operands, span, o);
        assert(code::values(m1, operands) =~= seq![x, y]);
        assert(machine::has_type(y, s1.registers[r as int]));
    }
}

/// What a row of a scan or a longer string gives.
proof fn lemma_two_typed(host: Host, op: Intrinsic, ty: Shape, other: Shape, x: Value, y: Value)
    requires
        op is RowsKey || op is RowsValue || op is Concat,
        machine::has_type(x, ty),
        machine::has_type(y, other),
        match op {
            Intrinsic::Concat => (ty is Bytes || ty is String) && types::same_shape(other, ty),
            _ => ty is Rows && other == Shape::U64,
        },
    ensures
        ({
            let (opcode, result, o) = two_operands(op, ty, other);
            match machine::perform(host, o, seq![x, y]) {
                Ok(v) => machine::has_type(v, result),
                Err(stop) => stop !is Malformed,
            }
        }),
{
    reveal(machine::has_type);
    reveal(machine::perform);
}

/// The opcode, the result and the operation of an operation on two operands.
spec fn two_operands(op: Intrinsic, ty: Shape, other: Shape) -> (u8, Shape, Operation) {
    match (op, ty) {
        (Intrinsic::RowsKey, Shape::Rows(key, _, _)) => (0x4au8, *key, Operation::RowsKey),
        (Intrinsic::RowsValue, Shape::Rows(_, value, _)) => (0x4bu8, *value, Operation::RowsValue),
        (_, Shape::Bytes(a)) => (
            0x51u8,
            Shape::Bytes(intrinsics::joined(a, intrinsics::bound_of(other))),
            Operation::Concat,
        ),
        (_, Shape::String(a)) => (
            0x51u8,
            Shape::String(intrinsics::joined(a, intrinsics::bound_of(other))),
            Operation::Concat,
        ),
        _ => (0, Shape::Unit, Operation::Concat),
    }
}

proof fn lemma_applied_two(
    p: Image,
    env: Env,
    m: Memory,
    s: State,
    span: Span,
    name: Seq<char>,
    op: Intrinsic,
    source: u16,
    args: Seq<Expr>,
)
    requires
        meaning::named(name) == Some(form_of(op)),
        op is RowsKey || op is RowsValue || op is Concat,
        args.len() == 2,
        name != "tuple"@,
        source < s.registers.len(),
        machine::has_type(m.registers[source], s.registers[source as int]),
        meaning::meaning_of(env, args[0])(Ok(m.registers[source])),
        expression::ready(
            p,
            env,
            m,
            s,
            intrinsics::applied(s, span, name, op, source, args),
        ),
    ensures
        expression::computes(
            p,
            m,
            s,
            meaning::call_meaning(env, name, args),
            intrinsics::applied(s, span, name, op, source, args),
        ),
    decreases args, 0int,
{
    code::lemma_matched_facts(env, s, m);
    assert(decreases_to!(args => args[1]));
    let ty = s.registers[source as int];
    let wanted = if op is Concat {
        ty
    } else {
        Shape::U64
    };
    assert(expr::expression(s, args[1], Some(wanted)) is Ok);
    growth::lemma_grown(s, args[1], Some(wanted));
    let (s1, r) = expr::expression(s, args[1], Some(wanted))->Ok_0;
    let other = s1.registers[r as int];
    let (opcode, result, o) = two_operands(op, ty, other);
    let last = compile::produced(s1, result, opcode, seq![source, r], span);
    assert(intrinsics::applied(s, span, name, op, source, args) == last);
    growth::lemma_grown_produced(s1, result, opcode, seq![source, r], span);
    code::lemma_loaded(p, s1, last->Ok_0.0, s.code.len() as int, s1.code.len() as int);
    expression::lemma_part(p, env, s, args[1], Some(wanted));
    assert forall|y: Value| #[trigger] machine::has_type(y, other) implies match machine::perform(
        p.host,
        o,
        seq![m.registers[source], y],
    ) {
        Ok(v) => machine::has_type(v, result),
        Err(stop) => stop !is Malformed,
    } by {
        lemma_two_typed(p.host, op, ty, other, m.registers[source], y);
    }
    lemma_second_operand(p, env, m, s, span, name, args, source, s1, r, result, opcode, o);
}

/// A part of the bytes in `source`, which are those of the first argument.
proof fn lemma_slice_run(
    p: Image,
    env: Env,
    m: Memory,
    s: State,
    span: Span,
    name: Seq<char>,
    args: Seq<Expr>,
    source: u16,
    s1: State,
    start: u16,
    s2: State,
    length: u16,
    ty: Shape,
)
    requires
        meaning::named(name) == Some(Form::Performs(Operation::Slice)),
        args.len() == 3,
        name != "tuple"@,
        source < s.registers.len(),
        code::matched(env, s, m),
        p.host == env.host,
        ty is Bytes,
        machine::has_type(m.registers[source], ty),
        meaning::meaning_of(env, args[0])(Ok(m.registers[source])),
        expression::part(p, env, s, args[1], s1, start),
        expression::part(p, env, s1, args[2], s2, length),
        s1.registers[start as int] == Shape::U64,
        s2.registers[length as int] == Shape::U64,
        compile::produced(s2, ty, 0x52, seq![source, start, length], span) matches Ok((s3, _))
            && code::loaded(p, s3, s.code.len() as int),
    ensures
        expression::computes(
            p,
            m,
            s,
            meaning::call_meaning(env, name, args),
            compile::produced(s2, ty, 0x52, seq![source, start, length], span),
        ),
{
    let x = m.registers[source];
    let operands = seq![source, start, length];
    let o = Operation::Slice;
    growth::lemma_grown_produced(s2, ty, 0x52, operands, span);
    let (s3, q) = compile::produced(s2, ty, 0x52, operands, span)->Ok_0;
    growth::lemma_extends(s1, s2, s3);
    code::lemma_loaded(p, s1, s3, s.code.len() as int, s1.code.len() as int);
    code::lemma_loaded(p, s2, s3, s1.code.len() as int, s2.code.len() as int);
    code::lemma_compose(p, m, s, s1, s3);
    match code::ran(p, m, s, s1) {
        Course::At(m1) => {
            code::lemma_matched(env, s, s1, m, m1);
            code::lemma_compose(p, m1, s1, s2, s3);
            let c2 = code::ran(p, m1, s1, s2);
            let y = m1.registers[start];
            meaning::lemma_last_two_mean(env, args, 1, y, code::answer(c2, length));
            match c2 {
                Course::At(m2) => {
                    let z = m2.registers[length];
                    meaning::lemma_list_means(env, args, 0, x, Ok(seq![y, z]));
                    assert(seq![x] + seq![y, z] =~= seq![x, y, z]);
                    meaning::lemma_performs_means(env, name, args, o, Ok(seq![x, y, z]));
                    assert(m2.registers[source] == x);
                    assert(m2.registers[start] == y);
                    code::lemma_produced(p, m2, s2, ty, 0x52, operands, span, o);
                    assert(code::values(m2, operands) =~= seq![x, y, z]);
                    assert(match machine::perform(p.host, o, seq![x, y, z]) {
                        Ok(v) => machine::has_type(v, ty),
                        Err(stop) => stop !is Malformed,
                    }) by {
                        reveal(machine::has_type);
                        reveal(machine::perform);
                    }
                },
                Course::Stopped(stop) => {
                    meaning::lemma_list_means(env, args, 0, x, Err(stop));
                    meaning::lemma_performs_means(env, name, args, o, Err(stop));
                },
                _ => {},
            }
        },
        Course::Stopped(stop) => {
            meaning::lemma_list_stops(env, args, 1, stop);
            meaning::lemma_list_means(env, args, 0, x, Err(stop));
            meaning::lemma_performs_means(env, name, args, o, Err(stop));
        },
        _ => {},
    }
}

proof fn lemma_applied_slice(
    p: Image,
    env: Env,
    m: Memory,
    s: State,
    span: Span,
    name: Seq<char>,
    source: u16,
    args: Seq<Expr>,
)
    requires
        meaning::named(name) == Some(Form::Performs(Operation::Slice)),
        args.len() == 3,
        name != "tuple"@,
        source < s.registers.len(),
        machine::has_type(m.registers[source], s.registers[source as int]),
        meaning::meaning_of(env, args[0])(Ok(m.registers[source])),
        expression::ready(
            p,
            env,
            m,
            s,
            intrinsics::applied(s, span, name, Intrinsic::SliceBytes, source, args),
        ),
    ensures
        expression::computes(
            p,
            m,
            s,
            meaning::call_meaning(env, name, args),
            intrinsics::applied(s, span, name, Intrinsic::SliceBytes, source, args),
        ),
    decreases args, 0int,
{
    code::lemma_matched_facts(env, s, m);
    assert(decreases_to!(args => args[1]));
    assert(decreases_to!(args => args[2]));
    let u = Some(Shape::U64);
    let ty = s.registers[source as int];
    growth::lemma_grown(s, args[1], u);
    let (s1, start) = expr::expression(s, args[1], u)->Ok_0;
    growth::lemma_grown(s1, args[2], u);
    let (s2, length) = expr::expression(s1, args[2], u)->Ok_0;
    let operands = seq![source, start, length];
    let last = compile::produced(s2, ty, 0x52, operands, span);
    assert(intrinsics::applied(s, span, name, Intrinsic::SliceBytes, source, args) == last);
    growth::lemma_grown_produced(s2, ty, 0x52, operands, span);
    let (s3, q) = last->Ok_0;
    growth::lemma_extends(s1, s2, s3);
    code::lemma_loaded(p, s1, s3, s.code.len() as int, s1.code.len() as int);
    code::lemma_loaded(p, s2, s3, s1.code.len() as int, s2.code.len() as int);
    expression::lemma_part(p, env, s, args[1], u);
    expression::lemma_part(p, env, s1, args[2], u);
    lemma_slice_run(p, env, m, s, span, name, args, source, s1, start, s2, length, ty);
}

/// What a run leaves for an end of a scan, or why it stopped.
pub open spec fn end_answer(c: Course, r: u16) -> Result<Option<Value>, Stop> {
    match c {
        Course::At(m) => Ok(
            if r == 0xffff {
                None
            } else {
                Some(m.registers[r])
            },
        ),
        Course::Stopped(stop) => Err(stop),
        _ => Err(Stop::Malformed),
    }
}

proof fn lemma_end(
    p: Image,
    env: Env,
    m: Memory,
    s: State,
    e: Expr,
    included: bool,
    key: Shape,
)
    requires
        expression::ready(p, env, m, s, intrinsics::endpoint(s, e, included, key)),
    ensures
        ({
            let (s1, r) = intrinsics::endpoint(s, e, included, key)->Ok_0;
            let c = code::ran(p, m, s, s1);
            &&& match c {
                Course::At(m1) => code::kept(s, m, m1),
                Course::Stopped(stop) => stop !is Malformed,
                _ => false,
            }
            &&& meaning::end_meaning(env, e)(end_answer(c, r))
        }),
    decreases e, 5int,
{
    code::lemma_matched_facts(env, s, m);
    growth::lemma_grown_end(s, e, included, key);
    let (s1, r) = intrinsics::endpoint(s, e, included, key)->Ok_0;
    if intrinsics::unbounded(e) {
        code::lemma_stays(p, m, s);
        meaning::lemma_unbounded_means(env, e);
    } else {
        expression::lemma_expression(p, env, m, s, e, Some(key));
        let c = code::ran(p, m, s, s1);
        meaning::lemma_end_means(env, e, code::answer(c, r));
    }
}

/// What a scan instruction asks for.
proof fn lemma_scan_code(
    m: Memory,
    result: u16,
    table: u16,
    lower: u16,
    upper: u16,
    flags: u64,
    rows: u64,
    limit: u64,
)
    requires
        flags <= 3,
        rows <= 65535,
    ensures
        ({
            let code = intrinsics::scan_code(result, table, lower, upper, flags, rows, limit);
            let end = |r: u16|
                if r == 0xffff {
                    None
                } else {
                    Some(m.registers[r])
                };
            &&& machine::word(code, 0) == result
            &&& machine::scan_request(m, code) == (ScanRequest {
                table,
                lower: end(lower),
                upper: end(upper),
                lower_included: flags == 1 || flags == 3,
                upper_included: flags == 2 || flags == 3,
                rows: rows as u32,
                bytes: limit,
            })
        }),
{
    broadcast use bytes::group_le;

    let code = intrinsics::scan_code(result, table, lower, upper, flags, rows, limit);
    let operands = seq![result, table, lower, upper];
    let tail = seq![flags as u8, 0u8] + bytes::le32(rows as u32) + bytes::le64(limit);
    code::lemma_words_read(operands, tail, 0);
    code::lemma_words_read(operands, tail, 1);
    code::lemma_words_read(operands, tail, 2);
    code::lemma_words_read(operands, tail, 3);
    assert(code.operands =~= compile::words(operands) + tail);
    assert(code.operands[8] == flags as u8);
    assert(bytes::part(code.operands, 10, 4) =~= bytes::le32(rows as u32));
    assert(bytes::part(code.operands, 14, 8) =~= bytes::le64(limit));
}

proof fn lemma_scan(p: Image, env: Env, m: Memory, s: State, span: Span, args: Seq<Expr>)
    requires
        args.len() == 6,
        expression::ready(p, env, m, s, intrinsics::scanned(s, span, args)),
    ensures
        ({
            let (s1, r) = intrinsics::scanned(s, span, args)->Ok_0;
            let c = code::ran(p, m, s, s1);
            code::regular(c, s, s1, r, m) && meaning::scan_meaning(env, args)(code::answer(c, r))
        }),
    decreases args, args.len(),
{
    assert(decreases_to!(args => args[1]));
    assert(decreases_to!(args => args[2]));
    code::lemma_table(env, s, m, args[0]);
    let table = intrinsics::table_of(s, args[0])->Ok_0;
    let flags = intrinsics::immediate_of(args[3], 3)->Ok_0;
    let rows = intrinsics::immediate_of(args[4], 65535)->Ok_0;
    let limit = intrinsics::immediate_of(args[5], 67108864)->Ok_0;
    code::lemma_matched_facts(env, s, m);
    assert(meaning::literal_number(args[3]) == Some(flags as int));
    assert(meaning::literal_number(args[4]) == Some(rows as int));
    assert(meaning::literal_number(args[5]) == Some(limit as int));
    growth::lemma_grown_end(s, args[1], flags % 2 == 1, table.key);
    let (s1, lower) = intrinsics::endpoint(s, args[1], flags % 2 == 1, table.key)->Ok_0;
    growth::lemma_grown_end(s1, args[2], flags / 2 == 1, table.key);
    let (s2, upper) = intrinsics::endpoint(s1, args[2], flags / 2 == 1, table.key)->Ok_0;
    let (s3, r) = intrinsics::scan_into(s2, span, table, lower, upper, flags, rows, limit)->Ok_0;
    assert(intrinsics::scanned(s, span, args) == Ok::<(State, u16), Fault>((s3, r)));
    assert(growth::extends(s2, s3) && growth::scoped(s3));
    growth::lemma_extends(s1, s2, s3);
    code::lemma_loaded(p, s1, s3, s.code.len() as int, s1.code.len() as int);
    code::lemma_loaded(p, s2, s3, s1.code.len() as int, s2.code.len() as int);
    lemma_end(p, env, m, s, args[1], flags % 2 == 1, table.key);
    code::lemma_compose(p, m, s, s1, s3);
    match code::ran(p, m, s, s1) {
        Course::At(m1) => {
            code::lemma_matched(env, s, s1, m, m1);
            lemma_end(p, env, m1, s1, args[2], flags / 2 == 1, table.key);
            code::lemma_compose(p, m1, s1, s2, s3);
            let c2 = code::ran(p, m1, s1, s2);
            let low = end_answer(Course::At(m1), lower)->Ok_0;
            meaning::lemma_scan_means(
                env,
                args,
                table.index as int,
                low,
                end_answer(c2, upper),
            );
            if let Course::At(m2) = c2 {
                assert(lower != 0xffff ==> m2.registers[lower] == m1.registers[lower]);
                lemma_scan_instruction(p, m2, s2, span, table, lower, upper, flags, rows, limit);
            }
        },
        Course::Stopped(stop) => {
            meaning::lemma_lower_stops(env, args, stop);
        },
        _ => {},
    }
}

/// What the instruction of a scan does.
proof fn lemma_scan_instruction(
    p: Image,
    m: Memory,
    s: State,
    span: Span,
    table: TableShape,
    lower: u16,
    upper: u16,
    flags: u64,
    rows: u64,
    limit: u64,
)
    requires
        flags <= 3,
        rows <= 65535,
        growth::scoped(s),
        table.index < s.tables.len(),
        s.tables[table.index as int].1 == table,
        code::typed_rows(s.tables, m.rows),
        code::typed_scans(s.tables, p.host),
        intrinsics::scan_into(s, span, table, lower, upper, flags, rows, limit) matches Ok((s1, _))
            && code::loaded(p, s1, s.code.len() as int),
    ensures
        ({
            let result = intrinsics::scan_into(s, span, table, lower, upper, flags, rows, limit);
            let (s1, r) = result->Ok_0;
            let c = code::ran(p, m, s, s1);
            &&& code::regular(c, s, s1, r, m)
            &&& code::answer(c, r) == (p.host.scan)(
                m.rows,
                ScanRequest {
                    table: table.index,
                    lower: end_answer(Course::At(m), lower)->Ok_0,
                    upper: end_answer(Course::At(m), upper)->Ok_0,
                    lower_included: flags == 1 || flags == 3,
                    upper_included: flags == 2 || flags == 3,
                    rows: rows as u32,
                    bytes: limit,
                },
            )
        }),
{
    let result = intrinsics::scan_into(s, span, table, lower, upper, flags, rows, limit);
    let (s1, r) = result->Ok_0;
    let at = s.code.len() as int;
    code::lemma_loaded_at(p, s1, at, at);
    lemma_scan_code(m, r, table.index, lower, upper, flags, rows, limit);
    let request = machine::scan_request(m, p.code[at]);
    let given = (p.host.scan)(m.rows, request);
    reveal(machine::turn);
    code::lemma_step(p, m, at, at + 1);
    if let Ok(v) = given {
        let m1 = code::set(m, r, v);
        assert(machine::run(p, m1, at + 1, at + 1) == Course::At(m1)) by {
            reveal(machine::run);
        }
        assert(machine::has_type(v, s1.registers[r as int])) by {
            reveal(machine::has_type);
        }
    }
}

} // verus!
