//! Translated expressions compute what they mean.

use super::super::ast::{BinaryOp, Expr, ExprKind, Literal, Member, UnaryOp};
use super::super::compile;
use super::super::compile::expr;
use super::super::compile::intrinsics;
use super::super::compile::{State, Valued};
use super::super::error::{Fault, Span};
use super::super::machine;
use super::super::machine::{Course, Image, Memory, Operation, Stop, Value};
use super::super::meaning;
use super::super::meaning::Env;
use super::super::types::Shape;
use super::call;
use super::code;
use super::growth;
use crate::bytes;
use vstd::prelude::*;

verus! {

/// Whether a run can tell what an expression means: it starts from what the
/// expression finds, on the code of its translation.
pub open spec fn ready(p: Image, env: Env, m: Memory, s: State, result: Valued) -> bool {
    &&& code::matched(env, s, m)
    &&& p.host == env.host
    &&& result matches Ok((s1, _)) && code::loaded(p, s1, s.code.len() as int)
}

/// Whether the run of what was translated gives something that is meant.
pub open spec fn computes(
    p: Image,
    m: Memory,
    s: State,
    meant: meaning::Meaning<Value>,
    result: Valued,
) -> bool {
    let (s1, r) = result->Ok_0;
    let c = code::ran(p, m, s, s1);
    code::regular(c, s, s1, r, m) && meant(code::answer(c, r))
}

pub proof fn lemma_expression(
    p: Image,
    env: Env,
    m: Memory,
    s: State,
    e: Expr,
    expected: Option<Shape>,
)
    requires
        ready(p, env, m, s, expr::expression(s, e, expected)),
    ensures
        computes(p, m, s, meaning::meaning_of(env, e), expr::expression(s, e, expected)),
    decreases e, 3int,
{
    lemma_unchecked(p, env, m, s, e, expected);
}

/// Whether the instructions that `s1` has beyond `s` give in `r` what an expression
/// means, wherever they run from what the expression finds.
pub open spec fn part(p: Image, env: Env, s: State, e: Expr, s1: State, r: u16) -> bool {
    &&& growth::extends(s, s1)
    &&& growth::scoped(s1)
    &&& r < s1.registers.len()
    &&& forall|m: Memory| #[trigger]
        code::matched(env, s, m) ==> computes(
            p,
            m,
            s,
            meaning::meaning_of(env, e),
            Ok((s1, r)),
        )
}

pub proof fn lemma_part(p: Image, env: Env, s: State, e: Expr, expected: Option<Shape>)
    requires
        growth::scoped(s),
        p.host == env.host,
        expr::expression(s, e, expected) matches Ok((s1, _)) && code::loaded(
            p,
            s1,
            s.code.len() as int,
        ),
    ensures
        expr::expression(s, e, expected) matches Ok((s1, r)) && part(p, env, s, e, s1, r),
    decreases e, 4int,
{
    growth::lemma_grown(s, e, expected);
    let (s1, r) = expr::expression(s, e, expected)->Ok_0;
    assert forall|m: Memory| #[trigger] code::matched(env, s, m) implies computes(
        p,
        m,
        s,
        meaning::meaning_of(env, e),
        Ok((s1, r)),
    ) by {
        lemma_expression(p, env, m, s, e, expected);
    }
}

proof fn lemma_unchecked(
    p: Image,
    env: Env,
    m: Memory,
    s: State,
    e: Expr,
    expected: Option<Shape>,
)
    requires
        ready(p, env, m, s, expr::unchecked(s, e, expected)),
    ensures
        computes(p, m, s, meaning::meaning_of(env, e), expr::unchecked(s, e, expected)),
    decreases e, 2int,
{
    match e.kind {
        ExprKind::Paren(inner) => {
            lemma_expression(p, env, m, s, *inner, expected);
            reveal(meaning::meaning_of);
        },
        ExprKind::Name(name) => {
            code::lemma_local(env, s, m, name@);
            code::lemma_stays(p, m, s);
            reveal(meaning::meaning_of);
        },
        ExprKind::Literal(l) => {
            lemma_literal(p, env, m, s, e, expected);
        },
        ExprKind::Unary(op, inner) => {
            lemma_unary(p, env, m, s, e, expected);
        },
        ExprKind::Binary(op, left, right) => {
            if op == BinaryOp::And || op == BinaryOp::Or {
                lemma_circuit(p, env, m, s, e, expected);
            } else {
                lemma_binary(p, env, m, s, e, expected);
            }
        },
        ExprKind::Index(..) => {
            let (s1, table, key) = intrinsics::place(s, e)->Ok_0;
            lemma_row(p, env, m, s, e, 0x40, table.value, e.span);
            reveal(meaning::meaning_of);
            reveal(meaning::row_meaning);
        },
        ExprKind::Tuple(elements) => {
            lemma_tuple_expression(p, env, m, s, e, expected);
        },
        ExprKind::Field(base, member) => {
            lemma_field_expression(p, env, m, s, e, expected);
        },
        ExprKind::Call(function, args) => {
            call::lemma_call(p, env, m, s, e.span, *function, args@, expected);
            reveal(meaning::meaning_of);
            reveal(meaning::call_meaning);
        },
        _ => {},
    }
}

proof fn lemma_literal(p: Image, env: Env, m: Memory, s: State, e: Expr, expected: Option<Shape>)
    requires
        ready(p, env, m, s, expr::unchecked(s, e, expected)),
        e.kind is Literal,
    ensures
        computes(p, m, s, meaning::meaning_of(env, e), expr::unchecked(s, e, expected)),
{
    let l = e.kind->Literal_0;
    let (ty, value) = expr::literal(l, e.span, expected)->Ok_0;
    code::lemma_matched_facts(env, s, m);
    code::lemma_constant(p, m, s, ty, value, e.span);
    lemma_literal_value(l, e.span, expected);
    reveal(meaning::meaning_of);
}

/// The constant of a literal is what it is written for.
proof fn lemma_literal_value(l: Literal, span: Span, expected: Option<Shape>)
    requires
        expr::literal(l, span, expected) is Ok,
    ensures
        ({
            let (ty, value) = expr::literal(l, span, expected)->Ok_0;
            meaning::written_for(l, machine::constant(ty, value)) && machine::has_type(
                machine::constant(ty, value),
                ty,
            )
        }),
{
    broadcast use bytes::group_le;

    reveal(machine::has_type);
    let (ty, value) = expr::literal(l, span, expected)->Ok_0;
    match l {
        Literal::Str(text) => {
            let text = vstd::utf8::encode_utf8(text@);
            assert(value =~= bytes::blob(text));
            assert(value.subrange(4, value.len() as int) =~= text);
        },
        Literal::ByteStr(text) => {
            assert(value =~= bytes::blob(text@));
            assert(value.subrange(4, value.len() as int) =~= text@);
        },
        _ => {},
    }
}

/// A negative literal.
proof fn lemma_negative_literal(
    p: Image,
    env: Env,
    m: Memory,
    s: State,
    e: Expr,
    expected: Option<Shape>,
)
    requires
        ready(p, env, m, s, expr::unchecked(s, e, expected)),
        e.kind matches ExprKind::Unary(UnaryOp::Neg, inner) && (
        inner.kind matches ExprKind::Literal(Literal::Int(..))),
    ensures
        computes(p, m, s, meaning::meaning_of(env, e), expr::unchecked(s, e, expected)),
{
    broadcast use bytes::group_le;

    let inner = *e.kind->Unary_1;
    let (value, suffix) = match inner.kind {
        ExprKind::Literal(Literal::Int(value, suffix)) => (value, suffix),
        _ => arbitrary(),
    };
    let n = expr::negative(value, suffix, e.span, inner.span)->Ok_0;
    code::lemma_matched_facts(env, s, m);
    code::lemma_constant(p, m, s, Shape::I64, bytes::le64(expr::negated(n)), e.span);
    let v = machine::constant(Shape::I64, bytes::le64(expr::negated(n)));
    assert(v == Value::I64(-(n as int)));
    assert(machine::has_type(v, Shape::I64)) by {
        reveal(machine::has_type);
    }
    reveal(meaning::meaning_of);
}

proof fn lemma_unary(p: Image, env: Env, m: Memory, s: State, e: Expr, expected: Option<Shape>)
    requires
        ready(p, env, m, s, expr::unchecked(s, e, expected)),
        e.kind is Unary,
    ensures
        computes(p, m, s, meaning::meaning_of(env, e), expr::unchecked(s, e, expected)),
    decreases e, 0int,
{
    let op = e.kind->Unary_0;
    let inner = *e.kind->Unary_1;
    if op == UnaryOp::Neg && (inner.kind matches ExprKind::Literal(Literal::Int(..))) {
        lemma_negative_literal(p, env, m, s, e, expected);
    } else {
        code::lemma_matched_facts(env, s, m);
        growth::lemma_grown(s, inner, expected);
        let (s1, source) = expr::expression(s, inner, expected)->Ok_0;
        let ty = s1.registers[source as int];
        let opcode = expr::unary_opcode(op, ty)->0;
        let result = compile::produced(s1, ty, opcode, seq![source], e.span);
        growth::lemma_grown_produced(s1, ty, opcode, seq![source], e.span);
        let (s2, r) = result->Ok_0;
        code::lemma_loaded(p, s1, s2, s.code.len() as int, s1.code.len() as int);
        lemma_expression(p, env, m, s, inner, expected);
        code::lemma_compose(p, m, s, s1, s2);
        let c = code::ran(p, m, s, s1);
        meaning::lemma_unary_means(env, e, code::answer(c, source));
        if let Course::At(m1) = c {
            let x = m1.registers[source];
            code::lemma_unary_typed(p.host, op, ty, x, opcode);
            let o = machine::operation(opcode)->0;
            code::lemma_produced(p, m1, s1, ty, opcode, seq![source], e.span, o);
            assert(code::values(m1, seq![source]) =~= seq![x]);
        }
    }
}

proof fn lemma_binary(p: Image, env: Env, m: Memory, s: State, e: Expr, expected: Option<Shape>)
    requires
        ready(p, env, m, s, expr::unchecked(s, e, expected)),
        e.kind matches ExprKind::Binary(op, _, _) && op != BinaryOp::And && op != BinaryOp::Or,
    ensures
        computes(p, m, s, meaning::meaning_of(env, e), expr::unchecked(s, e, expected)),
    decreases e, 0int,
{
    let (op, left, right) = match e.kind {
        ExprKind::Binary(op, left, right) => (op, *left, *right),
        _ => arbitrary(),
    };
    assert(decreases_to!(e => left) && decreases_to!(e => right));
    let opcode = expr::opcode_of(op).unwrap();
    let h = expr::left_hint(s, opcode, right, expected);
    code::lemma_matched_facts(env, s, m);
    growth::lemma_grown(s, left, h);
    let (s1, l) = expr::expression(s, left, h)->Ok_0;
    let ty = Some(expr::right_type(opcode, s1.registers[l as int]));
    growth::lemma_grown(s1, right, ty);
    let (s2, r) = expr::expression(s1, right, ty)->Ok_0;
    let (s3, result) = expr::binary(s2, opcode, l, r, e.span)->Ok_0;
    let (s4, last) = expr::unchecked(s, e, expected)->Ok_0;
    let from = s.code.len() as int;
    assert(growth::extends(s2, s3) && growth::scoped(s3) && result < s3.registers.len());
    assert(growth::extends(s3, s4));
    growth::lemma_extends(s1, s2, s3);
    growth::lemma_extends(s1, s3, s4);
    growth::lemma_extends(s2, s3, s4);
    code::lemma_loaded(p, s1, s4, from, s1.code.len() as int);
    code::lemma_loaded(p, s2, s4, s1.code.len() as int, s2.code.len() as int);
    code::lemma_loaded(p, s3, s4, s2.code.len() as int, s3.code.len() as int);
    lemma_expression(p, env, m, s, left, h);
    code::lemma_compose(p, m, s, s1, s4);
    match code::ran(p, m, s, s1) {
        Course::At(m1) => {
            code::lemma_matched(env, s, s1, m, m1);
            lemma_expression(p, env, m1, s1, right, ty);
            code::lemma_compose(p, m1, s1, s2, s4);
            let c2 = code::ran(p, m1, s1, s2);
            meaning::lemma_binary_means(env, e, m1.registers[l], code::answer(c2, r));
            if let Course::At(m2) = c2 {
                assert(m2.registers[l] == m1.registers[l]);
                assert(s2.registers[l as int] == s1.registers[l as int]);
                lemma_operation_done(p, m2, s2, op, l, r, e.span);
            }
        },
        Course::Stopped(stop) => {
            meaning::lemma_left_stops(env, e, stop);
        },
        _ => {},
    }
}

/// The instructions of an operator on two registers.
proof fn lemma_operation_done(
    p: Image,
    m: Memory,
    s: State,
    op: BinaryOp,
    l: u16,
    r: u16,
    span: Span,
)
    requires
        op != BinaryOp::And,
        op != BinaryOp::Or,
        growth::scoped(s),
        l < s.registers.len(),
        r < s.registers.len(),
        machine::has_type(m.registers[l], s.registers[l as int]),
        machine::has_type(m.registers[r], s.registers[r as int]),
        expr::binary(s, expr::opcode_of(op).unwrap(), l, r, span) matches Ok((s1, result)) && if op
            == BinaryOp::NotEqual {
            compile::produced(s1, Shape::Bool, 0x2b, seq![result], span) matches Ok((s2, _))
                && code::loaded(p, s2, s.code.len() as int)
        } else {
            code::loaded(p, s1, s.code.len() as int)
        },
    ensures
        ({
            let (s1, result) = expr::binary(s, expr::opcode_of(op).unwrap(), l, r, span)->Ok_0;
            let (s2, last) = if op == BinaryOp::NotEqual {
                compile::produced(s1, Shape::Bool, 0x2b, seq![result], span)->Ok_0
            } else {
                (s1, result)
            };
            let c = code::ran(p, m, s, s2);
            &&& code::regular(c, s, s2, last, m)
            &&& code::answer(c, last) == meaning::binary_value(
                p.host,
                op,
                m.registers[l],
                m.registers[r],
            )
        }),
{
    let opcode = expr::opcode_of(op).unwrap();
    let a = s.registers[l as int];
    let b = s.registers[r as int];
    let x = m.registers[l];
    let y = m.registers[r];
    let (s1, result) = expr::binary(s, opcode, l, r, span)->Ok_0;
    code::lemma_operator(p.host, op, a, b, x, y);
    if op == BinaryOp::NotEqual {
        growth::lemma_grown_produced(s1, Shape::Bool, 0x2b, seq![result], span);
        let (s2, last) = compile::produced(s1, Shape::Bool, 0x2b, seq![result], span)->Ok_0;
        code::lemma_loaded(p, s1, s2, s.code.len() as int, s1.code.len() as int);
        code::lemma_binary_instruction(p, m, s, opcode, l, r, span);
        code::lemma_compose(p, m, s, s1, s2);
        if let Course::At(m1) = code::ran(p, m, s, s1) {
            code::lemma_produced(
                p,
                m1,
                s1,
                Shape::Bool,
                0x2b,
                seq![result],
                span,
                Operation::BoolNot,
            );
            assert(code::values(m1, seq![result]) =~= seq![m1.registers[result]]);
            reveal(machine::perform);
            reveal(machine::has_type);
        }
    } else {
        code::lemma_binary_instruction(p, m, s, opcode, l, r, span);
    }
}

/// Whether a translated `&&` or `||` has its parts in their places.
proof fn lemma_circuit_code(
    p: Image,
    s: State,
    s1: State,
    l: u16,
    and: bool,
    span: Span,
    s3: State,
    r: u16,
)
    requires
        growth::scoped(s1),
        s.code.len() <= s1.code.len(),
        expr::opened(s1, l, and, span) matches Ok((s2, result)) && growth::extends(s2, s3)
            && growth::scoped(s3) && (expr::closed(s3, s2.code.len() - 1, result, r, span) matches Ok(
            (s4, _),
        ) && code::loaded(p, s4, s.code.len() as int)),
    ensures
        ({
            let (s2, result) = expr::opened(s1, l, and, span)->Ok_0;
            let (s4, last) = expr::closed(s3, s2.code.len() - 1, result, r, span)->Ok_0;
            let first = s1.code.len() as int;
            let end = s4.code.len() as int;
            &&& growth::extends(s1, s2)
            &&& growth::scoped(s2)
            &&& result == s1.registers.len()
            &&& last == result
            &&& s2.registers == s1.registers.push(Shape::Bool)
            &&& s4.registers == s3.registers
            &&& end == s3.code.len() + 1
            &&& end <= u32::MAX
            &&& code::loaded(p, s1, s.code.len() as int)
            &&& code::loaded(p, s3, s2.code.len() as int)
            &&& p.code[first] == compile::plain(0x03, seq![result, l])
            &&& p.code[end - 1] == compile::plain(0x03, seq![result, r])
            &&& and ==> s2.code.len() == first + 2 && p.code[first + 1] == compile::aimed(
                compile::open_jump(Some(l)),
                end,
            )
            &&& !and ==> s2.code.len() == first + 3 && p.code[first + 1] == compile::aimed(
                compile::open_jump(Some(l)),
                first + 3,
            ) && p.code[first + 2] == compile::aimed(compile::open_jump(None), end)
        }),
{
    reveal(code::loaded);
    let (s2, result) = expr::opened(s1, l, and, span)->Ok_0;
    let (s4, last) = expr::closed(s3, s2.code.len() - 1, result, r, span)->Ok_0;
    let from = s.code.len() as int;
    let first = s1.code.len() as int;
    let second = s2.code.len() as int;
    let third = s3.code.len() as int;
    let skip = second - 1;
    assert(growth::extends(s1, s2));
    assert forall|i: int| 0 <= i < third && i != skip implies #[trigger] s4.code[i]
        == s3.code[i] by {}
    assert forall|i: int|
        #![trigger p.code[i]]
        #![trigger s1.code[i]]
        from <= i < first implies p.code[i] == s1.code[i] by {
        assert(s4.code[i] == s3.code[i]);
        assert(s3.code[i] == s2.code[i]);
    }
    assert forall|i: int|
        #![trigger p.code[i]]
        #![trigger s3.code[i]]
        second <= i < third implies p.code[i] == s3.code[i] by {
        assert(s4.code[i] == s3.code[i]);
    }
    assert(s4.code[first] == s3.code[first]);
    assert(s3.code[first] == s2.code[first]);
    assert(s3.code[skip] == s2.code[skip]);
    assert(p.code[skip] == s4.code[skip]);
    assert(p.code[third] == s4.code[third]);
    if !and {
        assert(s4.code[first + 1] == s3.code[first + 1]);
        assert(s3.code[first + 1] == s2.code[first + 1]);
    }
}

proof fn lemma_circuit(p: Image, env: Env, m: Memory, s: State, e: Expr, expected: Option<Shape>)
    requires
        ready(p, env, m, s, expr::unchecked(s, e, expected)),
        e.kind matches ExprKind::Binary(op, _, _) && (op == BinaryOp::And || op == BinaryOp::Or),
    ensures
        computes(p, m, s, meaning::meaning_of(env, e), expr::unchecked(s, e, expected)),
    decreases e, 0int,
{
    let (op, left, right) = match e.kind {
        ExprKind::Binary(op, left, right) => (op, *left, *right),
        _ => arbitrary(),
    };
    assert(decreases_to!(e => left) && decreases_to!(e => right));
    let and = op == BinaryOp::And;
    let b = Some(Shape::Bool);
    code::lemma_matched_facts(env, s, m);
    growth::lemma_grown(s, left, b);
    let (s1, l) = expr::expression(s, left, b)->Ok_0;
    let (s2, result) = expr::opened(s1, l, and, e.span)->Ok_0;
    assert(growth::extends(s1, s2) && growth::scoped(s2));
    growth::lemma_grown(s2, right, b);
    let (s3, r) = expr::expression(s2, right, b)->Ok_0;
    let (s4, last) = expr::unchecked(s, e, expected)->Ok_0;
    lemma_circuit_code(p, s, s1, l, and, e.span, s3, r);
    lemma_expression(p, env, m, s, left, b);
    code::lemma_compose(p, m, s, s1, s4);
    match code::ran(p, m, s, s1) {
        Course::At(m1) => {
            let x = m1.registers[l];
            code::lemma_bool(x, s1.registers[l as int]);
            let m2 = code::set(m1, result, x);
            lemma_circuit_start(p, m1, s1, s2, s4, l, result, and);
            if x == Value::Bool(and) {
                growth::lemma_extends(s, s1, s2);
                code::lemma_matched(env, s, s2, m, m2);
                lemma_expression(p, env, m2, s2, right, b);
                machine::lemma_run_on(
                    p,
                    m2,
                    s2.code.len() as int,
                    s3.code.len() as int,
                    s4.code.len() as int,
                );
                let c2 = code::ran(p, m2, s2, s3);
                meaning::lemma_circuit_open(env, e, x, code::answer(c2, r));
                if let Course::At(m3) = c2 {
                    let third = s3.code.len() as int;
                    code::lemma_bool(m3.registers[r], s3.registers[r as int]);
                    code::lemma_copy(p, m3, third, result, r);
                    code::lemma_step(p, m3, third, third + 1);
                    let m4 = code::set(m3, result, m3.registers[r]);
                    assert(machine::run(p, m4, third + 1, third + 1) == Course::At(m4)) by {
                        reveal(machine::run);
                    }
                    assert(s4.registers[result as int] == Shape::Bool);
                }
            } else {
                meaning::lemma_circuit_decided(env, e, x);
                assert(s4.registers[result as int] == Shape::Bool);
            }
        },
        Course::Stopped(stop) => {
            meaning::lemma_left_stops(env, e, stop);
        },
        _ => {},
    }
}

/// The instructions between the operands of `&&` or `||`.
proof fn lemma_circuit_start(
    p: Image,
    m: Memory,
    s1: State,
    s2: State,
    s4: State,
    l: u16,
    result: u16,
    and: bool,
)
    requires
        ({
            let first = s1.code.len() as int;
            let end = s4.code.len() as int;
            &&& l < s1.registers.len()
            &&& result == s1.registers.len()
            &&& s2.code.len() < end <= u32::MAX
            &&& m.registers[l] is Bool
            &&& p.code[first] == compile::plain(0x03, seq![result, l])
            &&& and ==> s2.code.len() == first + 2 && p.code[first + 1] == compile::aimed(
                compile::open_jump(Some(l)),
                end,
            )
            &&& !and ==> s2.code.len() == first + 3 && p.code[first + 1] == compile::aimed(
                compile::open_jump(Some(l)),
                first + 3,
            ) && p.code[first + 2] == compile::aimed(compile::open_jump(None), end)
        }),
    ensures
        ({
            let m2 = code::set(m, result, m.registers[l]);
            code::ran(p, m, s1, s4) == if m.registers[l] == Value::Bool(and) {
                code::ran(p, m2, s2, s4)
            } else {
                Course::At(m2)
            }
        }),
{
    let first = s1.code.len() as int;
    let end = s4.code.len() as int;
    let m2 = code::set(m, result, m.registers[l]);
    code::lemma_copy(p, m, first, result, l);
    code::lemma_step(p, m, first, end);
    assert(m2.registers[l] == m.registers[l]);
    assert(machine::run(p, m2, end, end) == Course::At(m2)) by {
        reveal(machine::run);
    }
    if and {
        code::lemma_turn_jump(p, m2, first + 1, Some(l), end);
    } else {
        code::lemma_turn_jump(p, m2, first + 1, Some(l), first + 3);
        code::lemma_turn_jump(p, m2, first + 2, None, end);
        code::lemma_step(p, m2, first + 2, end);
    }
    code::lemma_step(p, m2, first + 1, end);
}

/// What reading the place that an expression names needs: its key, and its
/// table.
pub proof fn lemma_place(p: Image, env: Env, m: Memory, s: State, e: Expr)
    requires
        code::matched(env, s, m),
        p.host == env.host,
        intrinsics::place(s, e) matches Ok((s1, _, _)) && code::loaded(
            p,
            s1,
            s.code.len() as int,
        ),
    ensures
        ({
            let (s1, table, key) = intrinsics::place(s, e)->Ok_0;
            let c = code::ran(p, m, s, s1);
            &&& code::regular(c, s, s1, key, m)
            &&& e.kind matches ExprKind::Index(t, k) && meaning::names_table(
                env,
                *t,
                table.index as int,
            ) && meaning::meaning_of(env, *k)(code::answer(c, key))
            &&& c matches Course::At(m1) ==> machine::has_type(m1.registers[key], table.key)
        }),
    decreases e, 0int,
{
    code::lemma_matched_facts(env, s, m);
    growth::lemma_grown_place(s, e);
    if let ExprKind::Index(t, k) = e.kind {
        code::lemma_table(env, s, m, *t);
        let table = intrinsics::table_of(s, *t)->Ok_0;
        lemma_expression(p, env, m, s, *k, Some(table.key));
        let (s1, _, key) = intrinsics::place(s, e)->Ok_0;
        if let Course::At(m1) = code::ran(p, m, s, s1) {
            code::lemma_same_values(m1.registers[key], s1.registers[key as int], table.key);
        }
    }
}

/// A read of the place that an expression names.
pub proof fn lemma_row(
    p: Image,
    env: Env,
    m: Memory,
    s: State,
    e: Expr,
    opcode: u8,
    ty: Shape,
    span: Span,
)
    requires
        code::matched(env, s, m),
        p.host == env.host,
        opcode == 0x40 || opcode == 0x41,
        intrinsics::place(s, e) matches Ok((s1, table, key)) && ty == (if opcode == 0x40 {
            table.value
        } else {
            Shape::Bool
        }) && (compile::read_from(s1, ty, opcode, table.index, key, span) matches Ok((s2, _))
            && code::loaded(p, s2, s.code.len() as int)),
    ensures
        ({
            let (s1, table, key) = intrinsics::place(s, e)->Ok_0;
            computes(
                p,
                m,
                s,
                meaning::row_meaning(env, e, opcode == 0x41),
                compile::read_from(s1, ty, opcode, table.index, key, span),
            )
        }),
    decreases e, 1int,
{
    let (s1, table, key) = intrinsics::place(s, e)->Ok_0;
    let (s2, r) = compile::read_from(s1, ty, opcode, table.index, key, span)->Ok_0;
    code::lemma_matched_facts(env, s, m);
    growth::lemma_grown_place(s, e);
    growth::lemma_grown_read(s1, ty, opcode, table.index, key, span);
    code::lemma_loaded(p, s1, s2, s.code.len() as int, s1.code.len() as int);
    lemma_place(p, env, m, s, e);
    code::lemma_compose(p, m, s, s1, s2);
    let c1 = code::ran(p, m, s, s1);
    meaning::lemma_row_means(
        env,
        e,
        code::answer(c1, key),
        table.index as int,
        opcode == 0x41,
    );
    if let Course::At(m1) = c1 {
        code::lemma_reads_row(p, m1, s1, ty, opcode, table.index, key, span);
        let k = (table.index, m1.registers[key]);
        if env.rows.contains_key(k) {
            assert(machine::has_type(env.rows[k], table.value));
        }
        assert(machine::has_type(Value::Bool(env.rows.contains_key(k)), Shape::Bool)) by {
            reveal(machine::has_type);
        }
    }
}

/// What a run leaves in some registers, or why it stopped.
pub open spec fn answers(c: Course, rs: Seq<u16>) -> Result<Seq<Value>, Stop> {
    match c {
        Course::At(m) => Ok(code::values(m, rs)),
        Course::Stopped(stop) => Err(stop),
        _ => Err(Stop::Malformed),
    }
}

/// Whether a run gets to its end with values of the types of some registers.
pub open spec fn regular_list(c: Course, s: State, s1: State, rs: Seq<u16>, m: Memory) -> bool {
    match c {
        Course::At(m1) => code::kept(s, m, m1) && forall|k: int|
            0 <= k < rs.len() ==> machine::has_type(
                m1.registers[#[trigger] rs[k]],
                s1.registers[rs[k] as int],
            ),
        Course::Stopped(stop) => stop !is Malformed,
        _ => false,
    }
}

proof fn lemma_list(
    p: Image,
    env: Env,
    m: Memory,
    s: State,
    list: Seq<Expr>,
    hints: Seq<Shape>,
    i: int,
)
    requires
        code::matched(env, s, m),
        p.host == env.host,
        0 <= i <= list.len(),
        expr::expressions(s, list, hints, i) matches Ok((s1, _)) && code::loaded(
            p,
            s1,
            s.code.len() as int,
        ),
    ensures
        ({
            let (s1, rs) = expr::expressions(s, list, hints, i)->Ok_0;
            let c = code::ran(p, m, s, s1);
            regular_list(c, s, s1, rs, m) && meaning::list_meaning(env, list, i)(answers(c, rs))
        }),
    decreases list, list.len() - i,
{
    let (s2, rs) = expr::expressions(s, list, hints, i)->Ok_0;
    if i < list.len() {
        let h = if i < hints.len() {
            Some(hints[i])
        } else {
            None
        };
        assert(decreases_to!(list => list[i]));
        code::lemma_matched_facts(env, s, m);
        growth::lemma_grown(s, list[i], h);
        let (s1, r) = expr::expression(s, list[i], h)->Ok_0;
        growth::lemma_grown_list(s1, list, hints, i + 1);
        let (_, rest) = expr::expressions(s1, list, hints, i + 1)->Ok_0;
        code::lemma_loaded(p, s1, s2, s.code.len() as int, s1.code.len() as int);
        lemma_expression(p, env, m, s, list[i], h);
        code::lemma_compose(p, m, s, s1, s2);
        match code::ran(p, m, s, s1) {
            Course::At(m1) => {
                code::lemma_matched(env, s, s1, m, m1);
                lemma_list(p, env, m1, s1, list, hints, i + 1);
                let c2 = code::ran(p, m1, s1, s2);
                meaning::lemma_list_means(env, list, i, m1.registers[r], answers(c2, rest));
                if let Course::At(m2) = c2 {
                    assert(m2.registers[r] == m1.registers[r]);
                    assert(code::values(m2, rs) =~= seq![m1.registers[r]] + code::values(
                        m2,
                        rest,
                    ));
                    assert forall|k: int| 0 <= k < rs.len() implies machine::has_type(
                        m2.registers[#[trigger] rs[k]],
                        s2.registers[rs[k] as int],
                    ) by {
                        if k > 0 {
                            assert(rs[k] == rest[k - 1]);
                        } else {
                            assert(s2.registers[r as int] == s1.registers[r as int]);
                        }
                    }
                }
            },
            Course::Stopped(stop) => {
                meaning::lemma_list_stops(env, list, i, stop);
            },
            _ => {},
        }
    } else {
        code::lemma_stays(p, m, s);
        meaning::lemma_list_ends(env, list, i);
        assert(code::values(m, rs) =~= Seq::empty());
    }
}

proof fn lemma_tuple_expression(
    p: Image,
    env: Env,
    m: Memory,
    s: State,
    e: Expr,
    expected: Option<Shape>,
)
    requires
        ready(p, env, m, s, expr::unchecked(s, e, expected)),
        e.kind is Tuple,
    ensures
        computes(p, m, s, meaning::meaning_of(env, e), expr::unchecked(s, e, expected)),
    decreases e, 0int,
{
    let elements = e.kind->Tuple_0;
    if elements@.len() == 0 {
        code::lemma_matched_facts(env, s, m);
        code::lemma_constant(p, m, s, Shape::Unit, Seq::empty(), e.span);
        reveal(machine::has_type);
        reveal(meaning::meaning_of);
    } else {
        lemma_tuple_list(p, env, m, s, elements@, expected, e.span);
        let c = code::ran(
            p,
            m,
            s,
            expr::expressions(s, elements@, expr::field_hints(expected), 0)->Ok_0.0,
        );
        let fields = expr::expressions(s, elements@, expr::field_hints(expected), 0)->Ok_0.1;
        meaning::lemma_tuple_means(env, e, answers(c, fields));
    }
}

/// The tuple of some expressions.
pub proof fn lemma_tuple_list(
    p: Image,
    env: Env,
    m: Memory,
    s: State,
    list: Seq<Expr>,
    expected: Option<Shape>,
    span: Span,
)
    requires
        code::matched(env, s, m),
        p.host == env.host,
        expr::expressions(s, list, expr::field_hints(expected), 0) matches Ok((s1, fields)) && (
        expr::tuple_of(s1, fields, span) matches Ok((s2, _)) && code::loaded(
            p,
            s2,
            s.code.len() as int,
        )),
    ensures
        ({
            let (s1, fields) = expr::expressions(
                s,
                list,
                expr::field_hints(expected),
                0,
            )->Ok_0;
            let (s2, r) = expr::tuple_of(s1, fields, span)->Ok_0;
            let c1 = code::ran(p, m, s, s1);
            let c = code::ran(p, m, s, s2);
            &&& code::regular(c, s, s2, r, m)
            &&& meaning::list_meaning(env, list, 0)(answers(c1, fields))
            &&& code::answer(c, r) == match answers(c1, fields) {
                Err(stop) => Err::<Value, Stop>(stop),
                Ok(list) => Ok(Value::Tuple(list)),
            }
        }),
    decreases list, list.len() + 1,
{
    let hints = expr::field_hints(expected);
    let (s1, fields) = expr::expressions(s, list, hints, 0)->Ok_0;
    let (s2, r) = expr::tuple_of(s1, fields, span)->Ok_0;
    code::lemma_matched_facts(env, s, m);
    growth::lemma_grown_list(s, list, hints, 0);
    assert(growth::extends(s1, s2));
    code::lemma_loaded(p, s1, s2, s.code.len() as int, s1.code.len() as int);
    lemma_list(p, env, m, s, list, hints, 0);
    code::lemma_compose(p, m, s, s1, s2);
    if let Course::At(m1) = code::ran(p, m, s, s1) {
        code::lemma_tuple_instruction(p, m1, s1, fields, span);
    }
}

proof fn lemma_field_expression(
    p: Image,
    env: Env,
    m: Memory,
    s: State,
    e: Expr,
    expected: Option<Shape>,
)
    requires
        ready(p, env, m, s, expr::unchecked(s, e, expected)),
        e.kind is Field,
    ensures
        computes(p, m, s, meaning::meaning_of(env, e), expr::unchecked(s, e, expected)),
    decreases e, 0int,
{
    let base = *e.kind->Field_0;
    if let Member::Index(index) = e.kind->Field_1 {
        let index = index as int;
        code::lemma_matched_facts(env, s, m);
        growth::lemma_grown(s, base, None);
        let (s1, source) = expr::expression(s, base, None)->Ok_0;
        let (s2, r) = expr::field_of(s1, source, index, e.span)->Ok_0;
        assert(growth::extends(s1, s2));
        code::lemma_loaded(p, s1, s2, s.code.len() as int, s1.code.len() as int);
        lemma_expression(p, env, m, s, base, None);
        code::lemma_compose(p, m, s, s1, s2);
        let c1 = code::ran(p, m, s, s1);
        meaning::lemma_field_means(env, e, code::answer(c1, source));
        if let Course::At(m1) = c1 {
            code::lemma_field_instruction(p, m1, s1, source, index, e.span);
        }
    }
}

/// A translated expression, run from what the expression finds, leaves in its
/// register a value that the expression means, and the rows and all earlier
/// registers as they were; or it aborts as the expression does. Its value is of
/// the type of the register.
pub proof fn expressions_compute_what_they_mean(
    p: Image,
    env: Env,
    m: Memory,
    s: State,
    e: Expr,
    expected: Option<Shape>,
    s1: State,
    r: u16,
)
    requires
        expr::expression(s, e, expected) == Ok::<(State, u16), Fault>((s1, r)),
        code::matched(env, s, m),
        p.host == env.host,
        code::loaded(p, s1, s.code.len() as int),
    ensures
        match machine::run(p, m, s.code.len() as int, s1.code.len() as int) {
            Course::At(m1) => {
                &&& meaning::meaning_of(env, e)(Ok(m1.registers[r]))
                &&& machine::has_type(m1.registers[r], s1.registers[r as int])
                &&& code::kept(s, m, m1)
                &&& code::matched(env, s1, m1)
            },
            Course::Stopped(stop) => meaning::meaning_of(env, e)(Err(stop)) && stop !is Malformed,
            _ => false,
        },
{
    code::lemma_matched_facts(env, s, m);
    lemma_expression(p, env, m, s, e, expected);
    growth::lemma_grown(s, e, expected);
    if let Course::At(m1) = code::ran(p, m, s, s1) {
        code::lemma_matched(env, s, s1, m, m1);
    }
}

} // verus!
