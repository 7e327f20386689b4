//! Translation adds to what is there.

use super::super::ast::{BinaryOp, Expr, ExprKind, Literal, UnaryOp};
use super::super::compile;
use super::super::compile::expr;
use super::super::compile::intrinsics;
use super::super::compile::intrinsics::Intrinsic;
use super::super::compile::{State, TableShape, Valued};
use super::super::error::{Fault, Span};
use super::super::types;
use super::super::types::Shape;
use crate::bytes;
use vstd::prelude::*;

verus! {

// ---- Translation adds to what is there -----------------------------------

/// Whether `b` starts with `a`.
pub open spec fn starts<A>(b: Seq<A>, a: Seq<A>) -> bool {
    &&& a.len() <= b.len()
    &&& forall|i: int|
        #![trigger a[i]]
        #![trigger b[i]]
        0 <= i < a.len() ==> b[i] == a[i]
}

/// Whether `b` has all registers, constants and instructions of `a`, and the same
/// names.
pub open spec fn extends(a: State, b: State) -> bool {
    &&& starts(b.registers, a.registers)
    &&& starts(b.constants, a.constants)
    &&& starts(b.code, a.code)
    &&& a.locals == b.locals
    &&& a.captures == b.captures
    &&& a.tables == b.tables
}

/// Whether the registers of all names exist, and the tables are numbered in
/// their order.
pub open spec fn scoped(s: State) -> bool {
    &&& s.registers.len() <= 65535
    &&& s.constants.len() <= 65535
    &&& s.code.len() <= 65535
    &&& s.tables.len() <= 65535
    &&& forall|i: int|
        0 <= i < s.registers.len() ==> types::valid_type(#[trigger] s.registers[i], true)
    &&& forall|i: int|
        0 <= i < s.locals.len() ==> (#[trigger] s.locals[i]).1.register < s.registers.len()
    &&& forall|i: int|
        0 <= i < s.captures.len() ==> (#[trigger] s.captures[i]).1 < s.registers.len()
    &&& forall|i: int| 0 <= i < s.tables.len() ==> (#[trigger] s.tables[i]).1.index == i
}

/// Whether the result has the same type.
pub open spec fn returns_alike(s: State, s1: State) -> bool {
    s1.result == s.result && s1.declared_result == s.declared_result
}

/// Whether a translated expression adds to what is there.
pub open spec fn grown(s: State, result: Valued) -> bool {
    result matches Ok((s1, r)) ==> extends(s, s1) && scoped(s1) && r < s1.registers.len()
        && returns_alike(s, s1)
}

pub proof fn lemma_grown_constant(s: State, ty: Shape, value: Seq<u8>, span: Span)
    requires
        scoped(s),
    ensures
        grown(s, compile::with_constant(s, ty, value, span)),
{
}

pub proof fn lemma_grown_produced(s: State, ty: Shape, opcode: u8, operands: Seq<u16>, span: Span)
    requires
        scoped(s),
    ensures
        grown(s, compile::produced(s, ty, opcode, operands, span)),
{
}

pub proof fn lemma_grown_read(s: State, ty: Shape, opcode: u8, table: u16, key: u16, span: Span)
    requires
        scoped(s),
    ensures
        grown(s, compile::read_from(s, ty, opcode, table, key, span)),
{
}

pub proof fn lemma_extends(a: State, b: State, c: State)
    requires
        extends(a, b),
        extends(b, c),
    ensures
        extends(a, c),
{
}

/// The register of a name exists.
pub proof fn lemma_grown_name(s: State, name: Seq<char>)
    requires
        scoped(s),
    ensures
        compile::find(s.locals, name) matches Some(local) ==> local.register < s.registers.len(),
        compile::find(s.captures, name) matches Some(register) ==> register < s.registers.len(),
{
    compile::lemma_find(s.locals, name);
    compile::lemma_find(s.captures, name);
    if let Some(local) = compile::find(s.locals, name) {
        let i = choose|i: int| 0 <= i < s.locals.len() && #[trigger] s.locals[i] == (name, local);
    }
    if let Some(register) = compile::find(s.captures, name) {
        let i = choose|i: int|
            0 <= i < s.captures.len() && #[trigger] s.captures[i] == (name, register);
    }
}

pub proof fn lemma_grown(s: State, e: Expr, expected: Option<Shape>)
    requires
        scoped(s),
    ensures
        grown(s, expr::expression(s, e, expected)),
        expr::expression(s, e, expected) matches Ok((s1, r)) ==> (expected matches Some(ty)
            ==> types::same_shape(s1.registers[r as int], ty)),
    decreases e, 2int,
{
    lemma_grown_unchecked(s, e, expected);
}

pub proof fn lemma_grown_unchecked(s: State, e: Expr, expected: Option<Shape>)
    requires
        scoped(s),
    ensures
        grown(s, expr::unchecked(s, e, expected)),
    decreases e, 1int,
{
    match e.kind {
        ExprKind::Paren(inner) => {
            lemma_grown(s, *inner, expected);
        },
        ExprKind::Name(name) => {
            lemma_grown_name(s, name@);
        },
        ExprKind::Literal(l) => {
            if let Ok((ty, value)) = expr::literal(l, e.span, expected) {
                lemma_grown_constant(s, ty, value, e.span);
            }
        },
        ExprKind::Unary(op, inner) => {
            match (op, inner.kind) {
                (UnaryOp::Neg, ExprKind::Literal(Literal::Int(value, suffix))) => {
                    if let Ok(n) = expr::negative(value, suffix, e.span, inner.span) {
                        lemma_grown_constant(
                            s,
                            Shape::I64,
                            bytes::le64(expr::negated(n)),
                            e.span,
                        );
                    }
                },
                _ => {
                    lemma_grown(s, *inner, expected);
                },
            }
        },
        ExprKind::Binary(op, left, right) => {
            lemma_grown_binary(s, e, op, *left, *right, expected);
        },
        ExprKind::Index(..) => {
            lemma_grown_place(s, e);
        },
        ExprKind::Tuple(elements) => {
            if elements@.len() > 0 {
                lemma_grown_list(s, elements@, expr::field_hints(expected), 0);
            } else {
                lemma_grown_constant(s, Shape::Unit, Seq::empty(), e.span);
            }
        },
        ExprKind::Field(base, member) => {
            lemma_grown(s, *base, None);
        },
        ExprKind::Call(function, args) => {
            lemma_grown_call(s, e.span, *function, args@, expected);
        },
        _ => {},
    }
}

#[verifier::rlimit(40)]
proof fn lemma_grown_binary(
    s: State,
    e: Expr,
    op: BinaryOp,
    left: Expr,
    right: Expr,
    expected: Option<Shape>,
)
    requires
        scoped(s),
        e.kind == ExprKind::Binary(op, Box::new(left), Box::new(right)),
    ensures
        grown(s, expr::unchecked(s, e, expected)),
    decreases e, 0int,
{
    if op == BinaryOp::And || op == BinaryOp::Or {
        lemma_grown(s, left, Some(Shape::Bool));
        if let Ok((s1, l)) = expr::expression(s, left, Some(Shape::Bool)) {
            if let Ok((s2, result)) = expr::opened(s1, l, op == BinaryOp::And, e.span) {
                assert(extends(s1, s2) && scoped(s2) && result < s2.registers.len()
                    && s1.code.len() < s2.code.len() && returns_alike(s1, s2));
                lemma_grown(s2, right, Some(Shape::Bool));
            }
        }
    } else {
        let opcode = expr::opcode_of(op).unwrap();
        let h = expr::left_hint(s, opcode, right, expected);
        lemma_grown(s, left, h);
        if let Ok((s1, l)) = expr::expression(s, left, h) {
            let ty = Some(expr::right_type(opcode, s1.registers[l as int]));
            lemma_grown(s1, right, ty);
        }
    }
}

/// Whether translated expressions add to what is there.
pub open spec fn grown_list(
    s: State,
    list: Seq<Expr>,
    i: int,
    result: Result<(State, Seq<u16>), Fault>,
) -> bool {
    result matches Ok((s1, rs)) ==> {
        &&& extends(s, s1)
        &&& scoped(s1)
        &&& returns_alike(s, s1)
        &&& rs.len() == list.len() - i
        &&& forall|k: int| 0 <= k < rs.len() ==> (#[trigger] rs[k]) < s1.registers.len()
    }
}

pub proof fn lemma_grown_list(s: State, list: Seq<Expr>, hints: Seq<Shape>, i: int)
    requires
        scoped(s),
        0 <= i <= list.len(),
    ensures
        grown_list(s, list, i, expr::expressions(s, list, hints, i)),
    decreases list, list.len() - i,
{
    if i < list.len() {
        let h = if i < hints.len() {
            Some(hints[i])
        } else {
            None
        };
        assert(decreases_to!(list => list[i]));
        lemma_grown(s, list[i], h);
        if let Ok((s1, r)) = expr::expression(s, list[i], h) {
            lemma_grown_list(s1, list, hints, i + 1);
            if let Ok((s2, rest)) = expr::expressions(s1, list, hints, i + 1) {
                let rs = seq![r] + rest;
                assert forall|k: int| 0 <= k < rs.len() implies (#[trigger] rs[k])
                    < s2.registers.len() by {
                    if k > 0 {
                        assert(rs[k] == rest[k - 1]);
                    }
                }
            }
        }
    }
}

/// Whether a translated place adds to what is there.
pub open spec fn grown_place(
    s: State,
    result: Result<(State, TableShape, u16), Fault>,
) -> bool {
    result matches Ok((s1, table, key)) ==> {
        &&& extends(s, s1)
        &&& scoped(s1)
        &&& returns_alike(s, s1)
        &&& key < s1.registers.len()
        &&& table.index < s1.tables.len()
        &&& s1.tables[table.index as int].1 == table
        &&& types::same_shape(s1.registers[key as int], table.key)
    }
}

pub proof fn lemma_grown_place(s: State, e: Expr)
    requires
        scoped(s),
    ensures
        grown_place(s, intrinsics::place(s, e)),
    decreases e, 0int,
{
    if let ExprKind::Index(table, key) = e.kind {
        if let ExprKind::Name(name) = table.kind {
            compile::lemma_find(s.tables, name@);
            if let Some(info) = compile::find(s.tables, name@) {
                let i = choose|i: int|
                    0 <= i < s.tables.len() && #[trigger] s.tables[i] == (name@, info);
                assert(s.tables[i].1.index == i);
                lemma_grown(s, *key, Some(info.key));
            }
        }
    }
}

pub proof fn lemma_grown_call(
    s: State,
    span: Span,
    function: Expr,
    args: Seq<Expr>,
    expected: Option<Shape>,
)
    requires
        scoped(s),
    ensures
        grown(s, intrinsics::called(s, span, function, args, expected)),
    decreases args, args.len() + 2,
{
    if let ExprKind::Name(name) = function.kind {
        if name@ == "__capture"@ && args.len() == 1 {
            if let ExprKind::Name(name) = args[0].kind {
                lemma_grown_name(s, name@);
            }
        } else if name@ == "tuple"@ {
            lemma_grown_list(s, args, expr::field_hints(expected), 0);
        } else if let Some(op) = intrinsics::intrinsic(name@) {
            if args.len() == intrinsics::arity(op) {
                lemma_grown_operation(s, span, name@, op, args, expected);
            }
        }
    }
}

pub proof fn lemma_grown_operation(
    s: State,
    span: Span,
    name: Seq<char>,
    op: Intrinsic,
    args: Seq<Expr>,
    expected: Option<Shape>,
)
    requires
        scoped(s),
        args.len() == intrinsics::arity(op),
    ensures
        grown(s, intrinsics::operation(s, span, name, op, args, expected)),
    decreases args, args.len() + 1,
{
    assert(decreases_to!(args => args[0]));
    match op {
        Intrinsic::Scan => {
            lemma_grown_scan(s, span, args);
        },
        Intrinsic::Load => {
            lemma_grown_place(s, args[0]);
        },
        Intrinsic::Exists => {
            lemma_grown_place(s, args[0]);
        },
        Intrinsic::Binary(opcode) => {
            assert(decreases_to!(args => args[1]));
            let h = expr::left_hint(s, opcode, args[1], expected);
            lemma_grown(s, args[0], h);
            if let Ok((s1, l)) = expr::expression(s, args[0], h) {
                lemma_grown(
                    s1,
                    args[1],
                    Some(expr::right_type(opcode, s1.registers[l as int])),
                );
            }
        },
        _ => {
            let h = intrinsics::operand_type(op, expected);
            lemma_grown(s, args[0], h);
            if let Ok((s1, source)) = expr::expression(s, args[0], h) {
                lemma_grown_applied(s1, span, name, op, source, args);
            }
        },
    }
}

pub proof fn lemma_grown_applied(
    s: State,
    span: Span,
    name: Seq<char>,
    op: Intrinsic,
    source: u16,
    args: Seq<Expr>,
)
    requires
        scoped(s),
        args.len() == intrinsics::arity(op),
        source < s.registers.len(),
    ensures
        grown(s, intrinsics::applied(s, span, name, op, source, args)),
    decreases args, args.len(),
{
    if args.len() >= 2 {
        assert(decreases_to!(args => args[1]));
        lemma_grown(s, args[1], Some(Shape::U64));
        lemma_grown(s, args[1], Some(s.registers[source as int]));
        if args.len() >= 3 {
            assert(decreases_to!(args => args[2]));
            if let Ok((s1, r)) = expr::expression(s, args[1], Some(Shape::U64)) {
                lemma_grown(s1, args[2], Some(Shape::U64));
            }
        }
    }
}

pub proof fn lemma_grown_scan(s: State, span: Span, args: Seq<Expr>)
    requires
        scoped(s),
        args.len() == 6,
    ensures
        grown(s, intrinsics::scanned(s, span, args)),
    decreases args, args.len(),
{
    assert(decreases_to!(args => args[1]));
    assert(decreases_to!(args => args[2]));
    if let Ok(table) = intrinsics::table_of(s, args[0]) {
        if let Ok(flags) = intrinsics::immediate_of(args[3], 3) {
            lemma_grown_end(s, args[1], flags % 2 == 1, table.key);
            if let Ok((s1, lower)) = intrinsics::endpoint(s, args[1], flags % 2 == 1, table.key) {
                lemma_grown_end(s1, args[2], flags / 2 == 1, table.key);
            }
        }
    }
}

pub proof fn lemma_grown_end(s: State, e: Expr, included: bool, key: Shape)
    requires
        scoped(s),
    ensures
        intrinsics::endpoint(s, e, included, key) matches Ok((s1, r)) ==> {
            &&& extends(s, s1)
            &&& scoped(s1)
            &&& returns_alike(s, s1)
            &&& intrinsics::unbounded(e) ==> r == 0xffff && s1 == s
            &&& !intrinsics::unbounded(e) ==> r < s1.registers.len()
        },
    decreases e, 3int,
{
    if !intrinsics::unbounded(e) {
        lemma_grown(s, e, Some(key));
    }
}

} // verus!
