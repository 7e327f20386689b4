//! Well-typed operations are translated, and others are refused.

use super::super::ast::{BinaryOp, Expr, ExprKind, LetStmt, Literal, Suffix, UnaryOp};
use super::super::compile;
use super::super::compile::expr;
use super::super::compile::intrinsics;
use super::super::compile::intrinsics::Intrinsic;
use super::super::compile::statement;
use super::super::compile::State;
use super::super::error;
use super::super::error::Fault;
use super::super::grammar;
use super::super::machine;
use super::super::types;
use super::super::types::Shape;
use super::code;
use super::growth;
use vstd::prelude::*;

verus! {

/// The type of an operation on operands of the types `a` and `b`, where there is
/// one.
pub open spec fn operation_type(op: BinaryOp, a: Shape, b: Shape) -> Option<Shape> {
    match op {
        BinaryOp::And | BinaryOp::Or => if a == Shape::Bool && b == Shape::Bool {
            Some(Shape::Bool)
        } else {
            None
        },
        BinaryOp::Add | BinaryOp::Sub | BinaryOp::Mul | BinaryOp::Div | BinaryOp::Rem => if a == b
            && (a == Shape::I64 || a == Shape::U64) {
            Some(a)
        } else {
            None
        },
        BinaryOp::BitAnd | BinaryOp::BitOr | BinaryOp::BitXor => if a == b && (a == Shape::I64 || a
            == Shape::U64 || a == Shape::Bool) {
            Some(a)
        } else {
            None
        },
        BinaryOp::Shl | BinaryOp::Shr => if (a == Shape::I64 || a == Shape::U64) && b
            == Shape::U64 {
            Some(a)
        } else {
            None
        },
        BinaryOp::Equal
        | BinaryOp::NotEqual
        | BinaryOp::Less
        | BinaryOp::LessEqual
        | BinaryOp::Greater
        | BinaryOp::GreaterEqual => if types::same_shape(a, b) && !(a is Rows) {
            Some(Shape::Bool)
        } else {
            None
        },
    }
}

/// The type of a unary operation on an operand of the type `a`.
pub open spec fn unary_type(op: UnaryOp, a: Shape) -> Option<Shape> {
    match op {
        UnaryOp::Neg => if a == Shape::I64 {
            Some(a)
        } else {
            None
        },
        UnaryOp::Not => if a == Shape::Bool || a == Shape::I64 || a == Shape::U64 {
            Some(a)
        } else {
            None
        },
        _ => None,
    }
}

/// Whether an expression is a local of the type `ty`.
pub open spec fn is_local(s: State, e: Expr, ty: Shape) -> bool {
    &&& e.kind is Name
    &&& compile::find(s.locals, e.kind->Name_0@) matches Some(local)
        && s.registers[local.register as int] == ty
}

/// Whether a place that may require a shape takes the type `ty`.
pub open spec fn accepts(expected: Option<Shape>, ty: Shape) -> bool {
    expected matches Some(wanted) ==> types::same_shape(ty, wanted)
}

/// Whether there is room for some more registers and instructions.
pub open spec fn roomy(s: State) -> bool {
    s.registers.len() + 4 <= 65535 && s.constants.len() + 4 <= 65535 && s.code.len() + 4 <= 65535
}

proof fn lemma_local(s: State, e: Expr, ty: Shape, expected: Option<Shape>)
    requires
        growth::scoped(s),
        is_local(s, e, ty),
    ensures
        expr::expression(s, e, expected) is Ok <==> accepts(expected, ty),
        expr::expression(s, e, expected) matches Ok((s1, r)) ==> s1 == s && r < s.registers.len()
            && s.registers[r as int] == ty,
        expr::hint(s, e) == Some(ty),
        types::valid_type(ty, true),
{
    compile::lemma_find(s.locals, e.kind->Name_0@);
}

/// An operation that decides by its left operand whether to look at the other.
proof fn lemma_lazy_operation(
    s: State,
    e: Expr,
    op: BinaryOp,
    left: Expr,
    right: Expr,
    a: Shape,
    b: Shape,
    expected: Option<Shape>,
)
    requires
        growth::scoped(s),
        roomy(s),
        e.kind == ExprKind::Binary(op, Box::new(left), Box::new(right)),
        is_local(s, left, a),
        is_local(s, right, b),
        op == BinaryOp::And || op == BinaryOp::Or,
    ensures
        expr::unchecked(s, e, expected) is Ok <==> a == Shape::Bool && b == Shape::Bool,
        expr::unchecked(s, e, expected) matches Ok((s1, r)) ==> s1.registers[r as int]
            == Shape::Bool,
{
    assert(types::valid_type(Shape::Bool, true));
    lemma_local(s, left, a, Some(Shape::Bool));
    if let Ok((s1, l)) = expr::expression(s, left, Some(Shape::Bool)) {
        if let Ok((s2, r)) = expr::opened(s1, l, op == BinaryOp::And, e.span) {
            compile::lemma_find(s.locals, right.kind->Name_0@);
            assert(s2.registers == s.registers.push(Shape::Bool));
            assert(growth::scoped(s2));
            lemma_local(s2, right, b, Some(Shape::Bool));
        }
    }
}

/// The instruction of an operation on two registers.
proof fn lemma_operation(s: State, e: Expr, op: BinaryOp, l: u16, r: u16, a: Shape, b: Shape)
    requires
        growth::scoped(s),
        roomy(s),
        l < s.registers.len() && s.registers[l as int] == a,
        r < s.registers.len() && s.registers[r as int] == b,
        op != BinaryOp::And && op != BinaryOp::Or,
    ensures
        ({
            let result = expr::binary(s, expr::opcode_of(op)->0, l, r, e.span);
            &&& result is Ok <==> operation_type(op, a, b) is Some
            &&& result matches Ok((s1, result)) ==> Some(s1.registers[result as int])
                == operation_type(op, a, b) && s1.registers.len() == s.registers.len() + 1
                && s1.code.len() == s.code.len() + 1
        }),
{
    assert(types::valid_type(Shape::Bool, true));
}

/// Any other operation.
proof fn lemma_eager_operation(
    s: State,
    e: Expr,
    op: BinaryOp,
    left: Expr,
    right: Expr,
    a: Shape,
    b: Shape,
    expected: Option<Shape>,
)
    requires
        growth::scoped(s),
        roomy(s),
        e.kind == ExprKind::Binary(op, Box::new(left), Box::new(right)),
        is_local(s, left, a),
        is_local(s, right, b),
        op != BinaryOp::And && op != BinaryOp::Or,
    ensures
        expr::unchecked(s, e, expected) is Ok <==> operation_type(op, a, b) is Some && accepts(
            expr::left_hint(s, expr::opcode_of(op)->0, right, expected),
            a,
        ) && types::same_shape(b, expr::right_type(expr::opcode_of(op)->0, a)),
        expr::unchecked(s, e, expected) matches Ok((s1, r)) ==> Some(s1.registers[r as int])
            == operation_type(op, a, b),
{
    let opcode = expr::opcode_of(op)->0;
    let wanted = expr::left_hint(s, opcode, right, expected);
    lemma_local(s, left, a, wanted);
    lemma_local(s, right, b, Some(expr::right_type(opcode, a)));
    if let Ok((s1, l)) = expr::expression(s, left, wanted) {
        if let Ok((s2, r)) = expr::expression(s, right, Some(expr::right_type(opcode, a))) {
            lemma_operation(s, e, op, l, r, a, b);
        }
    }
    assert(types::valid_type(Shape::Bool, true));
}

/// An operation on two locals is translated exactly when it has a type that its
/// place accepts, and its result has that type.
pub proof fn operations_on_locals_translate(
    s: State,
    e: Expr,
    op: BinaryOp,
    left: Expr,
    right: Expr,
    a: Shape,
    b: Shape,
    expected: Option<Shape>,
)
    requires
        growth::scoped(s),
        roomy(s),
        e.kind == ExprKind::Binary(op, Box::new(left), Box::new(right)),
        is_local(s, left, a),
        is_local(s, right, b),
    ensures
        expr::expression(s, e, expected) is Ok <==> (operation_type(op, a, b) matches Some(ty)
            && accepts(expected, ty)),
        expr::expression(s, e, expected) matches Ok((s1, r)) ==> Some(s1.registers[r as int])
            == operation_type(op, a, b),
{
    if op == BinaryOp::And || op == BinaryOp::Or {
        lemma_lazy_operation(s, e, op, left, right, a, b, expected);
    } else {
        lemma_eager_operation(s, e, op, left, right, a, b, expected);
        lemma_local(s, right, b, None);
        if types::same_shape(a, b) {
            types::shapes_are_symmetric(a, b);
        }
        if types::same_shape(b, a) {
            types::shapes_are_symmetric(b, a);
        }
        types::shapes_are_reflexive(a);
    }
}

/// A unary operation on a local is translated exactly when it has a type that
/// its place accepts, and its result has that type.
pub proof fn unary_operations_on_locals_translate(
    s: State,
    e: Expr,
    op: UnaryOp,
    inner: Expr,
    a: Shape,
    expected: Option<Shape>,
)
    requires
        growth::scoped(s),
        roomy(s),
        e.kind == ExprKind::Unary(op, Box::new(inner)),
        is_local(s, inner, a),
    ensures
        expr::expression(s, e, expected) is Ok <==> (unary_type(op, a) matches Some(ty)
            && accepts(expected, ty)),
        expr::expression(s, e, expected) matches Ok((s1, r)) ==> Some(s1.registers[r as int])
            == unary_type(op, a),
{
    lemma_local(s, inner, a, expected);
}

/// An integer literal has the type that its suffix names; without one, `u64`
/// where its place requires that, and `i64` otherwise. It is refused exactly
/// when its type does not hold it or its place requires another.
pub proof fn integer_literals_have_their_types(
    s: State,
    e: Expr,
    n: u64,
    suffix: Suffix,
    expected: Option<Shape>,
)
    requires
        growth::scoped(s),
        roomy(s),
        e.kind == ExprKind::Literal(Literal::Int(Some(n), suffix)),
        suffix == Suffix::U64 || suffix == Suffix::I64 || suffix == Suffix::Absent,
    ensures
        ({
            let unsigned = suffix == Suffix::U64 || (suffix == Suffix::Absent && expected == Some(
                Shape::U64,
            ));
            let ty = if unsigned {
                Shape::U64
            } else {
                Shape::I64
            };
            &&& expr::expression(s, e, expected) is Ok <==> (unsigned || n <= i64::MAX) && accepts(
                expected,
                ty,
            )
            &&& expr::expression(s, e, expected) matches Ok((s1, r)) ==> s1.registers[r as int]
                == ty
        }),
{
    assert(types::valid_type(Shape::U64, true));
    assert(types::valid_type(Shape::I64, true));
}

/// The name of an operation that an operator stands for.
pub open spec fn operator_name(op: BinaryOp) -> Option<Seq<char>> {
    match op {
        BinaryOp::Add => Some("add_checked"@),
        BinaryOp::Sub => Some("sub_checked"@),
        BinaryOp::Mul => Some("mul_checked"@),
        BinaryOp::Div => Some("div_checked"@),
        BinaryOp::Rem => Some("rem_checked"@),
        BinaryOp::Equal => Some("eq"@),
        BinaryOp::Less => Some("lt"@),
        BinaryOp::LessEqual => Some("le"@),
        BinaryOp::Greater => Some("gt"@),
        BinaryOp::GreaterEqual => Some("ge"@),
        BinaryOp::BitAnd => Some("bit_and"@),
        BinaryOp::BitOr => Some("bit_or"@),
        BinaryOp::BitXor => Some("bit_xor"@),
        BinaryOp::Shl => Some("shl_wrap"@),
        BinaryOp::Shr => Some("shr"@),
        _ => None,
    }
}

/// The names of the operators' operations are told apart from the others.
#[verifier::rlimit(40)]
proof fn lemma_operator_name(op: BinaryOp)
    requires
        operator_name(op) is Some,
    ensures
        operator_name(op)->0 != "__capture"@,
        operator_name(op)->0 != "tuple"@,
        intrinsics::intrinsic(operator_name(op)->0) == Some(
            Intrinsic::Binary(expr::opcode_of(op)->0),
        ),
{
    reveal_strlit("copy");
    reveal_strlit("load");
    reveal_strlit("exists");
    reveal_strlit("neg_checked");
    reveal_strlit("to_i64_checked");
    reveal_strlit("to_u64_checked");
    reveal_strlit("bool_not");
    reveal_strlit("bit_not");
    reveal_strlit("rows_len");
    reveal_strlit("byte_len");
    reveal_strlit("utf8_bytes");
    reveal_strlit("parse_utf8");
    reveal_strlit("sha256");
    reveal_strlit("add_checked");
    reveal_strlit("sub_checked");
    reveal_strlit("mul_checked");
    reveal_strlit("div_checked");
    reveal_strlit("rem_checked");
    reveal_strlit("eq");
    reveal_strlit("lt");
    reveal_strlit("le");
    reveal_strlit("gt");
    reveal_strlit("ge");
    reveal_strlit("bool_and");
    reveal_strlit("bool_or");
    reveal_strlit("bool_xor");
    reveal_strlit("bit_and");
    reveal_strlit("bit_or");
    reveal_strlit("bit_xor");
    reveal_strlit("shl_wrap");
    reveal_strlit("shr");
    reveal_strlit("__capture");
    reveal_strlit("tuple");
    let name = operator_name(op)->0;
    match op {
        BinaryOp::Add => {
            assert(name[0] == 'a' && name[1] == 'd' && name[2] == 'd' && name[3] == '_'
                && name[4] == 'c' && name[5] == 'h' && name[6] == 'e');
        },
        BinaryOp::Sub => {
            assert(name[0] == 's' && name[1] == 'u' && name[2] == 'b' && name[3] == '_'
                && name[4] == 'c' && name[5] == 'h' && name[6] == 'e');
        },
        BinaryOp::Mul => {
            assert(name[0] == 'm' && name[1] == 'u' && name[2] == 'l' && name[3] == '_'
                && name[4] == 'c' && name[5] == 'h' && name[6] == 'e');
        },
        BinaryOp::Div => {
            assert(name[0] == 'd' && name[1] == 'i' && name[2] == 'v' && name[3] == '_'
                && name[4] == 'c' && name[5] == 'h' && name[6] == 'e');
        },
        BinaryOp::Rem => {
            assert(name[0] == 'r' && name[1] == 'e' && name[2] == 'm' && name[3] == '_'
                && name[4] == 'c' && name[5] == 'h' && name[6] == 'e');
        },
        BinaryOp::Equal => {
            assert(name[0] == 'e' && name[1] == 'q');
        },
        BinaryOp::Less => {
            assert(name[0] == 'l' && name[1] == 't');
        },
        BinaryOp::LessEqual => {
            assert(name[0] == 'l' && name[1] == 'e');
        },
        BinaryOp::Greater => {
            assert(name[0] == 'g' && name[1] == 't');
        },
        BinaryOp::GreaterEqual => {
            assert(name[0] == 'g' && name[1] == 'e');
        },
        BinaryOp::BitAnd => {
            assert(name[0] == 'b' && name[1] == 'i' && name[2] == 't' && name[3] == '_'
                && name[4] == 'a' && name[5] == 'n' && name[6] == 'd');
        },
        BinaryOp::BitOr => {
            assert(name[0] == 'b' && name[1] == 'i' && name[2] == 't' && name[3] == '_'
                && name[4] == 'o' && name[5] == 'r');
        },
        BinaryOp::BitXor => {
            assert(name[0] == 'b' && name[1] == 'i' && name[2] == 't' && name[3] == '_'
                && name[4] == 'x' && name[5] == 'o' && name[6] == 'r');
        },
        BinaryOp::Shl => {
            assert(name[0] == 's' && name[1] == 'h' && name[2] == 'l' && name[3] == '_'
                && name[4] == 'w' && name[5] == 'r' && name[6] == 'a');
        },
        BinaryOp::Shr => {
            assert(name[0] == 's' && name[1] == 'h' && name[2] == 'r');
        },
        _ => {},
    }
}

/// An operator and its named operation are one: on the same integers they give
/// the same instructions.
pub proof fn operators_are_named_operations(
    s: State,
    e: Expr,
    call: Expr,
    op: BinaryOp,
    left: Expr,
    right: Expr,
    function: Expr,
    name: String,
    args: Vec<Expr>,
    expected: Option<Shape>,
)
    requires
        operator_name(op) == Some(name@),
        e.kind == ExprKind::Binary(op, Box::new(left), Box::new(right)),
        function.kind == ExprKind::Name(name),
        call.kind == ExprKind::Call(Box::new(function), args),
        args@ == seq![left, right],
        call.span == e.span,
        expr::expression(s, call, expected) is Ok,
    ensures
        expr::expression(s, call, expected) == expr::expression(s, e, expected),
{
    lemma_operator_name(op);
    assert(args@[0] == left && args@[1] == right);
    let opcode = expr::opcode_of(op)->0;
    assert(expr::unchecked(s, call, expected) == intrinsics::operation(
        s,
        e.span,
        name@,
        Intrinsic::Binary(opcode),
        args@,
        expected,
    ));
}

// ---- Statements ----------------------------------------------------------

/// A local can be assigned only if it is mutable, whatever is assigned to it.
pub proof fn only_mutable_locals_are_assigned(
    s: State,
    target: Expr,
    value: Expr,
    opcode: Option<u8>,
)
    requires
        target.kind is Name,
        statement::assigned(s, target, value, opcode) is Ok,
    ensures
        compile::find(s.locals, target.kind->Name_0@) matches Some(local) && local.mutable,
{
}

/// A local is assigned to another exactly when that one is mutable and of the
/// same shape.
pub proof fn assignments_of_locals_translate(
    s: State,
    target: Expr,
    value: Expr,
    a: Shape,
    b: Shape,
)
    requires
        growth::scoped(s),
        roomy(s),
        is_local(s, target, a),
        is_local(s, value, b),
    ensures
        statement::assigned(s, target, value, None) is Ok <==> compile::find(
            s.locals,
            target.kind->Name_0@,
        )->0.mutable && types::same_shape(b, a),
{
    lemma_local(s, value, b, Some(a));
}

/// A compound assignment of a local to another is translated exactly when that
/// one is mutable and the operation gives a value of its type.
pub proof fn compound_assignments_of_locals_translate(
    s: State,
    target: Expr,
    value: Expr,
    op: BinaryOp,
    a: Shape,
    b: Shape,
)
    requires
        growth::scoped(s),
        roomy(s),
        is_local(s, target, a),
        is_local(s, value, b),
        expr::compound_opcode(Some(op)) is Some,
    ensures
        statement::assigned(s, target, value, expr::compound_opcode(Some(op))) is Ok <==>
            compile::find(s.locals, target.kind->Name_0@)->0.mutable && operation_type(op, a, b)
            == Some(a),
{
    let opcode = expr::compound_opcode(Some(op));
    let wanted = statement::value_type(a, opcode);
    lemma_local(s, value, b, Some(wanted));
    lemma_local(s, target, a, None);
    types::shapes_are_reflexive(a);
    let l = compile::find(s.locals, target.kind->Name_0@)->0.register;
    compile::lemma_find(s.locals, target.kind->Name_0@);
    if let Ok((s1, r)) = expr::expression(s, value, Some(wanted)) {
        lemma_operation(s, target, op, l, r, a, b);
    }
}

/// A `let` binds its name last, as mutable as it says, to a register of its own.
/// That has the annotated type, if there is one, and is filled from a register
/// of the same shape.
pub proof fn lets_bind_their_names(s: State, l: LetStmt, s1: State)
    requires
        growth::scoped(s),
        statement::declared(s, l) == Ok::<State, Fault>(s1),
    ensures
        ({
            let (name, local) = s1.locals.last();
            let ty = s1.registers[local.register as int];
            let copy = s1.code.last();
            &&& s1.locals.drop_last() == s.locals
            &&& l.binding matches Some(binding) && binding.name@ == name && binding.mutable
                == local.mutable
            &&& s.registers.len() <= local.register < s1.registers.len()
            &&& l.annotation matches Some(tokens) ==> grammar::spelled(tokens@, 0, ty)
                && grammar::width(ty) == tokens@.len()
            &&& copy.opcode == 0x03
            &&& machine::word(copy, 0) == local.register
            &&& types::same_shape(s1.registers[machine::word(copy, 1) as int], ty)
        }),
{
    let annotated = statement::annotation(l)->Ok_0;
    let init = l.init->0;
    growth::lemma_grown(s, init, annotated);
    let (s2, source) = expr::expression(s, init, annotated)->Ok_0;
    let ty = match annotated {
        Some(ty) => ty,
        None => s2.registers[source as int],
    };
    types::shapes_are_reflexive(ty);
    if let Some(tokens) = l.annotation {
        grammar::read_types_are_spelled(tokens@, 0, error::CALL_SITE);
        super::super::syntax::lemma_type_advances(tokens@, 0, 1, error::CALL_SITE);
    }
    let r = s2.registers.len() as u16;
    assert(s1.locals.drop_last() =~= s.locals);
    code::lemma_plain(0x03, seq![r] + seq![source]);
    assert(s1.code.last() == compile::plain(0x03, seq![r] + seq![source]));
    assert(machine::word(s1.code.last(), 0) == (seq![r] + seq![source])[0]);
    assert(machine::word(s1.code.last(), 1) == (seq![r] + seq![source])[1]);
}

/// A `return` leaves with a value of the shape that the result has, if that is
/// known. A declared type of the result stays; any other grows until it covers
/// what is returned.
pub proof fn returns_have_the_type_of_the_result(s: State, e: Expr, s1: State, leaves: bool)
    requires
        growth::scoped(s),
        e.kind is Return,
        statement::effect(s, e) == Ok::<(State, bool), Fault>((s1, leaves)),
    ensures
        leaves,
        s1.code.last().opcode == 0x64,
        ({
            let ty = s1.registers[machine::word(s1.code.last(), 0) as int];
            &&& s.result matches Some(result) ==> types::same_shape(ty, result)
            &&& s.result is Some && s.declared_result ==> s1.result == s.result
            &&& s1.result matches Some(result) && types::same_shape(ty, result)
            &&& s1.result matches Some(result) && (!s.declared_result ==> types::covers(result, ty))
            &&& s.result is None && e.kind->Return_0 is None ==> s1.result == Some(Shape::Unit)
        }),
{
    let (s2, source) = match e.kind->Return_0 {
        Some(value) => {
            growth::lemma_grown(s, *value, s.result);
            expr::expression(s, *value, s.result)->Ok_0
        },
        None => {
            growth::lemma_grown_constant(s, Shape::Unit, Seq::empty(), e.span);
            compile::with_constant(s, Shape::Unit, Seq::empty(), e.span)->Ok_0
        },
    };
    let ty = s2.registers[source as int];
    code::lemma_plain(0x64, seq![source]);
    assert(s1.code.last() == compile::plain(0x64, seq![source]));
    assert(machine::word(s1.code.last(), 0) == seq![source][0]);
    types::shapes_are_reflexive(ty);
    lemma_covers_itself(ty);
    if let Some(result) = s.result {
        types::shapes_are_symmetric(ty, result);
        types::unions_cover_both(result, ty);
        types::shapes_are_symmetric(types::union(result, ty), result);
        types::shapes_are_transitive(ty, result, types::union(result, ty));
    }
}

/// A type has room for its own values.
proof fn lemma_covers_itself(a: Shape)
    ensures
        types::covers(a, a),
    decreases a,
{
    match a {
        Shape::Tuple(x) => {
            assert forall|i: int| 0 <= i < x.len() implies types::covers(x[i], #[trigger] x[i]) by {
                lemma_covers_itself(x[i]);
            }
        },
        Shape::Rows(key, value, _) => {
            lemma_covers_itself(*key);
            lemma_covers_itself(*value);
        },
        _ => {},
    }
}

} // verus!
