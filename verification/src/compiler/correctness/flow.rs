//! Translated statements add to what is there.

use super::super::ast::{Expr, ExprKind, LetStmt, Stmt};
use super::super::compile;
use super::super::compile::expr;
use super::super::compile::intrinsics;
use super::super::compile::statement;
use super::super::compile::statement::TargetModel;
use super::super::compile::{Flow, Local, State};
use super::super::error::Span;
use super::super::types;
use super::super::types::Shape;
use super::growth;
use vstd::prelude::*;

verus! {

/// Whether `b` has all of `a`, and its names in front.
pub open spec fn flows(a: State, b: State) -> bool {
    &&& growth::starts(b.registers, a.registers)
    &&& growth::starts(b.constants, a.constants)
    &&& growth::starts(b.code, a.code)
    &&& growth::starts(b.locals, a.locals)
    &&& a.captures == b.captures
    &&& a.tables == b.tables
    &&& keeps_declared(a, b)
}

/// Whether a declared type of the result stays.
pub open spec fn keeps_declared(a: State, b: State) -> bool {
    &&& a.declared_result == b.declared_result
    &&& a.declared_result && a.result is Some ==> b.result == a.result
}

/// Whether no other name has the register of a mutable local.
pub open spec fn apart(s: State) -> bool {
    &&& forall|i: int, j: int|
        #![trigger s.locals[i], s.locals[j]]
        0 <= i < s.locals.len() && 0 <= j < s.locals.len() && i != j && s.locals[i].1.mutable
            ==> s.locals[i].1.register != s.locals[j].1.register
    &&& forall|i: int, j: int|
        #![trigger s.locals[i], s.captures[j]]
        0 <= i < s.locals.len() && 0 <= j < s.captures.len() && s.locals[i].1.mutable
            ==> s.locals[i].1.register != s.captures[j].1
}

/// Whether statements can be added to what is there.
pub open spec fn sound(s: State) -> bool {
    growth::scoped(s) && apart(s)
}

/// Whether what was translated adds to what is there and keeps the names.
pub open spec fn adds(s: State, s1: State) -> bool {
    growth::extends(s, s1) && sound(s1) && keeps_declared(s, s1)
}

proof fn lemma_adds(a: State, b: State, c: State)
    requires
        adds(a, b),
        adds(b, c),
    ensures
        adds(a, c),
{
}

/// What is grown without new names adds.
pub proof fn lemma_grown_adds(s: State, s1: State)
    requires
        sound(s),
        growth::extends(s, s1),
        growth::scoped(s1),
        keeps_declared(s, s1),
    ensures
        adds(s, s1),
{
    assert(apart(s1)) by {
        assert forall|i: int, j: int|
            #![trigger s1.locals[i], s1.locals[j]]
            0 <= i < s1.locals.len() && 0 <= j < s1.locals.len() && i != j
                && s1.locals[i].1.mutable implies s1.locals[i].1.register
            != s1.locals[j].1.register by {
            assert(s.locals[i].1.register != s.locals[j].1.register);
        }
        assert forall|i: int, j: int|
            #![trigger s1.locals[i], s1.captures[j]]
            0 <= i < s1.locals.len() && 0 <= j < s1.captures.len() && s1.locals[i].1.mutable
            implies s1.locals[i].1.register != s1.captures[j].1 by {
            assert(s.locals[i].1.register != s.captures[j].1);
        }
    }
}

/// Whether the registers of a target exist.
pub open spec fn target_there(s: State, target: TargetModel) -> bool {
    match target {
        TargetModel::Local(register) => register < s.registers.len(),
        TargetModel::Row(table, key) => key < s.registers.len() && table.index < s.tables.len()
            && s.tables[table.index as int].1 == table && types::same_shape(
            s.registers[key as int],
            table.key,
        ),
    }
}

pub proof fn lemma_target(s: State, e: Expr)
    requires
        sound(s),
    ensures
        statement::target_of(s, e) matches Ok((s1, target)) ==> adds(s, s1) && target_there(
            s1,
            target,
        ),
{
    if let ExprKind::Index(..) = e.kind {
        growth::lemma_grown_place(s, e);
        if let Ok((s1, table, key)) = intrinsics::place(s, e) {
            lemma_grown_adds(s, s1);
        }
    } else if let ExprKind::Name(name) = e.kind {
        growth::lemma_grown_name(s, name@);
    }
}

pub proof fn lemma_prior(s: State, target: TargetModel, opcode: Option<u8>, span: Span)
    requires
        sound(s),
        target_there(s, target),
    ensures
        statement::prior_value(s, target, opcode, span) matches Ok((s1, r)) ==> adds(s, s1) && (
        opcode is Some ==> r < s1.registers.len() && s1.registers[r as int]
            == statement::target_type(s, target)),
{
    match (opcode, target) {
        (Some(_), TargetModel::Row(table, key)) => {
            growth::lemma_grown_read(s, table.value, 0x40, table.index, key, span);
            if let Ok((s1, r)) = statement::prior_value(s, target, opcode, span) {
                lemma_grown_adds(s, s1);
            }
        },
        _ => {},
    }
}

pub proof fn lemma_stored(
    s: State,
    target: TargetModel,
    opcode: Option<u8>,
    prior: u16,
    value: u16,
    span: Span,
)
    requires
        sound(s),
    ensures
        statement::stored(s, target, opcode, prior, value, span) matches Ok(s1) ==> adds(s, s1),
        opcode matches Some(op) ==> (expr::binary(s, op, prior, value, span) matches Ok((s1, r))
            ==> adds(s, s1) && r < s1.registers.len()),
{
    match opcode {
        Some(op) => {
            if let Ok((s1, r)) = expr::binary(s, op, prior, value, span) {
                assert(growth::extends(s, s1) && growth::scoped(s1));
                lemma_grown_adds(s, s1);
                if let Ok(s2) = statement::written(s1, target, r, span) {
                    lemma_grown_adds(s, s2);
                }
            }
        },
        None => {
            if let Ok(s2) = statement::written(s, target, value, span) {
                lemma_grown_adds(s, s2);
            }
        },
    }
}

pub proof fn lemma_assigned(s: State, target: Expr, value: Expr, opcode: Option<u8>)
    requires
        sound(s),
    ensures
        statement::assigned(s, target, value, opcode) matches Ok(s1) ==> adds(s, s1),
{
    lemma_target(s, target);
    if let Ok((s1, place)) = statement::target_of(s, target) {
        lemma_prior(s1, place, opcode, target.span);
        if let Ok((s2, prior)) = statement::prior_value(s1, place, opcode, target.span) {
            let ty = Some(statement::value_type(statement::target_type(s1, place), opcode));
            growth::lemma_grown(s2, value, ty);
            if let Ok((s3, source)) = expr::expression(s2, value, ty) {
                lemma_grown_adds(s2, s3);
                lemma_stored(s3, place, opcode, prior, source, target.span);
                if let Ok(s4) = statement::stored(
                    s3,
                    place,
                    opcode,
                    prior,
                    source,
                    target.span,
                ) {
                    lemma_adds(s, s1, s2);
                    lemma_adds(s, s2, s3);
                    lemma_adds(s, s3, s4);
                }
            }
        }
    }
}

pub proof fn lemma_declared(s: State, l: LetStmt)
    requires
        sound(s),
    ensures
        statement::declared(s, l) matches Ok(s1) ==> flows(s, s1) && sound(s1),
{
    if let Ok(annotated) = statement::annotation(l) {
        if let Some(init) = l.init {
            growth::lemma_grown(s, init, annotated);
            if let Ok((s1, source)) = expr::expression(s, init, annotated) {
                if let Ok(s2) = statement::declared(s, l) {
                    lemma_grown_adds(s, s1);
                    let r = s1.registers.len() as u16;
                    assert(s2.locals.len() == s1.locals.len() + 1);
                    assert(s2.locals.last().1.register == r);
                    assert forall|i: int, j: int|
                        #![trigger s2.locals[i], s2.locals[j]]
                        0 <= i < s2.locals.len() && 0 <= j < s2.locals.len() && i != j
                            && s2.locals[i].1.mutable implies s2.locals[i].1.register
                        != s2.locals[j].1.register by {
                        if i < s1.locals.len() {
                            assert(s2.locals[i] == s1.locals[i]);
                        }
                        if j < s1.locals.len() {
                            assert(s2.locals[j] == s1.locals[j]);
                        }
                    }
                    assert forall|i: int, j: int|
                        #![trigger s2.locals[i], s2.captures[j]]
                        0 <= i < s2.locals.len() && 0 <= j < s2.captures.len()
                            && s2.locals[i].1.mutable implies s2.locals[i].1.register
                        != s2.captures[j].1 by {
                        if i < s1.locals.len() {
                            assert(s2.locals[i] == s1.locals[i]);
                        }
                        assert(s1.captures[j].1 < s1.registers.len());
                    }
                }
            }
        }
    }
}

/// Whether a translated statement adds to what is there and keeps the names.
pub open spec fn flowed(s: State, result: Flow) -> bool {
    result matches Ok((s1, _)) ==> adds(s, s1)
}

pub proof fn lemma_called(s: State, e: Expr, function: Expr, args: Seq<Expr>)
    requires
        sound(s),
    ensures
        flowed(s, statement::called(s, e, function, args)),
{
    if let ExprKind::Name(name) = function.kind {
        let name = name@;
        if name == "require"@ {
            if 1 <= args.len() <= 2 {
                growth::lemma_grown(s, args[0], Some(Shape::Bool));
                if let Ok((s1, _)) = statement::called(s, e, function, args) {
                    lemma_grown_adds(s, s1);
                }
            }
        } else if name == "abort"@ {
            if let Ok((s1, _)) = statement::called(s, e, function, args) {
                lemma_grown_adds(s, s1);
            }
        } else if name == "insert"@ || name == "store"@ || name == "delete"@ {
            if args.len() == (if name == "delete"@ {
                1int
            } else {
                2int
            }) {
                growth::lemma_grown_place(s, args[0]);
                if let Ok((s1, table, key)) = intrinsics::place(s, args[0]) {
                    if name != "delete"@ {
                        growth::lemma_grown(s1, args[1], Some(table.value));
                    }
                }
                if let Ok((s1, _)) = statement::called(s, e, function, args) {
                    lemma_grown_adds(s, s1);
                }
            }
        } else {
            growth::lemma_grown(s, e, None);
            if let Ok((s1, _)) = statement::called(s, e, function, args) {
                lemma_grown_adds(s, s1);
            }
        }
    }
}

/// Patching a jump behind `a` keeps all of `a`.
pub proof fn lemma_patch_adds(a: State, b: State, index: int)
    requires
        sound(a),
        adds(a, b),
        a.code.len() <= index < b.code.len(),
    ensures
        adds(a, compile::patched(b, index)),
{
    let c = compile::patched(b, index);
    assert(growth::extends(a, c));
    assert(growth::scoped(c));
    lemma_grown_adds(a, c);
}

pub proof fn lemma_effect(s: State, e: Expr)
    requires
        sound(s),
    ensures
        flowed(s, statement::effect(s, e)),
    decreases e, 3int,
{
    match e.kind {
        ExprKind::If(condition, block, alternative) => {
            growth::lemma_grown(s, *condition, Some(Shape::Bool));
            if let Ok((s1, register)) = expr::expression(s, *condition, Some(Shape::Bool)) {
                lemma_grown_adds(s, s1);
                if let Ok(s2) = compile::with_instruction(
                    s1,
                    compile::open_jump(Some(register)),
                    e.span,
                ) {
                    lemma_grown_adds(s1, s2);
                    lemma_scope(s2, block.stmts@);
                    if let Ok((s3, left)) = statement::scope(s2, block.stmts@) {
                        let at = s1.code.len() as int;
                        lemma_adds(s1, s2, s3);
                        lemma_patch_adds(s1, s3, at);
                        if let Some(other) = alternative {
                            if left {
                                let s4 = compile::patched(s3, at);
                                lemma_effect(s4, *other);
                                if let Ok((s5, _)) = statement::effect(s4, *other) {
                                    lemma_adds(s1, s4, s5);
                                    lemma_adds(s, s1, s5);
                                }
                            } else if let Ok(s4) = compile::with_instruction(
                                s3,
                                compile::open_jump(None),
                                e.span,
                            ) {
                                lemma_grown_adds(s3, s4);
                                lemma_adds(s1, s3, s4);
                                lemma_patch_adds(s1, s4, at);
                                let s5 = compile::patched(s4, at);
                                lemma_effect(s5, *other);
                                if let Ok((s6, _)) = statement::effect(s5, *other) {
                                    lemma_adds(s1, s5, s6);
                                    lemma_patch_adds(s1, s6, s3.code.len() as int);
                                    lemma_adds(
                                        s,
                                        s1,
                                        compile::patched(s6, s3.code.len() as int),
                                    );
                                }
                            }
                        } else {
                            lemma_adds(s, s1, compile::patched(s3, at));
                        }
                    }
                }
            }
        },
        ExprKind::Block(block) => {
            lemma_scope(s, block.stmts@);
        },
        ExprKind::Return(value) => {
            if let Some(value) = value {
                growth::lemma_grown(s, *value, s.result);
            } else {
                growth::lemma_grown_constant(s, Shape::Unit, Seq::empty(), e.span);
            }
            if let Ok((s1, _)) = statement::effect(s, e) {
                lemma_grown_adds(s, s1);
            }
        },
        ExprKind::Assign(op, target, value) => {
            growth::lemma_grown(s, e, None);
            lemma_assigned(s, *target, *value, expr::compound_opcode(op));
            if let Ok((s1, _)) = expr::expression(s, e, None) {
                lemma_grown_adds(s, s1);
            }
        },
        ExprKind::Call(function, args) => {
            lemma_called(s, e, *function, args@);
        },
        _ => {
            growth::lemma_grown(s, e, None);
            if let Ok((s1, _)) = statement::effect(s, e) {
                lemma_grown_adds(s, s1);
            }
        },
    }
}

pub proof fn lemma_scope(s: State, stmts: Seq<Stmt>)
    requires
        sound(s),
    ensures
        flowed(s, statement::scope(s, stmts)),
    decreases stmts, stmts.len() + 1,
{
    lemma_steps(s, stmts, 0, false);
    if let Ok((s1, left)) = statement::steps(s, stmts, 0, false) {
        let s2 = State { locals: s.locals, ..s1 };
        assert(growth::extends(s, s2));
        assert(growth::scoped(s2)) by {
            assert forall|i: int| 0 <= i < s2.locals.len() implies (
            #[trigger] s2.locals[i]).1.register < s2.registers.len() by {
                assert(s.locals[i].1.register < s.registers.len());
            }
        }
        lemma_grown_adds(s, s2);
    }
}

pub proof fn lemma_steps(s: State, stmts: Seq<Stmt>, i: int, left: bool)
    requires
        sound(s),
    ensures
        statement::steps(s, stmts, i, left) matches Ok((s1, _)) ==> flows(s, s1) && sound(s1),
    decreases stmts, stmts.len() - i,
{
    if 0 <= i < stmts.len() && !left {
        assert(decreases_to!(stmts => stmts[i]));
        lemma_stmt(s, stmts[i]);
        if let Ok((s1, next)) = statement::step(s, stmts[i]) {
            lemma_steps(s1, stmts, i + 1, next);
        }
    }
}

pub proof fn lemma_stmt(s: State, stmt: Stmt)
    requires
        sound(s),
    ensures
        statement::step(s, stmt) matches Ok((s1, _)) ==> flows(s, s1) && sound(s1),
    decreases stmt, 0int,
{
    match stmt {
        Stmt::Let(l) => {
            lemma_declared(s, l);
        },
        Stmt::Expr(e) => {
            lemma_effect(s, e);
        },
        Stmt::Other(_) => {},
    }
}

} // verus!
