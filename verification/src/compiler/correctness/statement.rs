//! Translated statements do what they mean.

use super::super::ast::{BinaryOp, Expr, ExprKind};
use super::super::compile;
use super::super::compile::expr;
use super::super::compile::intrinsics;
use super::super::compile::statement;
use super::super::compile::statement::TargetModel;
use super::super::compile::{Local, State, TableShape};
use super::super::effects;
use super::super::effects::After;
use super::super::error::Span;
use super::super::machine;
use super::super::machine::{Course, Image, Memory, Stop, Turn, Value};
use super::super::meaning;
use super::super::meaning::{Env, Meaning};
use super::super::types;
use super::code;
use super::expression;
use super::flow;
use super::growth;
use vstd::prelude::*;

verus! {

/// Whether the next statement finds what is meant.
pub open spec fn continues(p: Image, meant: Meaning<After>, s1: State, m1: Memory) -> bool {
    exists|env1: Env| #[trigger]
        code::matched(env1, s1, m1) && env1.host == p.host && meant(Ok(After::On(env1)))
}

/// Whether a run gets where it is meant to: on, with what the next statement
/// finds, unless control never gets there; out of the program; or to an abort.
pub open spec fn arrives(
    p: Image,
    c: Course,
    meant: Meaning<After>,
    s1: State,
    leaves: bool,
) -> bool {
    match c {
        Course::At(m1) => !leaves && continues(p, meant, s1, m1),
        Course::Stopped(stop) => stop !is Malformed && meant(Err(stop)),
        Course::Returned(v, m1) => meant(Ok(After::Returned(v, m1.rows))),
        Course::Past => false,
    }
}

/// A run that gets to its end.
pub proof fn lemma_arrives_on(
    p: Image,
    c: Course,
    meant: Meaning<After>,
    s1: State,
    env1: Env,
    m1: Memory,
)
    requires
        c == Course::At(m1),
        code::matched(env1, s1, m1),
        env1.host == p.host,
        meant(Ok(After::On(env1))),
    ensures
        arrives(p, c, meant, s1, false),
{
    assert(continues(p, meant, s1, m1));
}

/// What the next statement finds.
pub proof fn lemma_arrived(
    p: Image,
    c: Course,
    meant: Meaning<After>,
    s1: State,
    leaves: bool,
) -> (env1: Env)
    requires
        arrives(p, c, meant, s1, leaves),
        c is At,
    ensures
        !leaves,
        code::matched(env1, s1, c->At_0),
        env1.host == p.host,
        meant(Ok(After::On(env1))),
{
    let m1 = c->At_0;
    choose|env1: Env| #[trigger]
        code::matched(env1, s1, m1) && env1.host == p.host && meant(Ok(After::On(env1)))
}

// ---- What changes --------------------------------------------------------

/// What was there is found in a state with more registers.
pub proof fn lemma_matched_grown(env: Env, s: State, s1: State, m: Memory)
    requires
        code::matched(env, s, m),
        growth::scoped(s1),
        growth::starts(s1.registers, s.registers),
        s1.locals == s.locals,
        s1.captures == s.captures,
        s1.tables == s.tables,
    ensures
        code::matched(env, s1, m),
{
    reveal(code::matched);
    assert forall|i: int|
        #![trigger s1.locals[i]]
        #![trigger env.locals[i]]
        0 <= i < s1.locals.len() implies s1.locals[i].0 == env.locals[i].0
        && m.registers[s1.locals[i].1.register] == env.locals[i].1 && machine::has_type(
        env.locals[i].1,
        s1.registers[s1.locals[i].1.register as int],
    ) by {
        assert(s.locals[i].1.register < s.registers.len());
    }
    assert forall|i: int|
        #![trigger s1.captures[i]]
        #![trigger env.captures[i]]
        0 <= i < s1.captures.len() implies s1.captures[i].0 == env.captures[i].0
        && m.registers[s1.captures[i].1] == env.captures[i].1 && machine::has_type(
        env.captures[i].1,
        s1.registers[s1.captures[i].1 as int],
    ) by {
        assert(s.captures[i].1 < s.registers.len());
    }
}

/// A new value of a mutable local.
proof fn lemma_set_local(env: Env, s: State, m: Memory, i: int, v: Value)
    requires
        code::matched(env, s, m),
        flow::sound(s),
        0 <= i < s.locals.len(),
        s.locals[i].1.mutable,
        machine::has_type(v, s.registers[s.locals[i].1.register as int]),
    ensures
        code::matched(
            Env { locals: env.locals.update(i, (s.locals[i].0, v)), ..env },
            s,
            code::set(m, s.locals[i].1.register, v),
        ),
{
    reveal(code::matched);
    let r = s.locals[i].1.register;
    let env1 = Env { locals: env.locals.update(i, (s.locals[i].0, v)), ..env };
    let m1 = code::set(m, r, v);
    assert forall|j: int|
        #![trigger s.locals[j]]
        #![trigger env1.locals[j]]
        0 <= j < s.locals.len() implies s.locals[j].0 == env1.locals[j].0
        && m1.registers[s.locals[j].1.register] == env1.locals[j].1 && machine::has_type(
        env1.locals[j].1,
        s.registers[s.locals[j].1.register as int],
    ) by {
        if j != i {
            assert(s.locals[i].1.register != s.locals[j].1.register);
            assert(env1.locals[j] == env.locals[j]);
        }
    }
    assert forall|j: int|
        #![trigger s.captures[j]]
        #![trigger env1.captures[j]]
        0 <= j < s.captures.len() implies s.captures[j].0 == env1.captures[j].0
        && m1.registers[s.captures[j].1] == env1.captures[j].1 && machine::has_type(
        env1.captures[j].1,
        s.registers[s.captures[j].1 as int],
    ) by {
        assert(s.locals[i].1.register != s.captures[j].1);
    }
}

/// A new value of a row.
proof fn lemma_set_row(env: Env, s: State, m: Memory, table: TableShape, key: Value, v: Value)
    requires
        code::matched(env, s, m),
        table.index < s.tables.len(),
        s.tables[table.index as int].1 == table,
        machine::has_type(key, table.key),
        machine::has_type(v, table.value),
    ensures
        code::matched(
            Env { rows: env.rows.insert((table.index, key), v), ..env },
            s,
            Memory { rows: m.rows.insert((table.index, key), v), ..m },
        ),
{
    reveal(code::matched);
}

/// A row that is gone.
pub proof fn lemma_remove_row(env: Env, s: State, m: Memory, k: (u16, Value))
    requires
        code::matched(env, s, m),
    ensures
        code::matched(
            Env { rows: env.rows.remove(k), ..env },
            s,
            Memory { rows: m.rows.remove(k), ..m },
        ),
{
    reveal(code::matched);
}

/// A new local.
pub proof fn lemma_push_local(env: Env, s: State, m: Memory, name: Seq<char>, local: Local)
    requires
        code::matched(env, s, m),
        local.register < s.registers.len(),
        machine::has_type(m.registers[local.register], s.registers[local.register as int]),
    ensures
        code::matched(
            Env { locals: env.locals.push((name, m.registers[local.register])), ..env },
            State { locals: s.locals.push((name, local)), ..s },
            m,
        ),
{
    reveal(code::matched);
    let v = m.registers[local.register];
    let env1 = Env { locals: env.locals.push((name, v)), ..env };
    let s1 = State { locals: s.locals.push((name, local)), ..s };
    assert forall|i: int|
        #![trigger s1.locals[i]]
        #![trigger env1.locals[i]]
        0 <= i < s1.locals.len() implies s1.locals[i].0 == env1.locals[i].0
        && m.registers[s1.locals[i].1.register] == env1.locals[i].1 && machine::has_type(
        env1.locals[i].1,
        s1.registers[s1.locals[i].1.register as int],
    ) by {
        if i < s.locals.len() {
            assert(s1.locals[i] == s.locals[i]);
            assert(env1.locals[i] == env.locals[i]);
        }
    }
    assert forall|i: int| 0 <= i < s1.locals.len() implies (#[trigger] s1.locals[i]).1.register
        < s1.registers.len() by {
        if i < s.locals.len() {
            assert(s1.locals[i] == s.locals[i]);
        }
    }
}

/// The end of a block.
pub proof fn lemma_leave(env: Env, env1: Env, s: State, s1: State, m: Memory, m1: Memory)
    requires
        code::matched(env, s, m),
        code::matched(env1, s1, m1),
        flow::flows(s, s1),
        growth::scoped(State { locals: s.locals, ..s1 }),
    ensures
        code::matched(
            Env { locals: env1.locals.take(env.locals.len() as int), ..env1 },
            State { locals: s.locals, ..s1 },
            m1,
        ),
{
    reveal(code::matched);
    let env2 = Env { locals: env1.locals.take(env.locals.len() as int), ..env1 };
    let s2 = State { locals: s.locals, ..s1 };
    assert forall|i: int|
        #![trigger s2.locals[i]]
        #![trigger env2.locals[i]]
        0 <= i < s2.locals.len() implies s2.locals[i].0 == env2.locals[i].0
        && m1.registers[s2.locals[i].1.register] == env2.locals[i].1 && machine::has_type(
        env2.locals[i].1,
        s2.registers[s2.locals[i].1.register as int],
    ) by {
        assert(s1.locals[i] == s.locals[i]);
        assert(env2.locals[i] == env1.locals[i]);
    }
}

/// Where a local stands.
proof fn lemma_local_place(env: Env, s: State, m: Memory, name: Seq<char>) -> (i: int)
    requires
        code::matched(env, s, m),
        compile::find(s.locals, name) is Some,
    ensures
        0 <= i < s.locals.len(),
        s.locals[i] == (name, compile::find(s.locals, name)->0),
        effects::latest_at(env.locals, name, i),
        env.locals[i] == (name, m.registers[s.locals[i].1.register]),
        machine::has_type(env.locals[i].1, s.registers[s.locals[i].1.register as int]),
{
    reveal(code::matched);
    let local = compile::find(s.locals, name)->0;
    code::lemma_find_latest(s.locals, name);
    let i = choose|i: int|
        0 <= i < s.locals.len() && #[trigger] s.locals[i] == (name, local) && forall|j: int|
            i < j < s.locals.len() ==> (#[trigger] s.locals[j]).0 != name;
    assert forall|j: int| i < j < env.locals.len() implies (#[trigger] env.locals[j]).0 != name by {
        assert(s.locals[j].0 != name);
    }
    i
}

// ---- Assignments ---------------------------------------------------------

/// What a compound assignment computes, or the assigned value.
pub open spec fn assigned_value(env: Env, op: Option<BinaryOp>, old: Value, v: Value) -> Result<
    Value,
    Stop,
> {
    match op {
        None => Ok(v),
        Some(op) => meaning::binary_value(env.host, op, old, v),
    }
}

/// The computation of an assignment: the register that is to be written.
proof fn lemma_computed(
    p: Image,
    env: Env,
    m: Memory,
    s: State,
    op: BinaryOp,
    prior: u16,
    value: u16,
    span: Span,
)
    requires
        code::matched(env, s, m),
        p.host == env.host,
        flow::sound(s),
        expr::compound_opcode(Some(op)) is Some,
        prior < s.registers.len(),
        value < s.registers.len(),
        machine::has_type(m.registers[prior], s.registers[prior as int]),
        machine::has_type(m.registers[value], s.registers[value as int]),
        expr::binary(s, expr::opcode_of(op).unwrap(), prior, value, span) matches Ok((s1, _))
            && code::loaded(p, s1, s.code.len() as int),
    ensures
        ({
            let (s1, r) = expr::binary(s, expr::opcode_of(op).unwrap(), prior, value, span)->Ok_0;
            let c = code::ran(p, m, s, s1);
            &&& code::regular(c, s, s1, r, m)
            &&& code::answer(c, r) == meaning::binary_value(
                env.host,
                op,
                m.registers[prior],
                m.registers[value],
            )
            &&& s1.registers[r as int] == s.registers[prior as int]
            &&& flow::adds(s, s1)
            &&& r < s1.registers.len()
        }),
{
    let opcode = expr::opcode_of(op).unwrap();
    let a = s.registers[prior as int];
    let b = s.registers[value as int];
    let (s1, r) = expr::binary(s, opcode, prior, value, span)->Ok_0;
    code::lemma_operator(p.host, op, a, b, m.registers[prior], m.registers[value]);
    code::lemma_binary_instruction(p, m, s, opcode, prior, value, span);
    flow::lemma_grown_adds(s, s1);
}

/// The end of an assignment to a local.
proof fn lemma_local_done(
    p: Image,
    env: Env,
    m: Memory,
    s: State,
    i: int,
    op: Option<BinaryOp>,
    value: u16,
    span: Span,
)
    requires
        code::matched(env, s, m),
        p.host == env.host,
        flow::sound(s),
        0 <= i < s.locals.len(),
        s.locals[i].1.mutable,
        env.locals[i] == (s.locals[i].0, m.registers[s.locals[i].1.register]),
        machine::has_type(env.locals[i].1, s.registers[s.locals[i].1.register as int]),
        op is Some ==> expr::compound_opcode(op) is Some,
        value < s.registers.len(),
        machine::has_type(m.registers[value], s.registers[value as int]),
        op is None ==> types::same_shape(
            s.registers[value as int],
            s.registers[s.locals[i].1.register as int],
        ),
        statement::stored(
            s,
            TargetModel::Local(s.locals[i].1.register),
            expr::compound_opcode(op),
            s.locals[i].1.register,
            value,
            span,
        ) matches Ok(s1) && code::loaded(p, s1, s.code.len() as int),
    ensures
        ({
            let r = s.locals[i].1.register;
            let target = TargetModel::Local(r);
            let s1 = statement::stored(
                s,
                target,
                expr::compound_opcode(op),
                r,
                value,
                span,
            )->Ok_0;
            let c = code::ran(p, m, s, s1);
            match assigned_value(env, op, env.locals[i].1, m.registers[value]) {
                Err(stop) => c == Course::Stopped(stop) && stop !is Malformed,
                Ok(w) => c matches Course::At(m1) && code::matched(
                    Env { locals: env.locals.update(i, (s.locals[i].0, w)), ..env },
                    s1,
                    m1,
                ),
            }
        }),
{
    let r = s.locals[i].1.register;
    let target = TargetModel::Local(r);
    let opcode = expr::compound_opcode(op);
    let s2 = statement::stored(s, target, opcode, r, value, span)->Ok_0;
    flow::lemma_stored(s, target, opcode, r, value, span);
    match op {
        None => {
            let v = m.registers[value];
            code::lemma_same_values(v, s.registers[value as int], s.registers[r as int]);
            lemma_local_written(p, env, m, s, i, value, span);
        },
        Some(op) => {
            let (s1, q) = expr::binary(s, opcode->0, r, value, span)->Ok_0;
            let s3 = statement::written(s1, target, q, span)->Ok_0;
            assert(growth::extends(s1, s3));
            code::lemma_loaded(p, s1, s3, s.code.len() as int, s1.code.len() as int);
            code::lemma_compose(p, m, s, s1, s3);
            lemma_computed(p, env, m, s, op, r, value, span);
            if let Course::At(m1) = code::ran(p, m, s, s1) {
                code::lemma_matched(env, s, s1, m, m1);
                lemma_local_written(p, env, m1, s1, i, q, span);
            }
        },
    }
}

/// The write of a local.
proof fn lemma_local_written(
    p: Image,
    env: Env,
    m: Memory,
    s: State,
    i: int,
    source: u16,
    span: Span,
)
    requires
        code::matched(env, s, m),
        flow::sound(s),
        0 <= i < s.locals.len(),
        s.locals[i].1.mutable,
        machine::has_type(m.registers[source], s.registers[s.locals[i].1.register as int]),
        statement::written(s, TargetModel::Local(s.locals[i].1.register), source, span) matches Ok(
            s1,
        ) && code::loaded(p, s1, s.code.len() as int),
    ensures
        ({
            let target = TargetModel::Local(s.locals[i].1.register);
            let s1 = statement::written(s, target, source, span)->Ok_0;
            code::ran(p, m, s, s1) matches Course::At(m1) && code::matched(
                Env {
                    locals: env.locals.update(i, (s.locals[i].0, m.registers[source])),
                    ..env
                },
                s1,
                m1,
            )
        }),
{
    let r = s.locals[i].1.register;
    let s1 = statement::written(s, TargetModel::Local(r), source, span)->Ok_0;
    let at = s.code.len() as int;
    let v = m.registers[source];
    code::lemma_loaded_at(p, s1, at, at);
    code::lemma_copy(p, m, at, r, source);
    code::lemma_step(p, m, at, at + 1);
    code::lemma_stays(p, code::set(m, r, v), s1);
    lemma_set_local(env, s, m, i, v);
    lemma_matched_grown(
        Env { locals: env.locals.update(i, (s.locals[i].0, v)), ..env },
        s,
        s1,
        code::set(m, r, v),
    );
}

/// The write of a row.
pub proof fn lemma_row_stored(
    p: Image,
    env: Env,
    m: Memory,
    s: State,
    table: TableShape,
    key: u16,
    source: u16,
    opcode: u8,
    span: Span,
)
    requires
        code::matched(env, s, m),
        opcode == 0x42 || opcode == 0x43,
        table.index < s.tables.len(),
        s.tables[table.index as int].1 == table,
        machine::has_type(m.registers[key], table.key),
        machine::has_type(m.registers[source], table.value),
        compile::with_instruction(
            s,
            compile::tabled(opcode, seq![table.index, key, source], 0, table.index),
            span,
        ) matches Ok(s1) && code::loaded(p, s1, s.code.len() as int),
    ensures
        ({
            let s1 = compile::with_instruction(
                s,
                compile::tabled(opcode, seq![table.index, key, source], 0, table.index),
                span,
            )->Ok_0;
            let k = (table.index, m.registers[key]);
            let v = m.registers[source];
            let c = code::ran(p, m, s, s1);
            if opcode == 0x42 && env.rows.contains_key(k) {
                c == Course::Stopped(Stop::Present)
            } else {
                c matches Course::At(m1) && code::matched(
                    Env { rows: env.rows.insert(k, v), ..env },
                    s1,
                    m1,
                )
            }
        }),
{
    let operands = seq![table.index, key, source];
    let s1 = compile::with_instruction(
        s,
        compile::tabled(opcode, operands, 0, table.index),
        span,
    )->Ok_0;
    let at = s.code.len() as int;
    let k = (table.index, m.registers[key]);
    let v = m.registers[source];
    code::lemma_matched_facts(env, s, m);
    code::lemma_loaded_at(p, s1, at, at);
    code::lemma_tabled(opcode, operands, 0, table.index);
    assert(machine::word(p.code[at], 0) == operands[0]);
    assert(machine::word(p.code[at], 1) == operands[1]);
    assert(machine::word(p.code[at], 2) == operands[2]);
    let m1 = Memory { rows: m.rows.insert(k, v), ..m };
    assert(machine::turn(p, m, at) == if opcode == 0x42 && m.rows.contains_key(k) {
        Turn::Stopped(Stop::Present)
    } else {
        Turn::To(m1, at + 1)
    }) by {
        reveal(machine::turn);
    }
    code::lemma_step(p, m, at, at + 1);
    code::lemma_stays(p, m1, s1);
    lemma_set_row(env, s, m, table, m.registers[key], v);
    lemma_matched_grown(Env { rows: env.rows.insert(k, v), ..env }, s, s1, m1);
}

/// The end of an assignment to a row.
proof fn lemma_row_done(
    p: Image,
    env: Env,
    m: Memory,
    s: State,
    table: TableShape,
    key: u16,
    op: Option<BinaryOp>,
    prior: u16,
    value: u16,
    span: Span,
)
    requires
        code::matched(env, s, m),
        p.host == env.host,
        flow::sound(s),
        key < s.registers.len(),
        table.index < s.tables.len(),
        s.tables[table.index as int].1 == table,
        machine::has_type(m.registers[key], table.key),
        op is Some ==> expr::compound_opcode(op) is Some && prior < s.registers.len()
            && s.registers[prior as int] == table.value && machine::has_type(
            m.registers[prior],
            table.value,
        ),
        value < s.registers.len(),
        machine::has_type(m.registers[value], s.registers[value as int]),
        op is None ==> types::same_shape(s.registers[value as int], table.value),
        statement::stored(
            s,
            TargetModel::Row(table, key),
            expr::compound_opcode(op),
            prior,
            value,
            span,
        ) matches Ok(s1) && code::loaded(p, s1, s.code.len() as int),
    ensures
        ({
            let target = TargetModel::Row(table, key);
            let opcode = expr::compound_opcode(op);
            let s1 = statement::stored(s, target, opcode, prior, value, span)->Ok_0;
            let c = code::ran(p, m, s, s1);
            match assigned_value(env, op, m.registers[prior], m.registers[value]) {
                Err(stop) => c == Course::Stopped(stop) && stop !is Malformed,
                Ok(w) => c matches Course::At(m1) && code::matched(
                    Env { rows: env.rows.insert((table.index, m.registers[key]), w), ..env },
                    s1,
                    m1,
                ),
            }
        }),
{
    let target = TargetModel::Row(table, key);
    let opcode = expr::compound_opcode(op);
    let s2 = statement::stored(s, target, opcode, prior, value, span)->Ok_0;
    flow::lemma_stored(s, target, opcode, prior, value, span);
    match op {
        None => {
            code::lemma_same_values(m.registers[value], s.registers[value as int], table.value);
            lemma_row_stored(p, env, m, s, table, key, value, 0x43, span);
        },
        Some(op) => {
            let (s1, q) = expr::binary(s, opcode->0, prior, value, span)->Ok_0;
            let s3 = statement::written(s1, target, q, span)->Ok_0;
            assert(growth::extends(s1, s3));
            code::lemma_loaded(p, s1, s3, s.code.len() as int, s1.code.len() as int);
            code::lemma_compose(p, m, s, s1, s3);
            lemma_computed(p, env, m, s, op, prior, value, span);
            if let Course::At(m1) = code::ran(p, m, s, s1) {
                code::lemma_matched(env, s, s1, m, m1);
                assert(m1.registers[key] == m.registers[key]);
                lemma_row_stored(p, env, m1, s1, table, key, q, 0x43, span);
            }
        },
    }
}

/// An assignment to a local.
pub proof fn lemma_assign_local(
    p: Image,
    env: Env,
    m: Memory,
    s: State,
    target: Expr,
    value: Expr,
    op: Option<BinaryOp>,
)
    requires
        code::matched(env, s, m),
        p.host == env.host,
        flow::sound(s),
        op is Some ==> expr::compound_opcode(op) is Some,
        target.kind !is Index,
        statement::assigned(s, target, value, expr::compound_opcode(op)) matches Ok(s1)
            && code::loaded(p, s1, s.code.len() as int),
    ensures
        ({
            let s1 = statement::assigned(s, target, value, expr::compound_opcode(op))->Ok_0;
            arrives(
                p,
                code::ran(p, m, s, s1),
                effects::assignment(env, op, target, value),
                s1,
                false,
            )
        }),
{
    let opcode = expr::compound_opcode(op);
    let name = target.kind->Name_0@;
    let i = lemma_local_place(env, s, m, name);
    let r = s.locals[i].1.register;
    let ty = Some(statement::value_type(s.registers[r as int], opcode));
    code::lemma_matched_facts(env, s, m);
    growth::lemma_grown(s, value, ty);
    let (s1, source) = expr::expression(s, value, ty)->Ok_0;
    flow::lemma_grown_adds(s, s1);
    let place = TargetModel::Local(r);
    let prior = if op is Some {
        r
    } else {
        0u16
    };
    let s2 = statement::stored(s1, place, opcode, prior, source, target.span)->Ok_0;
    assert(statement::assigned(s, target, value, opcode) == Ok::<
        State,
        super::super::error::Fault,
    >(s2));
    assert(statement::stored(s1, place, opcode, r, source, target.span) == Ok::<
        State,
        super::super::error::Fault,
    >(s2));
    flow::lemma_stored(s1, place, opcode, r, source, target.span);
    code::lemma_loaded(p, s1, s2, s.code.len() as int, s1.code.len() as int);
    code::lemma_compose(p, m, s, s1, s2);
    expression::lemma_expression(p, env, m, s, value, ty);
    let c = code::ran(p, m, s, s1);
    let b = code::answer(c, source);
    match op {
        None => {
            effects::lemma_local_assigned(env, target, value, i, b);
        },
        Some(op) => {
            effects::lemma_local_computed(env, op, target, value, i, b);
        },
    }
    if let Course::At(m1) = c {
        code::lemma_matched(env, s, s1, m, m1);
        assert(s1.registers[r as int] == s.registers[r as int]);
        assert(m1.registers[r] == m.registers[r]);
        lemma_local_done(p, env, m1, s1, i, op, source, target.span);
    }
}

/// The value that a compound assignment to a row starts from.
proof fn lemma_row_prior(
    p: Image,
    env: Env,
    m: Memory,
    s: State,
    table: TableShape,
    key: u16,
    span: Span,
)
    requires
        code::matched(env, s, m),
        flow::sound(s),
        key < s.registers.len(),
        table.index < s.tables.len(),
        s.tables[table.index as int].1 == table,
        compile::read_from(s, table.value, 0x40, table.index, key, span) matches Ok((s1, _))
            && code::loaded(p, s1, s.code.len() as int),
    ensures
        ({
            let (s1, r) = compile::read_from(s, table.value, 0x40, table.index, key, span)->Ok_0;
            let k = (table.index, m.registers[key]);
            let c = code::ran(p, m, s, s1);
            if env.rows.contains_key(k) {
                &&& c matches Course::At(m1)
                &&& m1.registers[r] == env.rows[k]
                &&& machine::has_type(env.rows[k], table.value)
                &&& code::kept(s, m, m1)
            } else {
                c == Course::Stopped(Stop::Missing)
            }
        }),
{
    code::lemma_matched_facts(env, s, m);
    code::lemma_reads_row(p, m, s, table.value, 0x40, table.index, key, span);
    let k = (table.index, m.registers[key]);
    if env.rows.contains_key(k) {
        assert(machine::has_type(env.rows[k], table.value));
    }
}

/// An assignment to a row.
pub proof fn lemma_assign_row(
    p: Image,
    env: Env,
    m: Memory,
    s: State,
    target: Expr,
    value: Expr,
    op: Option<BinaryOp>,
)
    requires
        code::matched(env, s, m),
        p.host == env.host,
        flow::sound(s),
        op is Some ==> expr::compound_opcode(op) is Some,
        target.kind is Index,
        statement::assigned(s, target, value, expr::compound_opcode(op)) matches Ok(s1)
            && code::loaded(p, s1, s.code.len() as int),
    ensures
        ({
            let s1 = statement::assigned(s, target, value, expr::compound_opcode(op))->Ok_0;
            arrives(
                p,
                code::ran(p, m, s, s1),
                effects::assignment(env, op, target, value),
                s1,
                false,
            )
        }),
{
    let opcode = expr::compound_opcode(op);
    let span = target.span;
    flow::lemma_target(s, target);
    growth::lemma_grown_place(s, target);
    let (s1, table, key) = intrinsics::place(s, target)->Ok_0;
    let place = TargetModel::Row(table, key);
    flow::lemma_prior(s1, place, opcode, span);
    let (s2, prior) = statement::prior_value(s1, place, opcode, span)->Ok_0;
    let ty = Some(statement::value_type(table.value, opcode));
    growth::lemma_grown(s2, value, ty);
    let (s3, source) = expr::expression(s2, value, ty)->Ok_0;
    flow::lemma_grown_adds(s2, s3);
    let s4 = statement::stored(s3, place, opcode, prior, source, span)->Ok_0;
    flow::lemma_stored(s3, place, opcode, prior, source, span);
    growth::lemma_extends(s2, s3, s4);
    growth::lemma_extends(s1, s2, s4);
    let from = s.code.len() as int;
    code::lemma_loaded(p, s1, s4, from, s1.code.len() as int);
    code::lemma_loaded(p, s2, s4, s1.code.len() as int, s2.code.len() as int);
    code::lemma_loaded(p, s3, s4, s2.code.len() as int, s3.code.len() as int);
    expression::lemma_place(p, env, m, s, target);
    expression::lemma_part(p, env, s2, value, ty);
    code::lemma_compose(p, m, s, s1, s4);
    match code::ran(p, m, s, s1) {
        Course::At(m1) => {
            code::lemma_matched(env, s, s1, m, m1);
            lemma_row_value(
                p,
                env,
                m1,
                s1,
                target,
                value,
                op,
                table,
                key,
                s2,
                prior,
                s3,
                source,
                s4,
            );
        },
        Course::Stopped(stop) => {
            effects::lemma_key_stops(env, op, target, value, stop);
        },
        _ => {},
    }
}

/// An assignment to a row whose key is known.
proof fn lemma_row_value(
    p: Image,
    env: Env,
    m: Memory,
    s1: State,
    target: Expr,
    value: Expr,
    op: Option<BinaryOp>,
    table: TableShape,
    key: u16,
    s2: State,
    prior: u16,
    s3: State,
    source: u16,
    s4: State,
)
    requires
        code::matched(env, s1, m),
        p.host == env.host,
        flow::sound(s1),
        op is Some ==> expr::compound_opcode(op) is Some,
        target.kind matches ExprKind::Index(t, k) && meaning::names_table(
            env,
            *t,
            table.index as int,
        ) && meaning::meaning_of(env, *k)(Ok(m.registers[key])),
        key < s1.registers.len(),
        table.index < s1.tables.len(),
        s1.tables[table.index as int].1 == table,
        machine::has_type(m.registers[key], table.key),
        statement::prior_value(
            s1,
            TargetModel::Row(table, key),
            expr::compound_opcode(op),
            target.span,
        ) == Ok::<(State, u16), super::super::error::Fault>((s2, prior)),
        code::loaded(p, s2, s1.code.len() as int),
        flow::adds(s1, s2),
        op is Some ==> prior < s2.registers.len() && s2.registers[prior as int] == table.value,
        expression::part(p, env, s2, value, s3, source),
        flow::sound(s3),
        op is None ==> types::same_shape(s3.registers[source as int], table.value),
        statement::stored(
            s3,
            TargetModel::Row(table, key),
            expr::compound_opcode(op),
            prior,
            source,
            target.span,
        ) == Ok::<State, super::super::error::Fault>(s4),
        growth::extends(s3, s4),
        code::loaded(p, s4, s3.code.len() as int),
    ensures
        arrives(
            p,
            code::ran(p, m, s1, s4),
            effects::assignment(env, op, target, value),
            s4,
            false,
        ),
{
    let k = m.registers[key];
    let i = table.index as int;
    code::lemma_compose(p, m, s1, s2, s4);
    match op {
        None => {
            code::lemma_stays(p, m, s1);
            lemma_row_rest(
                p,
                env,
                m,
                target,
                value,
                op,
                table,
                key,
                s2,
                prior,
                s3,
                source,
                s4,
            );
        },
        Some(o) => {
            lemma_row_prior(p, env, m, s1, table, key, target.span);
            if env.rows.contains_key((table.index, k)) {
                if let Course::At(m1) = code::ran(p, m, s1, s2) {
                    code::lemma_matched(env, s1, s2, m, m1);
                    lemma_row_rest(
                        p,
                        env,
                        m1,
                        target,
                        value,
                        op,
                        table,
                        key,
                        s2,
                        prior,
                        s3,
                        source,
                        s4,
                    );
                }
            } else {
                effects::lemma_row_missing(env, o, target, value, k, i);
            }
        },
    }
}

/// The right operand of an assignment to a row, and its end.
proof fn lemma_row_rest(
    p: Image,
    env: Env,
    m: Memory,
    target: Expr,
    value: Expr,
    op: Option<BinaryOp>,
    table: TableShape,
    key: u16,
    s2: State,
    prior: u16,
    s3: State,
    source: u16,
    s4: State,
)
    requires
        code::matched(env, s2, m),
        p.host == env.host,
        op matches Some(_) ==> expr::compound_opcode(op) is Some && prior < s2.registers.len()
            && s2.registers[prior as int] == table.value && env.rows.contains_key(
            (table.index, m.registers[key]),
        ) && m.registers[prior] == env.rows[(table.index, m.registers[key])] && machine::has_type(
            m.registers[prior],
            table.value,
        ),
        target.kind matches ExprKind::Index(t, k) && meaning::names_table(
            env,
            *t,
            table.index as int,
        ) && meaning::meaning_of(env, *k)(Ok(m.registers[key])),
        key < s2.registers.len(),
        table.index < s2.tables.len(),
        s2.tables[table.index as int].1 == table,
        machine::has_type(m.registers[key], table.key),
        expression::part(p, env, s2, value, s3, source),
        flow::sound(s3),
        op is None ==> types::same_shape(s3.registers[source as int], table.value),
        statement::stored(
            s3,
            TargetModel::Row(table, key),
            expr::compound_opcode(op),
            prior,
            source,
            target.span,
        ) == Ok::<State, super::super::error::Fault>(s4),
        growth::extends(s3, s4),
        code::loaded(p, s4, s3.code.len() as int),
    ensures
        arrives(
            p,
            code::ran(p, m, s2, s4),
            effects::assignment(env, op, target, value),
            s4,
            false,
        ),
{
    let k = m.registers[key];
    let i = table.index as int;
    code::lemma_compose(p, m, s2, s3, s4);
    let c = code::ran(p, m, s2, s3);
    let b = code::answer(c, source);
    match op {
        None => {
            effects::lemma_row_assigned(env, target, value, k, i, b);
        },
        Some(op) => {
            effects::lemma_row_computed(env, op, target, value, k, i, b);
        },
    }
    if let Course::At(m1) = c {
        code::lemma_matched(env, s2, s3, m, m1);
        assert(m1.registers[key] == k);
        if op is Some {
            assert(m1.registers[prior] == m.registers[prior]);
            assert(s3.registers[prior as int] == s2.registers[prior as int]);
        }
        lemma_row_done(p, env, m1, s3, table, key, op, prior, source, target.span);
    }
}

} // verus!
