//! Translated blocks and branches do what they mean.

use super::super::ast::{Expr, ExprKind, LetStmt, Stmt};
use super::super::compile;
use super::super::compile::expr;
use super::super::compile::intrinsics;
use super::super::compile::statement;
use super::super::compile::{Flow, Local, State, TableShape};
use super::super::effects;
use super::super::effects::After;
use super::super::error::Span;
use super::super::machine;
use super::super::machine::{Course, Image, Memory, Stop, Turn, Value};
use super::super::meaning;
use super::super::meaning::{Env, Meaning};
use super::super::types;
use super::super::types::Shape;
use super::code;
use super::expression;
use super::flow;
use super::growth;
use crate::bytes;
use vstd::prelude::*;

verus! {

/// Whether statements can be run: from what they find, on the code of their
/// translation.
pub open spec fn ready(p: Image, env: Env, m: Memory, s: State, result: Flow) -> bool {
    &&& code::matched(env, s, m)
    &&& p.host == env.host
    &&& flow::sound(s)
    &&& result matches Ok((s1, _)) && code::loaded(p, s1, s.code.len() as int)
}

/// Whether the run of translated statements gets where they are meant to.
pub open spec fn does(p: Image, m: Memory, s: State, meant: Meaning<After>, result: Flow) -> bool {
    let (s1, leaves) = result->Ok_0;
    super::statement::arrives(p, code::ran(p, m, s, s1), meant, s1, leaves)
}

// ---- Single statements ---------------------------------------------------

/// An expression whose value is dropped.
proof fn lemma_dropped(
    p: Image,
    env: Env,
    m: Memory,
    s: State,
    e: Expr,
    meant: Meaning<After>,
)
    requires
        code::matched(env, s, m),
        p.host == env.host,
        expr::expression(s, e, None) matches Ok((s1, _)) && code::loaded(
            p,
            s1,
            s.code.len() as int,
        ),
        forall|a: Result<Value, Stop>| #[trigger]
            meaning::meaning_of(env, e)(a) ==> meant(
                match a {
                    Err(stop) => Err(stop),
                    Ok(_) => Ok(After::On(env)),
                },
            ),
    ensures
        expr::expression(s, e, None) matches Ok((s1, _)) && super::statement::arrives(
            p,
            code::ran(p, m, s, s1),
            meant,
            s1,
            false,
        ),
{
    let (s1, r) = expr::expression(s, e, None)->Ok_0;
    code::lemma_matched_facts(env, s, m);
    growth::lemma_grown(s, e, None);
    expression::lemma_expression(p, env, m, s, e, None);
    if let Course::At(m1) = code::ran(p, m, s, s1) {
        code::lemma_matched(env, s, s1, m, m1);
    }
}

/// What an instruction with a user code does.
proof fn lemma_coded(
    p: Image,
    m: Memory,
    s: State,
    opcode: u8,
    operands: Seq<u16>,
    args: Seq<Expr>,
    at: int,
    span: Span,
)
    requires
        0 <= at,
        (opcode == 0x62 && operands.len() == 1 && m.registers[operands[0]] is Bool) || (opcode
            == 0x63 && operands.len() == 0),
        statement::coded(s, opcode, operands, args, at, span) matches Ok(s1) && code::loaded(
            p,
            s1,
            s.code.len() as int,
        ),
    ensures
        ({
            let s1 = statement::coded(s, opcode, operands, args, at, span)->Ok_0;
            let c = code::ran(p, m, s, s1);
            if opcode == 0x62 && m.registers[operands[0]] == Value::Bool(true) {
                c == Course::At(m)
            } else {
                c == Course::Stopped(Stop::User(effects::code_of(args, at)))
            }
        }),
{
    broadcast use bytes::group_le;

    let s1 = statement::coded(s, opcode, operands, args, at, span)->Ok_0;
    let n = statement::user_code(args, at)->Ok_0;
    assert(n as u32 == effects::code_of(args, at));
    let here = s.code.len() as int;
    code::lemma_loaded_at(p, s1, here, here);
    let tail = bytes::le32(n as u32);
    let c = p.code[here];
    compile::lemma_words(operands);
    assert(c.operands =~= compile::words(operands) + tail);
    if opcode == 0x62 {
        code::lemma_words_read(operands, tail, 0);
        assert(bytes::part(c.operands, 2, 4) =~= tail);
    } else {
        assert(bytes::part(c.operands, 0, 4) =~= tail);
    }
    reveal(machine::turn);
    code::lemma_step(p, m, here, here + 1);
    code::lemma_stays(p, m, s1);
}

/// A `require`.
proof fn lemma_require(
    p: Image,
    env: Env,
    m: Memory,
    s: State,
    e: Expr,
    function: Expr,
    args: Seq<Expr>,
)
    requires
        function.kind matches ExprKind::Name(name) && name@ == "require"@,
        ready(p, env, m, s, statement::called(s, e, function, args)),
    ensures
        does(
            p,
            m,
            s,
            effects::call_effect(env, e, "require"@, args),
            statement::called(s, e, function, args),
        ),
{
    let b = Some(Shape::Bool);
    code::lemma_matched_facts(env, s, m);
    growth::lemma_grown(s, args[0], b);
    let (s1, r) = expr::expression(s, args[0], b)->Ok_0;
    let s2 = statement::coded(s1, 0x62, seq![r], args, 1, e.span)->Ok_0;
    assert(growth::extends(s1, s2) && growth::scoped(s2));
    code::lemma_loaded(p, s1, s2, s.code.len() as int, s1.code.len() as int);
    code::lemma_compose(p, m, s, s1, s2);
    expression::lemma_expression(p, env, m, s, args[0], b);
    let c = code::ran(p, m, s, s1);
    effects::lemma_require(env, e, args, code::answer(c, r));
    if let Course::At(m1) = c {
        code::lemma_bool(m1.registers[r], s1.registers[r as int]);
        assert(seq![r][0] == r);
        lemma_coded(p, m1, s1, 0x62, seq![r], args, 1, e.span);
        growth::lemma_extends(s, s1, s2);
        code::lemma_matched(env, s, s2, m, m1);
    }
}

/// `insert`, `store` or `delete`.
proof fn lemma_row_operation(
    p: Image,
    env: Env,
    m: Memory,
    s: State,
    e: Expr,
    name: Seq<char>,
    args: Seq<Expr>,
)
    requires
        name != "require"@,
        name != "abort"@,
        name == "insert"@ || name == "store"@ || name == "delete"@,
        args.len() == (if name == "delete"@ {
            1int
        } else {
            2int
        }),
        ready(p, env, m, s, statement::row_operation(s, name, args, e.span)),
    ensures
        does(
            p,
            m,
            s,
            effects::call_effect(env, e, name, args),
            statement::row_operation(s, name, args, e.span),
        ),
{
    code::lemma_matched_facts(env, s, m);
    growth::lemma_grown_place(s, args[0]);
    let (s1, table, key) = intrinsics::place(s, args[0])->Ok_0;
    let (s9, _) = statement::row_operation(s, name, args, e.span)->Ok_0;
    if name == "delete"@ {
        assert(growth::extends(s1, s9) && growth::scoped(s9));
    } else {
        growth::lemma_grown(s1, args[1], Some(table.value));
        let (s2, value) = expr::expression(s1, args[1], Some(table.value))->Ok_0;
        assert(growth::extends(s2, s9) && growth::scoped(s9));
        growth::lemma_extends(s1, s2, s9);
        code::lemma_loaded(p, s2, s9, s.code.len() as int, s2.code.len() as int);
    }
    code::lemma_loaded(p, s1, s9, s.code.len() as int, s1.code.len() as int);
    code::lemma_compose(p, m, s, s1, s9);
    expression::lemma_place(p, env, m, s, args[0]);
    match code::ran(p, m, s, s1) {
        Course::At(m1) => {
            code::lemma_matched(env, s, s1, m, m1);
            if name == "delete"@ {
                lemma_delete(p, env, m1, s1, e, name, args, table, key, s9);
            } else {
                let (s2, value) = expr::expression(s1, args[1], Some(table.value))->Ok_0;
                code::lemma_loaded(p, s2, s9, s1.code.len() as int, s2.code.len() as int);
                expression::lemma_part(p, env, s1, args[1], Some(table.value));
                lemma_write(p, env, m1, s1, e, name, args, table, key, s2, value, s9);
            }
        },
        Course::Stopped(stop) => {
            effects::lemma_row_call_stops(env, e, name, args, stop);
        },
        _ => {},
    }
}

/// The end of `delete`.
proof fn lemma_delete(
    p: Image,
    env: Env,
    m: Memory,
    s: State,
    e: Expr,
    name: Seq<char>,
    args: Seq<Expr>,
    table: TableShape,
    key: u16,
    s1: State,
)
    requires
        name != "require"@,
        name != "abort"@,
        name == "delete"@,
        args.len() == 1,
        args[0].kind matches ExprKind::Index(t, k) && meaning::meaning_of(env, *k)(
            Ok(m.registers[key]),
        ) && meaning::names_table(env, *t, table.index as int),
        code::matched(env, s, m),
        p.host == env.host,
        growth::scoped(s1),
        compile::with_instruction(
            s,
            compile::tabled(0x44, seq![table.index, key], 0, table.index),
            e.span,
        ) == Ok::<State, super::super::error::Fault>(s1),
        code::loaded(p, s1, s.code.len() as int),
    ensures
        super::statement::arrives(
            p,
            code::ran(p, m, s, s1),
            effects::call_effect(env, e, name, args),
            s1,
            false,
        ),
{
    let operands = seq![table.index, key];
    let at = s.code.len() as int;
    let k = (table.index, m.registers[key]);
    code::lemma_matched_facts(env, s, m);
    code::lemma_loaded_at(p, s1, at, at);
    code::lemma_tabled(0x44, operands, 0, table.index);
    assert(machine::word(p.code[at], 0) == operands[0]);
    assert(machine::word(p.code[at], 1) == operands[1]);
    effects::lemma_row_deleted(env, e, name, args, m.registers[key], table.index as int);
    let m1 = Memory { rows: m.rows.remove(k), ..m };
    let env1 = Env { rows: env.rows.remove(k), ..env };
    let refused = p.host.deletes_missing is Some && !m.rows.contains_key(k);
    assert(machine::turn(p, m, at) == if refused {
        Turn::Stopped(p.host.deletes_missing->0)
    } else {
        Turn::To(m1, at + 1)
    }) by {
        reveal(machine::turn);
    }
    code::lemma_step(p, m, at, at + 1);
    code::lemma_stays(p, m1, s1);
    super::statement::lemma_remove_row(env, s, m, k);
    super::statement::lemma_matched_grown(env1, s, s1, m1);
    let meant = effects::call_effect(env, e, name, args);
    if refused {
        assert(meant(Err(p.host.deletes_missing->0)));
    } else {
        let c = code::ran(p, m, s, s1);
        super::statement::lemma_arrives_on(p, c, meant, s1, env1, m1);
    }
}

/// The value of `insert` or `store`, and its end.
proof fn lemma_write(
    p: Image,
    env: Env,
    m: Memory,
    s: State,
    e: Expr,
    name: Seq<char>,
    args: Seq<Expr>,
    table: TableShape,
    key: u16,
    s1: State,
    value: u16,
    s2: State,
)
    requires
        name != "require"@,
        name != "abort"@,
        name == "insert"@ || name == "store"@,
        name != "delete"@,
        args.len() == 2,
        args[0].kind matches ExprKind::Index(t, k) && meaning::meaning_of(env, *k)(
            Ok(m.registers[key]),
        ) && meaning::names_table(env, *t, table.index as int),
        code::matched(env, s, m),
        p.host == env.host,
        key < s.registers.len(),
        table.index < s.tables.len(),
        s.tables[table.index as int].1 == table,
        machine::has_type(m.registers[key], table.key),
        expression::part(p, env, s, args[1], s1, value),
        types::same_shape(s1.registers[value as int], table.value),
        compile::with_instruction(
            s1,
            compile::tabled(
                if name == "insert"@ {
                    0x42u8
                } else {
                    0x43u8
                },
                seq![table.index, key, value],
                0,
                table.index,
            ),
            e.span,
        ) == Ok::<State, super::super::error::Fault>(s2),
        code::loaded(p, s2, s1.code.len() as int),
    ensures
        super::statement::arrives(
            p,
            code::ran(p, m, s, s2),
            effects::call_effect(env, e, name, args),
            s2,
            false,
        ),
{
    let opcode = if name == "insert"@ {
        0x42u8
    } else {
        0x43u8
    };
    let k = m.registers[key];
    code::lemma_compose(p, m, s, s1, s2);
    let c = code::ran(p, m, s, s1);
    effects::lemma_row_written(
        env,
        e,
        name,
        args,
        k,
        table.index as int,
        code::answer(c, value),
    );
    if let Course::At(m1) = c {
        code::lemma_matched(env, s, s1, m, m1);
        assert(m1.registers[key] == k);
        code::lemma_same_values(
            m1.registers[value],
            s1.registers[value as int],
            table.value,
        );
        super::statement::lemma_row_stored(
            p,
            env,
            m1,
            s1,
            table,
            key,
            value,
            opcode,
            e.span,
        );
    }
}

/// A call in statement position.
proof fn lemma_called(
    p: Image,
    env: Env,
    m: Memory,
    s: State,
    e: Expr,
    function: Expr,
    args: Seq<Expr>,
)
    requires
        ready(p, env, m, s, statement::called(s, e, function, args)),
    ensures
        function.kind matches ExprKind::Name(name) && does(
            p,
            m,
            s,
            effects::call_effect(env, e, name@, args),
            statement::called(s, e, function, args),
        ),
{
    let name = function.kind->Name_0@;
    if name == "require"@ {
        lemma_require(p, env, m, s, e, function, args);
    } else if name == "abort"@ {
        lemma_coded(p, m, s, 0x63, Seq::empty(), args, 0, e.span);
        effects::lemma_abort(env, e, name, args);
    } else if name == "insert"@ || name == "store"@ || name == "delete"@ {
        lemma_row_operation(p, env, m, s, e, name, args);
    } else {
        let meant = effects::call_effect(env, e, name, args);
        assert forall|a: Result<Value, Stop>| #[trigger] meaning::meaning_of(env, e)(a) implies meant(
            match a {
                Err(stop) => Err(stop),
                Ok(_) => Ok(After::On(env)),
            },
        ) by {
            effects::lemma_other_call(env, e, name, args, a);
        }
        lemma_dropped(p, env, m, s, e, meant);
    }
}

/// What a return instruction does.
proof fn lemma_returned(p: Image, m: Memory, s: State, source: u16, span: Span)
    requires
        statement::returned(s, source, span) matches Ok((s1, _)) && code::loaded(
            p,
            s1,
            s.code.len() as int,
        ),
    ensures
        ({
            let (s1, leaves) = statement::returned(s, source, span)->Ok_0;
            code::ran(p, m, s, s1) == Course::Returned(m.registers[source], m) && leaves
        }),
{
    let (s1, _) = statement::returned(s, source, span)->Ok_0;
    let at = s.code.len() as int;
    code::lemma_loaded_at(p, s1, at, at);
    code::lemma_plain(0x64, seq![source]);
    assert(machine::word(p.code[at], 0) == seq![source][0]);
    reveal(machine::turn);
    code::lemma_step(p, m, at, at + 1);
}

/// A `return`.
proof fn lemma_return(p: Image, env: Env, m: Memory, s: State, e: Expr)
    requires
        e.kind is Return,
        ready(p, env, m, s, statement::effect(s, e)),
    ensures
        does(p, m, s, effects::effect_of(env, e), statement::effect(s, e)),
{
    let (s2, _) = statement::effect(s, e)->Ok_0;
    code::lemma_matched_facts(env, s, m);
    match e.kind->Return_0 {
        Some(value) => {
            growth::lemma_grown(s, *value, s.result);
            let (s1, source) = expr::expression(s, *value, s.result)->Ok_0;
            assert(growth::extends(s1, s2));
            code::lemma_loaded(p, s1, s2, s.code.len() as int, s1.code.len() as int);
            code::lemma_compose(p, m, s, s1, s2);
            expression::lemma_expression(p, env, m, s, *value, s.result);
            let c = code::ran(p, m, s, s1);
            effects::lemma_return(env, e, code::answer(c, source));
            if let Course::At(m1) = c {
                lemma_returned(p, m1, s1, source, e.span);
            }
        },
        None => {
            growth::lemma_grown_constant(s, Shape::Unit, Seq::empty(), e.span);
            let (s1, source) = compile::with_constant(s, Shape::Unit, Seq::empty(), e.span)->Ok_0;
            assert(growth::extends(s1, s2));
            code::lemma_loaded(p, s1, s2, s.code.len() as int, s1.code.len() as int);
            code::lemma_compose(p, m, s, s1, s2);
            code::lemma_constant(p, m, s, Shape::Unit, Seq::empty(), e.span);
            let m1 = code::set(m, source, Value::Unit);
            lemma_returned(p, m1, s1, source, e.span);
            reveal(effects::effect_of);
        },
    }
}

/// A `let`.
proof fn lemma_declared(p: Image, env: Env, m: Memory, s: State, l: LetStmt)
    requires
        code::matched(env, s, m),
        p.host == env.host,
        flow::sound(s),
        statement::declared(s, l) matches Ok(s1) && code::loaded(p, s1, s.code.len() as int),
    ensures
        ({
            let s1 = statement::declared(s, l)->Ok_0;
            super::statement::arrives(
                p,
                code::ran(p, m, s, s1),
                effects::stmt_effect(env, Stmt::Let(l)),
                s1,
                false,
            )
        }),
{
    let annotated = statement::annotation(l)->Ok_0;
    let binding = l.binding->0;
    let init = l.init->0;
    code::lemma_matched_facts(env, s, m);
    growth::lemma_grown(s, init, annotated);
    let (s1, source) = expr::expression(s, init, annotated)->Ok_0;
    let ty = match annotated {
        Some(ty) => ty,
        None => s1.registers[source as int],
    };
    growth::lemma_grown_produced(s1, ty, 0x03, seq![source], l.pattern);
    let (s2, r) = compile::produced(s1, ty, 0x03, seq![source], l.pattern)->Ok_0;
    let local = Local { register: r, mutable: binding.mutable };
    let s3 = statement::declared(s, l)->Ok_0;
    assert(s3 == (State { locals: s2.locals.push((binding.name@, local)), ..s2 }));
    assert(code::loaded(p, s2, s.code.len() as int)) by {
        reveal(code::loaded);
    }
    code::lemma_loaded(p, s1, s2, s.code.len() as int, s1.code.len() as int);
    code::lemma_compose(p, m, s, s1, s2);
    expression::lemma_expression(p, env, m, s, init, annotated);
    let c = code::ran(p, m, s, s1);
    effects::lemma_let(env, Stmt::Let(l), code::answer(c, source));
    if let Course::At(m1) = c {
        let v = m1.registers[source];
        if annotated is Some {
            code::lemma_same_values(v, s1.registers[source as int], ty);
        }
        code::lemma_produced(
            p,
            m1,
            s1,
            ty,
            0x03,
            seq![source],
            l.pattern,
            machine::Operation::Copy,
        );
        assert(code::values(m1, seq![source]) =~= seq![v]);
        assert(machine::perform(p.host, machine::Operation::Copy, seq![v]) == Ok::<Value, Stop>(v))
            by {
            reveal(machine::perform);
        }
        let m2 = code::set(m1, r, v);
        growth::lemma_extends(s, s1, s2);
        code::lemma_matched(env, s, s2, m, m2);
        super::statement::lemma_push_local(env, s2, m2, binding.name@, local);
        assert(m2.registers[r] == v);
        let env1 = Env { locals: env.locals.push((binding.name@, v)), ..env };
        let meant = effects::stmt_effect(env, Stmt::Let(l));
        let c3 = code::ran(p, m, s, s3);
        super::statement::lemma_arrives_on(p, c3, meant, s3, env1, m2);
    }
}

// ---- Blocks and branches -------------------------------------------------

/// Whether the instructions that `s1` has beyond `s` do what is meant, wherever
/// they run from what the statements find.
pub open spec fn segment(
    p: Image,
    env: Env,
    s: State,
    meant: Meaning<After>,
    s1: State,
    leaves: bool,
) -> bool {
    forall|m: Memory| #[trigger]
        code::matched(env, s, m) ==> super::statement::arrives(
            p,
            code::ran(p, m, s, s1),
            meant,
            s1,
            leaves,
        )
}

/// A jump over a block: where it leads when its condition does not hold.
proof fn lemma_branch(p: Image, m: Memory, s1: State, register: u16, target: int, end: int)
    requires
        0 <= s1.code.len() < target <= end <= u32::MAX,
        p.code[s1.code.len() as int] == compile::aimed(
            compile::open_jump(Some(register)),
            target,
        ),
        m.registers[register] is Bool,
    ensures
        machine::run(p, m, s1.code.len() as int, end) == machine::run(
            p,
            m,
            if m.registers[register] == Value::Bool(true) {
                s1.code.len() as int + 1
            } else {
                target
            },
            end,
        ),
{
    let at = s1.code.len() as int;
    code::lemma_turn_jump(p, m, at, Some(register), target);
    code::lemma_step(p, m, at, end);
}

/// An `if` without `else`, behind its condition.
proof fn lemma_if_alone(
    p: Image,
    env: Env,
    m: Memory,
    e: Expr,
    s1: State,
    register: u16,
    s2: State,
    s3: State,
    leaves: bool,
)
    requires
        e.kind matches ExprKind::If(condition, block, None) && meaning::meaning_of(
            env,
            *condition,
        )(Ok(m.registers[register])) && segment(
            p,
            env,
            s2,
            effects::block_effect(env, block.stmts@),
            s3,
            leaves,
        ),
        code::matched(env, s1, m),
        code::matched(env, s2, m),
        p.host == env.host,
        m.registers[register] is Bool,
        s2.code.len() == s1.code.len() + 1,
        s2.code.len() <= s3.code.len(),
        flow::sound(s1),
        flow::adds(s1, s3),
        growth::scoped(compile::patched(s3, s1.code.len() as int)),
        p.code[s1.code.len() as int] == compile::aimed(
            compile::open_jump(Some(register)),
            s3.code.len() as int,
        ),
    ensures
        ({
            let s4 = compile::patched(s3, s1.code.len() as int);
            super::statement::arrives(
                p,
                code::ran(p, m, s1, s4),
                effects::effect_of(env, e),
                s4,
                false,
            )
        }),
{
    let s4 = compile::patched(s3, s1.code.len() as int);
    let end = s3.code.len() as int;
    let whole = code::ran(p, m, s1, s4);
    let meant = effects::effect_of(env, e);
    lemma_branch(p, m, s1, register, end, end);
    if m.registers[register] == Value::Bool(true) {
        let c = code::ran(p, m, s2, s3);
        match c {
            Course::At(m1) => {
                let env1 = super::statement::lemma_arrived(
                    p,
                    Course::At(m1),
                    effects::block_effect(env, e.kind->If_1.stmts@),
                    s3,
                    leaves,
                );
                effects::lemma_if_holds(env, e, Ok(After::On(env1)));
                super::statement::lemma_matched_grown(env1, s3, s4, m1);
                super::statement::lemma_arrives_on(p, whole, meant, s4, env1, m1);
            },
            Course::Stopped(stop) => {
                effects::lemma_if_holds(env, e, Err(stop));
            },
            Course::Returned(v, m1) => {
                effects::lemma_if_holds(env, e, Ok(After::Returned(v, m1.rows)));
            },
            Course::Past => {},
        }
    } else {
        code::lemma_stays(p, m, s4);
        effects::lemma_if_passed(env, e);
        super::statement::lemma_matched_grown(env, s1, s4, m);
        super::statement::lemma_arrives_on(p, whole, meant, s4, env, m);
    }
}

/// An `if` with `else`, behind its condition: the block leads to `s3`, a jump
/// over the alternative follows unless control never gets there, and the
/// alternative leads from `s5` to `s6`.
proof fn lemma_if_else(
    p: Image,
    env: Env,
    m: Memory,
    e: Expr,
    s1: State,
    register: u16,
    s2: State,
    s3: State,
    leaves: bool,
    s5: State,
    s6: State,
    other_leaves: bool,
    s7: State,
)
    requires
        e.kind matches ExprKind::If(condition, block, Some(other)) && meaning::meaning_of(
            env,
            *condition,
        )(Ok(m.registers[register])) && segment(
            p,
            env,
            s2,
            effects::block_effect(env, block.stmts@),
            s3,
            leaves,
        ) && segment(p, env, s5, effects::effect_of(env, *other), s6, other_leaves),
        code::matched(env, s2, m),
        code::matched(env, s5, m),
        p.host == env.host,
        m.registers[register] is Bool,
        s2.code.len() == s1.code.len() + 1,
        s2.code.len() <= s3.code.len(),
        s5.code.len() == s3.code.len() + if leaves {
            0int
        } else {
            1int
        },
        s5.code.len() <= s6.code.len(),
        s7.code.len() == s6.code.len(),
        growth::scoped(s7),
        growth::starts(s7.registers, s3.registers),
        s7.registers == s6.registers,
        s7.locals == s3.locals && s7.locals == s6.locals,
        s7.captures == s3.captures && s7.captures == s6.captures,
        s7.tables == s3.tables && s7.tables == s6.tables,
        p.code[s1.code.len() as int] == compile::aimed(
            compile::open_jump(Some(register)),
            s5.code.len() as int,
        ),
        !leaves ==> p.code[s3.code.len() as int] == compile::aimed(
            compile::open_jump(None),
            s7.code.len() as int,
        ),
    ensures
        super::statement::arrives(
            p,
            code::ran(p, m, s1, s7),
            effects::effect_of(env, e),
            s7,
            leaves && other_leaves,
        ),
{
    let end = s7.code.len() as int;
    let third = s3.code.len() as int;
    let whole = code::ran(p, m, s1, s7);
    let meant = effects::effect_of(env, e);
    lemma_branch(p, m, s1, register, s5.code.len() as int, end);
    if m.registers[register] == Value::Bool(true) {
        let c = code::ran(p, m, s2, s3);
        machine::lemma_run_on(p, m, s2.code.len() as int, third, end);
        match c {
            Course::At(m1) => {
                let env1 = super::statement::lemma_arrived(
                    p,
                    Course::At(m1),
                    effects::block_effect(env, e.kind->If_1.stmts@),
                    s3,
                    leaves,
                );
                effects::lemma_if_holds(env, e, Ok(After::On(env1)));
                code::lemma_turn_jump(p, m1, third, None, end);
                code::lemma_step(p, m1, third, end);
                code::lemma_stays(p, m1, s7);
                super::statement::lemma_matched_grown(env1, s3, s7, m1);
                super::statement::lemma_arrives_on(p, whole, meant, s7, env1, m1);
            },
            Course::Stopped(stop) => {
                effects::lemma_if_holds(env, e, Err(stop));
            },
            Course::Returned(v, m1) => {
                effects::lemma_if_holds(env, e, Ok(After::Returned(v, m1.rows)));
            },
            Course::Past => {},
        }
    } else {
        match code::ran(p, m, s5, s6) {
            Course::At(m1) => {
                let env1 = super::statement::lemma_arrived(
                    p,
                    Course::At(m1),
                    effects::effect_of(env, *e.kind->If_2->0),
                    s6,
                    other_leaves,
                );
                effects::lemma_else(env, e, Ok(After::On(env1)));
                super::statement::lemma_matched_grown(env1, s6, s7, m1);
                super::statement::lemma_arrives_on(p, whole, meant, s7, env1, m1);
            },
            Course::Stopped(stop) => {
                effects::lemma_else(env, e, Err(stop));
            },
            Course::Returned(v, m1) => {
                effects::lemma_else(env, e, Ok(After::Returned(v, m1.rows)));
            },
            Course::Past => {},
        }
    }
}

/// The code of an `if` without `else`.
proof fn lemma_if_alone_code(p: Image, from: int, s1: State, s2: State, s3: State, register: u16)
    requires
        0 <= from <= s1.code.len(),
        flow::adds(s2, s3),
        s2.code == s1.code.push(compile::open_jump(Some(register))),
        starts_constants(s1, s3),
        code::loaded(p, compile::patched(s3, s1.code.len() as int), from),
    ensures
        code::loaded(p, s1, from),
        code::loaded(p, s3, s2.code.len() as int),
        p.code[s1.code.len() as int] == compile::aimed(
            compile::open_jump(Some(register)),
            s3.code.len() as int,
        ),
{
    reveal(code::loaded);
    let at = s1.code.len() as int;
    let s4 = compile::patched(s3, at);
    assert(s3.code[at] == s2.code[at]);
    assert(p.code[at] == s4.code[at]);
    assert forall|i: int|
        #![trigger p.code[i]]
        #![trigger s1.code[i]]
        from <= i < s1.code.len() implies p.code[i] == s1.code[i] by {
        assert(s4.code[i] == s3.code[i]);
        assert(s3.code[i] == s2.code[i]);
        assert(s2.code[i] == s1.code[i]);
    }
    assert forall|i: int|
        #![trigger p.code[i]]
        #![trigger s3.code[i]]
        s2.code.len() <= i < s3.code.len() implies p.code[i] == s3.code[i] by {
        assert(s4.code[i] == s3.code[i]);
    }
}

/// Whether the constants of `a` stand in front of those of `b`.
spec fn starts_constants(a: State, b: State) -> bool {
    growth::starts(b.constants, a.constants)
}

/// The code of an `if` with `else`, where the alternative starts at `s5` and
/// leads to `s6`, and a jump at the end of the block, if there is one, is aimed
/// behind it.
proof fn lemma_if_else_code(
    p: Image,
    from: int,
    s1: State,
    s2: State,
    s3: State,
    register: u16,
    leaves: bool,
    s5: State,
    s6: State,
    s7: State,
)
    requires
        0 <= from <= s1.code.len(),
        flow::adds(s2, s3),
        flow::adds(s5, s6),
        s2.code == s1.code.push(compile::open_jump(Some(register))),
        starts_constants(s1, s3),
        starts_constants(s3, s5),
        ({
            let at = s1.code.len() as int;
            if leaves {
                s5 == compile::patched(s3, at) && s7 == s6
            } else {
                &&& s5.code == s3.code.push(compile::open_jump(None)).update(
                    at,
                    compile::aimed(s3.code[at], s3.code.len() as int + 1),
                )
                &&& s7 == compile::patched(s6, s3.code.len() as int)
            }
        }),
        code::loaded(p, s7, from),
    ensures
        code::loaded(p, s1, from),
        code::loaded(p, s3, s2.code.len() as int),
        code::loaded(p, s6, s5.code.len() as int),
        s5.code.len() == s3.code.len() + if leaves {
            0int
        } else {
            1int
        },
        p.code[s1.code.len() as int] == compile::aimed(
            compile::open_jump(Some(register)),
            s5.code.len() as int,
        ),
        !leaves ==> p.code[s3.code.len() as int] == compile::aimed(
            compile::open_jump(None),
            s7.code.len() as int,
        ),
{
    reveal(code::loaded);
    let at = s1.code.len() as int;
    let third = s3.code.len() as int;
    assert(s3.code[at] == s2.code[at]);
    assert(s6.code[at] == s5.code[at]);
    assert(s7.code[at] == s6.code[at]);
    assert(p.code[at] == s7.code[at]);
    if !leaves {
        assert(s6.code[third] == s5.code[third]);
        assert(p.code[third] == s7.code[third]);
    }
    assert forall|i: int|
        #![trigger p.code[i]]
        #![trigger s1.code[i]]
        from <= i < s1.code.len() implies p.code[i] == s1.code[i] by {
        assert(s7.code[i] == s6.code[i]);
        assert(s6.code[i] == s5.code[i]);
        assert(s5.code[i] == s3.code[i]);
        assert(s3.code[i] == s2.code[i]);
        assert(s2.code[i] == s1.code[i]);
    }
    assert forall|i: int|
        #![trigger p.code[i]]
        #![trigger s3.code[i]]
        s2.code.len() <= i < s3.code.len() implies p.code[i] == s3.code[i] by {
        assert(s7.code[i] == s6.code[i]);
        assert(s6.code[i] == s5.code[i]);
        assert(s5.code[i] == s3.code[i]);
    }
    assert forall|i: int|
        #![trigger p.code[i]]
        #![trigger s6.code[i]]
        s5.code.len() <= i < s6.code.len() implies p.code[i] == s6.code[i] by {
        assert(s7.code[i] == s6.code[i]);
    }
}

proof fn lemma_if(p: Image, env: Env, m: Memory, s: State, e: Expr)
    requires
        e.kind is If,
        ready(p, env, m, s, statement::effect(s, e)),
    ensures
        does(p, m, s, effects::effect_of(env, e), statement::effect(s, e)),
    decreases e, 2int,
{
    let (condition, block, alternative) = match e.kind {
        ExprKind::If(condition, block, alternative) => (*condition, block, alternative),
        _ => arbitrary(),
    };
    let b = Some(Shape::Bool);
    let from = s.code.len() as int;
    code::lemma_matched_facts(env, s, m);
    growth::lemma_grown(s, condition, b);
    let (s1, register) = expr::expression(s, condition, b)->Ok_0;
    flow::lemma_grown_adds(s, s1);
    let s2 = compile::with_instruction(s1, compile::open_jump(Some(register)), e.span)->Ok_0;
    flow::lemma_grown_adds(s1, s2);
    flow::lemma_scope(s2, block.stmts@);
    let (s3, leaves) = statement::scope(s2, block.stmts@)->Ok_0;
    let at = s1.code.len() as int;
    let (s9, ends) = statement::effect(s, e)->Ok_0;
    match alternative {
        None => {
            flow::lemma_patch_adds(s1, s3, at);
            assert(s9 == compile::patched(s3, at));
            lemma_if_alone_code(p, from, s1, s2, s3, register);
            lemma_block_segment(p, env, s2, block.stmts@);
        },
        Some(other) => {
            if leaves {
                let s5 = compile::patched(s3, at);
                flow::lemma_patch_adds(s1, s3, at);
                flow::lemma_effect(s5, *other);
                let (s6, other_leaves) = statement::effect(s5, *other)->Ok_0;
                assert(s9 == s6);
                lemma_if_else_code(p, from, s1, s2, s3, register, leaves, s5, s6, s9);
                lemma_block_segment(p, env, s2, block.stmts@);
                lemma_effect_segment(p, env, s5, *other);
            } else {
                let s4 = compile::with_instruction(s3, compile::open_jump(None), e.span)->Ok_0;
                flow::lemma_grown_adds(s3, s4);
                flow::lemma_patch_adds(s1, s4, at);
                let s5 = compile::patched(s4, at);
                flow::lemma_effect(s5, *other);
                let (s6, other_leaves) = statement::effect(s5, *other)->Ok_0;
                assert(s9 == compile::patched(s6, s3.code.len() as int));
                flow::lemma_patch_adds(s1, s6, s3.code.len() as int);
                lemma_if_else_code(p, from, s1, s2, s3, register, leaves, s5, s6, s9);
                lemma_block_segment(p, env, s2, block.stmts@);
                lemma_effect_segment(p, env, s5, *other);
            }
        },
    }
    expression::lemma_expression(p, env, m, s, condition, b);
    code::lemma_compose(p, m, s, s1, s9);
    match code::ran(p, m, s, s1) {
        Course::At(m1) => {
            code::lemma_bool(m1.registers[register], s1.registers[register as int]);
            code::lemma_matched(env, s, s1, m, m1);
            super::statement::lemma_matched_grown(env, s1, s2, m1);
            match alternative {
                None => {
                    lemma_if_alone(p, env, m1, e, s1, register, s2, s3, leaves);
                },
                Some(other) => {
                    let s5 = if leaves {
                        compile::patched(s3, at)
                    } else {
                        compile::patched(
                            compile::with_instruction(
                                s3,
                                compile::open_jump(None),
                                e.span,
                            )->Ok_0,
                            at,
                        )
                    };
                    let (s6, other_leaves) = statement::effect(s5, *other)->Ok_0;
                    super::statement::lemma_matched_grown(env, s1, s5, m1);
                    lemma_if_else(
                        p,
                        env,
                        m1,
                        e,
                        s1,
                        register,
                        s2,
                        s3,
                        leaves,
                        s5,
                        s6,
                        other_leaves,
                        s9,
                    );
                },
            }
        },
        Course::Stopped(stop) => {
            effects::lemma_condition_stops(env, e, stop);
        },
        _ => {},
    }
}

proof fn lemma_block_segment(p: Image, env: Env, s: State, stmts: Seq<Stmt>)
    requires
        flow::sound(s),
        p.host == env.host,
        statement::scope(s, stmts) matches Ok((s1, _)) && code::loaded(
            p,
            s1,
            s.code.len() as int,
        ),
    ensures
        statement::scope(s, stmts) matches Ok((s1, leaves)) && segment(
            p,
            env,
            s,
            effects::block_effect(env, stmts),
            s1,
            leaves,
        ),
    decreases stmts, stmts.len() + 2,
{
    let (s1, leaves) = statement::scope(s, stmts)->Ok_0;
    assert forall|m: Memory| #[trigger] code::matched(env, s, m) implies super::statement::arrives(
        p,
        code::ran(p, m, s, s1),
        effects::block_effect(env, stmts),
        s1,
        leaves,
    ) by {
        lemma_scope(p, env, m, s, stmts);
    }
}

proof fn lemma_effect_segment(p: Image, env: Env, s: State, e: Expr)
    requires
        flow::sound(s),
        p.host == env.host,
        statement::effect(s, e) matches Ok((s1, _)) && code::loaded(p, s1, s.code.len() as int),
    ensures
        statement::effect(s, e) matches Ok((s1, leaves)) && segment(
            p,
            env,
            s,
            effects::effect_of(env, e),
            s1,
            leaves,
        ),
    decreases e, 4int,
{
    let (s1, leaves) = statement::effect(s, e)->Ok_0;
    assert forall|m: Memory| #[trigger] code::matched(env, s, m) implies super::statement::arrives(
        p,
        code::ran(p, m, s, s1),
        effects::effect_of(env, e),
        s1,
        leaves,
    ) by {
        lemma_effect(p, env, m, s, e);
    }
}

proof fn lemma_effect(p: Image, env: Env, m: Memory, s: State, e: Expr)
    requires
        ready(p, env, m, s, statement::effect(s, e)),
    ensures
        does(p, m, s, effects::effect_of(env, e), statement::effect(s, e)),
    decreases e, 3int,
{
    match e.kind {
        ExprKind::If(..) => {
            lemma_if(p, env, m, s, e);
        },
        ExprKind::Block(block) => {
            lemma_scope(p, env, m, s, block.stmts@);
            reveal(effects::effect_of);
            reveal(effects::block_effect);
        },
        ExprKind::Return(_) => {
            lemma_return(p, env, m, s, e);
        },
        ExprKind::Assign(op, target, value) => {
            if target.kind is Index {
                super::statement::lemma_assign_row(p, env, m, s, *target, *value, op);
            } else {
                super::statement::lemma_assign_local(p, env, m, s, *target, *value, op);
            }
            reveal(effects::effect_of);
        },
        ExprKind::Call(function, args) => {
            lemma_called(p, env, m, s, e, *function, args@);
            reveal(effects::effect_of);
        },
        _ => {
            let meant = effects::effect_of(env, e);
            reveal(effects::effect_of);
            if e.kind matches ExprKind::Name(name) && name@ == "abort"@ {
                lemma_coded(p, m, s, 0x63, Seq::empty(), Seq::empty(), 0, e.span);
            } else {
                assert forall|a: Result<Value, Stop>| #[trigger]
                    meaning::meaning_of(env, e)(a) implies meant(
                    match a {
                        Err(stop) => Err(stop),
                        Ok(_) => Ok(After::On(env)),
                    },
                ) by {
                    effects::lemma_evaluates(env, e, a);
                }
                lemma_dropped(p, env, m, s, e, meant);
            }
        },
    }
}

proof fn lemma_scope(p: Image, env: Env, m: Memory, s: State, stmts: Seq<Stmt>)
    requires
        ready(p, env, m, s, statement::scope(s, stmts)),
    ensures
        does(p, m, s, effects::block_effect(env, stmts), statement::scope(s, stmts)),
    decreases stmts, stmts.len() + 1,
{
    flow::lemma_steps(s, stmts, 0, false);
    flow::lemma_scope(s, stmts);
    let (s1, leaves) = statement::steps(s, stmts, 0, false)->Ok_0;
    let s2 = State { locals: s.locals, ..s1 };
    assert(code::loaded(p, s1, s.code.len() as int)) by {
        reveal(code::loaded);
    }
    lemma_steps(p, env, m, s, stmts, 0);
    match code::ran(p, m, s, s1) {
        Course::At(m1) => {
            let env1 = super::statement::lemma_arrived(
                p,
                Course::At(m1),
                effects::steps_effect(env, stmts, 0),
                s1,
                leaves,
            );
            effects::lemma_block(env, stmts, Ok(After::On(env1)));
            super::statement::lemma_leave(env, env1, s, s1, m, m1);
            let env2 = Env { locals: env1.locals.take(env.locals.len() as int), ..env1 };
            super::statement::lemma_arrives_on(
                p,
                Course::At(m1),
                effects::block_effect(env, stmts),
                s2,
                env2,
                m1,
            );
        },
        Course::Stopped(stop) => {
            effects::lemma_block(env, stmts, Err(stop));
        },
        Course::Returned(v, m1) => {
            effects::lemma_block(env, stmts, Ok(After::Returned(v, m1.rows)));
        },
        Course::Past => {},
    }
}

/// A statement, and those behind it.
proof fn lemma_step_and_rest(
    p: Image,
    env: Env,
    m: Memory,
    s: State,
    stmts: Seq<Stmt>,
    i: int,
    s1: State,
    leaves: bool,
    s2: State,
    ends: bool,
)
    requires
        0 <= i < stmts.len(),
        s.code.len() <= s1.code.len() <= s2.code.len(),
        super::statement::arrives(
            p,
            code::ran(p, m, s, s1),
            effects::stmt_effect(env, stmts[i]),
            s1,
            leaves,
        ),
        !leaves ==> forall|env1: Env, m1: Memory| #[trigger]
            code::matched(env1, s1, m1) && env1.host == p.host ==> super::statement::arrives(
                p,
                code::ran(p, m1, s1, s2),
                effects::steps_effect(env1, stmts, i + 1),
                s2,
                ends,
            ),
    ensures
        super::statement::arrives(
            p,
            code::ran(p, m, s, s2),
            effects::steps_effect(env, stmts, i),
            s2,
            ends,
        ),
{
    code::lemma_compose(p, m, s, s1, s2);
    let meant = effects::steps_effect(env, stmts, i);
    let first = effects::stmt_effect(env, stmts[i]);
    match code::ran(p, m, s, s1) {
        Course::At(m1) => {
            let env1 = super::statement::lemma_arrived(p, Course::At(m1), first, s1, leaves);
            let rest = effects::steps_effect(env1, stmts, i + 1);
            match code::ran(p, m1, s1, s2) {
                Course::At(m2) => {
                    let env2 = super::statement::lemma_arrived(p, Course::At(m2), rest, s2, ends);
                    effects::lemma_step_on(env, stmts, i, env1, Ok(After::On(env2)));
                    super::statement::lemma_arrives_on(p, Course::At(m2), meant, s2, env2, m2);
                },
                Course::Stopped(stop) => {
                    effects::lemma_step_on(env, stmts, i, env1, Err(stop));
                },
                Course::Returned(v, m2) => {
                    let o = Ok(After::Returned(v, m2.rows));
                    effects::lemma_step_on(env, stmts, i, env1, o);
                },
                Course::Past => {},
            }
        },
        Course::Stopped(stop) => {
            effects::lemma_step_leaves(env, stmts, i, Err(stop));
        },
        Course::Returned(v, m1) => {
            effects::lemma_step_leaves(env, stmts, i, Ok(After::Returned(v, m1.rows)));
        },
        Course::Past => {},
    }
}

proof fn lemma_steps(p: Image, env: Env, m: Memory, s: State, stmts: Seq<Stmt>, i: int)
    requires
        0 <= i <= stmts.len(),
        ready(p, env, m, s, statement::steps(s, stmts, i, false)),
    ensures
        does(
            p,
            m,
            s,
            effects::steps_effect(env, stmts, i),
            statement::steps(s, stmts, i, false),
        ),
    decreases stmts, stmts.len() - i,
{
    if i < stmts.len() {
        assert(decreases_to!(stmts => stmts[i]));
        flow::lemma_stmt(s, stmts[i]);
        let (s1, leaves) = statement::step(s, stmts[i])->Ok_0;
        flow::lemma_steps(s1, stmts, i + 1, leaves);
        let (s2, ends) = statement::steps(s, stmts, i, false)->Ok_0;
        assert(code::loaded(p, s1, s.code.len() as int) && code::loaded(
            p,
            s2,
            s1.code.len() as int,
        )) by {
            reveal(code::loaded);
        }
        lemma_stmt(p, env, m, s, stmts[i]);
        if !leaves {
            assert forall|env1: Env, m1: Memory| #[trigger]
                code::matched(env1, s1, m1) && env1.host == p.host implies super::statement::arrives(
                p,
                code::ran(p, m1, s1, s2),
                effects::steps_effect(env1, stmts, i + 1),
                s2,
                ends,
            ) by {
                lemma_steps(p, env1, m1, s1, stmts, i + 1);
            }
        } else {
            lemma_left_last(s1, stmts, i + 1);
        }
        lemma_step_and_rest(p, env, m, s, stmts, i, s1, leaves, s2, ends);
    } else {
        code::lemma_stays(p, m, s);
        effects::lemma_steps_end(env, stmts, i);
        super::statement::lemma_arrives_on(
            p,
            Course::At(m),
            effects::steps_effect(env, stmts, i),
            s,
            env,
            m,
        );
    }
}

/// Nothing stands behind a statement that control never gets behind.
proof fn lemma_left_last(s: State, stmts: Seq<Stmt>, i: int)
    requires
        0 <= i <= stmts.len(),
        statement::steps(s, stmts, i, true) is Ok,
    ensures
        statement::steps(s, stmts, i, true) == Ok::<(State, bool), super::super::error::Fault>(
            (s, true),
        ),
{
}

proof fn lemma_stmt(p: Image, env: Env, m: Memory, s: State, stmt: Stmt)
    requires
        ready(p, env, m, s, statement::step(s, stmt)),
    ensures
        does(p, m, s, effects::stmt_effect(env, stmt), statement::step(s, stmt)),
    decreases stmt, 0int,
{
    match stmt {
        Stmt::Let(l) => {
            lemma_declared(p, env, m, s, l);
        },
        Stmt::Expr(e) => {
            lemma_effect(p, env, m, s, e);
            reveal(effects::stmt_effect);
            reveal(effects::effect_of);
        },
        Stmt::Other(_) => {},
    }
}

/// A translated block, run from what its statements find, does what they mean:
/// it gets to its end with what the next statement finds, returns a result and
/// leaves the rows, or aborts, just as the block does.
pub proof fn blocks_do_what_they_mean(
    p: Image,
    env: Env,
    m: Memory,
    s: State,
    stmts: Seq<Stmt>,
    s1: State,
    leaves: bool,
)
    requires
        statement::scope(s, stmts) == Ok::<(State, bool), super::super::error::Fault>((s1, leaves)),
        code::matched(env, s, m),
        flow::sound(s),
        p.host == env.host,
        code::loaded(p, s1, s.code.len() as int),
    ensures
        match machine::run(p, m, s.code.len() as int, s1.code.len() as int) {
            Course::At(m1) => !leaves && exists|env1: Env| #[trigger]
                code::matched(env1, s1, m1) && effects::block_effect(env, stmts)(
                    Ok(After::On(env1)),
                ),
            Course::Stopped(stop) => stop !is Malformed && effects::block_effect(env, stmts)(
                Err(stop),
            ),
            Course::Returned(v, m1) => effects::block_effect(env, stmts)(
                Ok(After::Returned(v, m1.rows)),
            ),
            Course::Past => false,
        },
{
    lemma_scope(p, env, m, s, stmts);
}

} // verus!
