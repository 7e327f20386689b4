//! What the statements of the transaction language mean, apart from how they are
//! translated.

use super::ast::{BinaryOp, Expr, ExprKind, Stmt};
use super::machine::{Stop, Value};
use super::meaning;
use super::meaning::{Env, Meaning};
use vstd::prelude::*;

verus! {

/// Where a statement leads: on, with what the next statement finds, or out of
/// the program, with its result and the rows that it leaves.
pub enum After {
    On(Env),
    Returned(Value, Map<(u16, Value), Value>),
}

/// Whether the `i`-th entry is the latest one under a name.
pub open spec fn latest_at(list: Seq<(Seq<char>, Value)>, name: Seq<char>, i: int) -> bool {
    &&& 0 <= i < list.len()
    &&& list[i].0 == name
    &&& forall|j: int| i < j < list.len() ==> (#[trigger] list[j]).0 != name
}

/// What follows once a row has a value.
pub open spec fn with_row(env: Env, table: int, key: Value, v: Value) -> After {
    After::On(Env { rows: env.rows.insert((table as u16, key), v), ..env })
}

/// A write of a value under a key.
pub open spec fn stores(env: Env, table: Expr, key: Value, v: Value) -> Meaning<After> {
    |o: Result<After, Stop>|
        exists|i: int| #[trigger]
            meaning::names_table(env, table, i) && o == Ok::<After, Stop>(with_row(env, i, key, v))
}

/// A write of a value under a key that must not be there.
pub open spec fn inserts(env: Env, table: Expr, key: Value, v: Value) -> Meaning<After> {
    |o: Result<After, Stop>|
        exists|i: int| #[trigger]
            meaning::names_table(env, table, i) && o == if env.rows.contains_key(
                (i as u16, key),
            ) {
                Err(Stop::Present)
            } else {
                Ok(with_row(env, i, key, v))
            }
}

/// A removal of what is under a key.
pub open spec fn deletes(env: Env, table: Expr, key: Value) -> Meaning<After> {
    |o: Result<After, Stop>|
        exists|i: int| #[trigger]
            meaning::names_table(env, table, i) && o == match env.host.deletes_missing {
                Some(stop) if !env.rows.contains_key((i as u16, key)) => Err(stop),
                _ => Ok(After::On(Env { rows: env.rows.remove((i as u16, key)), ..env })),
            }
}

/// A read of what is under a key.
pub open spec fn loads(env: Env, table: Expr, key: Value) -> Meaning<Value> {
    |o: Result<Value, Stop>|
        exists|i: int| #[trigger]
            meaning::names_table(env, table, i) && o == meaning::row_value(env, i, key, false)
}

/// A new value of a local.
pub open spec fn sets(env: Env, name: Seq<char>, v: Value) -> Meaning<After> {
    |o: Result<After, Stop>|
        exists|i: int| #[trigger]
            latest_at(env.locals, name, i) && o == Ok::<After, Stop>(
                After::On(Env { locals: env.locals.update(i, (name, v)), ..env }),
            )
}

/// The value of a local.
pub open spec fn local_value(env: Env, name: Seq<char>) -> Meaning<Value> {
    |o: Result<Value, Stop>| o matches Ok(v) && meaning::latest(env.locals, name, v)
}

/// A compound assignment to a local.
pub open spec fn computed(env: Env, op: BinaryOp, name: Seq<char>, value: Expr) -> Meaning<After> {
    meaning::chained(
        local_value(env, name),
        |old: Value|
            meaning::chained(
                meaning::meaning_of(env, value),
                |v: Value|
                    meaning::chained(
                        meaning::exactly(meaning::binary_value(env.host, op, old, v)),
                        |w: Value| sets(env, name, w),
                    ),
            ),
    )
}

/// What an assignment means. A compound one reads its target once, before its
/// right operand is evaluated, and computes with that value.
#[verifier::opaque]
pub open spec fn assignment(env: Env, op: Option<BinaryOp>, target: Expr, value: Expr) -> Meaning<
    After,
> {
    match target.kind {
        ExprKind::Index(table, key) => meaning::chained(
            meaning::meaning_of(env, *key),
            |k: Value|
                match op {
                    None => meaning::chained(
                        meaning::meaning_of(env, value),
                        |v: Value| stores(env, *table, k, v),
                    ),
                    Some(op) => meaning::chained(
                        loads(env, *table, k),
                        |old: Value|
                            meaning::chained(
                                meaning::meaning_of(env, value),
                                |v: Value|
                                    meaning::chained(
                                        meaning::exactly(
                                            meaning::binary_value(env.host, op, old, v),
                                        ),
                                        |w: Value| stores(env, *table, k, w),
                                    ),
                            ),
                    ),
                },
        ),
        ExprKind::Name(name) => match op {
            None => meaning::chained(
                meaning::meaning_of(env, value),
                |v: Value| sets(env, name@, v),
            ),
            Some(op) => computed(env, op, name@, value),
        },
        _ => |o: Result<After, Stop>| false,
    }
}

/// The code of `require` or `abort`: a literal, or zero.
pub open spec fn code_of(args: Seq<Expr>, at: int) -> u32 {
    if at < args.len() && meaning::literal_number(args[at]) is Some {
        meaning::literal_number(args[at])->0 as u32
    } else {
        0
    }
}

/// An expression whose value is dropped.
pub open spec fn evaluates(env: Env, e: Expr) -> Meaning<After> {
    meaning::chained(meaning::meaning_of(env, e), |x: Value| meaning::exactly(Ok(After::On(env))))
}

/// What a call in statement position means.
#[verifier::opaque]
pub open spec fn call_effect(env: Env, e: Expr, name: Seq<char>, args: Seq<Expr>) -> Meaning<After> {
    let never = |o: Result<After, Stop>| false;
    if name == "require"@ {
        if 1 <= args.len() <= 2 {
            meaning::chained(
                meaning::meaning_of(env, args[0]),
                |x: Value|
                    meaning::exactly(
                        if x == Value::Bool(true) {
                            Ok(After::On(env))
                        } else {
                            Err(Stop::User(code_of(args, 1)))
                        },
                    ),
            )
        } else {
            never
        }
    } else if name == "abort"@ {
        meaning::exactly(Err(Stop::User(code_of(args, 0))))
    } else if name == "insert"@ || name == "store"@ || name == "delete"@ {
        if args.len() >= 1 {
            match args[0].kind {
                ExprKind::Index(table, key) => meaning::chained(
                    meaning::meaning_of(env, *key),
                    |k: Value|
                        if name == "delete"@ {
                            deletes(env, *table, k)
                        } else if args.len() == 2 {
                            meaning::chained(
                                meaning::meaning_of(env, args[1]),
                                |v: Value|
                                    if name == "insert"@ {
                                        inserts(env, *table, k, v)
                                    } else {
                                        stores(env, *table, k, v)
                                    },
                            )
                        } else {
                            never
                        },
                ),
                _ => never,
            }
        } else {
            never
        }
    } else {
        evaluates(env, e)
    }
}

/// What an expression in statement position means.
#[verifier::opaque]
pub open spec fn effect_of(env: Env, e: Expr) -> Meaning<After>
    decreases e, 3int,
{
    match e.kind {
        ExprKind::If(condition, block, alternative) => meaning::chained(
            meaning::meaning_of(env, *condition),
            |x: Value|
                if x == Value::Bool(true) {
                    block_effect(env, block.stmts@)
                } else {
                    match alternative {
                        None => meaning::exactly(Ok(After::On(env))),
                        Some(other) => effect_of(env, *other),
                    }
                },
        ),
        ExprKind::Block(block) => block_effect(env, block.stmts@),
        ExprKind::Return(Some(value)) => meaning::chained(
            meaning::meaning_of(env, *value),
            |x: Value| meaning::exactly(Ok(After::Returned(x, env.rows))),
        ),
        ExprKind::Return(None) => meaning::exactly(Ok(After::Returned(Value::Unit, env.rows))),
        ExprKind::Assign(op, target, value) => assignment(env, op, *target, *value),
        ExprKind::Call(function, args) => match function.kind {
            ExprKind::Name(name) => call_effect(env, e, name@, args@),
            _ => |o: Result<After, Stop>| false,
        },
        ExprKind::Name(name) => if name@ == "abort"@ {
            meaning::exactly(Err(Stop::User(0)))
        } else {
            evaluates(env, e)
        },
        _ => evaluates(env, e),
    }
}

/// What is left of what a block finds once it is over: its own locals are gone.
pub open spec fn left(env: Env, a: After) -> After {
    match a {
        After::On(next) => After::On(
            Env { locals: next.locals.take(env.locals.len() as int), ..next },
        ),
        After::Returned(v, rows) => a,
    }
}

/// What a block means.
#[verifier::opaque]
pub open spec fn block_effect(env: Env, stmts: Seq<Stmt>) -> Meaning<After>
    decreases stmts, stmts.len() + 1,
{
    meaning::chained(steps_effect(env, stmts, 0), |a: After| meaning::exactly(Ok(left(env, a))))
}

/// What the statements from the `i`-th on mean.
#[verifier::opaque]
pub open spec fn steps_effect(env: Env, stmts: Seq<Stmt>, i: int) -> Meaning<After>
    decreases stmts, stmts.len() - i,
{
    if !(0 <= i < stmts.len()) {
        meaning::exactly(Ok(After::On(env)))
    } else {
        meaning::chained(
            stmt_effect(env, stmts[i]),
            |a: After|
                match a {
                    After::On(next) => steps_effect(next, stmts, i + 1),
                    After::Returned(..) => meaning::exactly(Ok(a)),
                },
        )
    }
}

/// What a statement means.
#[verifier::opaque]
pub open spec fn stmt_effect(env: Env, stmt: Stmt) -> Meaning<After>
    decreases stmt, 0int,
{
    match stmt {
        Stmt::Let(l) => match (l.binding, l.init) {
            (Some(binding), Some(init)) => meaning::chained(
                meaning::meaning_of(env, init),
                |v: Value|
                    meaning::exactly(
                        Ok(
                            After::On(Env { locals: env.locals.push((binding.name@, v)), ..env }),
                        ),
                    ),
            ),
            _ => |o: Result<After, Stop>| false,
        },
        Stmt::Expr(e) => effect_of(env, e),
        Stmt::Other(_) => |o: Result<After, Stop>| false,
    }
}

// ---- How effects are put together ----------------------------------------

/// The key of an assignment stops.
pub proof fn lemma_key_stops(
    env: Env,
    op: Option<BinaryOp>,
    target: Expr,
    value: Expr,
    stop: Stop,
)
    requires
        target.kind matches ExprKind::Index(_, key) && meaning::meaning_of(env, *key)(Err(stop)),
    ensures
        assignment(env, op, target, value)(Err(stop)),
{
    reveal(assignment);
}

/// An assignment to a row.
pub proof fn lemma_row_assigned(
    env: Env,
    target: Expr,
    value: Expr,
    k: Value,
    i: int,
    b: Result<Value, Stop>,
)
    requires
        target.kind matches ExprKind::Index(table, key) && meaning::meaning_of(env, *key)(Ok(k))
            && meaning::names_table(env, *table, i),
        meaning::meaning_of(env, value)(b),
    ensures
        assignment(env, None, target, value)(
            match b {
                Err(stop) => Err(stop),
                Ok(v) => Ok(with_row(env, i, k, v)),
            },
        ),
{
    reveal(assignment);
    if let Ok(v) = b {
        let table = *target.kind->Index_0;
        assert(stores(env, table, k, v)(Ok(with_row(env, i, k, v))));
    }
}

/// A compound assignment to a row that is not there.
pub proof fn lemma_row_missing(
    env: Env,
    op: BinaryOp,
    target: Expr,
    value: Expr,
    k: Value,
    i: int,
)
    requires
        target.kind matches ExprKind::Index(table, key) && meaning::meaning_of(env, *key)(Ok(k))
            && meaning::names_table(env, *table, i),
        !env.rows.contains_key((i as u16, k)),
    ensures
        assignment(env, Some(op), target, value)(Err(Stop::Missing)),
{
    reveal(assignment);
    let table = *target.kind->Index_0;
    assert(loads(env, table, k)(Err(Stop::Missing)));
}

/// A compound assignment to a row.
pub proof fn lemma_row_computed(
    env: Env,
    op: BinaryOp,
    target: Expr,
    value: Expr,
    k: Value,
    i: int,
    b: Result<Value, Stop>,
)
    requires
        target.kind matches ExprKind::Index(table, key) && meaning::meaning_of(env, *key)(Ok(k))
            && meaning::names_table(env, *table, i),
        env.rows.contains_key((i as u16, k)),
        meaning::meaning_of(env, value)(b),
    ensures
        assignment(env, Some(op), target, value)(
            match b {
                Err(stop) => Err(stop),
                Ok(v) => match meaning::binary_value(env.host, op, env.rows[(i as u16, k)], v) {
                    Err(stop) => Err(stop),
                    Ok(w) => Ok(with_row(env, i, k, w)),
                },
            },
        ),
{
    reveal(assignment);
    let table = *target.kind->Index_0;
    let old = env.rows[(i as u16, k)];
    assert(loads(env, table, k)(Ok(old)));
    if let Ok(v) = b {
        let r = meaning::binary_value(env.host, op, old, v);
        assert(meaning::exactly(r)(r));
        if let Ok(w) = r {
            assert(stores(env, table, k, w)(Ok(with_row(env, i, k, w))));
        }
    }
}

/// An assignment to a local.
pub proof fn lemma_local_assigned(
    env: Env,
    target: Expr,
    value: Expr,
    i: int,
    b: Result<Value, Stop>,
)
    requires
        target.kind matches ExprKind::Name(name) && latest_at(env.locals, name@, i),
        meaning::meaning_of(env, value)(b),
    ensures
        assignment(env, None, target, value)(
            match b {
                Err(stop) => Err(stop),
                Ok(v) => Ok(
                    After::On(
                        Env { locals: env.locals.update(i, (target.kind->Name_0@, v)), ..env },
                    ),
                ),
            },
        ),
{
    reveal(assignment);
    if let Ok(v) = b {
        let name = target.kind->Name_0@;
        let o = After::On(Env { locals: env.locals.update(i, (name, v)), ..env });
        assert(sets(env, name, v)(Ok(o)));
    }
}

/// A compound assignment to a local.
pub proof fn lemma_local_computed(
    env: Env,
    op: BinaryOp,
    target: Expr,
    value: Expr,
    i: int,
    b: Result<Value, Stop>,
)
    requires
        target.kind matches ExprKind::Name(name) && latest_at(env.locals, name@, i),
        meaning::meaning_of(env, value)(b),
    ensures
        assignment(env, Some(op), target, value)(
            match b {
                Err(stop) => Err(stop),
                Ok(v) => match meaning::binary_value(env.host, op, env.locals[i].1, v) {
                    Err(stop) => Err(stop),
                    Ok(w) => Ok(
                        After::On(
                            Env { locals: env.locals.update(i, (target.kind->Name_0@, w)), ..env },
                        ),
                    ),
                },
            },
        ),
{
    reveal(assignment);
    let name = target.kind->Name_0@;
    let old = env.locals[i].1;
    assert(env.locals[i] == (name, old));
    assert(meaning::latest(env.locals, name, old));
    let o = match b {
        Err(stop) => Err::<After, Stop>(stop),
        Ok(v) => match meaning::binary_value(env.host, op, old, v) {
            Err(stop) => Err(stop),
            Ok(w) => Ok(After::On(Env { locals: env.locals.update(i, (name, w)), ..env })),
        },
    };
    if let Ok(v) = b {
        let r = meaning::binary_value(env.host, op, old, v);
        assert(meaning::exactly(r)(r));
        if let Ok(w) = r {
            assert(sets(env, name, w)(o));
        }
    }
    assert(local_value(env, name)(Ok(old)));
    assert(computed(env, op, name, value)(o));
}

/// An expression whose value is dropped.
pub proof fn lemma_evaluates(env: Env, e: Expr, a: Result<Value, Stop>)
    requires
        meaning::meaning_of(env, e)(a),
    ensures
        evaluates(env, e)(
            match a {
                Err(stop) => Err(stop),
                Ok(_) => Ok(After::On(env)),
            },
        ),
{
}

/// A `require`.
pub proof fn lemma_require(env: Env, e: Expr, args: Seq<Expr>, a: Result<Value, Stop>)
    requires
        1 <= args.len() <= 2,
        meaning::meaning_of(env, args[0])(a),
    ensures
        call_effect(env, e, "require"@, args)(
            match a {
                Err(stop) => Err(stop),
                Ok(x) => if x == Value::Bool(true) {
                    Ok(After::On(env))
                } else {
                    Err(Stop::User(code_of(args, 1)))
                },
            },
        ),
{
    reveal(call_effect);
}

/// An `abort`.
pub proof fn lemma_abort(env: Env, e: Expr, name: Seq<char>, args: Seq<Expr>)
    requires
        name != "require"@,
        name == "abort"@,
    ensures
        call_effect(env, e, name, args)(Err(Stop::User(code_of(args, 0)))),
{
    reveal(call_effect);
}

/// A call whose value is dropped.
pub proof fn lemma_other_call(
    env: Env,
    e: Expr,
    name: Seq<char>,
    args: Seq<Expr>,
    a: Result<Value, Stop>,
)
    requires
        name != "require"@,
        name != "abort"@,
        name != "insert"@,
        name != "store"@,
        name != "delete"@,
        meaning::meaning_of(env, e)(a),
    ensures
        call_effect(env, e, name, args)(
            match a {
                Err(stop) => Err(stop),
                Ok(_) => Ok(After::On(env)),
            },
        ),
{
    reveal(call_effect);
    lemma_evaluates(env, e, a);
}

/// The key of `insert`, `store` or `delete` stops.
pub proof fn lemma_row_call_stops(env: Env, e: Expr, name: Seq<char>, args: Seq<Expr>, stop: Stop)
    requires
        name != "require"@,
        name != "abort"@,
        name == "insert"@ || name == "store"@ || name == "delete"@,
        args.len() >= 1,
        args[0].kind matches ExprKind::Index(_, key) && meaning::meaning_of(env, *key)(Err(stop)),
    ensures
        call_effect(env, e, name, args)(Err(stop)),
{
    reveal(call_effect);
}

/// An `insert` or a `store`.
pub proof fn lemma_row_written(
    env: Env,
    e: Expr,
    name: Seq<char>,
    args: Seq<Expr>,
    k: Value,
    i: int,
    b: Result<Value, Stop>,
)
    requires
        name != "require"@,
        name != "abort"@,
        name == "insert"@ || name == "store"@,
        name != "delete"@,
        args.len() == 2,
        args[0].kind matches ExprKind::Index(table, key) && meaning::meaning_of(env, *key)(Ok(k))
            && meaning::names_table(env, *table, i),
        meaning::meaning_of(env, args[1])(b),
    ensures
        call_effect(env, e, name, args)(
            match b {
                Err(stop) => Err(stop),
                Ok(v) => if name == "insert"@ && env.rows.contains_key((i as u16, k)) {
                    Err(Stop::Present)
                } else {
                    Ok(with_row(env, i, k, v))
                },
            },
        ),
{
    reveal(call_effect);
    if let Ok(v) = b {
        let table = *args[0].kind->Index_0;
        let o = if name == "insert"@ && env.rows.contains_key((i as u16, k)) {
            Err(Stop::Present)
        } else {
            Ok(with_row(env, i, k, v))
        };
        if name == "insert"@ {
            assert(inserts(env, table, k, v)(o));
        } else {
            assert(stores(env, table, k, v)(o));
        }
    }
}

/// A `delete`.
pub proof fn lemma_row_deleted(
    env: Env,
    e: Expr,
    name: Seq<char>,
    args: Seq<Expr>,
    k: Value,
    i: int,
)
    requires
        name != "require"@,
        name != "abort"@,
        name == "delete"@,
        args.len() == 1,
        args[0].kind matches ExprKind::Index(table, key) && meaning::meaning_of(env, *key)(Ok(k))
            && meaning::names_table(env, *table, i),
    ensures
        call_effect(env, e, name, args)(
            match env.host.deletes_missing {
                Some(stop) if !env.rows.contains_key((i as u16, k)) => Err(stop),
                _ => Ok(After::On(Env { rows: env.rows.remove((i as u16, k)), ..env })),
            },
        ),
{
    reveal(call_effect);
    let table = *args[0].kind->Index_0;
    let o = match env.host.deletes_missing {
        Some(stop) if !env.rows.contains_key((i as u16, k)) => Err(stop),
        _ => Ok(After::On(Env { rows: env.rows.remove((i as u16, k)), ..env })),
    };
    assert(deletes(env, table, k)(o));
}

/// The condition of an `if` stops.
pub proof fn lemma_condition_stops(env: Env, e: Expr, stop: Stop)
    requires
        e.kind matches ExprKind::If(condition, _, _) && meaning::meaning_of(env, *condition)(
            Err(stop),
        ),
    ensures
        effect_of(env, e)(Err(stop)),
{
    reveal(effect_of);
}

/// An `if` whose condition holds.
pub proof fn lemma_if_holds(env: Env, e: Expr, o: Result<After, Stop>)
    requires
        e.kind matches ExprKind::If(condition, block, _) && meaning::meaning_of(env, *condition)(
            Ok(Value::Bool(true)),
        ) && block_effect(env, block.stmts@)(o),
    ensures
        effect_of(env, e)(o),
{
    reveal(effect_of);
    reveal(block_effect);
}

/// An `if` without `else` whose condition does not hold.
pub proof fn lemma_if_passed(env: Env, e: Expr)
    requires
        e.kind matches ExprKind::If(condition, _, None) && meaning::meaning_of(env, *condition)(
            Ok(Value::Bool(false)),
        ),
    ensures
        effect_of(env, e)(Ok(After::On(env))),
{
    reveal(effect_of);
}

/// An `else`.
pub proof fn lemma_else(env: Env, e: Expr, o: Result<After, Stop>)
    requires
        e.kind matches ExprKind::If(condition, _, Some(other)) && meaning::meaning_of(
            env,
            *condition,
        )(Ok(Value::Bool(false))) && effect_of(env, *other)(o),
    ensures
        effect_of(env, e)(o),
{
    reveal(effect_of);
}

/// A `return` of a value.
pub proof fn lemma_return(env: Env, e: Expr, a: Result<Value, Stop>)
    requires
        e.kind matches ExprKind::Return(Some(value)) && meaning::meaning_of(env, *value)(a),
    ensures
        effect_of(env, e)(
            match a {
                Err(stop) => Err(stop),
                Ok(x) => Ok(After::Returned(x, env.rows)),
            },
        ),
{
    reveal(effect_of);
}

/// A block.
pub proof fn lemma_block(env: Env, stmts: Seq<Stmt>, a: Result<After, Stop>)
    requires
        steps_effect(env, stmts, 0)(a),
    ensures
        block_effect(env, stmts)(
            match a {
                Err(stop) => Err(stop),
                Ok(x) => Ok(left(env, x)),
            },
        ),
{
    reveal(block_effect);
    reveal(steps_effect);
}

/// No more statements.
pub proof fn lemma_steps_end(env: Env, stmts: Seq<Stmt>, i: int)
    requires
        !(0 <= i < stmts.len()),
    ensures
        steps_effect(env, stmts, i)(Ok(After::On(env))),
{
    reveal(steps_effect);
}

/// A statement that does not lead on.
pub proof fn lemma_step_leaves(env: Env, stmts: Seq<Stmt>, i: int, o: Result<After, Stop>)
    requires
        0 <= i < stmts.len(),
        stmt_effect(env, stmts[i])(o),
        !(o matches Ok(After::On(_))),
    ensures
        steps_effect(env, stmts, i)(o),
{
    reveal(steps_effect);
    reveal(stmt_effect);
    if let Ok(a) = o {
        assert(meaning::exactly(Ok(a))(o));
    }
}

/// A statement that leads on.
pub proof fn lemma_step_on(
    env: Env,
    stmts: Seq<Stmt>,
    i: int,
    next: Env,
    o: Result<After, Stop>,
)
    requires
        0 <= i < stmts.len(),
        stmt_effect(env, stmts[i])(Ok(After::On(next))),
        steps_effect(next, stmts, i + 1)(o),
    ensures
        steps_effect(env, stmts, i)(o),
{
    reveal(steps_effect);
    reveal(stmt_effect);
}

/// A `let`.
pub proof fn lemma_let(env: Env, stmt: Stmt, a: Result<Value, Stop>)
    requires
        stmt matches Stmt::Let(l) && l.binding is Some && (l.init matches Some(init)
            && meaning::meaning_of(env, init)(a)),
    ensures
        stmt_effect(env, stmt)(
            match a {
                Err(stop) => Err(stop),
                Ok(v) => Ok(
                    After::On(
                        Env {
                            locals: env.locals.push((stmt->Let_0.binding->0.name@, v)),
                            ..env
                        },
                    ),
                ),
            },
        ),
{
    reveal(stmt_effect);
}

} // verus!
