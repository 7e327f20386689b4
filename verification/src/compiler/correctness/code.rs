//! What translated instructions do.

use super::super::ast::{BinaryOp, Expr, ExprKind, UnaryOp};
use super::super::compile;
use super::super::compile::expr;
use super::super::compile::intrinsics;
use super::super::compile::{State, TableShape};
use super::super::error::Span;
use super::super::machine;
use super::super::machine::{Course, Host, Image, Memory, Operation, ScanRequest, Stop, Turn, Value};
use super::super::meaning;
use super::super::meaning::Env;
use super::super::types;
use super::super::types::Shape;
use super::growth;
use crate::bytes;
use vstd::prelude::*;

verus! {

// ---- Instructions --------------------------------------------------------

/// The operands of an instruction are read back as they were written.
pub proof fn lemma_words_read(operands: Seq<u16>, tail: Seq<u8>, k: int)
    requires
        0 <= k < operands.len(),
    ensures
        bytes::un16(bytes::part(compile::words(operands) + tail, 2 * k, 2)) == operands[k],
        compile::words(operands).len() == 2 * operands.len(),
    decreases operands.len(),
{
    broadcast use bytes::group_le;

    compile::lemma_words(operands);
    let front = operands.drop_last();
    let last = bytes::le16(operands.last());
    compile::lemma_words(front);
    if k == operands.len() - 1 {
        assert(bytes::part(compile::words(operands) + tail, 2 * k, 2) =~= last);
    } else {
        lemma_words_read(front, last + tail, k);
        assert(compile::words(operands) + tail =~= compile::words(front) + (last + tail));
    }
}

/// The operands of an instruction with 16-bit operands.
pub proof fn lemma_plain(opcode: u8, operands: Seq<u16>)
    ensures
        forall|k: int|
            0 <= k < operands.len() ==> #[trigger] machine::word(
                compile::plain(opcode, operands),
                k,
            ) == operands[k],
{
    let code = compile::plain(opcode, operands);
    assert forall|k: int| 0 <= k < operands.len() implies #[trigger] machine::word(code, k)
        == operands[k] by {
        lemma_words_read(operands, Seq::empty(), k);
        assert(code.operands + Seq::<u8>::empty() =~= code.operands);
    }
}

/// The operands of an instruction on a table.
pub proof fn lemma_tabled(opcode: u8, operands: Seq<u16>, offset: usize, index: u16)
    ensures
        forall|k: int|
            0 <= k < operands.len() ==> #[trigger] machine::word(
                compile::tabled(opcode, operands, offset, index),
                k,
            ) == operands[k],
{
    let code = compile::tabled(opcode, operands, offset, index);
    assert forall|k: int| 0 <= k < operands.len() implies #[trigger] machine::word(code, k)
        == operands[k] by {
        lemma_words_read(operands, Seq::empty(), k);
        assert(code.operands + Seq::<u8>::empty() =~= code.operands);
    }
}

/// The operands of an aimed jump.
pub proof fn lemma_jump(condition: Option<u16>, target: int)
    requires
        0 <= target <= u32::MAX,
    ensures
        ({
            let code = compile::aimed(compile::open_jump(condition), target);
            match condition {
                Some(register) => code.opcode == 0x61 && machine::word(code, 0) == register
                    && bytes::un32(bytes::part(code.operands, 2, 4)) == target,
                None => code.opcode == 0x60 && bytes::un32(bytes::part(code.operands, 0, 4))
                    == target,
            }
        }),
{
    broadcast use bytes::group_le;

    let code = compile::aimed(compile::open_jump(condition), target);
    let aim = bytes::le32(target as u32);
    match condition {
        Some(register) => {
            let words = compile::words(seq![register]);
            lemma_words_read(seq![register], aim, 0);
            assert(code.operands =~= words + aim);
            assert(bytes::part(code.operands, 2, 4) =~= aim);
        },
        None => {
            assert(code.operands =~= aim);
            assert(bytes::part(code.operands, 0, 4) =~= aim);
        },
    }
}

/// Whether a program in memory holds the code behind `from`, and the constants,
/// of what was translated.
#[verifier::opaque]
pub open spec fn loaded(p: Image, s: State, from: int) -> bool {
    &&& s.code.len() <= p.code.len()
    &&& forall|i: int|
        #![trigger p.code[i]]
        #![trigger s.code[i]]
        from <= i < s.code.len() ==> p.code[i] == s.code[i]
    &&& growth::starts(p.constants, s.constants)
}

/// The registers that some operands name.
pub open spec fn values(m: Memory, operands: Seq<u16>) -> Seq<Value> {
    operands.map_values(|r: u16| m.registers[r])
}

/// Memory with a value in a register.
pub open spec fn set(m: Memory, r: u16, v: Value) -> Memory {
    Memory { registers: m.registers.insert(r, v), ..m }
}

/// One instruction of a run.
pub proof fn lemma_step(p: Image, m: Memory, at: int, end: int)
    requires
        0 <= at < end,
    ensures
        match machine::turn(p, m, at) {
            Turn::To(next, to) => at < to <= end ==> machine::run(p, m, at, end) == machine::run(
                p,
                next,
                to,
                end,
            ),
            Turn::Stopped(stop) => machine::run(p, m, at, end) == Course::Stopped(stop),
            Turn::Returned(v) => machine::run(p, m, at, end) == Course::Returned(v, m),
        },
{
    reveal(machine::run);
}

/// An instruction that performs an operation.
pub proof fn lemma_performs(p: Image, m: Memory, at: int, opcode: u8, operands: Seq<u16>, op: Operation)
    requires
        machine::operation(opcode) == Some(op),
        operands.len() == 1 + machine::operand_count(op),
        p.code[at] == compile::plain(opcode, operands),
    ensures
        machine::turn(p, m, at) == match machine::perform(
            p.host,
            op,
            values(m, operands.drop_first()),
        ) {
            Ok(v) => Turn::To(set(m, operands[0], v), at + 1),
            Err(stop) => Turn::Stopped(stop),
        },
{
    reveal(machine::turn);
    lemma_plain(opcode, operands);
    let code = p.code[at];
    assert(machine::read_all(m, code, 1, machine::operand_count(op)) =~= values(
        m,
        operands.drop_first(),
    ));
}

/// What a produced register gets.
pub proof fn lemma_produced(
    p: Image,
    m: Memory,
    s: State,
    ty: Shape,
    opcode: u8,
    operands: Seq<u16>,
    span: Span,
    op: Operation,
)
    requires
        machine::operation(opcode) == Some(op),
        operands.len() == machine::operand_count(op),
        compile::produced(s, ty, opcode, operands, span) matches Ok((s1, _)) && loaded(
            p,
            s1,
            s.code.len() as int,
        ),
    ensures
        ({
            let (s1, r) = compile::produced(s, ty, opcode, operands, span)->Ok_0;
            machine::run(p, m, s.code.len() as int, s1.code.len() as int) == match machine::perform(
                p.host,
                op,
                values(m, operands),
            ) {
                Ok(v) => Course::At(set(m, r, v)),
                Err(stop) => Course::Stopped(stop),
            }
        }),
{
    reveal(loaded);
    reveal(machine::run);
    let (s1, r) = compile::produced(s, ty, opcode, operands, span)->Ok_0;
    let at = s.code.len() as int;
    assert(p.code[at] == s1.code[at]);
    lemma_performs(p, m, at, opcode, seq![r] + operands, op);
    assert((seq![r] + operands).drop_first() =~= operands);
    lemma_step(p, m, at, at + 1);
}

/// A constant in a register.
pub proof fn lemma_constant(p: Image, m: Memory, s: State, ty: Shape, value: Seq<u8>, span: Span)
    requires
        growth::scoped(s),
        compile::with_constant(s, ty, value, span) matches Ok((s1, _)) && loaded(
            p,
            s1,
            s.code.len() as int,
        ),
    ensures
        ({
            let (s1, r) = compile::with_constant(s, ty, value, span)->Ok_0;
            machine::run(p, m, s.code.len() as int, s1.code.len() as int) == Course::At(
                set(m, r, machine::constant(ty, value)),
            )
        }),
{
    reveal(loaded);
    reveal(machine::turn);
    reveal(machine::run);
    let (s1, r) = compile::with_constant(s, ty, value, span)->Ok_0;
    let at = s.code.len() as int;
    let index = s.constants.len() as u16;
    assert(p.code[at] == s1.code[at]);
    lemma_plain(0x01, seq![r, index]);
    assert(machine::word(p.code[at], 0) == r);
    assert(machine::word(p.code[at], 1) == index);
    assert(s1.constants[index as int] == (ty, value));
    assert(p.constants[index as int] == (ty, value));
    lemma_step(p, m, at, at + 1);
}

/// What a register gets from a table.
pub proof fn lemma_reads_row(
    p: Image,
    m: Memory,
    s: State,
    ty: Shape,
    opcode: u8,
    table: u16,
    key: u16,
    span: Span,
)
    requires
        opcode == 0x40 || opcode == 0x41,
        compile::read_from(s, ty, opcode, table, key, span) matches Ok((s1, _)) && loaded(
            p,
            s1,
            s.code.len() as int,
        ),
    ensures
        ({
            let (s1, r) = compile::read_from(s, ty, opcode, table, key, span)->Ok_0;
            let there = m.rows.contains_key((table, m.registers[key]));
            machine::run(p, m, s.code.len() as int, s1.code.len() as int) == if opcode == 0x41 {
                Course::At(set(m, r, Value::Bool(there)))
            } else if there {
                Course::At(set(m, r, m.rows[(table, m.registers[key])]))
            } else {
                Course::Stopped(Stop::Missing)
            }
        }),
{
    reveal(loaded);
    reveal(machine::turn);
    reveal(machine::run);
    let (s1, r) = compile::read_from(s, ty, opcode, table, key, span)->Ok_0;
    let at = s.code.len() as int;
    assert(p.code[at] == s1.code[at]);
    let operands = seq![r, table, key];
    lemma_tabled(opcode, operands, 2, table);
    assert(machine::word(p.code[at], 0) == operands[0]);
    assert(machine::word(p.code[at], 1) == operands[1]);
    assert(machine::word(p.code[at], 2) == operands[2]);
    lemma_step(p, m, at, at + 1);
}

// ---- Types ---------------------------------------------------------------

/// Types that differ in their bounds have the same values.
pub proof fn lemma_same_values(v: Value, a: Shape, b: Shape)
    requires
        types::same_shape(a, b),
        machine::has_type(v, a),
    ensures
        machine::has_type(v, b),
    decreases a,
{
    reveal(machine::has_type);
    match (v, a, b) {
        (Value::Tuple(fields), Shape::Tuple(x), Shape::Tuple(y)) => {
            assert forall|i: int| 0 <= i < y.len() implies machine::has_type(
                fields[i],
                #[trigger] y[i],
            ) by {
                assert(machine::has_type(fields[i], x[i]));
                lemma_same_values(fields[i], x[i], y[i]);
            }
        },
        (Value::Rows(rows), Shape::Rows(ak, av, _), Shape::Rows(bk, bv, _)) => {
            assert forall|i: int| 0 <= i < rows.len() implies machine::has_type(
                (#[trigger] rows[i]).0,
                *bk,
            ) && machine::has_type(rows[i].1, *bv) by {
                lemma_same_values(rows[i].0, *ak, *bk);
                lemma_same_values(rows[i].1, *av, *bv);
            }
        },
        _ => {},
    }
}

/// The operands that an instruction takes by their types, it takes.
pub proof fn lemma_binary_typed(host: Host, opcode: u8, op: Operation, a: Shape, b: Shape, x: Value, y: Value)
    requires
        machine::operation(opcode) == Some(op),
        machine::operand_count(op) == 2,
        expr::takes(opcode, a, b),
        machine::has_type(x, a),
        machine::has_type(y, b),
    ensures
        match machine::perform(host, op, seq![x, y]) {
            Ok(v) => machine::has_type(
                v,
                if 0x20 <= opcode <= 0x2a {
                    Shape::Bool
                } else {
                    a
                },
            ),
            Err(stop) => stop !is Malformed,
        },
{
    reveal(machine::has_type);
    reveal(machine::perform);
}

// ---- What was translated, run --------------------------------------------

/// Whether the rows of the declared tables are of their types.
pub open spec fn typed_rows(tables: Seq<(Seq<char>, TableShape)>, rows: Map<(u16, Value), Value>) -> bool {
    forall|k: (u16, Value)| #[trigger]
        rows.contains_key(k) && k.0 < tables.len() ==> machine::has_type(
            k.1,
            tables[k.0 as int].1.key,
        ) && machine::has_type(rows[k], tables[k.0 as int].1.value)
}

/// Whether scans of typed rows give rows of the table, or a reason to abort.
pub open spec fn typed_scans(tables: Seq<(Seq<char>, TableShape)>, host: Host) -> bool {
    forall|rows: Map<(u16, Value), Value>, request: ScanRequest|
        typed_rows(tables, rows) && request.table < tables.len() ==> match #[trigger] (host.scan)(
            rows,
            request,
        ) {
            Ok(v) => machine::has_type(
                v,
                Shape::Rows(
                    Box::new(tables[request.table as int].1.key),
                    Box::new(tables[request.table as int].1.value),
                    0,
                ),
            ),
            Err(stop) => stop !is Malformed,
        }
}

/// Whether the registers and rows of a run are what an expression finds.
#[verifier::opaque]
pub open spec fn matched(env: Env, s: State, m: Memory) -> bool {
    &&& growth::scoped(s)
    &&& env.locals.len() == s.locals.len()
    &&& forall|i: int|
        #![trigger s.locals[i]]
        #![trigger env.locals[i]]
        0 <= i < s.locals.len() ==> s.locals[i].0 == env.locals[i].0
            && m.registers[s.locals[i].1.register] == env.locals[i].1 && machine::has_type(
            env.locals[i].1,
            s.registers[s.locals[i].1.register as int],
        )
    &&& env.captures.len() == s.captures.len()
    &&& forall|i: int|
        #![trigger s.captures[i]]
        #![trigger env.captures[i]]
        0 <= i < s.captures.len() ==> s.captures[i].0 == env.captures[i].0
            && m.registers[s.captures[i].1] == env.captures[i].1 && machine::has_type(
            env.captures[i].1,
            s.registers[s.captures[i].1 as int],
        )
    &&& env.tables.len() == s.tables.len()
    &&& forall|i: int|
        #![trigger s.tables[i]]
        #![trigger env.tables[i]]
        0 <= i < s.tables.len() ==> s.tables[i].0 == env.tables[i]
    &&& m.rows == env.rows
    &&& typed_rows(s.tables, m.rows)
    &&& typed_scans(s.tables, env.host)
    &&& env.host.deletes_missing matches Some(stop) ==> stop !is Malformed
}

/// Whether a run left all earlier registers and the rows as they were.
pub open spec fn kept(s: State, m: Memory, m1: Memory) -> bool {
    &&& m1.rows == m.rows
    &&& forall|r: u16|
        #![trigger m1.registers[r]]
        r < s.registers.len() ==> m1.registers[r] == m.registers[r]
}

pub proof fn lemma_matched(env: Env, s: State, s1: State, m: Memory, m1: Memory)
    requires
        matched(env, s, m),
        growth::extends(s, s1),
        growth::scoped(s1),
        kept(s, m, m1),
    ensures
        matched(env, s1, m1),
{
    reveal(matched);
    assert forall|i: int|
        #![trigger s1.locals[i]]
        #![trigger env.locals[i]]
        0 <= i < s1.locals.len() implies s1.locals[i].0 == env.locals[i].0
        && m1.registers[s1.locals[i].1.register] == env.locals[i].1 && machine::has_type(
        env.locals[i].1,
        s1.registers[s1.locals[i].1.register as int],
    ) by {
        assert(s.locals[i].1.register < s.registers.len());
    }
    assert forall|i: int|
        #![trigger s1.captures[i]]
        #![trigger env.captures[i]]
        0 <= i < s1.captures.len() implies s1.captures[i].0 == env.captures[i].0
        && m1.registers[s1.captures[i].1] == env.captures[i].1 && machine::has_type(
        env.captures[i].1,
        s1.registers[s1.captures[i].1 as int],
    ) by {
        assert(s.captures[i].1 < s.registers.len());
    }
}

/// The latest entry under a name.
pub proof fn lemma_find_latest<A>(list: Seq<(Seq<char>, A)>, name: Seq<char>)
    ensures
        compile::find(list, name) matches Some(a) ==> exists|i: int|
            0 <= i < list.len() && #[trigger] list[i] == (name, a) && forall|j: int|
                i < j < list.len() ==> (#[trigger] list[j]).0 != name,
    decreases list.len(),
{
    if list.len() > 0 {
        if list.last().0 == name {
            assert(list[list.len() - 1] == (name, list.last().1));
        } else {
            let front = list.drop_last();
            lemma_find_latest(front, name);
            if let Some(a) = compile::find(front, name) {
                let i = choose|i: int|
                    0 <= i < front.len() && #[trigger] front[i] == (name, a) && forall|j: int|
                        i < j < front.len() ==> (#[trigger] front[j]).0 != name;
                assert(list[i] == (name, a));
                assert forall|j: int| i < j < list.len() implies (#[trigger] list[j]).0 != name by {
                    if j < front.len() {
                        assert(front[j] == list[j]);
                    }
                }
            }
        }
    }
}

pub proof fn lemma_local(env: Env, s: State, m: Memory, name: Seq<char>)
    requires
        matched(env, s, m),
    ensures
        compile::find(s.locals, name) matches Some(local) ==> meaning::latest(
            env.locals,
            name,
            m.registers[local.register],
        ) && machine::has_type(m.registers[local.register], s.registers[local.register as int]),
{
    reveal(matched);
    lemma_find_latest(s.locals, name);
    if let Some(local) = compile::find(s.locals, name) {
        let i = choose|i: int|
            0 <= i < s.locals.len() && #[trigger] s.locals[i] == (name, local) && forall|j: int|
                i < j < s.locals.len() ==> (#[trigger] s.locals[j]).0 != name;
        assert(env.locals[i] == (name, m.registers[local.register]));
        assert forall|j: int| i < j < env.locals.len() implies (#[trigger] env.locals[j]).0
            != name by {
            assert(s.locals[j].0 != name);
        }
    }
}

pub proof fn lemma_capture(env: Env, s: State, m: Memory, name: Seq<char>)
    requires
        matched(env, s, m),
    ensures
        compile::find(s.captures, name) matches Some(r) ==> meaning::latest(
            env.captures,
            name,
            m.registers[r],
        ) && machine::has_type(m.registers[r], s.registers[r as int]),
{
    reveal(matched);
    lemma_find_latest(s.captures, name);
    if let Some(r) = compile::find(s.captures, name) {
        let i = choose|i: int|
            0 <= i < s.captures.len() && #[trigger] s.captures[i] == (name, r) && forall|j: int|
                i < j < s.captures.len() ==> (#[trigger] s.captures[j]).0 != name;
        assert(env.captures[i] == (name, m.registers[r]));
        assert forall|j: int| i < j < env.captures.len() implies (#[trigger] env.captures[j]).0
            != name by {
            assert(s.captures[j].0 != name);
        }
    }
}

pub proof fn lemma_table(env: Env, s: State, m: Memory, e: Expr)
    requires
        matched(env, s, m),
    ensures
        intrinsics::table_of(s, e) matches Ok(table) ==> {
            &&& meaning::names_table(env, e, table.index as int)
            &&& table.index < s.tables.len()
            &&& s.tables[table.index as int].1 == table
        },
{
    reveal(matched);
    if let ExprKind::Name(name) = e.kind {
        lemma_find_latest(s.tables, name@);
        if let Some(table) = compile::find(s.tables, name@) {
            let i = choose|i: int|
                0 <= i < s.tables.len() && #[trigger] s.tables[i] == (name@, table) && forall|j:
                    int| i < j < s.tables.len() ==> (#[trigger] s.tables[j]).0 != name@;
            assert(s.tables[i].1.index == i);
            assert(env.tables[i] == name@);
            assert forall|j: int| i < j < env.tables.len() implies #[trigger] env.tables[j]
                != env.tables[i] by {
                assert(s.tables[j].0 != name@);
            }
        }
    }
}

/// What a run leaves in a register, or why it stopped.
pub open spec fn answer(c: Course, r: u16) -> Result<Value, Stop> {
    match c {
        Course::At(m) => Ok(m.registers[r]),
        Course::Stopped(stop) => Err(stop),
        _ => Err(Stop::Malformed),
    }
}

/// Whether a run gets to its end with a value of the type of `r`, and leaves
/// what was there before; or aborts for a reason of its own.
pub open spec fn regular(c: Course, s: State, s1: State, r: u16, m: Memory) -> bool {
    match c {
        Course::At(m1) => machine::has_type(m1.registers[r], s1.registers[r as int]) && kept(
            s,
            m,
            m1,
        ),
        Course::Stopped(stop) => stop !is Malformed,
        _ => false,
    }
}

/// The run of the instructions that `s1` has beyond `s`.
pub open spec fn ran(p: Image, m: Memory, s: State, s1: State) -> Course {
    machine::run(p, m, s.code.len() as int, s1.code.len() as int)
}

/// What a run starts from.
pub proof fn lemma_matched_facts(env: Env, s: State, m: Memory)
    requires
        matched(env, s, m),
    ensures
        growth::scoped(s),
        m.rows == env.rows,
        typed_rows(s.tables, m.rows),
        typed_scans(s.tables, env.host),
        env.host.deletes_missing matches Some(stop) ==> stop !is Malformed,
{
    reveal(matched);
}

pub proof fn lemma_loaded(p: Image, a: State, b: State, from: int, later: int)
    requires
        growth::extends(a, b),
        loaded(p, b, from),
        0 <= from <= later,
    ensures
        loaded(p, a, from),
        loaded(p, b, later),
{
    reveal(loaded);
}

/// The instruction at a place.
pub proof fn lemma_loaded_at(p: Image, s: State, from: int, i: int)
    requires
        loaded(p, s, from),
        from <= i < s.code.len(),
    ensures
        p.code[i] == s.code[i],
{
    reveal(loaded);
}

pub proof fn lemma_compose(p: Image, m: Memory, s: State, s1: State, s2: State)
    requires
        s.code.len() <= s1.code.len() <= s2.code.len(),
    ensures
        match ran(p, m, s, s1) {
            Course::At(next) => ran(p, m, s, s2) == ran(p, next, s1, s2),
            Course::Past => true,
            other => ran(p, m, s, s2) == other,
        },
{
    machine::lemma_run_on(
        p,
        m,
        s.code.len() as int,
        s1.code.len() as int,
        s2.code.len() as int,
    );
}

/// Nothing runs nowhere.
pub proof fn lemma_stays(p: Image, m: Memory, s: State)
    ensures
        ran(p, m, s, s) == Course::At(m),
{
    reveal(machine::run);
}

/// What a copy does.
pub proof fn lemma_copy(p: Image, m: Memory, at: int, to: u16, from: u16)
    requires
        p.code[at] == compile::plain(0x03, seq![to, from]),
    ensures
        machine::turn(p, m, at) == Turn::To(set(m, to, m.registers[from]), at + 1),
{
    reveal(machine::perform);
    lemma_performs(p, m, at, 0x03, seq![to, from], Operation::Copy);
    assert(values(m, seq![to, from].drop_first()) =~= seq![m.registers[from]]);
}

/// Where jumps lead.
pub proof fn lemma_turn_jump(p: Image, m: Memory, at: int, condition: Option<u16>, target: int)
    requires
        0 <= target <= u32::MAX,
        p.code[at] == compile::aimed(compile::open_jump(condition), target),
    ensures
        match condition {
            None => machine::turn(p, m, at) == Turn::To(m, target),
            Some(r) => match m.registers[r] {
                Value::Bool(true) => machine::turn(p, m, at) == Turn::To(m, at + 1),
                Value::Bool(false) => machine::turn(p, m, at) == Turn::To(m, target),
                _ => true,
            },
        },
{
    reveal(machine::turn);
    lemma_jump(condition, target);
}

/// A value of type `bool`.
pub proof fn lemma_bool(v: Value, ty: Shape)
    requires
        machine::has_type(v, ty),
        types::same_shape(ty, Shape::Bool),
    ensures
        v is Bool,
        ty == Shape::Bool,
{
    reveal(machine::has_type);
}

/// A unary operator on a typed operand.
pub proof fn lemma_unary_typed(host: Host, op: UnaryOp, ty: Shape, x: Value, opcode: u8)
    requires
        machine::has_type(x, ty),
        expr::unary_opcode(op, ty) == Some(opcode),
    ensures
        machine::operation(opcode) matches Some(operation) && machine::operand_count(operation) == 1
            && machine::perform(host, operation, seq![x]) == meaning::unary_value(host, op, x),
        match meaning::unary_value(host, op, x) {
            Ok(v) => machine::has_type(v, ty),
            Err(stop) => stop !is Malformed,
        },
{
    reveal(machine::has_type);
    reveal(machine::perform);
}

/// An operator on typed operands.
pub proof fn lemma_operator(host: Host, op: BinaryOp, a: Shape, b: Shape, x: Value, y: Value)
    requires
        op != BinaryOp::And,
        op != BinaryOp::Or,
        machine::has_type(x, a),
        machine::has_type(y, b),
        expr::takes(expr::typed_opcode(expr::opcode_of(op).unwrap(), a), a, b),
    ensures
        ({
            let opcode = expr::typed_opcode(expr::opcode_of(op).unwrap(), a);
            &&& machine::operation(opcode) matches Some(operation)
            &&& machine::operand_count(operation) == 2
            &&& op != BinaryOp::NotEqual ==> machine::perform(host, operation, seq![x, y])
                == meaning::binary_value(host, op, x, y)
            &&& op == BinaryOp::NotEqual ==> machine::perform(host, operation, seq![x, y]) == Ok::<
                Value,
                Stop,
            >(Value::Bool(x == y))
        }),
{
    reveal(machine::has_type);
    reveal(machine::perform);
}

/// What the instruction of a binary operation does.
pub proof fn lemma_binary_instruction(
    p: Image,
    m: Memory,
    s: State,
    opcode: u8,
    left: u16,
    right: u16,
    span: Span,
)
    requires
        growth::scoped(s),
        left < s.registers.len(),
        right < s.registers.len(),
        machine::has_type(m.registers[left], s.registers[left as int]),
        machine::has_type(m.registers[right], s.registers[right as int]),
        expr::binary(s, opcode, left, right, span) matches Ok((s1, _)) && loaded(
            p,
            s1,
            s.code.len() as int,
        ),
        machine::operation(expr::typed_opcode(opcode, s.registers[left as int])) matches Some(op)
            && machine::operand_count(op) == 2,
    ensures
        ({
            let (s1, r) = expr::binary(s, opcode, left, right, span)->Ok_0;
            let op = machine::operation(
                expr::typed_opcode(opcode, s.registers[left as int]),
            )->0;
            &&& regular(ran(p, m, s, s1), s, s1, r, m)
            &&& answer(ran(p, m, s, s1), r) == machine::perform(
                p.host,
                op,
                seq![m.registers[left], m.registers[right]],
            )
            &&& growth::extends(s, s1)
            &&& growth::scoped(s1)
            &&& r < s1.registers.len()
        }),
{
    let a = s.registers[left as int];
    let b = s.registers[right as int];
    let code = expr::typed_opcode(opcode, a);
    let op = machine::operation(code)->0;
    let ty = if 0x20 <= code <= 0x2a {
        Shape::Bool
    } else {
        a
    };
    let operands = seq![left, right];
    lemma_produced(p, m, s, ty, code, operands, span, op);
    growth::lemma_grown_produced(s, ty, code, operands, span);
    assert(values(m, operands) =~= seq![m.registers[left], m.registers[right]]);
    lemma_binary_typed(p.host, code, op, a, b, m.registers[left], m.registers[right]);
}

/// What a tuple instruction does.
pub proof fn lemma_tuple_instruction(p: Image, m: Memory, s: State, fields: Seq<u16>, span: Span)
    requires
        growth::scoped(s),
        forall|k: int|
            0 <= k < fields.len() ==> (#[trigger] fields[k]) < s.registers.len()
                && machine::has_type(m.registers[fields[k]], s.registers[fields[k] as int]),
        expr::tuple_of(s, fields, span) matches Ok((s1, _)) && loaded(p, s1, s.code.len() as int),
    ensures
        ({
            let (s1, r) = expr::tuple_of(s, fields, span)->Ok_0;
            let v = Value::Tuple(values(m, fields));
            &&& ran(p, m, s, s1) == Course::At(set(m, r, v))
            &&& machine::has_type(v, s1.registers[r as int])
            &&& growth::extends(s, s1)
            &&& growth::scoped(s1)
            &&& r == s.registers.len()
        }),
{
    reveal(loaded);
    reveal(machine::turn);
    reveal(machine::run);
    let (s1, r) = expr::tuple_of(s, fields, span)->Ok_0;
    let at = s.code.len() as int;
    let shapes = fields.map_values(|f: u16| s.registers[f as int]);
    assert(types::valid_type(Shape::Tuple(shapes), true));
    assert(fields.len() < 65536);
    let head = (fields.len() % 65536) as u16;
    let operands = seq![r] + (seq![head] + fields);
    assert(p.code[at] == s1.code[at]);
    lemma_plain(0x58, operands);
    let code = p.code[at];
    assert(machine::word(code, 0) == operands[0]);
    assert(machine::word(code, 1) == operands[1]);
    assert(machine::read_all(m, code, 2, fields.len()) =~= values(m, fields)) by {
        assert forall|i: int| 0 <= i < fields.len() implies machine::read(m, code, 2 + i)
            == m.registers[fields[i]] by {
            assert(machine::word(code, 2 + i) == operands[2 + i]);
        }
    }
    lemma_step(p, m, at, at + 1);
    lemma_tuple_typed(values(m, fields), shapes);
}

pub proof fn lemma_tuple_typed(fields: Seq<Value>, shapes: Seq<Shape>)
    requires
        fields.len() == shapes.len(),
        forall|i: int|
            0 <= i < shapes.len() ==> machine::has_type(fields[i], #[trigger] shapes[i]),
    ensures
        machine::has_type(Value::Tuple(fields), Shape::Tuple(shapes)),
{
    reveal(machine::has_type);
}

/// What a field instruction does.
pub proof fn lemma_field_instruction(
    p: Image,
    m: Memory,
    s: State,
    source: u16,
    index: int,
    span: Span,
)
    requires
        growth::scoped(s),
        0 <= index,
        source < s.registers.len(),
        machine::has_type(m.registers[source], s.registers[source as int]),
        expr::field_of(s, source, index, span) matches Ok((s1, _)) && loaded(
            p,
            s1,
            s.code.len() as int,
        ),
    ensures
        ({
            let (s1, r) = expr::field_of(s, source, index, span)->Ok_0;
            &&& regular(ran(p, m, s, s1), s, s1, r, m)
            &&& answer(ran(p, m, s, s1), r) == meaning::field_value(m.registers[source], index)
            &&& growth::extends(s, s1)
            &&& growth::scoped(s1)
        }),
{
    reveal(loaded);
    reveal(machine::turn);
    reveal(machine::run);
    let (s1, r) = expr::field_of(s, source, index, span)->Ok_0;
    let at = s.code.len() as int;
    assert(types::valid_type(s.registers[source as int], true));
    let shapes = s.registers[source as int]->Tuple_0;
    assert(shapes.len() < 65536);
    let operands = seq![r] + seq![source, (index % 65536) as u16];
    assert(p.code[at] == s1.code[at]);
    lemma_plain(0x59, operands);
    let code = p.code[at];
    assert(machine::word(code, 0) == operands[0]);
    assert(machine::word(code, 1) == operands[1]);
    assert(machine::word(code, 2) == operands[2]);
    assert(m.registers[source] matches Value::Tuple(fields) && fields.len() == shapes.len()
        && machine::has_type(fields[index], shapes[index])) by {
        reveal(machine::has_type);
    }
    lemma_step(p, m, at, at + 1);
}

} // verus!
