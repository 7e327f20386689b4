//! Translated programs do what their sources mean.

use super::super::ast::Block;
use super::super::compile;
use super::super::compile::program;
use super::super::compile::program::TemplateModel;
use super::super::compile::statement;
use super::super::compile::{Local, State, TableShape};
use super::super::effects;
use super::super::effects::After;
use super::super::error::Fault;
use super::super::machine;
use super::super::machine::{Course, Host, Image, Memory, Turn, Value};
use super::super::meaning::Env;
use super::super::syntax::{CaptureModel, ProgramModel, TableModel};
use super::super::types;
use super::super::types::Shape;
use super::code;
use super::control;
use super::flow;
use super::growth;
use vstd::prelude::*;

verus! {

/// The declared tables, in their order.
pub open spec fn declared_tables(tables: Seq<TableModel>) -> Seq<(Seq<char>, TableShape)> {
    Seq::new(
        tables.len(),
        |i: int|
            (
                tables[i].name,
                TableShape { index: i as u16, key: tables[i].key, value: tables[i].value },
            ),
    )
}

/// What a program finds: its captures as locals, its tables and the rows.
pub open spec fn entry(
    program: ProgramModel,
    arguments: Seq<Value>,
    rows: Map<(u16, Value), Value>,
    host: Host,
) -> Env {
    let captured = Seq::new(
        program.captures.len(),
        |i: int| (program.captures[i].name, arguments[i]),
    );
    Env {
        locals: captured,
        captures: captured,
        tables: Seq::new(program.tables.len(), |i: int| program.tables[i].name),
        rows,
        host,
    }
}

proof fn lemma_tables(s: State, tables: Seq<TableModel>, i: int)
    requires
        0 <= i <= tables.len(),
        i <= 65535,
        s.tables == declared_tables(tables).take(i),
    ensures
        program::with_tables(s, tables, i) matches Ok(s1) ==> s1 == (State {
            tables: declared_tables(tables),
            ..s
        }) && tables.len() <= 65535,
    decreases tables.len() - i,
{
    let all = declared_tables(tables);
    if i < tables.len() {
        if i < 65535 {
            let info = TableShape { index: i as u16, key: tables[i].key, value: tables[i].value };
            let next = State { tables: s.tables.push((tables[i].name, info)), ..s };
            assert(next.tables =~= all.take(i + 1));
            lemma_tables(next, tables, i + 1);
        }
    } else {
        assert(all.take(i) =~= all);
    }
}

/// Whether the first `i` captures are loaded: each into a register of its own.
spec fn loading(s: State, captures: Seq<CaptureModel>, i: int) -> bool {
    &&& 0 <= i <= captures.len()
    &&& i <= 65535
    &&& s.registers.len() == i
    &&& s.code.len() == i
    &&& s.locals.len() == i
    &&& s.captures.len() == i
    &&& s.constants.len() == 0
    &&& forall|j: int|
        #![trigger s.registers[j]]
        0 <= j < i ==> s.registers[j] == captures[j].ty && types::valid_type(
            s.registers[j],
            true,
        )
    &&& forall|j: int|
        #![trigger s.code[j]]
        0 <= j < i ==> s.code[j] == compile::plain(0x02, seq![j as u16, j as u16])
    &&& forall|j: int|
        #![trigger s.locals[j]]
        0 <= j < i ==> s.locals[j] == (
            captures[j].name,
            Local { register: j as u16, mutable: false },
        )
    &&& forall|j: int|
        #![trigger s.captures[j]]
        0 <= j < i ==> s.captures[j] == (captures[j].name, j as u16)
}

proof fn lemma_captures(s: State, captures: Seq<CaptureModel>, i: int)
    requires
        loading(s, captures, i),
    ensures
        program::with_captures(s, captures, i) matches Ok(s1) ==> loading(
            s1,
            captures,
            captures.len() as int,
        ) && s1.tables == s.tables && growth::returns_alike(s, s1),
    decreases captures.len() - i,
{
    if i < captures.len() && i < 65535 {
        let c = captures[i];
        if let Ok((s1, r)) = compile::with_register(s, c.ty, c.span) {
            if let Ok(s2) = compile::with_instruction(
                s1,
                compile::plain(0x02, seq![r, i as u16]),
                c.span,
            ) {
                let next = State {
                    locals: s2.locals.push((c.name, Local { register: r, mutable: false })),
                    captures: s2.captures.push((c.name, r)),
                    ..s2
                };
                assert(loading(next, captures, i + 1));
                lemma_captures(next, captures, i + 1);
            }
        }
    }
}

/// The captures are loaded one after another.
proof fn lemma_loads(p: Image, m: Memory, s: State, captures: Seq<CaptureModel>, k: int)
    requires
        loading(s, captures, captures.len() as int),
        0 <= k <= captures.len(),
        forall|i: int|
            #![trigger p.code[i]]
            0 <= i < s.code.len() ==> p.code[i] == s.code[i],
        p.arguments.len() == captures.len(),
    ensures
        machine::run(p, m, 0, k) matches Course::At(m1) && m1.rows == m.rows && forall|j: u16|
            j < k ==> #[trigger] m1.registers[j] == p.arguments[j as int],
    decreases k,
{
    if k == 0 {
        reveal(machine::run);
    } else {
        lemma_loads(p, m, s, captures, k - 1);
        machine::lemma_run_on(p, m, 0, k - 1, k);
        let m1 = machine::run(p, m, 0, k - 1)->At_0;
        let at = k - 1;
        let r = at as u16;
        assert(p.code[at] == s.code[at]);
        code::lemma_plain(0x02, seq![r, r]);
        assert(machine::word(p.code[at], 0) == seq![r, r][0]);
        assert(machine::word(p.code[at], 1) == seq![r, r][1]);
        let m2 = code::set(m1, r, p.arguments[at]);
        assert(machine::turn(p, m1, at) == Turn::To(m2, k)) by {
            reveal(machine::turn);
        }
        code::lemma_step(p, m1, at, k);
        assert(machine::run(p, m2, k, k) == Course::At(m2)) by {
            reveal(machine::run);
        }
    }
}

/// The end of a body that control gets to: the result is unit.
proof fn lemma_falls_off(p: Image, m: Memory, s: State, body: Block, s2: State)
    requires
        growth::scoped(s),
        compile::with_constant(s, Shape::Unit, Seq::empty(), body.span) matches Ok((s1, unit))
            && compile::with_instruction(s1, compile::plain(0x64, seq![unit]), body.span) == Ok::<
            State,
            Fault,
        >(s2),
        code::loaded(p, s2, s.code.len() as int),
    ensures
        code::ran(p, m, s, s2) matches Course::Returned(v, m1) && v == Value::Unit && m1.rows
            == m.rows,
{
    let (s1, unit) = compile::with_constant(s, Shape::Unit, Seq::empty(), body.span)->Ok_0;
    growth::lemma_grown_constant(s, Shape::Unit, Seq::empty(), body.span);
    assert(growth::extends(s1, s2));
    code::lemma_loaded(p, s1, s2, s.code.len() as int, s1.code.len() as int);
    code::lemma_compose(p, m, s, s1, s2);
    code::lemma_constant(p, m, s, Shape::Unit, Seq::empty(), body.span);
    let m1 = code::set(m, unit, Value::Unit);
    let at = s1.code.len() as int;
    code::lemma_loaded_at(p, s2, at, at);
    code::lemma_plain(0x64, seq![unit]);
    assert(machine::word(p.code[at], 0) == seq![unit][0]);
    assert(machine::turn(p, m1, at) == Turn::Returned(Value::Unit)) by {
        reveal(machine::turn);
    }
    code::lemma_step(p, m1, at, at + 1);
}

/// A translated program does what its source means: run on captured values and
/// rows of the declared types, it returns a result and leaves the rows as its
/// statements do, or aborts as they do. A body that runs to its end returns unit,
/// and no other result is declared then. No other end is possible.
pub proof fn programs_do_what_their_sources_mean(
    program: ProgramModel,
    body: Block,
    s: State,
    arguments: Seq<Value>,
    m: Memory,
    host: Host,
)
    requires
        program::translated(program, body) == Ok::<State, Fault>(s),
        arguments.len() == program.captures.len(),
        forall|i: int|
            #![trigger arguments[i]]
            0 <= i < arguments.len() ==> machine::has_type(arguments[i], program.captures[i].ty),
        code::typed_rows(declared_tables(program.tables), m.rows),
        code::typed_scans(declared_tables(program.tables), host),
        host.deletes_missing matches Some(stop) ==> stop !is Malformed,
    ensures
        ({
            let p = Image { code: s.code, constants: s.constants, arguments, host };
            let meant = effects::block_effect(entry(program, arguments, m.rows, host), body.stmts@);
            match machine::run(p, m, 0, s.code.len() as int) {
                Course::Returned(v, m1) => meant(Ok(After::Returned(v, m1.rows))) || (v
                    == Value::Unit && exists|env1: Env| #[trigger]
                    meant(Ok(After::On(env1))) && env1.rows == m1.rows && (program.result is Some
                        ==> program.result == Some(Shape::Unit))),
                Course::Stopped(stop) => stop !is Malformed && meant(Err(stop)),
                _ => false,
            }
        }),
{
    let p = Image { code: s.code, constants: s.constants, arguments, host };
    let env = entry(program, arguments, m.rows, host);
    let meant = effects::block_effect(env, body.stmts@);
    let start = program::initial(program.result);
    let n = program.captures.len() as int;
    assert(start.tables =~= declared_tables(program.tables).take(0));
    lemma_tables(start, program.tables, 0);
    let s0 = program::with_tables(start, program.tables, 0)->Ok_0;
    lemma_captures(s0, program.captures, 0);
    let s1 = program::with_captures(s0, program.captures, 0)->Ok_0;
    let (s2, leaves) = statement::scope(s1, body.stmts@)->Ok_0;
    assert(flow::sound(s1));
    flow::lemma_scope(s1, body.stmts@);
    lemma_body(s1, body);
    assert(code::loaded(p, s, 0)) by {
        reveal(code::loaded);
    }
    growth::lemma_extends(s1, s2, s);
    code::lemma_loaded(p, s1, s, 0, s1.code.len() as int);
    code::lemma_loaded(p, s2, s, s1.code.len() as int, s2.code.len() as int);
    lemma_loads(p, m, s1, program.captures, n);
    let m1 = machine::run(p, m, 0, n)->At_0;
    assert(code::matched(env, s1, m1)) by {
        reveal(code::matched);
    }
    machine::lemma_run_on(p, m, 0, n, s.code.len() as int);
    code::lemma_compose(p, m1, s1, s2, s);
    control::blocks_do_what_they_mean(p, env, m1, s1, body.stmts@, s2, leaves);
    if let Course::At(m2) = code::ran(p, m1, s1, s2) {
        let env1 = choose|env1: Env| #[trigger]
            code::matched(env1, s2, m2) && meant(Ok(After::On(env1)));
        code::lemma_matched_facts(env1, s2, m2);
        lemma_falls_off(p, m2, s2, body, s);
        assert(meant(Ok(After::On(env1))));
    }
    if leaves {
        assert(s2 == s);
    } else if !(code::ran(p, m1, s1, s2) is At) {
        assert(code::ran(p, m1, s1, s) == code::ran(p, m1, s1, s2));
    }
}

/// The end of a body adds to it.
proof fn lemma_body(s: State, body: Block)
    requires
        flow::sound(s),
        program::with_body(s, body) is Ok,
        statement::scope(s, body.stmts@) matches Ok((s1, _)) && flow::adds(s, s1),
    ensures
        ({
            let (s1, leaves) = statement::scope(s, body.stmts@)->Ok_0;
            let s2 = program::with_body(s, body)->Ok_0;
            growth::extends(s1, s2) && growth::extends(s, s1)
        }),
{
    let (s1, leaves) = statement::scope(s, body.stmts@)->Ok_0;
    if !leaves {
        growth::lemma_grown_constant(s1, Shape::Unit, Seq::empty(), body.span);
    }
}

/// A template says what its program declares: the types of the captured values,
/// in order, and the type of the result, where that is declared.
pub proof fn templates_have_the_declared_types(
    program: ProgramModel,
    body: Block,
    template: TemplateModel,
)
    requires
        program::compiled(program, body) == Ok::<TemplateModel, Fault>(template),
    ensures
        template.arguments.len() == program.captures.len(),
        forall|i: int|
            0 <= i < program.captures.len() ==> #[trigger] template.arguments[i]
                == program.captures[i].ty,
        program.result matches Some(ty) ==> template.result == ty,
        types::valid_type(template.result, true),
{
    let start = program::initial(program.result);
    assert(start.tables =~= declared_tables(program.tables).take(0));
    lemma_tables(start, program.tables, 0);
    let s0 = program::with_tables(start, program.tables, 0)->Ok_0;
    lemma_captures(s0, program.captures, 0);
    let s1 = program::with_captures(s0, program.captures, 0)->Ok_0;
    assert(flow::sound(s1));
    flow::lemma_scope(s1, body.stmts@);
}

} // verus!
