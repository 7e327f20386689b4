//! Translation of statements.

use super::super::ast::{Block, Expr, ExprKind, LetStmt, Stmt};
use super::super::bytecode::Code;
use super::super::error;
use super::super::error::{CompileError, Fault, Span};
use super::super::syntax;
use super::super::syntax::{parse_type, validate_name, RESERVED_NAME};
use super::super::types;
use super::super::types::{Shape, Type};
use super::expr;
use super::expr::{assignment_op, binary_instruction, compile_expr, path_name};
use super::intrinsics;
use super::intrinsics::{address, immediate};
use super::{Compiler, Flow, Local, State, TableInfo, TableShape};
use crate::bytes;
use crate::bytes::push_u32;
use crate::external::same_text;
use vstd::prelude::*;

verus! {

pub const IMMUTABLE: &'static str = "cannot assign to an immutable local or capture; use let mut";

// ---- Assignments ---------------------------------------------------------

/// Where an assignment writes: a local, or a row of a table by its key.
pub enum TargetModel {
    Local(u16),
    Row(TableShape, u16),
}

/// Where an assignment writes.
pub enum Target {
    Local(u16),
    Row(TableInfo, u16),
}

impl Target {
    pub open spec fn view(self) -> TargetModel {
        match self {
            Target::Local(register) => TargetModel::Local(register),
            Target::Row(table, key) => TargetModel::Row(table@, key),
        }
    }
}

/// The target that an expression names.
pub open spec fn target_of(s: State, e: Expr) -> Result<(State, TargetModel), Fault>
    decreases e, 1int,
{
    match e.kind {
        ExprKind::Index(..) => match intrinsics::place(s, e) {
            Err(error) => Err(error),
            Ok((s1, table, key)) => Ok((s1, TargetModel::Row(table, key))),
        },
        _ => match expr::name_of(e) {
            Err(error) => Err(error),
            Ok(name) => match super::find(s.locals, name) {
                None => Err(error::fault(e.span, "unknown VM local")),
                Some(local) => if local.mutable {
                    Ok((s, TargetModel::Local(local.register)))
                } else {
                    Err(error::fault(e.span, IMMUTABLE))
                },
            },
        },
    }
}

/// The type of what a target holds.
pub open spec fn target_type(s: State, target: TargetModel) -> Shape {
    match target {
        TargetModel::Local(register) => s.registers[register as int],
        TargetModel::Row(table, _) => table.value,
    }
}

/// The register of the value that a compound assignment starts from.
pub open spec fn prior_value(
    s: State,
    target: TargetModel,
    opcode: Option<u8>,
    span: Span,
) -> Result<(State, u16), Fault> {
    match (opcode, target) {
        (None, _) => Ok((s, 0u16)),
        (Some(_), TargetModel::Local(register)) => Ok((s, register)),
        (Some(_), TargetModel::Row(table, key)) => super::read_from(
            s,
            table.value,
            0x40,
            table.index,
            key,
            span,
        ),
    }
}

/// The type to translate the assigned value for.
pub open spec fn value_type(ty: Shape, opcode: Option<u8>) -> Shape {
    match opcode {
        Some(op) => if expr::shifts(op) {
            Shape::U64
        } else {
            ty
        },
        None => ty,
    }
}

/// The computation and the write of an assignment.
pub open spec fn stored(
    s: State,
    target: TargetModel,
    opcode: Option<u8>,
    prior: u16,
    value: u16,
    span: Span,
) -> Result<State, Fault> {
    match opcode {
        None => written(s, target, value, span),
        Some(op) => match expr::binary(s, op, prior, value, span) {
            Err(error) => Err(error),
            Ok((s1, result)) => written(s1, target, result, span),
        },
    }
}

/// The write of a register to a target.
pub open spec fn written(s: State, target: TargetModel, source: u16, span: Span) -> Result<
    State,
    Fault,
> {
    match target {
        TargetModel::Local(register) => super::with_instruction(
            s,
            super::plain(0x03, seq![register, source]),
            span,
        ),
        TargetModel::Row(table, key) => super::with_instruction(
            s,
            super::tabled(0x43, seq![table.index, key, source], 0, table.index),
            span,
        ),
    }
}

/// Whether the registers of a target exist.
pub open spec fn target_wf(s: State, target: TargetModel) -> bool {
    match target {
        TargetModel::Local(register) => register < s.registers.len(),
        TargetModel::Row(table, key) => key < s.registers.len() && table.index < s.tables.len(),
    }
}

/// The target that an expression names.
fn compile_target(compiler: &mut Compiler, e: &Expr) -> (target: Result<Target, CompileError>)
    requires
        old(compiler)@.wf(),
    ensures
        match target {
            Ok(target) => target_of(old(compiler)@, *e) == Ok::<(State, TargetModel), Fault>(
                (final(compiler)@, target@),
            ),
            Err(error) => target_of(old(compiler)@, *e) == Err::<(State, TargetModel), Fault>(
                error@,
            ),
        },
        target matches Ok(target) ==> final(compiler)@.wf() && target_wf(
            final(compiler)@,
            target@,
        ) && super::grows_in_scope(old(compiler)@, final(compiler)@),
    decreases e, 1int,
{
    if let ExprKind::Index(..) = &e.kind {
        let (table, key) = address(compiler, e)?;
        return Ok(Target::Row(table, key));
    }
    let name = path_name(e)?;
    proof {
        super::lemma_find(compiler@.locals, name@);
    }
    match compiler.local(name.as_str()) {
        None => Err(CompileError::rule(e.span, "unknown VM local")),
        Some(local) => {
            if local.mutable {
                Ok(Target::Local(local.register))
            } else {
                Err(CompileError::rule(e.span, IMMUTABLE))
            }
        },
    }
}

/// The register of the value that a compound assignment starts from.
fn compile_prior(compiler: &mut Compiler, target: &Target, opcode: Option<u8>, span: Span) -> (prior:
    Result<u16, CompileError>)
    requires
        old(compiler)@.wf(),
        target_wf(old(compiler)@, target@),
    ensures
        match prior {
            Ok(r) => prior_value(old(compiler)@, target@, opcode, span) == Ok::<
                (State, u16),
                Fault,
            >((final(compiler)@, r)),
            Err(error) => prior_value(old(compiler)@, target@, opcode, span) == Err::<
                (State, u16),
                Fault,
            >(error@),
        },
        prior matches Ok(r) ==> final(compiler)@.wf() && (opcode is Some ==> r
            < final(compiler)@.registers.len()) && super::grows_in_scope(
            old(compiler)@,
            final(compiler)@,
        ),
{
    match opcode {
        None => Ok(0),
        Some(_) => match target {
            Target::Local(register) => Ok(*register),
            Target::Row(table, key) => compiler.read_table(
                table.value.duplicate(),
                0x40,
                table.index,
                *key,
                span,
            ),
        },
    }
}

/// The computation and the write of an assignment.
fn compile_store(
    compiler: &mut Compiler,
    target: &Target,
    opcode: Option<u8>,
    prior: u16,
    value: u16,
    span: Span,
) -> (done: Result<(), CompileError>)
    requires
        old(compiler)@.wf(),
        target_wf(old(compiler)@, target@),
        value < old(compiler)@.registers.len(),
        opcode is Some ==> prior < old(compiler)@.registers.len(),
    ensures
        match done {
            Ok(()) => stored(old(compiler)@, target@, opcode, prior, value, span) == Ok::<
                State,
                Fault,
            >(final(compiler)@),
            Err(error) => stored(old(compiler)@, target@, opcode, prior, value, span) == Err::<
                State,
                Fault,
            >(error@),
        },
        done is Ok ==> final(compiler)@.wf() && super::grows_in_scope(
            old(compiler)@,
            final(compiler)@,
        ),
{
    let source: u16 = match opcode {
        None => value,
        Some(op) => binary_instruction(compiler, op, prior, value, span)?,
    };
    match target {
        Target::Local(register) => {
            compiler.emit_words(0x03, super::two(*register, source), span)?;
        },
        Target::Row(table, key) => {
            compiler.emit_table(
                0x43,
                super::three(table.index, *key, source),
                0,
                table.index,
                span,
            )?;
        },
    }
    Ok(())
}

/// Translate an assignment.
fn assign_value(compiler: &mut Compiler, target: &Expr, value: &Expr, opcode: Option<u8>) -> (done:
    Result<(), CompileError>)
    requires
        old(compiler)@.wf(),
    ensures
        match done {
            Ok(()) => assigned(old(compiler)@, *target, *value, opcode) == Ok::<State, Fault>(
                final(compiler)@,
            ),
            Err(error) => assigned(old(compiler)@, *target, *value, opcode) == Err::<State, Fault>(
                error@,
            ),
        },
        done is Ok ==> final(compiler)@.wf() && super::grows_in_scope(
            old(compiler)@,
            final(compiler)@,
        ),
{
    let span: Span = target.span;
    let place = compile_target(compiler, target)?;
    let ty = match &place {
        Target::Local(register) => compiler.ty(*register).duplicate(),
        Target::Row(table, _) => table.value.duplicate(),
    };
    let prior: u16 = compile_prior(compiler, &place, opcode, span)?;
    let shift = match opcode {
        Some(op) => op == 0x34 || op == 0x35,
        None => false,
    };
    let wanted = if shift {
        Type::U64
    } else {
        ty
    };
    let source: u16 = compile_expr(compiler, value, Some(&wanted))?;
    compile_store(compiler, &place, opcode, prior, source, span)
}

/// An assignment of `value` to `target`.
pub open spec fn assigned(s: State, target: Expr, value: Expr, opcode: Option<u8>) -> Result<
    State,
    Fault,
> {
    match target_of(s, target) {
        Err(error) => Err(error),
        Ok((s1, place)) => match prior_value(s1, place, opcode, target.span) {
            Err(error) => Err(error),
            Ok((s2, prior)) => match expr::expression(
                s2,
                value,
                Some(value_type(target_type(s1, place), opcode)),
            ) {
                Err(error) => Err(error),
                Ok((s3, source)) => stored(s3, place, opcode, prior, source, target.span),
            },
        },
    }
}

// ---- Let -----------------------------------------------------------------

/// The annotated type of a `let`.
pub open spec fn annotation(l: LetStmt) -> Result<Option<Shape>, Fault> {
    match l.annotation {
        None => Ok(None),
        Some(tokens) => match syntax::type_at(tokens@, 0, 1, error::CALL_SITE) {
            Err(error) => Err(error),
            Ok((ty, next)) => if next < tokens@.len() {
                Err(error::fault(tokens@[next].span, "unexpected token"))
            } else {
                Ok(Some(ty))
            },
        },
    }
}

/// A `let` statement.
pub open spec fn declared(s: State, l: LetStmt) -> Result<State, Fault> {
    match annotation(l) {
        Err(error) => Err(error),
        Ok(annotated) => match l.binding {
            None => Err(error::fault(l.pattern, "VM let requires a single local name")),
            Some(binding) => if syntax::reserved(binding.name@) {
                Err(error::fault(binding.span, RESERVED_NAME))
            } else if binding.refined {
                Err(error::fault(l.pattern, "VM bindings do not support ref or subpatterns"))
            } else {
                match l.init {
                    None => Err(error::fault(l.span, "VM locals must be initialized")),
                    Some(init) => if l.diverges {
                        Err(error::fault(l.span, "let-else is not supported by the VM"))
                    } else {
                        match expr::expression(s, init, annotated) {
                            Err(error) => Err(error),
                            Ok((s1, source)) => bound(
                                s1,
                                source,
                                match annotated {
                                    Some(ty) => ty,
                                    None => s1.registers[source as int],
                                },
                                binding.name@,
                                binding.mutable,
                                l.pattern,
                            ),
                        }
                    },
                }
            },
        },
    }
}

/// A new local of type `ty` that holds a copy of `source`.
pub open spec fn bound(
    s: State,
    source: u16,
    ty: Shape,
    name: Seq<char>,
    mutable: bool,
    span: Span,
) -> Result<State, Fault> {
    match super::produced(s, ty, 0x03, seq![source], span) {
        Err(error) => Err(error),
        Ok((s1, register)) => Ok(
            State { locals: s1.locals.push((name, Local { register, mutable })), ..s1 },
        ),
    }
}

/// Read the annotated type of a `let`.
fn parse_annotation(l: &LetStmt) -> (ty: Result<Option<Type>, CompileError>)
    ensures
        match ty {
            Ok(ty) => annotation(*l) == Ok::<Option<Shape>, Fault>(super::opt(ty)),
            Err(error) => annotation(*l) == Err::<Option<Shape>, Fault>(error@),
        },
{
    match &l.annotation {
        None => Ok(None),
        Some(tokens) => {
            let (ty, next) = parse_type(tokens, 0, error::CALL_SITE)?;
            if next < tokens.len() {
                Err(CompileError::rule(tokens[next].span, "unexpected token"))
            } else {
                Ok(Some(ty))
            }
        },
    }
}

/// Translate a `let` statement.
fn compile_let(compiler: &mut Compiler, l: &LetStmt) -> (done: Result<(), CompileError>)
    requires
        old(compiler)@.wf(),
    ensures
        match done {
            Ok(()) => declared(old(compiler)@, *l) == Ok::<State, Fault>(final(compiler)@),
            Err(error) => declared(old(compiler)@, *l) == Err::<State, Fault>(error@),
        },
        done is Ok ==> final(compiler)@.wf() && super::grows_with_locals(
            old(compiler)@,
            final(compiler)@,
        ),
{
    let annotated = parse_annotation(l)?;
    let binding = match &l.binding {
        None => {
            return Err(CompileError::rule(l.pattern, "VM let requires a single local name"));
        },
        Some(binding) => binding,
    };
    validate_name(binding.name.as_str(), binding.span)?;
    if binding.refined {
        return Err(CompileError::rule(l.pattern, "VM bindings do not support ref or subpatterns"));
    }
    let init = match &l.init {
        None => {
            return Err(CompileError::rule(l.span, "VM locals must be initialized"));
        },
        Some(init) => init,
    };
    if l.diverges {
        return Err(CompileError::rule(l.span, "let-else is not supported by the VM"));
    }
    let source: u16 = compile_expr(compiler, init, annotated.as_ref())?;
    let ty = match annotated {
        Some(ty) => ty,
        None => compiler.ty(source).duplicate(),
    };
    let register: u16 = compiler.produce(ty, 0x03, super::one(source), l.pattern)?;
    let ghost before = compiler@;
    compiler.bind(binding.name.clone(), Local { register, mutable: binding.mutable });
    assert(compiler@.locals.subrange(0, before.locals.len() as int) =~= before.locals);
    Ok(())
}

// ---- Statements ----------------------------------------------------------

/// The result type after a `return` of a value of type `ty`.
pub open spec fn result_with(s: State, ty: Shape) -> Shape {
    match s.result {
        Some(result) => if s.declared_result {
            result
        } else {
            types::union(result, ty)
        },
        None => ty,
    }
}

/// A `return` of a translated value.
pub open spec fn returned(s: State, source: u16, span: Span) -> Flow {
    match super::with_instruction(
        State { result: Some(result_with(s, s.registers[source as int])), ..s },
        super::plain(0x64, seq![source]),
        span,
    ) {
        Err(error) => Err(error),
        Ok(s1) => Ok((s1, true)),
    }
}

/// The user code of `require` or `abort`.
pub open spec fn user_code(args: Seq<Expr>, at: int) -> Result<u64, Fault> {
    if at < args.len() {
        intrinsics::immediate_of(args[at], 0xffff_ffff)
    } else {
        Ok(0)
    }
}

/// An instruction with 16-bit operands and a user code.
pub open spec fn coded(
    s: State,
    opcode: u8,
    operands: Seq<u16>,
    args: Seq<Expr>,
    at: int,
    span: Span,
) -> Result<State, Fault> {
    if s.code.len() >= 65535 {
        Err(error::fault(span, super::POOL_LIMIT))
    } else {
        match user_code(args, at) {
            Err(error) => Err(error),
            Ok(code) => super::with_instruction(
                s,
                Code {
                    opcode,
                    operands: super::words(operands) + bytes::le32(code as u32),
                    table: None,
                },
                span,
            ),
        }
    }
}

pub const USER_CODE: &'static str = "require(condition[, code]) or abort([code]) expected";

pub const ROW_OPERATION: &'static str =
    "expected delete(table[key]) or insert/store(table[key], value)";

/// A call in statement position.
pub open spec fn called(s: State, e: Expr, function: Expr, args: Seq<Expr>) -> Flow {
    match expr::name_of(function) {
        Err(error) => Err(error),
        Ok(name) => if name == "require"@ {
            if args.len() < 1 || args.len() > 2 {
                Err(error::fault(e.span, USER_CODE))
            } else {
                match expr::expression(s, args[0], Some(Shape::Bool)) {
                    Err(error) => Err(error),
                    Ok((s1, condition)) => match coded(
                        s1,
                        0x62,
                        seq![condition],
                        args,
                        1,
                        e.span,
                    ) {
                        Err(error) => Err(error),
                        Ok(s2) => Ok((s2, false)),
                    },
                }
            }
        } else if name == "abort"@ {
            if args.len() > 1 {
                Err(error::fault(e.span, USER_CODE))
            } else {
                match coded(s, 0x63, Seq::empty(), args, 0, e.span) {
                    Err(error) => Err(error),
                    Ok(s1) => Ok((s1, true)),
                }
            }
        } else if name == "insert"@ || name == "store"@ || name == "delete"@ {
            if args.len() != (if name == "delete"@ {
                1int
            } else {
                2int
            }) {
                Err(error::fault(e.span, ROW_OPERATION))
            } else {
                row_operation(s, name, args, e.span)
            }
        } else {
            match expr::expression(s, e, None) {
                Err(error) => Err(error),
                Ok((s1, _)) => Ok((s1, false)),
            }
        },
    }
}

/// `insert`, `store` or `delete`.
pub open spec fn row_operation(s: State, name: Seq<char>, args: Seq<Expr>, span: Span) -> Flow {
    match intrinsics::place(s, args[0]) {
        Err(error) => Err(error),
        Ok((s1, table, key)) => if name == "delete"@ {
            match super::with_instruction(
                s1,
                super::tabled(0x44, seq![table.index, key], 0, table.index),
                span,
            ) {
                Err(error) => Err(error),
                Ok(s2) => Ok((s2, false)),
            }
        } else {
            match expr::expression(s1, args[1], Some(table.value)) {
                Err(error) => Err(error),
                Ok((s2, value)) => match super::with_instruction(
                    s2,
                    super::tabled(
                        if name == "insert"@ {
                            0x42u8
                        } else {
                            0x43u8
                        },
                        seq![table.index, key, value],
                        0,
                        table.index,
                    ),
                    span,
                ) {
                    Err(error) => Err(error),
                    Ok(s3) => Ok((s3, false)),
                },
            }
        },
    }
}

/// An expression in statement position. The flag says whether control never
/// gets behind it.
pub open spec fn effect(s: State, e: Expr) -> Flow
    decreases e, 3int,
{
    match e.kind {
        ExprKind::If(condition, block, alternative) => match expr::expression(
            s,
            *condition,
            Some(Shape::Bool),
        ) {
            Err(error) => Err(error),
            Ok((s1, register)) => match super::with_instruction(
                s1,
                super::open_jump(Some(register)),
                e.span,
            ) {
                Err(error) => Err(error),
                Ok(s2) => match scope(s2, block.stmts@) {
                    Err(error) => Err(error),
                    Ok((s3, left)) => match alternative {
                        None => Ok((super::patched(s3, s1.code.len() as int), false)),
                        Some(other) => if left {
                            effect(super::patched(s3, s1.code.len() as int), *other)
                        } else {
                            match super::with_instruction(s3, super::open_jump(None), e.span) {
                                Err(error) => Err(error),
                                Ok(s4) => match effect(
                                    super::patched(s4, s1.code.len() as int),
                                    *other,
                                ) {
                                    Err(error) => Err(error),
                                    Ok((s5, _)) => Ok(
                                        (super::patched(s5, s3.code.len() as int), false),
                                    ),
                                },
                            }
                        },
                    },
                },
            },
        },
        ExprKind::Block(block) => scope(s, block.stmts@),
        ExprKind::Return(value) => match value {
            Some(value) => match expr::expression(s, *value, s.result) {
                Err(error) => Err(error),
                Ok((s1, source)) => returned(s1, source, e.span),
            },
            None => if s.result is Some && s.result != Some(Shape::Unit) {
                Err(error::fault(e.span, "return requires a value of the result type"))
            } else {
                match super::with_constant(s, Shape::Unit, Seq::empty(), e.span) {
                    Err(error) => Err(error),
                    Ok((s1, source)) => returned(s1, source, e.span),
                }
            },
        },
        ExprKind::Assign(op, target, value) => if op is Some && expr::compound_opcode(op) is None {
            match expr::expression(s, e, None) {
                Err(error) => Err(error),
                Ok((s1, _)) => Ok((s1, false)),
            }
        } else {
            match assigned(s, *target, *value, expr::compound_opcode(op)) {
                Err(error) => Err(error),
                Ok(s1) => Ok((s1, false)),
            }
        },
        ExprKind::Call(function, args) => called(s, e, *function, args@),
        ExprKind::Name(name) => if name@ == "abort"@ {
            match coded(s, 0x63, Seq::empty(), Seq::empty(), 0, e.span) {
                Err(error) => Err(error),
                Ok(s1) => Ok((s1, true)),
            }
        } else {
            match expr::expression(s, e, None) {
                Err(error) => Err(error),
                Ok((s1, _)) => Ok((s1, false)),
            }
        },
        _ => match expr::expression(s, e, None) {
            Err(error) => Err(error),
            Ok((s1, _)) => Ok((s1, false)),
        },
    }
}

/// The statements of a block, in a scope of their own.
pub open spec fn scope(s: State, stmts: Seq<Stmt>) -> Flow
    decreases stmts, stmts.len() + 1,
{
    match steps(s, stmts, 0, false) {
        Err(error) => Err(error),
        Ok((s1, left)) => Ok((State { locals: s.locals, ..s1 }, left)),
    }
}

/// Where a statement stands.
pub open spec fn stmt_span(stmt: Stmt) -> Span {
    match stmt {
        Stmt::Let(l) => l.span,
        Stmt::Expr(e) => e.span,
        Stmt::Other(span) => span,
    }
}

/// The statements from the `i`-th on; `left` says whether control gets there.
pub open spec fn steps(s: State, stmts: Seq<Stmt>, i: int, left: bool) -> Flow
    decreases stmts, stmts.len() - i,
{
    if !(0 <= i < stmts.len()) {
        Ok((s, left))
    } else if left {
        Err(error::fault(stmt_span(stmts[i]), "unreachable VM statement"))
    } else {
        match step(s, stmts[i]) {
            Err(error) => Err(error),
            Ok((s1, next)) => steps(s1, stmts, i + 1, next),
        }
    }
}

/// One statement.
pub open spec fn step(s: State, stmt: Stmt) -> Flow
    decreases stmt, 0int,
{
    match stmt {
        Stmt::Let(l) => match declared(s, l) {
            Err(error) => Err(error),
            Ok(s1) => Ok((s1, false)),
        },
        Stmt::Expr(e) => effect(s, e),
        Stmt::Other(span) => Err(
            error::fault(span, "Rust items and macros cannot run in a VM program"),
        ),
    }
}

/// Translate the statements of a block.
pub fn compile_block(compiler: &mut Compiler, stmts: &Vec<Stmt>) -> (left: Result<
    bool,
    CompileError,
>)
    requires
        old(compiler)@.wf(),
    ensures
        match left {
            Ok(left) => scope(old(compiler)@, stmts@) == Ok::<(State, bool), Fault>(
                (final(compiler)@, left),
            ),
            Err(error) => scope(old(compiler)@, stmts@) == Err::<(State, bool), Fault>(error@),
        },
        left is Ok ==> final(compiler)@.wf() && super::grows_in_scope(
            old(compiler)@,
            final(compiler)@,
        ),
    decreases stmts@, stmts@.len() + 1,
{
    let outer: usize = compiler.locals.len();
    let ghost start = compiler@;
    assert(outer == start.locals.len());
    let ghost whole = steps(start, stmts@, 0, false);
    let mut left = false;
    let mut i: usize = 0;
    assert(start.locals.subrange(0, outer as int) =~= start.locals);
    while i < stmts.len()
        invariant
            start == old(compiler)@,
            outer == start.locals.len(),
            whole == steps(start, stmts@, 0, false),
            i <= stmts@.len(),
            compiler@.wf(),
            super::grows_with_locals(start, compiler@),
            steps(compiler@, stmts@, i as int, left) == whole,
        decreases stmts@.len() - i,
    {
        if left {
            let span: Span = match &stmts[i] {
                Stmt::Let(l) => l.span,
                Stmt::Expr(e) => e.span,
                Stmt::Other(span) => *span,
            };
            return Err(CompileError::rule(span, "unreachable VM statement"));
        }
        assert(decreases_to!(stmts@ => stmts@[i as int]));
        let ghost before = compiler@;
        left = compile_statement(compiler, &stmts[i])?;
        proof {
            assert(compiler@.locals.subrange(0, outer as int) =~= before.locals.subrange(
                0,
                outer as int,
            )) by {
                assert(compiler@.locals.subrange(0, before.locals.len() as int) == before.locals);
                assert forall|k: int| 0 <= k < outer implies compiler@.locals[k]
                    == before.locals[k] by {
                    assert(compiler@.locals.subrange(0, before.locals.len() as int)[k]
                        == compiler@.locals[k]);
                }
            }
        }
        i += 1;
    }
    compiler.leave(outer);
    Ok(left)
}

/// Translate one statement.
fn compile_statement(compiler: &mut Compiler, stmt: &Stmt) -> (left: Result<bool, CompileError>)
    requires
        old(compiler)@.wf(),
    ensures
        match left {
            Ok(left) => step(old(compiler)@, *stmt) == Ok::<(State, bool), Fault>(
                (final(compiler)@, left),
            ),
            Err(error) => step(old(compiler)@, *stmt) == Err::<(State, bool), Fault>(error@),
        },
        left is Ok ==> final(compiler)@.wf() && super::grows_with_locals(
            old(compiler)@,
            final(compiler)@,
        ),
    decreases stmt, 0int,
{
    match stmt {
        Stmt::Let(l) => {
            compile_let(compiler, l)?;
            Ok(false)
        },
        Stmt::Expr(e) => {
            let left = compile_statement_expr(compiler, e)?;
            assert(compiler@.locals.subrange(0, compiler@.locals.len() as int)
                =~= compiler@.locals);
            Ok(left)
        },
        Stmt::Other(span) => Err(
            CompileError::rule(*span, "Rust items and macros cannot run in a VM program"),
        ),
    }
}

/// Add an instruction with 16-bit operands and a user code.
fn emit_coded(
    compiler: &mut Compiler,
    opcode: u8,
    operands: Vec<u16>,
    args: &Vec<Expr>,
    at: usize,
    span: Span,
) -> (done: Result<(), CompileError>)
    requires
        old(compiler)@.wf(),
        opcode != 0x60 && opcode != 0x61,
    ensures
        match done {
            Ok(()) => coded(old(compiler)@, opcode, operands@, args@, at as int, span) == Ok::<
                State,
                Fault,
            >(final(compiler)@),
            Err(error) => coded(old(compiler)@, opcode, operands@, args@, at as int, span)
                == Err::<State, Fault>(error@),
        },
        done is Ok ==> final(compiler)@.wf() && super::grows_in_scope(
            old(compiler)@,
            final(compiler)@,
        ),
{
    super::pool_index(compiler.instructions.len(), span)?;
    let code: u64 = if at < args.len() {
        immediate(&args[at], 0xffff_ffff)?
    } else {
        0
    };
    let mut bytes = super::operand_bytes(&operands);
    push_u32(&mut bytes, code as u32);
    compiler.emit(opcode, bytes, None, span)?;
    Ok(())
}

/// Translate a `return` of a translated value.
fn compile_return(compiler: &mut Compiler, source: u16, span: Span) -> (left: Result<
    bool,
    CompileError,
>)
    requires
        old(compiler)@.wf(),
        source < old(compiler)@.registers.len(),
    ensures
        match left {
            Ok(left) => returned(old(compiler)@, source, span) == Ok::<(State, bool), Fault>(
                (final(compiler)@, left),
            ),
            Err(error) => returned(old(compiler)@, source, span) == Err::<(State, bool), Fault>(
                error@,
            ),
        },
        left is Ok ==> final(compiler)@.wf() && super::grows_in_scope(
            old(compiler)@,
            final(compiler)@,
        ),
{
    let ty = compiler.ty(source).duplicate();
    let result = match &compiler.result {
        Some(result) => {
            if compiler.declared_result {
                result.duplicate()
            } else {
                result.union(&ty)
            }
        },
        None => ty,
    };
    let ghost before = compiler@;
    compiler.result = Some(result);
    assert(compiler@ =~= (State {
        result: Some(result_with(before, before.registers[source as int])),
        ..before
    }));
    compiler.emit_words(0x64, super::one(source), span)?;
    Ok(true)
}

/// Translate `insert`, `store` or `delete`.
fn compile_row_operation(
    compiler: &mut Compiler,
    name: &String,
    args: &Vec<Expr>,
    span: Span,
) -> (left: Result<bool, CompileError>)
    requires
        old(compiler)@.wf(),
        args@.len() >= 1,
        name@ != "delete"@ ==> args@.len() >= 2,
    ensures
        match left {
            Ok(left) => row_operation(old(compiler)@, name@, args@, span) == Ok::<
                (State, bool),
                Fault,
            >((final(compiler)@, left)),
            Err(error) => row_operation(old(compiler)@, name@, args@, span) == Err::<
                (State, bool),
                Fault,
            >(error@),
        },
        left is Ok ==> final(compiler)@.wf() && super::grows_in_scope(
            old(compiler)@,
            final(compiler)@,
        ),
{
    let (table, key) = address(compiler, &args[0])?;
    if same_text(name.as_str(), "delete") {
        compiler.emit_table(0x44, super::two(table.index, key), 0, table.index, span)?;
        return Ok(false);
    }
    let value: u16 = compile_expr(compiler, &args[1], Some(&table.value))?;
    let opcode: u8 = if same_text(name.as_str(), "insert") {
        0x42
    } else {
        0x43
    };
    compiler.emit_table(opcode, super::three(table.index, key, value), 0, table.index, span)?;
    Ok(false)
}

/// Translate a call in statement position.
fn compile_called(compiler: &mut Compiler, e: &Expr, function: &Expr, args: &Vec<Expr>) -> (left:
    Result<bool, CompileError>)
    requires
        old(compiler)@.wf(),
    ensures
        match left {
            Ok(left) => called(old(compiler)@, *e, *function, args@) == Ok::<(State, bool), Fault>(
                (final(compiler)@, left),
            ),
            Err(error) => called(old(compiler)@, *e, *function, args@) == Err::<
                (State, bool),
                Fault,
            >(error@),
        },
        left is Ok ==> final(compiler)@.wf() && super::grows_in_scope(
            old(compiler)@,
            final(compiler)@,
        ),
{
    let span: Span = e.span;
    let name = path_name(function)?;
    if same_text(name.as_str(), "require") {
        if args.len() < 1 || args.len() > 2 {
            return Err(CompileError::rule(span, USER_CODE));
        }
        let condition: u16 = compile_expr(compiler, &args[0], Some(&Type::Bool))?;
        emit_coded(compiler, 0x62, super::one(condition), args, 1, span)?;
        return Ok(false);
    }
    if same_text(name.as_str(), "abort") {
        if args.len() > 1 {
            return Err(CompileError::rule(span, USER_CODE));
        }
        let none: Vec<u16> = Vec::new();
        assert(none@ =~= Seq::empty());
        emit_coded(compiler, 0x63, none, args, 0, span)?;
        return Ok(true);
    }
    let delete = same_text(name.as_str(), "delete");
    if delete || same_text(name.as_str(), "insert") || same_text(name.as_str(), "store") {
        let required: usize = if delete {
            1
        } else {
            2
        };
        if args.len() != required {
            return Err(CompileError::rule(span, ROW_OPERATION));
        }
        return compile_row_operation(compiler, name, args, span);
    }
    compile_expr(compiler, e, None)?;
    Ok(false)
}

/// Translate `if`.
fn compile_if(compiler: &mut Compiler, e: &Expr) -> (left: Result<bool, CompileError>)
    requires
        old(compiler)@.wf(),
        e.kind is If,
    ensures
        match left {
            Ok(left) => effect(old(compiler)@, *e) == Ok::<(State, bool), Fault>(
                (final(compiler)@, left),
            ),
            Err(error) => effect(old(compiler)@, *e) == Err::<(State, bool), Fault>(error@),
        },
        left is Ok ==> final(compiler)@.wf() && super::grows_in_scope(
            old(compiler)@,
            final(compiler)@,
        ),
    decreases e, 2int,
{
    let span: Span = e.span;
    match &e.kind {
        ExprKind::If(condition, block, alternative) => {
            broadcast use bytes::group_le;

            let register: u16 = compile_expr(compiler, condition, Some(&Type::Bool))?;
            let ghost start = compiler@.code.len() as int;
            let ghost tested = compiler@;
            let otherwise: usize = compiler.jump(Some(register), span)?;
            let ghost branched = compiler@;
            let ghost open = set![otherwise as int];
            assert(branched.code[otherwise as int].operands.len() >= 4);
            assert(super::forward_but(branched.code, start, open));
            let left = compile_block(compiler, &block.stmts)?;
            assert(compiler@.code[otherwise as int] == branched.code[otherwise as int]);
            proof {
                super::lemma_forward(branched, compiler@, start, open);
            }
            match alternative {
                None => {
                    proof {
                        super::lemma_patched(compiler@, start, open, otherwise as int);
                    }
                    compiler.patch_jump(otherwise);
                    Ok(false)
                },
                Some(other) => {
                    if left {
                        proof {
                            super::lemma_patched(compiler@, start, open, otherwise as int);
                        }
                        compiler.patch_jump(otherwise);
                        let ghost aimed = compiler@;
                        assert(super::grows_in_scope(tested, aimed));
                        let left = compile_statement_expr(compiler, other)?;
                        proof {
                            super::lemma_forward(aimed, compiler@, start, Set::empty());
                        }
                        Ok(left)
                    } else {
                        let end: usize = compiler.jump(None, span)?;
                        let ghost jumped = compiler@;
                        let ghost both = open.insert(end as int);
                        assert(jumped.code[end as int].operands.len() >= 4);
                        assert(super::forward_but(jumped.code, start, both));
                        proof {
                            super::lemma_patched(jumped, start, both, otherwise as int);
                            assert(both.remove(otherwise as int) =~= set![end as int]);
                        }
                        compiler.patch_jump(otherwise);
                        let ghost aimed = compiler@;
                        assert(aimed.code[end as int] == jumped.code[end as int]);
                        compile_statement_expr(compiler, other)?;
                        assert(compiler@.code[end as int] == aimed.code[end as int]);
                        proof {
                            super::lemma_forward(aimed, compiler@, start, set![end as int]);
                            super::lemma_patched(compiler@, start, set![end as int], end as int);
                        }
                        compiler.patch_jump(end);
                        Ok(false)
                    }
                },
            }
        },
        _ => Err(CompileError::rule(span, expr::UNSUPPORTED)),
    }
}

/// Translate an expression in statement position.
#[verifier::rlimit(40)]
fn compile_statement_expr(compiler: &mut Compiler, e: &Expr) -> (left: Result<bool, CompileError>)
    requires
        old(compiler)@.wf(),
    ensures
        match left {
            Ok(left) => effect(old(compiler)@, *e) == Ok::<(State, bool), Fault>(
                (final(compiler)@, left),
            ),
            Err(error) => effect(old(compiler)@, *e) == Err::<(State, bool), Fault>(error@),
        },
        left is Ok ==> final(compiler)@.wf() && super::grows_in_scope(
            old(compiler)@,
            final(compiler)@,
        ),
    decreases e, 3int,
{
    let span: Span = e.span;
    match &e.kind {
        ExprKind::If(..) => compile_if(compiler, e),
        ExprKind::Block(block) => compile_block(compiler, &block.stmts),
        ExprKind::Return(value) => {
            let source: u16 = match value {
                Some(value) => {
                    let expected = match &compiler.result {
                        Some(ty) => Some(ty.duplicate()),
                        None => None,
                    };
                    compile_expr(compiler, value, expected.as_ref())?
                },
                None => {
                    if let Some(ty) = &compiler.result {
                        if !ty.same(&Type::Unit) {
                            return Err(
                                CompileError::rule(
                                    span,
                                    "return requires a value of the result type",
                                ),
                            );
                        }
                    }
                    let none: Vec<u8> = Vec::new();
                    assert(none@ =~= Seq::empty());
                    compiler.constant(Type::Unit, none, span)?
                },
            };
            compile_return(compiler, source, span)
        },
        ExprKind::Assign(op, target, value) => {
            let opcode = assignment_op(*op);
            if op.is_some() && opcode.is_none() {
                compile_expr(compiler, e, None)?;
                return Ok(false);
            }
            assign_value(compiler, target, value, opcode)?;
            Ok(false)
        },
        ExprKind::Call(function, args) => compile_called(compiler, e, function, args),
        ExprKind::Name(name) => {
            if same_text(name.as_str(), "abort") {
                let none: Vec<u16> = Vec::new();
                let args: Vec<Expr> = Vec::new();
                proof {
                    assert(none@ =~= Seq::empty());
                    assert(args@ =~= Seq::empty());
                }
                emit_coded(compiler, 0x63, none, &args, 0, span)?;
                return Ok(true);
            }
            compile_expr(compiler, e, None)?;
            Ok(false)
        },
        _ => {
            compile_expr(compiler, e, None)?;
            Ok(false)
        },
    }
}

} // verus!
