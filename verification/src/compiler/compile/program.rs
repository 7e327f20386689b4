//! Translation of whole programs, and the encoding of the values that they
//! capture.

use super::statement;
use super::statement::compile_block;
use super::{Compiler, Local, State, TableInfo, TableShape};
use crate::bind;
use crate::bind::{bind_template, push_blob, BuildError, Transaction, MAX_ARGUMENT_BYTES};
use crate::bytes;
use crate::bytes::{push_u32, push_u64};
use crate::compiler::ast::Block;
use crate::compiler::binding;
use crate::compiler::bytecode;
use crate::compiler::bytecode::{encode, pool_index, Encoded, EncodedModel, POOL_LIMIT};
use crate::compiler::error;
use crate::compiler::error::{CompileError, Fault, Span};
use crate::compiler::syntax;
use crate::compiler::syntax::{CaptureModel, Program, ProgramModel, TableModel, Token};
use crate::compiler::types;
use crate::compiler::types::{validate_type, Shape, Type, INVALID_TYPE};
use vstd::prelude::*;

verus! {

pub const NO_RESULT: &'static str = "not every path returns a value or aborts";

/// A translated program: the container whose table IDs are open, the types of
/// the captured values and the type of the result.
#[derive(Debug, PartialEq, Eq)]
pub struct Template {
    pub encoded: Encoded,
    pub arguments: Vec<Type>,
    pub result: Type,
}

/// The model of a [`Template`].
#[verifier::ext_equal]
pub struct TemplateModel {
    pub encoded: EncodedModel,
    pub arguments: Seq<Shape>,
    pub result: Shape,
}

impl Template {
    pub open spec fn view(self) -> TemplateModel {
        TemplateModel {
            encoded: self.encoded@,
            arguments: types::shapes(self.arguments@),
            result: self.result@,
        }
    }
}

// ---- Translation ---------------------------------------------------------

/// A state before the first declaration.
pub open spec fn initial(result: Option<Shape>) -> State {
    State {
        registers: Seq::empty(),
        constants: Seq::empty(),
        code: Seq::empty(),
        locals: Seq::empty(),
        captures: Seq::empty(),
        tables: Seq::empty(),
        result,
        declared_result: result is Some,
    }
}

/// `s` with the tables from the `i`-th on.
pub open spec fn with_tables(s: State, tables: Seq<TableModel>, i: int) -> Result<State, Fault>
    decreases tables.len() - i,
{
    if !(0 <= i < tables.len()) {
        Ok(s)
    } else if i >= 65535 {
        Err(error::fault(tables[i].span, POOL_LIMIT))
    } else {
        let info = TableShape { index: i as u16, key: tables[i].key, value: tables[i].value };
        with_tables(State { tables: s.tables.push((tables[i].name, info)), ..s }, tables, i + 1)
    }
}

/// `s` with the captures from the `i`-th on: each is loaded into a register of
/// its own and is an immutable local.
pub open spec fn with_captures(s: State, captures: Seq<CaptureModel>, i: int) -> Result<
    State,
    Fault,
>
    decreases captures.len() - i,
{
    if !(0 <= i < captures.len()) {
        Ok(s)
    } else if i >= 65535 {
        Err(error::fault(captures[i].span, POOL_LIMIT))
    } else {
        let c = captures[i];
        match super::with_register(s, c.ty, c.span) {
            Err(e) => Err(e),
            Ok((s1, r)) => match super::with_instruction(
                s1,
                super::plain(0x02, seq![r, i as u16]),
                c.span,
            ) {
                Err(e) => Err(e),
                Ok(s2) => with_captures(
                    State {
                        locals: s2.locals.push((c.name, Local { register: r, mutable: false })),
                        captures: s2.captures.push((c.name, r)),
                        ..s2
                    },
                    captures,
                    i + 1,
                ),
            },
        }
    }
}

/// `s` with a body; one that may run to its end returns unit there, unless
/// another result is due.
pub open spec fn with_body(s: State, body: Block) -> Result<State, Fault> {
    match statement::scope(s, body.stmts@) {
        Err(e) => Err(e),
        Ok((s1, left)) => if left {
            Ok(s1)
        } else if s1.result is Some && s1.result != Some(Shape::Unit) {
            Err(error::fault(body.span, NO_RESULT))
        } else {
            match super::with_constant(s1, Shape::Unit, Seq::empty(), body.span) {
                Err(e) => Err(e),
                Ok((s2, unit)) => super::with_instruction(
                    s2,
                    super::plain(0x64, seq![unit]),
                    body.span,
                ),
            }
        },
    }
}

/// The state in which a program has been translated.
pub open spec fn translated(program: ProgramModel, body: Block) -> Result<State, Fault> {
    match with_tables(initial(program.result), program.tables, 0) {
        Err(e) => Err(e),
        Ok(s) => match with_captures(s, program.captures, 0) {
            Err(e) => Err(e),
            Ok(s1) => with_body(s1, body),
        },
    }
}

/// The types of the captured values.
pub open spec fn capture_types(captures: Seq<CaptureModel>) -> Seq<Shape> {
    captures.map_values(|c: CaptureModel| c.ty)
}

/// The result of a program whose returns have the type `ty`.
pub open spec fn result_of(ty: Option<Shape>) -> Shape {
    match ty {
        Some(ty) => ty,
        None => Shape::Unit,
    }
}

/// The template of a program.
pub open spec fn compiled(program: ProgramModel, body: Block) -> Result<TemplateModel, Fault> {
    match translated(program, body) {
        Err(e) => Err(e),
        Ok(s) => {
            let result = result_of(s.result);
            let arguments = capture_types(program.captures);
            if !types::valid_type(result, true) {
                Err(error::fault(body.span, INVALID_TYPE))
            } else {
                match bytecode::container(
                    result,
                    arguments,
                    s.registers,
                    program.tables.len() as int,
                    s.constants,
                    s.code,
                ) {
                    Err(e) => Err(e),
                    Ok(encoded) => Ok(TemplateModel { encoded, arguments, result }),
                }
            }
        },
    }
}

/// Declare the tables of a program.
fn declare_tables(compiler: &mut Compiler, program: &Program) -> (done: Result<(), CompileError>)
    requires
        old(compiler)@.wf(),
        old(compiler)@.code.len() == 0,
        old(compiler)@.tables.len() == 0,
    ensures
        match done {
            Ok(()) => with_tables(old(compiler)@, program@.tables, 0) == Ok::<State, Fault>(
                final(compiler)@,
            ) && program@.tables.len() <= 65535,
            Err(e) => with_tables(old(compiler)@, program@.tables, 0) == Err::<State, Fault>(e@),
        },
        done is Ok ==> final(compiler)@.wf() && final(compiler)@.code == old(compiler)@.code
            && final(compiler)@.tables.len() == program@.tables.len(),
{
    let mut i: usize = 0;
    while i < program.tables.len()
        invariant
            i <= program.tables@.len(),
            i <= 65535,
            compiler@.wf(),
            compiler@.tables.len() == i,
            compiler@.code.len() == 0,
            compiler@.code == old(compiler)@.code,
            with_tables(old(compiler)@, program@.tables, 0) == with_tables(
                compiler@,
                program@.tables,
                i as int,
            ),
        decreases program.tables@.len() - i,
    {
        let table = &program.tables[i];
        assert(program@.tables[i as int] == table@);
        let index: u16 = pool_index(i, table.span)?;
        let info = TableInfo {
            index,
            key: table.key.duplicate(),
            value: table.value.duplicate(),
        };
        let ghost before = compiler@;
        compiler.tables.push((table.name.clone(), info));
        assert(compiler@.tables =~= before.tables.push((table.name@, info@)));
        i += 1;
    }
    Ok(())
}

/// Load the captures of a program.
fn load_captures(compiler: &mut Compiler, program: &Program) -> (done: Result<(), CompileError>)
    requires
        old(compiler)@.wf(),
        super::forward_from(old(compiler)@.code, 0),
    ensures
        match done {
            Ok(()) => with_captures(old(compiler)@, program@.captures, 0) == Ok::<State, Fault>(
                final(compiler)@,
            ) && program@.captures.len() <= 65535,
            Err(e) => with_captures(old(compiler)@, program@.captures, 0) == Err::<State, Fault>(
                e@,
            ),
        },
        done is Ok ==> final(compiler)@.wf() && super::forward_from(final(compiler)@.code, 0)
            && final(compiler)@.tables == old(compiler)@.tables,
{
    let mut i: usize = 0;
    while i < program.captures.len()
        invariant
            i <= program.captures@.len(),
            i <= 65535,
            compiler@.wf(),
            compiler@.tables == old(compiler)@.tables,
            super::forward_from(compiler@.code, 0),
            with_captures(old(compiler)@, program@.captures, 0) == with_captures(
                compiler@,
                program@.captures,
                i as int,
            ),
        decreases program.captures@.len() - i,
    {
        let capture = &program.captures[i];
        assert(program@.captures[i as int] == capture@);
        let index: u16 = pool_index(i, capture.span)?;
        let register: u16 = compiler.register(capture.ty.duplicate(), capture.span)?;
        compiler.emit_words(0x02, super::two(register, index), capture.span)?;
        compiler.bind(capture.name.clone(), Local { register, mutable: false });
        let ghost before = compiler@;
        compiler.captures.push((capture.name.clone(), register));
        assert(compiler@.captures =~= before.captures.push((capture.name@, register)));
        i += 1;
    }
    Ok(())
}

/// Translate the body of a program.
fn translate_body(compiler: &mut Compiler, body: &Block) -> (done: Result<(), CompileError>)
    requires
        old(compiler)@.wf(),
        super::forward_from(old(compiler)@.code, 0),
    ensures
        match done {
            Ok(()) => with_body(old(compiler)@, *body) == Ok::<State, Fault>(final(compiler)@),
            Err(e) => with_body(old(compiler)@, *body) == Err::<State, Fault>(e@),
        },
        done is Ok ==> final(compiler)@.wf() && super::forward_from(final(compiler)@.code, 0)
            && final(compiler)@.tables == old(compiler)@.tables,
{
    let ghost before = compiler@;
    let left = compile_block(compiler, &body.stmts)?;
    proof {
        super::lemma_forward(before, compiler@, 0, Set::empty());
    }
    if !left {
        let due = match &compiler.result {
            Some(ty) => !ty.same(&Type::Unit),
            None => false,
        };
        if due {
            return Err(CompileError::rule(body.span, NO_RESULT));
        }
        let none: Vec<u8> = Vec::new();
        assert(none@ =~= Seq::empty());
        let unit: u16 = compiler.constant(Type::Unit, none, body.span)?;
        compiler.emit_words(0x64, super::one(unit), body.span)?;
    }
    Ok(())
}

/// Translate a program whose body has been parsed.
///
/// Every jump of the result leads forward, and there are at most 65535
/// instructions, so that a run ends after at most that many. The result can be
/// bound to any tables of the declared number.
pub fn compile(program: &Program, body: &Block) -> (template: Result<Template, CompileError>)
    ensures
        match template {
            Ok(template) => compiled(program@, *body) == Ok::<TemplateModel, Fault>(template@)
                && template.arguments@.len() <= 65535,
            Err(e) => compiled(program@, *body) == Err::<TemplateModel, Fault>(e@),
        },
        template is Ok ==> (translated(program@, *body) matches Ok(s) && s.code.len() <= 65535
            && super::forward_from(s.code, 0)),
        template matches Ok(template) ==> binding::headed(
            template@.encoded,
            program@.tables.len() as int,
        ) && binding::fits(template@.encoded, program@.tables.len() as int),
{
    let (result, declared_result) = match &program.result {
        Some(ty) => (Some(ty.duplicate()), true),
        None => (None, false),
    };
    let mut compiler = Compiler {
        registers: Vec::new(),
        constants: Vec::new(),
        instructions: Vec::new(),
        locals: Vec::new(),
        captures: Vec::new(),
        tables: Vec::new(),
        result,
        declared_result,
    };
    assert(compiler@ =~= initial(program@.result));
    declare_tables(&mut compiler, program)?;
    load_captures(&mut compiler, program)?;
    translate_body(&mut compiler, body)?;
    let result = match &compiler.result {
        Some(ty) => ty.duplicate(),
        None => Type::Unit,
    };
    validate_type(&result, true, body.span)?;
    let mut arguments: Vec<Type> = Vec::new();
    let mut i: usize = 0;
    while i < program.captures.len()
        invariant
            i <= program.captures@.len(),
            types::shapes(arguments@) == capture_types(program@.captures).subrange(0, i as int),
        decreases program.captures@.len() - i,
    {
        let ghost before = types::shapes(arguments@);
        assert(program@.captures[i as int] == program.captures@[i as int]@);
        arguments.push(program.captures[i].ty.duplicate());
        i += 1;
        assert(types::shapes(arguments@) =~= before.push(program@.captures[i - 1].ty));
        assert(types::shapes(arguments@) =~= capture_types(program@.captures).subrange(0, i as int));
    }
    assert(types::shapes(arguments@) =~= capture_types(program@.captures));
    assert forall|i: int| 0 <= i < compiler.instructions@.len() implies ((
    #[trigger] compiler.instructions@[i]).table matches Some((offset, _)) ==> offset
        + types::VALUE_LIMIT <= usize::MAX) by {
        assert(compiler@.code[i] == compiler.instructions@[i]@);
    }
    let encoded = encode(
        &result,
        &arguments,
        &compiler.registers,
        program.tables.len(),
        &compiler.constants,
        &compiler.instructions,
    )?;
    assert(types::shapes(arguments@).len() == arguments@.len());
    assert(capture_types(program@.captures).len() == program@.captures.len());
    proof {
        binding::lemma_container(
            result@,
            types::shapes(arguments@),
            compiler@.registers,
            program@.tables.len() as int,
            compiler@.constants,
            compiler@.code,
            encoded@,
        );
    }
    Ok(Template { encoded, arguments, result })
}

// ---- Sources -------------------------------------------------------------

/// Why a source is rejected: by the reader of its statements, or by the
/// compiler.
#[derive(Debug, PartialEq, Eq)]
pub enum SourceError<E> {
    Read(E),
    Compile(CompileError),
}

/// Translate the tokens of a program. The statements of its body are Rust, and
/// `read` is the reader of Rust blocks: it is given the body of the program that
/// the tokens spell, and what it reads there is translated.
pub fn compile_source<E, F: FnOnce(&Vec<Token>) -> Result<Block, E>>(
    tokens: &Vec<Token>,
    scope: Span,
    read: F,
) -> (source: Result<(Program, Template), SourceError<E>>)
    requires
        forall|body: &Vec<Token>| #[trigger] call_requires(read, (body,)),
    ensures
        match syntax::program_of(tokens@, scope) {
            Err(fault) => source matches Err(SourceError::Compile(e)) && e@ == fault,
            Ok(model) => exists|body: &Vec<Token>, block: Result<Block, E>|
                {
                    &&& #[trigger] call_ensures(read, (body,), block)
                    &&& syntax::trees(body@) == model.body
                    &&& match block {
                        Err(e) => source == Err::<(Program, Template), SourceError<E>>(
                            SourceError::Read(e),
                        ),
                        Ok(block) => match compiled(model, block) {
                            Err(fault) => source matches Err(SourceError::Compile(e)) && e@
                                == fault,
                            Ok(template) => source matches Ok((program, found)) && program@
                                == model && found@ == template,
                        },
                    }
                },
        },
{
    let program = match Program::parse(tokens, scope) {
        Ok(program) => program,
        Err(e) => {
            return Err(SourceError::Compile(e));
        },
    };
    let block = match read(&program.body) {
        Ok(block) => block,
        Err(e) => {
            return Err(SourceError::Read(e));
        },
    };
    match compile(&program, &block) {
        Ok(template) => Ok((program, template)),
        Err(e) => Err(SourceError::Compile(e)),
    }
}

// ---- Captured values -----------------------------------------------------

/// A value that a program captures.
#[derive(Debug, PartialEq, Eq)]
pub enum CaptureValue {
    Unit,
    Bool(bool),
    I64(i64),
    U64(u64),
    Bytes(Vec<u8>),
    String(String),
    Tuple(Vec<CaptureValue>),
}

/// Whether a value can be captured as a `shape`; bounds aside.
pub open spec fn capturable(shape: Shape, value: CaptureValue) -> bool
    decreases value,
{
    match (shape, value) {
        (Shape::Unit, CaptureValue::Unit) => true,
        (Shape::Bool, CaptureValue::Bool(_)) => true,
        (Shape::I64, CaptureValue::I64(_)) => true,
        (Shape::U64, CaptureValue::U64(_)) => true,
        (Shape::Bytes(_), CaptureValue::Bytes(_)) => true,
        (Shape::String(_), CaptureValue::String(_)) => true,
        (Shape::Tuple(fields), CaptureValue::Tuple(values)) => {
            &&& fields.len() == values@.len()
            &&& forall|i: int|
                0 <= i < values@.len() ==> capturable(fields[i], #[trigger] values@[i])
        },
        _ => false,
    }
}

/// `out` with a captured value behind it: integers in eight bytes, texts and
/// byte strings as blobs, tuples field by field.
pub open spec fn with_value(out: Seq<u8>, shape: Shape, value: CaptureValue) -> Result<
    Seq<u8>,
    BuildError,
>
    decreases value, 0nat,
{
    match (shape, value) {
        (Shape::Bool, CaptureValue::Bool(b)) => Ok(
            out + seq![
                if b {
                    1u8
                } else {
                    0u8
                },
            ],
        ),
        (Shape::I64, CaptureValue::I64(n)) => Ok(out + bytes::le64(n as u64)),
        (Shape::U64, CaptureValue::U64(n)) => Ok(out + bytes::le64(n)),
        (Shape::Bytes(bound), CaptureValue::Bytes(b)) => bind::pushed(out, b@, bound),
        (Shape::String(bound), CaptureValue::String(s)) => bind::pushed(
            out,
            vstd::utf8::encode_utf8(s@),
            bound,
        ),
        (Shape::Tuple(fields), CaptureValue::Tuple(values)) => with_values(out, fields, values@, 0),
        _ => Ok(out),
    }
}

/// `out` with the fields of a tuple from the `i`-th on behind it.
pub open spec fn with_values(
    out: Seq<u8>,
    fields: Seq<Shape>,
    values: Seq<CaptureValue>,
    i: int,
) -> Result<Seq<u8>, BuildError>
    decreases values, values.len() - i,
{
    if !(0 <= i < values.len()) {
        Ok(out)
    } else {
        match with_value(out, fields[i], values[i]) {
            Err(e) => Err(e),
            Ok(next) => with_values(next, fields, values, i + 1),
        }
    }
}

/// Append a captured value.
pub fn encode_capture(ty: &Type, value: &CaptureValue, out: &mut Vec<u8>) -> (done: Result<
    (),
    BuildError,
>)
    requires
        capturable(ty@, *value),
    ensures
        match done {
            Ok(()) => with_value(old(out)@, ty@, *value) == Ok::<Seq<u8>, BuildError>(final(out)@),
            Err(e) => with_value(old(out)@, ty@, *value) == Err::<Seq<u8>, BuildError>(e),
        },
    decreases value,
{
    match (ty, value) {
        (Type::Bool, CaptureValue::Bool(b)) => {
            if *b {
                out.push(1);
            } else {
                out.push(0);
            }
            assert(out@ =~= old(out)@ + seq![
                if *b {
                    1u8
                } else {
                    0u8
                },
            ]);
            Ok(())
        },
        (Type::I64, CaptureValue::I64(n)) => {
            push_u64(out, *n as u64);
            Ok(())
        },
        (Type::U64, CaptureValue::U64(n)) => {
            push_u64(out, *n);
            Ok(())
        },
        (Type::Bytes(bound), CaptureValue::Bytes(b)) => push_blob(out, b.as_slice(), *bound),
        (Type::String(bound), CaptureValue::String(s)) => push_blob(
            out,
            s.as_str().as_bytes(),
            *bound,
        ),
        (Type::Tuple(fields), CaptureValue::Tuple(values)) => {
            proof {
                types::lemma_tuple_view(*fields);
            }
            assert(decreases_to!(value => value->Tuple_0));
            assert forall|k: int| 0 <= k < values@.len() implies capturable(
                fields@[k]@,
                #[trigger] values@[k],
            ) by {
                assert(capturable(types::shapes(fields@)[k], values@[k]));
            }
            let mut i: usize = 0;
            while i < values.len()
                invariant
                    i <= values@.len(),
                    fields@.len() == values@.len(),
                    ty@ == Shape::Tuple(types::shapes(fields@)),
                    forall|k: int|
                        0 <= k < values@.len() ==> capturable(fields@[k]@, #[trigger] values@[k]),
                    *value == CaptureValue::Tuple(*values),
                    decreases_to!(value => value->Tuple_0),
                    with_values(old(out)@, types::shapes(fields@), values@, 0) == with_values(
                        out@,
                        types::shapes(fields@),
                        values@,
                        i as int,
                    ),
                decreases values@.len() - i,
            {
                assert(decreases_to!(values@ => values@[i as int]));
                assert(capturable(fields@[i as int]@, values@[i as int]));
                encode_capture(&fields[i], &values[i], out)?;
                i += 1;
            }
            Ok(())
        },
        _ => Ok(()),
    }
}

/// The arguments with the captured values from the `i`-th on behind `out`, each
/// as a blob.
pub open spec fn with_arguments(
    out: Seq<u8>,
    types: Seq<Shape>,
    values: Seq<CaptureValue>,
    i: int,
) -> Result<Seq<u8>, BuildError>
    decreases values.len() - i,
{
    if !(0 <= i < values.len()) {
        Ok(out)
    } else {
        match with_value(Seq::empty(), types[i], values[i]) {
            Err(e) => Err(e),
            Ok(value) => match bind::pushed(out, value, MAX_ARGUMENT_BYTES as u32) {
                Err(e) => Err(e),
                Ok(next) => with_arguments(next, types, values, i + 1),
            },
        }
    }
}

/// The encoded arguments: their number, then a blob of each.
pub open spec fn arguments_of(types: Seq<Shape>, values: Seq<CaptureValue>) -> Result<
    Seq<u8>,
    BuildError,
> {
    with_arguments(bytes::le32(values.len() as u32), types, values, 0)
}

impl Template {
    /// Encode the captured values.
    pub fn encode_arguments(&self, values: &Vec<CaptureValue>) -> (arguments: Result<
        Vec<u8>,
        BuildError,
    >)
        requires
            self.arguments@.len() <= 65535,
            values@.len() == self.arguments@.len(),
            forall|i: int|
                0 <= i < values@.len() ==> capturable(self@.arguments[i], #[trigger] values@[i]),
        ensures
            match arguments {
                Ok(arguments) => arguments_of(self@.arguments, values@) == Ok::<
                    Seq<u8>,
                    BuildError,
                >(arguments@),
                Err(e) => arguments_of(self@.arguments, values@) == Err::<Seq<u8>, BuildError>(e),
            },
    {
        let mut out: Vec<u8> = Vec::new();
        push_u32(&mut out, values.len() as u32);
        assert(out@ =~= bytes::le32(values@.len() as u32));
        let mut i: usize = 0;
        while i < values.len()
            invariant
                i <= values@.len(),
                values@.len() == self.arguments@.len(),
                forall|i: int|
                    0 <= i < values@.len() ==> capturable(
                        self@.arguments[i],
                        #[trigger] values@[i],
                    ),
                arguments_of(self@.arguments, values@) == with_arguments(
                    out@,
                    self@.arguments,
                    values@,
                    i as int,
                ),
            decreases values@.len() - i,
        {
            let mut value: Vec<u8> = Vec::new();
            assert(value@ =~= Seq::empty());
            assert(capturable(self@.arguments[i as int], values@[i as int]));
            encode_capture(&self.arguments[i], &values[i], &mut value)?;
            push_blob(&mut out, value.as_slice(), MAX_ARGUMENT_BYTES as u32)?;
            i += 1;
        }
        Ok(out)
    }

    /// Bind captured values and table IDs.
    pub fn bind(&self, values: &Vec<CaptureValue>, table_ids: &[u64]) -> (bound: Result<
        Transaction,
        BuildError,
    >)
        requires
            self.arguments@.len() <= 65535,
            values@.len() == self.arguments@.len(),
            forall|i: int|
                0 <= i < values@.len() ==> capturable(self@.arguments[i], #[trigger] values@[i]),
        ensures
            match arguments_of(self@.arguments, values@) {
                Ok(arguments) => bind::binding(
                    self@.encoded.bytes,
                    self@.encoded.table_offset,
                    self@.encoded.patches,
                    table_ids@,
                    arguments,
                    bound,
                ),
                Err(e) => bound == Err::<Transaction, BuildError>(e),
            },
    {
        let arguments = self.encode_arguments(values)?;
        bind_template(
            self.encoded.bytes.as_slice(),
            self.encoded.table_offset,
            self.encoded.patches.as_slice(),
            table_ids,
            arguments,
        )
    }
}

} // verus!
