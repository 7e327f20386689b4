//! The program container: a header, the type and constant pools and the
//! instructions.

use super::error;
use super::error::{CompileError, Fault, Span, CALL_SITE};
use super::types;
use super::types::{Shape, Type, VALUE_LIMIT};
use crate::bytes;
use crate::bytes::{push_bytes, push_u16, push_u32, push_zeros, write_at};
use vstd::prelude::*;

verus! {

pub const POOL_LIMIT: &'static str = "program exceeds an ISA 1 pool or instruction limit";

pub const PROGRAM_LIMIT: &'static str = "program exceeds 16 MiB";

pub const ENCODING_LIMIT: &'static str = "encoding exceeds 16 MiB";

/// One instruction. A table operand is marked by its offset in the operands
/// and the declaration that it refers to.
#[derive(Debug, PartialEq, Eq)]
pub struct Instruction {
    pub opcode: u8,
    pub operands: Vec<u8>,
    pub table: Option<(usize, u16)>,
}

/// A program container whose table IDs are still open. The table array starts
/// at `table_offset`; each patch is the position of a table operand and the
/// declaration that it refers to.
#[derive(Debug, PartialEq, Eq)]
pub struct Encoded {
    pub bytes: Vec<u8>,
    pub table_offset: usize,
    pub patches: Vec<(usize, u16)>,
}

/// The model of an [`Instruction`].
#[verifier::ext_equal]
pub struct Code {
    pub opcode: u8,
    pub operands: Seq<u8>,
    pub table: Option<(usize, u16)>,
}

/// The model of an [`Encoded`].
#[verifier::ext_equal]
pub struct EncodedModel {
    pub bytes: Seq<u8>,
    pub table_offset: int,
    pub patches: Seq<(usize, u16)>,
}

impl Instruction {
    pub open spec fn view(self) -> Code {
        Code { opcode: self.opcode, operands: self.operands@, table: self.table }
    }
}

impl Encoded {
    pub open spec fn view(self) -> EncodedModel {
        EncodedModel {
            bytes: self.bytes@,
            table_offset: self.table_offset as int,
            patches: self.patches@,
        }
    }
}

/// The models of `instructions`.
pub open spec fn codes(instructions: Seq<Instruction>) -> Seq<Code> {
    instructions.map_values(|i: Instruction| i@)
}

/// The models of a constant pool.
pub open spec fn pool(constants: Seq<(Type, Vec<u8>)>) -> Seq<(Shape, Seq<u8>)> {
    constants.map_values(|c: (Type, Vec<u8>)| (c.0@, c.1@))
}

/// The index of the next entry of a pool that holds `len`.
pub fn pool_index(len: usize, span: Span) -> (index: Result<u16, CompileError>)
    ensures
        match index {
            Ok(n) => len < 65535 && n == len,
            Err(e) => len >= 65535 && e@ == error::fault(span, POOL_LIMIT),
        },
{
    if len >= 65535 {
        Err(CompileError::rule(span, POOL_LIMIT))
    } else {
        Ok(len as u16)
    }
}

/// `out` followed by a blob of `value`, where that keeps within 16 MiB.
pub open spec fn with_blob(out: Seq<u8>, value: Seq<u8>) -> Option<Seq<u8>> {
    if out.len() + 4 + value.len() > VALUE_LIMIT {
        None
    } else {
        Some(out + bytes::blob(value))
    }
}

/// Append a blob of `value`.
pub fn blob(value: &[u8], out: &mut Vec<u8>) -> (done: Result<(), CompileError>)
    ensures
        match done {
            Ok(()) => with_blob(old(out)@, value@) == Some(final(out)@),
            Err(e) => with_blob(old(out)@, value@) is None && final(out)@ == old(out)@ && e@
                == error::fault(CALL_SITE, ENCODING_LIMIT),
        },
{
    let limit: usize = VALUE_LIMIT as usize;
    if value.len() > limit - 4 || out.len() > limit - 4 - value.len() {
        return Err(CompileError::rule(CALL_SITE, ENCODING_LIMIT));
    }
    push_u32(out, value.len() as u32);
    push_bytes(out, value);
    assert(out@ =~= old(out)@ + bytes::blob(value@));
    Ok(())
}

/// `out` followed by the descriptors of `shapes` from the `i`-th on, as blobs.
pub open spec fn with_types(out: Seq<u8>, shapes: Seq<Shape>, i: int) -> Option<Seq<u8>>
    decreases shapes.len() - i,
{
    if i >= shapes.len() {
        Some(out)
    } else {
        match with_blob(out, types::descriptor(shapes[i])) {
            None => None,
            Some(next) => with_types(next, shapes, i + 1),
        }
    }
}

/// `out` followed by the constants from the `i`-th on: for each its descriptor
/// and its value, as blobs.
pub open spec fn with_constants(
    out: Seq<u8>,
    constants: Seq<(Shape, Seq<u8>)>,
    i: int,
) -> Option<Seq<u8>>
    decreases constants.len() - i,
{
    if i >= constants.len() {
        Some(out)
    } else {
        match with_blob(out, types::descriptor(constants[i].0)) {
            None => None,
            Some(typed) => match with_blob(typed, constants[i].1) {
                None => None,
                Some(next) => with_constants(next, constants, i + 1),
            },
        }
    }
}

/// The bytes of one instruction.
pub open spec fn code_bytes(code: Code) -> Seq<u8> {
    seq![code.opcode, 0u8] + bytes::le16((code.operands.len() % 65536) as u16) + code.operands
}

/// `out` followed by the instructions from the `i`-th on, and the positions of
/// their table operands behind `patches`.
pub open spec fn with_code(
    out: Seq<u8>,
    patches: Seq<(usize, u16)>,
    code: Seq<Code>,
    i: int,
) -> Option<(Seq<u8>, Seq<(usize, u16)>)>
    decreases code.len() - i,
{
    if i >= code.len() {
        Some((out, patches))
    } else if out.len() + 4 + code[i].operands.len() > VALUE_LIMIT {
        None
    } else {
        with_code(
            out + code_bytes(code[i]),
            match code[i].table {
                Some((offset, index)) => patches.push(
                    ((out.len() + 4 + offset) as usize, index),
                ),
                None => patches,
            },
            code,
            i + 1,
        )
    }
}

/// Whether a table operand lies within its instruction and refers to one of
/// `tables` declarations.
pub open spec fn refers(code: Code, tables: nat) -> bool {
    code.table matches Some((offset, index)) ==> offset + 2 <= code.operands.len() && index
        < tables
}

/// The bytes of the instructions from the `i`-th on.
pub open spec fn code_from(code: Seq<Code>, i: int) -> Seq<u8>
    decreases code.len() - i,
{
    if i >= code.len() {
        Seq::empty()
    } else {
        code_bytes(code[i]) + code_from(code, i + 1)
    }
}

/// The positions of the table operands of the instructions from the `i`-th on,
/// which starts at `start`, and the declarations that they refer to.
pub open spec fn table_operands(start: int, code: Seq<Code>, i: int) -> Seq<(usize, u16)>
    decreases code.len() - i,
{
    if i >= code.len() {
        Seq::empty()
    } else {
        (match code[i].table {
            Some((offset, index)) => seq![((start + 4 + offset) as usize, index)],
            None => Seq::empty(),
        }) + table_operands(start + 4 + code[i].operands.len(), code, i + 1)
    }
}

/// The magic bytes of a program: `BLOPVM01`.
pub open spec fn magic() -> Seq<u8> {
    seq![0x42u8, 0x4c, 0x4f, 0x50, 0x56, 0x4d, 0x30, 0x31]
}

/// The 32 header bytes, with `length` as the length of the whole program.
pub open spec fn header(
    length: u32,
    registers: int,
    arguments: int,
    tables: int,
    constants: int,
    instructions: int,
) -> Seq<u8> {
    magic() + bytes::le16(1) + bytes::le16(0) + bytes::le32(length) + bytes::le16(registers as u16)
        + bytes::le16(arguments as u16) + bytes::le16(tables as u16) + bytes::le16(
        constants as u16,
    ) + bytes::le32(instructions as u32) + bytes::le32(0)
}

/// The container whose pools end in `data`.
pub open spec fn finished(data: Seq<u8>, table_offset: int, code: Seq<Code>) -> Result<
    EncodedModel,
    Fault,
> {
    match with_code(data, Seq::empty(), code, 0) {
        None => Err(error::fault(CALL_SITE, PROGRAM_LIMIT)),
        Some((all, patches)) => if all.len() > VALUE_LIMIT {
            Err(error::fault(CALL_SITE, PROGRAM_LIMIT))
        } else {
            Ok(
                EncodedModel {
                    bytes: bytes::overwritten(all, 12, bytes::le32(all.len() as u32)),
                    table_offset,
                    patches,
                },
            )
        },
    }
}

/// The container of a program, or the first limit that it exceeds.
pub open spec fn container(
    result: Shape,
    arguments: Seq<Shape>,
    registers: Seq<Shape>,
    tables: int,
    constants: Seq<(Shape, Seq<u8>)>,
    code: Seq<Code>,
) -> Result<EncodedModel, Fault> {
    if arguments.len() > 65535 || registers.len() > 65535 || tables > 65535 || constants.len()
        > 65535 || code.len() > 65535 {
        Err(error::fault(CALL_SITE, POOL_LIMIT))
    } else {
        let start = header(
            0,
            registers.len() as int,
            arguments.len() as int,
            tables,
            constants.len() as int,
            code.len() as int,
        );
        match with_blob(start, types::descriptor(result)) {
            None => Err(error::fault(CALL_SITE, ENCODING_LIMIT)),
            Some(typed) => match with_types(
                typed + bytes::zeros((8 * tables) as nat),
                arguments + registers,
                0,
            ) {
                None => Err(error::fault(CALL_SITE, ENCODING_LIMIT)),
                Some(pools) => match with_constants(pools, constants, 0) {
                    None => Err(error::fault(CALL_SITE, ENCODING_LIMIT)),
                    Some(data) => finished(data, typed.len() as int, code),
                },
            },
        }
    }
}

/// Append the 32 header bytes, with a zero length.
fn push_header(
    out: &mut Vec<u8>,
    registers: u16,
    arguments: u16,
    tables: u16,
    constants: u16,
    instructions: u32,
)
    ensures
        final(out)@ == old(out)@ + header(
            0,
            registers as int,
            arguments as int,
            tables as int,
            constants as int,
            instructions as int,
        ),
{
    let ghost before = out@;
    let name: [u8; 8] = [0x42, 0x4c, 0x4f, 0x50, 0x56, 0x4d, 0x30, 0x31];
    push_bytes(out, name.as_slice());
    assert(name@ =~= magic());
    push_u16(out, 1);
    push_u16(out, 0);
    push_u32(out, 0);
    push_u16(out, registers);
    push_u16(out, arguments);
    push_u16(out, tables);
    push_u16(out, constants);
    push_u32(out, instructions);
    push_u32(out, 0);
    assert(out@ =~= before + header(
        0,
        registers as int,
        arguments as int,
        tables as int,
        constants as int,
        instructions as int,
    ));
}

/// Append the descriptors of `list`, as blobs.
fn push_types(out: &mut Vec<u8>, list: &Vec<Type>) -> (done: Result<(), CompileError>)
    ensures
        match done {
            Ok(()) => with_types(old(out)@, types::shapes(list@), 0) == Some(final(out)@),
            Err(e) => with_types(old(out)@, types::shapes(list@), 0) is None && e@ == error::fault(
                CALL_SITE,
                ENCODING_LIMIT,
            ),
        },
{
    let ghost all = types::shapes(list@);
    let ghost whole = with_types(out@, all, 0);
    let mut i: usize = 0;
    while i < list.len()
        invariant
            all == types::shapes(list@),
            i <= list@.len(),
            whole == with_types(old(out)@, all, 0),
            whole == with_types(out@, all, i as int),
        decreases list@.len() - i,
    {
        let descriptor = list[i].descriptor();
        assert(all[i as int] == list@[i as int]@);
        blob(descriptor.as_slice(), out)?;
        i += 1;
    }
    Ok(())
}

/// Types of one list after those of another are appended as one list.
proof fn lemma_with_types_concat(out: Seq<u8>, a: Seq<Shape>, b: Seq<Shape>, i: int)
    requires
        0 <= i <= a.len(),
    ensures
        with_types(out, a + b, i) == match with_types(out, a, i) {
            None => None,
            Some(middle) => with_types(middle, b, 0),
        },
    decreases a.len() - i,
{
    if i < a.len() {
        assert((a + b)[i] == a[i]);
        if let Some(next) = with_blob(out, types::descriptor(a[i])) {
            lemma_with_types_concat(next, a, b, i + 1);
        }
    } else {
        lemma_with_types_shift(out, a, b, 0);
    }
}

proof fn lemma_with_types_shift(out: Seq<u8>, a: Seq<Shape>, b: Seq<Shape>, i: int)
    requires
        0 <= i <= b.len(),
    ensures
        with_types(out, a + b, a.len() + i) == with_types(out, b, i),
    decreases b.len() - i,
{
    if i < b.len() {
        assert((a + b)[a.len() + i] == b[i]);
        if let Some(next) = with_blob(out, types::descriptor(b[i])) {
            lemma_with_types_shift(next, a, b, i + 1);
        }
    }
}

/// Write a program container.
pub fn encode(
    result: &Type,
    arguments: &Vec<Type>,
    registers: &Vec<Type>,
    table_count: usize,
    constants: &Vec<(Type, Vec<u8>)>,
    instructions: &Vec<Instruction>,
) -> (encoded: Result<Encoded, CompileError>)
    requires
        forall|i: int|
            0 <= i < instructions@.len() ==> ((#[trigger] instructions@[i]).table matches Some(
                (offset, _),
            ) ==> offset + VALUE_LIMIT <= usize::MAX),
    ensures
        match encoded {
            Ok(encoded) => container(
                result@,
                types::shapes(arguments@),
                types::shapes(registers@),
                table_count as int,
                pool(constants@),
                codes(instructions@),
            ) == Ok::<EncodedModel, Fault>(encoded@),
            Err(e) => container(
                result@,
                types::shapes(arguments@),
                types::shapes(registers@),
                table_count as int,
                pool(constants@),
                codes(instructions@),
            ) == Err::<EncodedModel, Fault>(e@),
        },
{
    broadcast use bytes::group_le;

    let ghost args = types::shapes(arguments@);
    let ghost regs = types::shapes(registers@);
    let ghost consts = pool(constants@);
    let ghost code = codes(instructions@);
    if arguments.len() > 65535 || registers.len() > 65535 || table_count > 65535 || constants.len()
        > 65535 || instructions.len() > 65535 {
        return Err(CompileError::rule(CALL_SITE, POOL_LIMIT));
    }
    let mut out: Vec<u8> = Vec::new();
    push_header(
        &mut out,
        registers.len() as u16,
        arguments.len() as u16,
        table_count as u16,
        constants.len() as u16,
        instructions.len() as u32,
    );
    let ghost start = header(
        0,
        regs.len() as int,
        args.len() as int,
        table_count as int,
        consts.len() as int,
        code.len() as int,
    );
    assert(out@ =~= start);
    let descriptor = result.descriptor();
    blob(descriptor.as_slice(), &mut out)?;
    let table_offset: usize = out.len();
    push_zeros(&mut out, 8 * table_count);
    let ghost typed = out@;
    proof {
        lemma_with_types_concat(typed, args, regs, 0);
    }
    push_types(&mut out, arguments)?;
    push_types(&mut out, registers)?;
    let ghost pools = out@;
    let mut i: usize = 0;
    while i < constants.len()
        invariant
            consts == pool(constants@),
            i <= constants@.len(),
            with_constants(pools, consts, 0) == with_constants(out@, consts, i as int),
            container(
                result@,
                types::shapes(arguments@),
                types::shapes(registers@),
                table_count as int,
                pool(constants@),
                codes(instructions@),
            ) == (match with_constants(pools, consts, 0) {
                None => Err::<EncodedModel, Fault>(error::fault(CALL_SITE, ENCODING_LIMIT)),
                Some(data) => finished(data, table_offset as int, codes(instructions@)),
            }),
        decreases constants@.len() - i,
    {
        let descriptor = constants[i].0.descriptor();
        assert(consts[i as int] == (constants@[i as int].0@, constants@[i as int].1@));
        blob(descriptor.as_slice(), &mut out)?;
        blob(constants[i].1.as_slice(), &mut out)?;
        i += 1;
    }
    let ghost data = out@;
    let mut patches: Vec<(usize, u16)> = Vec::new();
    let limit: usize = VALUE_LIMIT as usize;
    let mut j: usize = 0;
    while j < instructions.len()
        invariant
            code == codes(instructions@),
            limit == VALUE_LIMIT,
            j <= instructions@.len(),
            forall|i: int|
                0 <= i < instructions@.len() ==> ((#[trigger] instructions@[i]).table matches Some(
                    (offset, _),
                ) ==> offset + VALUE_LIMIT <= usize::MAX),
            with_code(data, Seq::empty(), code, 0) == with_code(out@, patches@, code, j as int),
            container(
                result@,
                types::shapes(arguments@),
                types::shapes(registers@),
                table_count as int,
                pool(constants@),
                codes(instructions@),
            ) == finished(data, table_offset as int, code),
        decreases instructions@.len() - j,
    {
        let instruction = &instructions[j];
        assert(code[j as int] == instruction@);
        let length: usize = instruction.operands.len();
        if length > limit - 4 || out.len() > limit - 4 - length {
            return Err(CompileError::rule(CALL_SITE, PROGRAM_LIMIT));
        }
        let ghost before = out@;
        if let Some((offset, index)) = instruction.table {
            patches.push((out.len() + 4 + offset, index));
        }
        out.push(instruction.opcode);
        out.push(0);
        push_u16(&mut out, (length % 65536) as u16);
        push_bytes(&mut out, instruction.operands.as_slice());
        assert(out@ =~= before + code_bytes(code[j as int]));
        j += 1;
    }
    if out.len() > limit {
        return Err(CompileError::rule(CALL_SITE, PROGRAM_LIMIT));
    }
    let length: u32 = out.len() as u32;
    let mut field: Vec<u8> = Vec::new();
    push_u32(&mut field, length);
    assert(field@ =~= bytes::le32(length));
    proof {
        lemma_container_length(data, code, 0, Seq::empty());
        assert(data.len() >= 32) by {
            lemma_with_types_grow(typed, args + regs, 0);
            lemma_with_constants_grow(pools, consts, 0);
        }
    }
    write_at(&mut out, 12, field.as_slice());
    let encoded = Encoded { bytes: out, table_offset, patches };
    assert(encoded@ =~= finished(data, table_offset as int, code)->Ok_0);
    Ok(encoded)
}

proof fn lemma_with_types_grow(out: Seq<u8>, shapes: Seq<Shape>, i: int)
    ensures
        with_types(out, shapes, i) matches Some(next) ==> next.len() >= out.len(),
    decreases shapes.len() - i,
{
    if i < shapes.len() {
        if let Some(next) = with_blob(out, types::descriptor(shapes[i])) {
            lemma_with_types_grow(next, shapes, i + 1);
        }
    }
}

proof fn lemma_with_constants_grow(out: Seq<u8>, constants: Seq<(Shape, Seq<u8>)>, i: int)
    ensures
        with_constants(out, constants, i) matches Some(next) ==> next.len() >= out.len(),
    decreases constants.len() - i,
{
    if i < constants.len() {
        if let Some(typed) = with_blob(out, types::descriptor(constants[i].0)) {
            if let Some(next) = with_blob(typed, constants[i].1) {
                lemma_with_constants_grow(next, constants, i + 1);
            }
        }
    }
}

proof fn lemma_container_length(out: Seq<u8>, code: Seq<Code>, i: int, patches: Seq<(usize, u16)>)
    ensures
        with_code(out, patches, code, i) matches Some((next, _)) ==> next.len() >= out.len(),
    decreases code.len() - i,
{
    if i < code.len() && out.len() + 4 + code[i].operands.len() <= VALUE_LIMIT {
        lemma_container_length(
            out + code_bytes(code[i]),
            code,
            i + 1,
            match code[i].table {
                Some((offset, index)) => patches.push(
                    ((out.len() + 4 + offset) as usize, index),
                ),
                None => patches,
            },
        );
    }
}

} // verus!
