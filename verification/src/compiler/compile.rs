//! Translation of program bodies to instructions.

pub mod expr;
pub mod intrinsics;
pub mod program;
pub mod statement;

use super::bytecode;
use super::bytecode::{pool_index, Code, Instruction, POOL_LIMIT};
use super::error;
use super::error::{CompileError, Fault, Problem, Reason, Span};
use super::types;
use super::types::{validate_type, Shape, Type, INVALID_TYPE};
use crate::bytes;
use crate::bytes::{push_bytes, push_u16, push_u32};
use crate::external::same_text;
use vstd::prelude::*;

verus! {

/// A local variable.
#[derive(Clone, Copy, Debug, PartialEq, Eq, Structural)]
pub struct Local {
    pub register: u16,
    pub mutable: bool,
}

/// A declared table.
#[derive(Debug, PartialEq, Eq)]
pub struct TableInfo {
    pub index: u16,
    pub key: Type,
    pub value: Type,
}

/// The model of a [`TableInfo`].
pub struct TableShape {
    pub index: u16,
    pub key: Shape,
    pub value: Shape,
}

impl TableInfo {
    pub open spec fn view(self) -> TableShape {
        TableShape { index: self.index, key: self.key@, value: self.value@ }
    }

    fn duplicate(&self) -> (copy: TableInfo)
        ensures
            copy@ == self@,
    {
        TableInfo { index: self.index, key: self.key.duplicate(), value: self.value.duplicate() }
    }
}

/// What has been translated so far. Names are looked up from the last entry to
/// the first, so a later binding shadows an earlier one.
pub struct Compiler {
    pub registers: Vec<Type>,
    pub constants: Vec<(Type, Vec<u8>)>,
    pub instructions: Vec<Instruction>,
    pub locals: Vec<(String, Local)>,
    pub captures: Vec<(String, u16)>,
    pub tables: Vec<(String, TableInfo)>,
    pub result: Option<Type>,
    pub declared_result: bool,
}

/// The model of a [`Compiler`].
#[verifier::ext_equal]
pub struct State {
    pub registers: Seq<Shape>,
    pub constants: Seq<(Shape, Seq<u8>)>,
    pub code: Seq<Code>,
    pub locals: Seq<(Seq<char>, Local)>,
    pub captures: Seq<(Seq<char>, u16)>,
    pub tables: Seq<(Seq<char>, TableShape)>,
    pub result: Option<Shape>,
    pub declared_result: bool,
}

/// A state and the register that holds the value of an expression.
pub type Valued = Result<(State, u16), Fault>;

/// A state and whether the statement always leaves the program.
pub type Flow = Result<(State, bool), Fault>;

pub open spec fn local_models(list: Seq<(String, Local)>) -> Seq<(Seq<char>, Local)> {
    list.map_values(|p: (String, Local)| (p.0@, p.1))
}

pub open spec fn capture_registers(list: Seq<(String, u16)>) -> Seq<(Seq<char>, u16)> {
    list.map_values(|p: (String, u16)| (p.0@, p.1))
}

pub open spec fn table_shapes(list: Seq<(String, TableInfo)>) -> Seq<(Seq<char>, TableShape)> {
    list.map_values(|p: (String, TableInfo)| (p.0@, p.1@))
}

/// The model of an optional type.
pub open spec fn opt(ty: Option<Type>) -> Option<Shape> {
    match ty {
        Some(ty) => Some(ty@),
        None => None,
    }
}

/// The model of an optional expected type.
pub open spec fn wanted(ty: Option<&Type>) -> Option<Shape> {
    match ty {
        Some(ty) => Some(ty@),
        None => None,
    }
}

/// The last entry of `list` under `name`.
pub open spec fn find<A>(list: Seq<(Seq<char>, A)>, name: Seq<char>) -> Option<A>
    decreases list.len(),
{
    if list.len() == 0 {
        None
    } else if list.last().0 == name {
        Some(list.last().1)
    } else {
        find(list.drop_last(), name)
    }
}

/// What is found is in the list.
pub proof fn lemma_find<A>(list: Seq<(Seq<char>, A)>, name: Seq<char>)
    ensures
        find(list, name) matches Some(a) ==> exists|i: int|
            0 <= i < list.len() && #[trigger] list[i] == (name, a),
    decreases list.len(),
{
    if list.len() > 0 {
        if list.last().0 == name {
            assert(list[list.len() - 1] == (name, list.last().1));
        } else {
            lemma_find(list.drop_last(), name);
            if let Some(a) = find(list.drop_last(), name) {
                let i = choose|i: int|
                    0 <= i < list.drop_last().len() && #[trigger] list.drop_last()[i] == (name, a);
                assert(list[i] == (name, a));
            }
        }
    }
}

/// Whether a table operand is the first or the second of its instruction and
/// refers to one of `tables` declarations.
pub open spec fn marked(code: Code, tables: nat) -> bool {
    code.table matches Some((offset, index)) ==> offset <= 2 && offset + 2 <= code.operands.len()
        && index < tables
}

impl State {
    /// Whether the registers of all names exist, and all table operands are
    /// marked.
    pub open spec fn wf(self) -> bool {
        &&& self.registers.len() <= 65535
        &&& self.code.len() <= 65535
        &&& forall|i: int|
            0 <= i < self.locals.len() ==> (#[trigger] self.locals[i]).1.register
                < self.registers.len()
        &&& forall|i: int|
            0 <= i < self.captures.len() ==> (#[trigger] self.captures[i]).1 < self.registers.len()
        &&& forall|i: int|
            0 <= i < self.code.len() ==> marked(#[trigger] self.code[i], self.tables.len())
        &&& forall|i: int|
            0 <= i < self.tables.len() ==> (#[trigger] self.tables[i]).1.index < self.tables.len()
    }
}

/// Whether an instruction is a jump.
pub open spec fn jumps(code: Code) -> bool {
    code.opcode == 0x60 || code.opcode == 0x61
}

/// Where a jump leads: its last operand.
#[verifier::opaque]
pub open spec fn target(code: Code) -> int {
    bytes::un32(code.operands.subrange(code.operands.len() - 4, code.operands.len() as int)) as int
}

/// Whether the instruction at `i` of `count`, where it is a jump, leads to a
/// later one or to the end.
pub open spec fn leads_on(code: Code, i: int, count: int) -> bool {
    jumps(code) ==> i < target(code) <= count
}

/// Whether all jumps from the `start`-th instruction on, but for the `open`
/// ones, lead forward.
pub open spec fn forward_but(code: Seq<Code>, start: int, open: Set<int>) -> bool {
    forall|i: int|
        start <= i < code.len() && !open.contains(i) ==> leads_on(
            #[trigger] code[i],
            i,
            code.len() as int,
        )
}

/// Whether all jumps from the `start`-th instruction on lead forward.
pub open spec fn forward_from(code: Seq<Code>, start: int) -> bool {
    forall|i: int|
        start <= i < code.len() ==> leads_on(#[trigger] code[i], i, code.len() as int)
}

/// Patching an open jump leaves the others.
pub proof fn lemma_patched(s: State, start: int, open: Set<int>, index: int)
    requires
        0 <= start,
        0 <= index < s.code.len() <= u32::MAX,
        s.code[index].operands.len() >= 4,
        forward_but(s.code, start, open),
    ensures
        forward_but(patched(s, index).code, start, open.remove(index)),
{
    lemma_aimed(s.code[index], s.code.len() as int);
}

/// Jumps that lead forward do so too when more instructions follow.
pub proof fn lemma_forward(a: State, b: State, start: int, open: Set<int>)
    requires
        grows(a, b),
        0 <= start <= a.code.len(),
        forward_but(a.code, start, open),
    ensures
        forward_but(b.code, start, open),
{
    assert forall|i: int| start <= i < b.code.len() && !open.contains(i) implies leads_on(
        #[trigger] b.code[i],
        i,
        b.code.len() as int,
    ) by {
        if i < a.code.len() {
            assert(b.code[i] == a.code[i]);
        }
    }
}

/// An aimed jump leads to its target.
pub proof fn lemma_aimed(code: Code, at: int)
    requires
        code.operands.len() >= 4,
        0 <= at <= u32::MAX,
    ensures
        target(aimed(code, at)) == at,
{
    broadcast use bytes::group_le;

    reveal(target);
    let jump = aimed(code, at);
    assert(jump.operands.subrange(jump.operands.len() - 4, jump.operands.len() as int)
        =~= bytes::le32(at as u32));
}

/// Whether `b` has all instructions of `a` in their places, at least its
/// registers and the same names.
pub open spec fn keeps(a: State, b: State) -> bool {
    &&& a.registers.len() <= b.registers.len()
    &&& a.code.len() <= b.code.len()
    &&& forall|i: int| 0 <= i < a.code.len() ==> #[trigger] b.code[i] == a.code[i]
    &&& a.captures == b.captures
    &&& a.tables == b.tables
}

/// Whether `b` keeps all of `a`, and every further jump leads forward.
pub open spec fn grows(a: State, b: State) -> bool {
    keeps(a, b) && forward_from(b.code, a.code.len() as int)
}

/// Whether `b` grew from `a` and has its locals in front.
pub open spec fn grows_with_locals(a: State, b: State) -> bool {
    &&& grows(a, b)
    &&& a.locals.len() <= b.locals.len()
    &&& b.locals.subrange(0, a.locals.len() as int) == a.locals
}

/// Whether `b` grew from `a` and kept its locals.
pub open spec fn grows_in_scope(a: State, b: State) -> bool {
    grows(a, b) && a.locals == b.locals
}

/// The bytes of 16-bit operands.
pub open spec fn words(operands: Seq<u16>) -> Seq<u8>
    decreases operands.len(),
{
    if operands.len() == 0 {
        Seq::empty()
    } else {
        words(operands.drop_last()) + bytes::le16(operands.last())
    }
}

/// Every operand takes two bytes.
pub proof fn lemma_words(operands: Seq<u16>)
    ensures
        words(operands).len() == 2 * operands.len(),
    decreases operands.len(),
{
    broadcast use bytes::group_le;

    if operands.len() > 0 {
        lemma_words(operands.drop_last());
    }
}

/// The bytes of 16-bit operands.
fn operand_bytes(operands: &Vec<u16>) -> (out: Vec<u8>)
    ensures
        out@ == words(operands@),
{
    let mut out: Vec<u8> = Vec::new();
    let mut i: usize = 0;
    assert(operands@.subrange(0, 0) =~= Seq::empty());
    while i < operands.len()
        invariant
            i <= operands@.len(),
            out@ == words(operands@.subrange(0, i as int)),
        decreases operands@.len() - i,
    {
        push_u16(&mut out, operands[i]);
        i += 1;
        assert(operands@.subrange(0, i as int).drop_last() =~= operands@.subrange(0, i - 1));
    }
    assert(operands@.subrange(0, operands@.len() as int) =~= operands@);
    out
}

/// One operand.
pub fn one(a: u16) -> (list: Vec<u16>)
    ensures
        list@ == seq![a],
{
    let mut list: Vec<u16> = Vec::new();
    list.push(a);
    assert(list@ =~= seq![a]);
    list
}

/// Two operands.
pub fn two(a: u16, b: u16) -> (list: Vec<u16>)
    ensures
        list@ == seq![a, b],
{
    let mut list: Vec<u16> = Vec::new();
    list.push(a);
    list.push(b);
    assert(list@ =~= seq![a, b]);
    list
}

/// Three operands.
pub fn three(a: u16, b: u16, c: u16) -> (list: Vec<u16>)
    ensures
        list@ == seq![a, b, c],
{
    let mut list: Vec<u16> = Vec::new();
    list.push(a);
    list.push(b);
    list.push(c);
    assert(list@ =~= seq![a, b, c]);
    list
}

/// `s` with one more register.
pub open spec fn with_register(s: State, ty: Shape, span: Span) -> Valued {
    if !types::valid_type(ty, true) {
        Err(error::fault(span, INVALID_TYPE))
    } else if s.registers.len() >= 65535 {
        Err(error::fault(span, POOL_LIMIT))
    } else {
        Ok((State { registers: s.registers.push(ty), ..s }, s.registers.len() as u16))
    }
}

/// `s` with one more instruction.
pub open spec fn with_instruction(s: State, code: Code, span: Span) -> Result<State, Fault> {
    if s.code.len() >= 65535 {
        Err(error::fault(span, POOL_LIMIT))
    } else {
        Ok(State { code: s.code.push(code), ..s })
    }
}

/// An instruction with 16-bit operands.
pub open spec fn plain(opcode: u8, operands: Seq<u16>) -> Code {
    Code { opcode, operands: words(operands), table: None }
}

/// An instruction with 16-bit operands, of which the one at byte `offset` is
/// the table `index`.
pub open spec fn tabled(opcode: u8, operands: Seq<u16>, offset: usize, index: u16) -> Code {
    Code { opcode, operands: words(operands), table: Some((offset, index)) }
}

/// `s` with a new register of type `ty` and an instruction that fills it from
/// `operands`.
pub open spec fn produced(
    s: State,
    ty: Shape,
    opcode: u8,
    operands: Seq<u16>,
    span: Span,
) -> Valued {
    match with_register(s, ty, span) {
        Err(e) => Err(e),
        Ok((s1, r)) => match with_instruction(s1, plain(opcode, seq![r] + operands), span) {
            Err(e) => Err(e),
            Ok(s2) => Ok((s2, r)),
        },
    }
}

/// `s` with a new register of type `ty` and an instruction that fills it from
/// the table `table`.
pub open spec fn read_from(
    s: State,
    ty: Shape,
    opcode: u8,
    table: u16,
    key: u16,
    span: Span,
) -> Valued {
    match with_register(s, ty, span) {
        Err(e) => Err(e),
        Ok((s1, r)) => match with_instruction(
            s1,
            tabled(opcode, seq![r, table, key], 2, table),
            span,
        ) {
            Err(e) => Err(e),
            Ok(s2) => Ok((s2, r)),
        },
    }
}

/// `s` with a constant in a new register.
pub open spec fn with_constant(s: State, ty: Shape, value: Seq<u8>, span: Span) -> Valued {
    if s.constants.len() >= 65535 {
        Err(error::fault(span, POOL_LIMIT))
    } else {
        let index = s.constants.len() as u16;
        match with_register(s, ty, span) {
            Err(e) => Err(e),
            Ok((s1, r)) => match with_instruction(
                State { constants: s1.constants.push((ty, value)), ..s1 },
                plain(0x01, seq![r, index]),
                span,
            ) {
                Err(e) => Err(e),
                Ok(s2) => Ok((s2, r)),
            },
        }
    }
}

/// A jump whose target is still open: on a false `condition`, or always.
pub open spec fn open_jump(condition: Option<u16>) -> Code {
    match condition {
        Some(register) => Code {
            opcode: 0x61,
            operands: words(seq![register]) + bytes::le32(0),
            table: None,
        },
        None => Code { opcode: 0x60, operands: bytes::le32(0), table: None },
    }
}

/// The jump `code` with the target `target`.
pub open spec fn aimed(code: Code, target: int) -> Code {
    Code {
        operands: code.operands.subrange(0, code.operands.len() - 4) + bytes::le32(target as u32),
        ..code
    }
}

/// `s` with the jump at `index` aimed at the next instruction.
pub open spec fn patched(s: State, index: int) -> State {
    State { code: s.code.update(index, aimed(s.code[index], s.code.len() as int)), ..s }
}

impl Compiler {
    pub open spec fn view(&self) -> State {
        State {
            registers: types::shapes(self.registers@),
            constants: bytecode::pool(self.constants@),
            code: bytecode::codes(self.instructions@),
            locals: local_models(self.locals@),
            captures: capture_registers(self.captures@),
            tables: table_shapes(self.tables@),
            result: opt(self.result),
            declared_result: self.declared_result,
        }
    }

    /// Add a register of type `ty`.
    pub fn register(&mut self, ty: Type, span: Span) -> (register: Result<u16, CompileError>)
        ensures
            match register {
                Ok(r) => with_register(old(self)@, ty@, span) == Ok::<(State, u16), Fault>(
                    (final(self)@, r),
                ),
                Err(e) => with_register(old(self)@, ty@, span) == Err::<(State, u16), Fault>(e@),
            },
    {
        validate_type(&ty, true, span)?;
        let register: u16 = pool_index(self.registers.len(), span)?;
        let ghost before = self@;
        self.registers.push(ty);
        assert(self@.registers =~= before.registers.push(ty@));
        Ok(register)
    }

    /// Add an instruction.
    pub fn emit(
        &mut self,
        opcode: u8,
        operands: Vec<u8>,
        table: Option<(usize, u16)>,
        span: Span,
    ) -> (index: Result<usize, CompileError>)
        ensures
            match index {
                Ok(i) => i == old(self)@.code.len() && with_instruction(
                    old(self)@,
                    Code { opcode, operands: operands@, table },
                    span,
                ) == Ok::<State, Fault>(final(self)@),
                Err(e) => with_instruction(
                    old(self)@,
                    Code { opcode, operands: operands@, table },
                    span,
                ) == Err::<State, Fault>(e@),
            },
    {
        pool_index(self.instructions.len(), span)?;
        let index: usize = self.instructions.len();
        let ghost before = self@;
        self.instructions.push(Instruction { opcode, operands, table });
        assert(self@.code =~= before.code.push(Code { opcode, operands: operands@, table }));
        Ok(index)
    }

    /// Add an instruction with 16-bit operands.
    pub fn emit_words(&mut self, opcode: u8, operands: Vec<u16>, span: Span) -> (index: Result<
        usize,
        CompileError,
    >)
        ensures
            match index {
                Ok(i) => i == old(self)@.code.len() && with_instruction(
                    old(self)@,
                    plain(opcode, operands@),
                    span,
                ) == Ok::<State, Fault>(final(self)@),
                Err(e) => with_instruction(old(self)@, plain(opcode, operands@), span) == Err::<
                    State,
                    Fault,
                >(e@),
            },
    {
        let bytes = operand_bytes(&operands);
        self.emit(opcode, bytes, None, span)
    }

    /// Add an instruction with 16-bit operands, of which the one at byte
    /// `offset` is the table `table`.
    pub fn emit_table(
        &mut self,
        opcode: u8,
        operands: Vec<u16>,
        offset: usize,
        table: u16,
        span: Span,
    ) -> (index: Result<usize, CompileError>)
        ensures
            match index {
                Ok(i) => i == old(self)@.code.len() && with_instruction(
                    old(self)@,
                    tabled(opcode, operands@, offset, table),
                    span,
                ) == Ok::<State, Fault>(final(self)@),
                Err(e) => with_instruction(
                    old(self)@,
                    tabled(opcode, operands@, offset, table),
                    span,
                ) == Err::<State, Fault>(e@),
            },
            index is Ok && old(self)@.wf() && table < old(self)@.tables.len() && offset <= 2
                && offset + 2 <= 2 * operands@.len() ==> final(self)@.wf(),
    {
        proof {
            lemma_words(operands@);
        }
        let bytes = operand_bytes(&operands);
        self.emit(opcode, bytes, Some((offset, table)), span)
    }

    /// Add a register of type `ty` and an instruction that fills it.
    pub fn produce(
        &mut self,
        ty: Type,
        opcode: u8,
        operands: Vec<u16>,
        span: Span,
    ) -> (register: Result<u16, CompileError>)
        ensures
            match register {
                Ok(r) => produced(old(self)@, ty@, opcode, operands@, span) == Ok::<
                    (State, u16),
                    Fault,
                >((final(self)@, r)),
                Err(e) => produced(old(self)@, ty@, opcode, operands@, span) == Err::<
                    (State, u16),
                    Fault,
                >(e@),
            },
    {
        let result: u16 = self.register(ty, span)?;
        let mut all: Vec<u16> = one(result);
        let ghost first = all@;
        let mut i: usize = 0;
        while i < operands.len()
            invariant
                i <= operands@.len(),
                all@ == first + operands@.subrange(0, i as int),
            decreases operands@.len() - i,
        {
            all.push(operands[i]);
            i += 1;
            assert(all@ =~= first + operands@.subrange(0, i as int));
        }
        assert(all@ =~= seq![result] + operands@);
        self.emit_words(opcode, all, span)?;
        Ok(result)
    }

    /// Add a register of type `ty` and an instruction that fills it from a
    /// table.
    pub fn read_table(
        &mut self,
        ty: Type,
        opcode: u8,
        table: u16,
        key: u16,
        span: Span,
    ) -> (register: Result<u16, CompileError>)
        ensures
            match register {
                Ok(r) => read_from(old(self)@, ty@, opcode, table, key, span) == Ok::<
                    (State, u16),
                    Fault,
                >((final(self)@, r)),
                Err(e) => read_from(old(self)@, ty@, opcode, table, key, span) == Err::<
                    (State, u16),
                    Fault,
                >(e@),
            },
            register is Ok && old(self)@.wf() && table < old(self)@.tables.len() ==> final(
                self)@.wf(),
    {
        let result: u16 = self.register(ty, span)?;
        self.emit_table(opcode, three(result, table, key), 2, table, span)?;
        Ok(result)
    }

    /// Add a jump whose target is still open.
    pub fn jump(&mut self, condition: Option<u16>, span: Span) -> (index: Result<
        usize,
        CompileError,
    >)
        ensures
            match index {
                Ok(i) => i == old(self)@.code.len() && with_instruction(
                    old(self)@,
                    open_jump(condition),
                    span,
                ) == Ok::<State, Fault>(final(self)@),
                Err(e) => with_instruction(old(self)@, open_jump(condition), span) == Err::<
                    State,
                    Fault,
                >(e@),
            },
    {
        match condition {
            Some(register) => {
                let mut operands = operand_bytes(&one(register));
                push_u32(&mut operands, 0);
                self.emit(0x61, operands, None, span)
            },
            None => {
                let mut operands: Vec<u8> = Vec::new();
                push_u32(&mut operands, 0);
                assert(operands@ =~= bytes::le32(0));
                self.emit(0x60, operands, None, span)
            },
        }
    }

    /// Aim the jump at `index` at the next instruction.
    pub fn patch_jump(&mut self, index: usize)
        requires
            index < old(self)@.code.len(),
            old(self)@.code.len() <= u32::MAX,
            old(self)@.code[index as int].operands.len() >= 4,
        ensures
            final(self)@ == patched(old(self)@, index as int),
            old(self)@.wf() ==> final(self)@.wf(),
    {
        broadcast use bytes::group_le;

        let ghost before = self@;
        let target: u32 = self.instructions.len() as u32;
        let old_instruction = &self.instructions[index];
        assert(before.code[index as int] == old_instruction@);
        let keep: usize = old_instruction.operands.len() - 4;
        let mut operands: Vec<u8> = Vec::new();
        push_bytes(&mut operands, &old_instruction.operands.as_slice()[0..keep]);
        push_u32(&mut operands, target);
        let patched_instruction = Instruction {
            opcode: old_instruction.opcode,
            operands,
            table: old_instruction.table,
        };
        self.instructions.set(index, patched_instruction);
        assert(patched_instruction@ =~= aimed(before.code[index as int], before.code.len() as int));
        assert(self@.code =~= patched(before, index as int).code);
        proof {
            if before.wf() {
                assert(marked(before.code[index as int], before.tables.len()));
                assert(patched_instruction@.operands.len() == before.code[index as int].operands.len());
                assert forall|i: int| 0 <= i < self@.code.len() implies marked(
                    #[trigger] self@.code[i],
                    self@.tables.len(),
                ) by {
                    if i != index {
                        assert(self@.code[i] == before.code[i]);
                    }
                }
            }
        }
    }

    /// The type of a register.
    pub fn ty(&self, register: u16) -> (ty: &Type)
        requires
            register < self@.registers.len(),
        ensures
            ty@ == self@.registers[register as int],
    {
        &self.registers[register as usize]
    }

    /// Add a constant in a new register.
    pub fn constant(&mut self, ty: Type, value: Vec<u8>, span: Span) -> (register: Result<
        u16,
        CompileError,
    >)
        ensures
            match register {
                Ok(r) => with_constant(old(self)@, ty@, value@, span) == Ok::<(State, u16), Fault>(
                    (final(self)@, r),
                ),
                Err(e) => with_constant(old(self)@, ty@, value@, span) == Err::<
                    (State, u16),
                    Fault,
                >(e@),
            },
    {
        let index: u16 = pool_index(self.constants.len(), span)?;
        let register: u16 = self.register(ty.duplicate(), span)?;
        let ghost before = self@;
        self.constants.push((ty, value));
        assert(self@.constants =~= before.constants.push((ty@, value@)));
        self.emit_words(0x01, two(register, index), span)?;
        Ok(register)
    }

    /// The local under `name`.
    pub fn local(&self, name: &str) -> (local: Option<Local>)
        ensures
            local == find(self@.locals, name@),
    {
        let mut n: usize = self.locals.len();
        let ghost all = self@.locals;
        assert(all.subrange(0, n as int) =~= all);
        while n > 0
            invariant
                n <= self.locals@.len(),
                all == local_models(self.locals@),
                find(all, name@) == find(all.subrange(0, n as int), name@),
            decreases n,
        {
            assert(all.subrange(0, n as int).drop_last() =~= all.subrange(0, n - 1));
            assert(all[n - 1] == (self.locals@[n - 1].0@, self.locals@[n - 1].1));
            n -= 1;
            if same_text(self.locals[n].0.as_str(), name) {
                return Some(self.locals[n].1);
            }
        }
        None
    }

    /// The register of the capture `name`.
    pub fn capture(&self, name: &str) -> (register: Option<u16>)
        ensures
            register == find(self@.captures, name@),
    {
        let mut n: usize = self.captures.len();
        let ghost all = self@.captures;
        assert(all.subrange(0, n as int) =~= all);
        while n > 0
            invariant
                n <= self.captures@.len(),
                all == capture_registers(self.captures@),
                find(all, name@) == find(all.subrange(0, n as int), name@),
            decreases n,
        {
            assert(all.subrange(0, n as int).drop_last() =~= all.subrange(0, n - 1));
            assert(all[n - 1] == (self.captures@[n - 1].0@, self.captures@[n - 1].1));
            n -= 1;
            if same_text(self.captures[n].0.as_str(), name) {
                return Some(self.captures[n].1);
            }
        }
        None
    }

    /// The table under `name`.
    pub fn table(&self, name: &str) -> (table: Option<TableInfo>)
        ensures
            match table {
                Some(table) => find(self@.tables, name@) == Some(table@),
                None => find(self@.tables, name@) is None,
            },
    {
        let mut n: usize = self.tables.len();
        let ghost all = self@.tables;
        assert(all.subrange(0, n as int) =~= all);
        while n > 0
            invariant
                n <= self.tables@.len(),
                all == table_shapes(self.tables@),
                find(all, name@) == find(all.subrange(0, n as int), name@),
            decreases n,
        {
            assert(all.subrange(0, n as int).drop_last() =~= all.subrange(0, n - 1));
            assert(all[n - 1] == (self.tables@[n - 1].0@, self.tables@[n - 1].1@));
            n -= 1;
            if same_text(self.tables[n].0.as_str(), name) {
                return Some(self.tables[n].1.duplicate());
            }
        }
        None
    }

    /// Bind `name` to `local`.
    pub fn bind(&mut self, name: String, local: Local)
        ensures
            final(self)@ == (State {
                locals: old(self)@.locals.push((name@, local)),
                ..old(self)@
            }),
    {
        let ghost before = self@;
        self.locals.push((name, local));
        assert(self@.locals =~= before.locals.push((name@, local)));
    }

    /// Forget the locals behind the first `count`.
    pub fn leave(&mut self, count: usize)
        requires
            count <= old(self)@.locals.len(),
        ensures
            final(self)@ == (State {
                locals: old(self)@.locals.subrange(0, count as int),
                ..old(self)@
            }),
    {
        let ghost before = self@;
        self.locals.truncate(count);
        assert(self@.locals =~= before.locals.subrange(0, count as int));
    }
}

/// A value of another shape than its place requires.
pub open spec fn mismatch(span: Span, expected: Shape, found: Shape) -> Fault {
    Fault { span, reason: Reason::Mismatch { expected, found } }
}

/// Check that a value has the shape that its place requires.
pub fn require_shape(actual: &Type, expected: &Type, span: Span) -> (fits: Result<(), CompileError>)
    ensures
        match fits {
            Ok(()) => types::same_shape(actual@, expected@),
            Err(e) => !types::same_shape(actual@, expected@) && e@ == mismatch(
                span,
                expected@,
                actual@,
            ),
        },
{
    if actual.same_shape(expected) {
        Ok(())
    } else {
        Err(
            CompileError {
                span,
                problem: Problem::Mismatch {
                    expected: expected.duplicate(),
                    found: actual.duplicate(),
                },
            },
        )
    }
}

} // verus!
