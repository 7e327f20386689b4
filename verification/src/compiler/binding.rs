//! What binding makes of a compiled program.

use super::bytecode;
use super::bytecode::{Code, EncodedModel};
use super::error::Fault;
use super::types;
use super::types::Shape;
use crate::bind;
use crate::bind::{BuildError, Transaction};
use crate::bytes;
use crate::vm::program;
use vstd::prelude::*;

verus! {

/// Whether the header of a container is complete and says where the table array
/// starts and how many tables it has.
pub open spec fn headed(e: EncodedModel, tables: int) -> bool {
    &&& 36 <= e.table_offset
    &&& e.table_offset + 8 * tables <= e.bytes.len() <= types::VALUE_LIMIT
    &&& bytes::part(e.bytes, 0, 8) == bytecode::magic()
    &&& bytes::part(e.bytes, 8, 2) == bytes::le16(1)
    &&& bytes::part(e.bytes, 10, 2) == bytes::zeros(2)
    &&& bytes::part(e.bytes, 12, 4) == bytes::le32(e.bytes.len() as u32)
    &&& bytes::part(e.bytes, 20, 2) == bytes::le16(tables as u16)
    &&& bytes::part(e.bytes, 28, 4) == bytes::zeros(4)
    &&& bytes::part(e.bytes, 32, 4) == bytes::le32((e.table_offset - 36) as u32)
}

/// Whether every patch names one of the declarations and lies behind the table
/// array.
pub open spec fn fits(e: EncodedModel, tables: int) -> bool {
    &&& 0 <= tables <= 65535
    &&& forall|i: int|
        0 <= i < e.patches.len() ==> {
            let (offset, declaration) = #[trigger] e.patches[i];
            declaration < tables && e.table_offset + 8 * tables <= offset && offset + 2
                <= e.bytes.len()
        }
}

// ---- Containers ----------------------------------------------------------

/// Whether `b` starts with `a`.
spec fn starts_with(b: Seq<u8>, a: Seq<u8>) -> bool {
    a.len() <= b.len() && b.subrange(0, a.len() as int) == a
}

proof fn lemma_starts(c: Seq<u8>, b: Seq<u8>, a: Seq<u8>)
    requires
        starts_with(c, b),
        starts_with(b, a),
    ensures
        starts_with(c, a),
{
    assert(c.subrange(0, a.len() as int) =~= b.subrange(0, a.len() as int)) by {
        assert forall|i: int| 0 <= i < a.len() implies c[i] == b[i] by {
            assert(c.subrange(0, b.len() as int)[i] == b[i]);
        }
    }
}

proof fn lemma_appended(a: Seq<u8>, more: Seq<u8>)
    ensures
        starts_with(a + more, a),
{
    assert((a + more).subrange(0, a.len() as int) =~= a);
}

proof fn lemma_types_start(out: Seq<u8>, shapes: Seq<Shape>, i: int)
    requires
        0 <= i,
    ensures
        bytecode::with_types(out, shapes, i) matches Some(all) ==> starts_with(all, out),
    decreases shapes.len() - i,
{
    if i < shapes.len() {
        if let Some(next) = bytecode::with_blob(out, types::descriptor(shapes[i])) {
            lemma_types_start(next, shapes, i + 1);
            lemma_appended(out, bytes::blob(types::descriptor(shapes[i])));
            if let Some(all) = bytecode::with_types(next, shapes, i + 1) {
                lemma_starts(all, next, out);
            }
        }
    } else {
        assert(out.subrange(0, out.len() as int) =~= out);
    }
}

proof fn lemma_constants_start(out: Seq<u8>, constants: Seq<(Shape, Seq<u8>)>, i: int)
    requires
        0 <= i,
    ensures
        bytecode::with_constants(out, constants, i) matches Some(all) ==> starts_with(all, out),
    decreases constants.len() - i,
{
    if i < constants.len() {
        let descriptor = types::descriptor(constants[i].0);
        if let Some(typed) = bytecode::with_blob(out, descriptor) {
            lemma_appended(out, bytes::blob(descriptor));
            if let Some(next) = bytecode::with_blob(typed, constants[i].1) {
                lemma_appended(typed, bytes::blob(constants[i].1));
                lemma_starts(next, typed, out);
                lemma_constants_start(next, constants, i + 1);
                if let Some(all) = bytecode::with_constants(next, constants, i + 1) {
                    lemma_starts(all, next, out);
                }
            }
        }
    } else {
        assert(out.subrange(0, out.len() as int) =~= out);
    }
}

/// The patches that are noted for table operands lie in the code.
proof fn lemma_code_start(
    out: Seq<u8>,
    patches: Seq<(usize, u16)>,
    code: Seq<Code>,
    i: int,
    tables: nat,
    low: int,
)
    requires
        0 <= i,
        low <= out.len() <= types::VALUE_LIMIT,
        forall|k: int| 0 <= k < code.len() ==> bytecode::refers(#[trigger] code[k], tables),
        forall|k: int|
            0 <= k < patches.len() ==> low <= (#[trigger] patches[k]).0 && patches[k].0 + 2
                <= out.len() && patches[k].1 < tables,
    ensures
        bytecode::with_code(out, patches, code, i) matches Some((all, list)) ==> starts_with(
            all,
            out,
        ) && forall|k: int|
            0 <= k < list.len() ==> low <= (#[trigger] list[k]).0 && list[k].0 + 2 <= all.len()
                && list[k].1 < tables,
    decreases code.len() - i,
{
    broadcast use bytes::group_le;

    if i < code.len() {
        if out.len() + 4 + code[i].operands.len() <= types::VALUE_LIMIT {
            let next = out + bytecode::code_bytes(code[i]);
            let more = match code[i].table {
                Some((offset, index)) => patches.push(
                    ((out.len() + 4 + offset) as usize, index),
                ),
                None => patches,
            };
            assert(bytecode::refers(code[i], tables));
            assert forall|k: int| 0 <= k < more.len() implies low <= (#[trigger] more[k]).0
                && more[k].0 + 2 <= next.len() && more[k].1 < tables by {
                if k < patches.len() {
                    assert(more[k] == patches[k]);
                }
            }
            lemma_code_start(next, more, code, i + 1, tables, low);
            lemma_appended(out, bytecode::code_bytes(code[i]));
            if let Some((all, list)) = bytecode::with_code(next, more, code, i + 1) {
                lemma_starts(all, next, out);
            }
        }
    } else {
        assert(out.subrange(0, out.len() as int) =~= out);
    }
}

/// The first 36 bytes of a container.
proof fn lemma_header(
    start: Seq<u8>,
    descriptor: Seq<u8>,
    all: Seq<u8>,
    registers: int,
    arguments: int,
    tables: int,
    constants: int,
    instructions: int,
)
    requires
        start == bytecode::header(0, registers, arguments, tables, constants, instructions),
        starts_with(all, start + bytes::blob(descriptor)),
        descriptor.len() <= u32::MAX,
        all.len() <= u32::MAX,
    ensures
        ({
            let whole = bytes::overwritten(all, 12, bytes::le32(all.len() as u32));
            &&& start.len() == 32
            &&& whole.len() == all.len()
            &&& bytes::part(whole, 0, 8) == bytecode::magic()
            &&& bytes::part(whole, 8, 2) == bytes::le16(1)
            &&& bytes::part(whole, 10, 2) == bytes::zeros(2)
            &&& bytes::part(whole, 12, 4) == bytes::le32(all.len() as u32)
            &&& bytes::part(whole, 20, 2) == bytes::le16(tables as u16)
            &&& bytes::part(whole, 28, 4) == bytes::zeros(4)
            &&& bytes::part(whole, 32, 4) == bytes::le32(descriptor.len() as u32)
        }),
{
    broadcast use bytes::group_le;

    let whole = bytes::overwritten(all, 12, bytes::le32(all.len() as u32));
    let front = start + bytes::blob(descriptor);
    assert(start.len() == 32);
    assert forall|i: int| 0 <= i < 36 implies #[trigger] all[i] == front[i] by {
        assert(all.subrange(0, front.len() as int)[i] == front[i]);
    }
    assert(bytes::le16(0) =~= bytes::zeros(2)) by {
        reveal(bytes::le16);
    }
    assert(bytes::le32(0) =~= bytes::zeros(4)) by {
        reveal(bytes::le32);
    }
    assert(bytes::part(whole, 0, 8) =~= bytecode::magic());
    assert(bytes::part(whole, 8, 2) =~= bytes::le16(1));
    assert(bytes::part(whole, 10, 2) =~= bytes::le16(0));
    assert(bytes::part(whole, 12, 4) =~= bytes::le32(all.len() as u32));
    assert(bytes::part(whole, 20, 2) =~= bytes::le16(tables as u16));
    assert(bytes::part(whole, 28, 4) =~= bytes::le32(0));
    assert(bytes::part(whole, 32, 4) =~= bytes::le32(descriptor.len() as u32));
}

/// A container whose table operands refer to its declarations has a complete
/// header, and its patches fit.
pub proof fn lemma_container(
    result: Shape,
    arguments: Seq<Shape>,
    registers: Seq<Shape>,
    tables: int,
    constants: Seq<(Shape, Seq<u8>)>,
    code: Seq<Code>,
    e: EncodedModel,
)
    requires
        0 <= tables,
        bytecode::container(result, arguments, registers, tables, constants, code) == Ok::<
            EncodedModel,
            Fault,
        >(e),
        forall|k: int| 0 <= k < code.len() ==> bytecode::refers(#[trigger] code[k], tables as nat),
    ensures
        headed(e, tables),
        fits(e, tables),
{
    broadcast use bytes::group_le;

    let start = bytecode::header(
        0,
        registers.len() as int,
        arguments.len() as int,
        tables,
        constants.len() as int,
        code.len() as int,
    );
    let descriptor = types::descriptor(result);
    let typed = start + bytes::blob(descriptor);
    assert(bytecode::with_blob(start, descriptor) == Some(typed));
    let zeros = bytes::zeros((8 * tables) as nat);
    let array = typed + zeros;
    let pools = bytecode::with_types(array, arguments + registers, 0)->0;
    let data = bytecode::with_constants(pools, constants, 0)->0;
    let (all, patches) = bytecode::with_code(data, Seq::empty(), code, 0)->0;
    lemma_appended(typed, zeros);
    lemma_types_start(array, arguments + registers, 0);
    lemma_constants_start(pools, constants, 0);
    lemma_starts(data, pools, array);
    if data.len() > types::VALUE_LIMIT {
        lemma_data_limit(data, Seq::empty(), code, 0);
    }
    lemma_code_start(
        data,
        Seq::empty(),
        code,
        0,
        tables as nat,
        array.len() as int,
    );
    lemma_starts(all, data, array);
    lemma_starts(all, array, typed);
    lemma_header(
        start,
        descriptor,
        all,
        registers.len() as int,
        arguments.len() as int,
        tables,
        constants.len() as int,
        code.len() as int,
    );
}

/// Nothing that is too long becomes shorter.
proof fn lemma_data_limit(out: Seq<u8>, patches: Seq<(usize, u16)>, code: Seq<Code>, i: int)
    requires
        0 <= i,
        out.len() > types::VALUE_LIMIT,
    ensures
        bytecode::with_code(out, patches, code, i) matches Some((all, _)) ==> all.len()
            > types::VALUE_LIMIT,
{
}

// ---- Laws ----------------------------------------------------------------

/// A compiled program binds to any distinct table IDs that are not reserved, one
/// for each declaration, with arguments that keep their limit.
pub proof fn compiled_programs_bind(
    e: EncodedModel,
    ids: Seq<u64>,
    arguments: Seq<u8>,
    bound: Result<Transaction, BuildError>,
)
    requires
        headed(e, ids.len() as int),
        fits(e, ids.len() as int),
        bind::ids_allowed(ids),
        bind::distinct(ids),
        arguments.len() <= bind::MAX_ARGUMENT_BYTES,
        bind::binding(e.bytes, e.table_offset, e.patches, ids, arguments, bound),
    ensures
        bound matches Ok(transaction) && transaction@.program == bind::bound_program(
            e.bytes,
            e.table_offset,
            e.patches,
            ids,
        ) && transaction@.arguments == arguments,
{
}

/// A container lists exactly the table operands of its instructions, in their
/// order: its code stands at the end, each patch is the position of an operand
/// in it, and there are no other patches. Its header holds its length.
pub proof fn encoded_programs_list_their_table_operands(
    result: Shape,
    arguments: Seq<Shape>,
    registers: Seq<Shape>,
    tables: int,
    constants: Seq<(Shape, Seq<u8>)>,
    code: Seq<Code>,
    e: EncodedModel,
)
    requires
        0 <= tables,
        bytecode::container(result, arguments, registers, tables, constants, code) == Ok::<
            EncodedModel,
            Fault,
        >(e),
        forall|k: int| 0 <= k < code.len() ==> bytecode::refers(#[trigger] code[k], tables as nat),
    ensures
        ({
            let length = bytecode::code_from(code, 0).len() as int;
            let start = e.bytes.len() - length;
            &&& e.table_offset + 8 * tables <= start
            &&& bytes::part(e.bytes, start, length) == bytecode::code_from(code, 0)
            &&& e.patches == bytecode::table_operands(start, code, 0)
            &&& e.bytes.len() <= types::VALUE_LIMIT
            &&& bytes::part(e.bytes, 12, 4) == bytes::le32(e.bytes.len() as u32)
        }),
{
    broadcast use bytes::group_le;

    lemma_container(result, arguments, registers, tables, constants, code, e);
    let start = bytecode::header(
        0,
        registers.len() as int,
        arguments.len() as int,
        tables,
        constants.len() as int,
        code.len() as int,
    );
    let typed = start + bytes::blob(types::descriptor(result));
    let array = typed + bytes::zeros((8 * tables) as nat);
    let pools = bytecode::with_types(array, arguments + registers, 0)->0;
    let data = bytecode::with_constants(pools, constants, 0)->0;
    let (all, patches) = bytecode::with_code(data, Seq::empty(), code, 0)->0;
    lemma_types_start(array, arguments + registers, 0);
    lemma_constants_start(pools, constants, 0);
    lemma_starts(data, pools, array);
    lemma_code_parts(data, Seq::empty(), code, 0);
    let whole = bytecode::code_from(code, 0);
    assert(Seq::<(usize, u16)>::empty() + bytecode::table_operands(data.len() as int, code, 0)
        =~= bytecode::table_operands(data.len() as int, code, 0));
    assert(bytes::part(e.bytes, data.len() as int, whole.len() as int) =~= whole);
}

/// The code of a container, and the positions of its table operands.
proof fn lemma_code_parts(out: Seq<u8>, patches: Seq<(usize, u16)>, code: Seq<Code>, i: int)
    requires
        0 <= i,
    ensures
        bytecode::with_code(out, patches, code, i) matches Some((all, list)) ==> all == out
            + bytecode::code_from(code, i) && list == patches + bytecode::table_operands(
            out.len() as int,
            code,
            i,
        ),
    decreases code.len() - i,
{
    broadcast use bytes::group_le;

    if i < code.len() {
        if out.len() + 4 + code[i].operands.len() <= types::VALUE_LIMIT {
            let next = out + bytecode::code_bytes(code[i]);
            let more = match code[i].table {
                Some((offset, index)) => patches.push(
                    ((out.len() + 4 + offset) as usize, index),
                ),
                None => patches,
            };
            lemma_code_parts(next, more, code, i + 1);
            assert(next.len() == out.len() + 4 + code[i].operands.len());
            if let Some((all, list)) = bytecode::with_code(next, more, code, i + 1) {
                assert(all =~= out + bytecode::code_from(code, i));
                assert(list =~= patches + bytecode::table_operands(out.len() as int, code, i));
            }
        }
    } else {
        assert(out + bytecode::code_from(code, i) =~= out);
        assert(patches + bytecode::table_operands(out.len() as int, code, i) =~= patches);
    }
}

/// Any container whose table operands refer to its declarations binds to any
/// distinct table IDs that are not reserved, one for each declaration, with
/// arguments that keep their limit.
pub proof fn encoded_programs_bind(
    result: Shape,
    arguments: Seq<Shape>,
    registers: Seq<Shape>,
    constants: Seq<(Shape, Seq<u8>)>,
    code: Seq<Code>,
    e: EncodedModel,
    ids: Seq<u64>,
    values: Seq<u8>,
    bound: Result<Transaction, BuildError>,
)
    requires
        bytecode::container(
            result,
            arguments,
            registers,
            ids.len() as int,
            constants,
            code,
        ) == Ok::<EncodedModel, Fault>(e),
        forall|k: int| 0 <= k < code.len() ==> bytecode::refers(#[trigger] code[k], ids.len()),
        bind::ids_allowed(ids),
        bind::distinct(ids),
        values.len() <= bind::MAX_ARGUMENT_BYTES,
        bind::binding(e.bytes, e.table_offset, e.patches, ids, values, bound),
    ensures
        bound matches Ok(transaction) && transaction@.program == bind::bound_program(
            e.bytes,
            e.table_offset,
            e.patches,
            ids,
        ) && transaction@.arguments == values,
{
    lemma_container(result, arguments, registers, ids.len() as int, constants, code, e);
    compiled_programs_bind(e, ids, values, bound);
}

/// The tables of a bound program are exactly the IDs that were bound, in
/// ascending order: each stands in its slot.
pub proof fn bound_programs_name_their_tables(e: EncodedModel, ids: Seq<u64>)
    requires
        headed(e, ids.len() as int),
        fits(e, ids.len() as int),
        bind::ids_allowed(ids),
        bind::distinct(ids),
    ensures
        ({
            let whole = bind::bound_program(e.bytes, e.table_offset, e.patches, ids);
            &&& program::tables_of(whole) matches Ok(tables)
            &&& tables.len() == ids.len()
            &&& program::ordered_ids(tables)
            &&& forall|d: int|
                0 <= d < ids.len() ==> tables[bind::slot(ids, d)] == #[trigger] ids[d]
        }),
{
    broadcast use bytes::group_le;

    let n = ids.len() as int;
    let whole = bind::bound_program(e.bytes, e.table_offset, e.patches, ids);
    lemma_front(e, ids);
    assert(program::table_start(whole) == e.table_offset);
    assert(program::table_count(whole) == n);
    let tables = bytes::un64s(whole, e.table_offset, n as nat);
    assert forall|d: int| 0 <= d < n implies tables[bind::slot(ids, d)] == #[trigger] ids[d] by {
        bind::binding_sorts_the_table_array(e.bytes, e.table_offset, e.patches, ids, d, d);
        bind::lemma_slot_bound(ids, d);
        let k = bind::slot(ids, d);
        assert(tables[k] == bytes::un64(bytes::part(whole, e.table_offset + 8 * k, 8)));
    }
    assert forall|i: int| 0 <= i < n implies !bind::reserved_id(#[trigger] tables[i]) by {
        let d = bind::lemma_slots_cover(ids, i);
        assert(tables[bind::slot(ids, d)] == ids[d]);
    }
    assert forall|i: int, j: int| 0 <= i < j < n implies #[trigger] tables[i]
        < #[trigger] tables[j] by {
        let a = bind::lemma_slots_cover(ids, i);
        let b = bind::lemma_slots_cover(ids, j);
        assert(tables[bind::slot(ids, a)] == ids[a]);
        assert(tables[bind::slot(ids, b)] == ids[b]);
        bind::binding_sorts_the_table_array(e.bytes, e.table_offset, e.patches, ids, a, b);
    }
}

/// Binding leaves the header as it is.
proof fn lemma_front(e: EncodedModel, ids: Seq<u64>)
    requires
        headed(e, ids.len() as int),
        fits(e, ids.len() as int),
        bind::distinct(ids),
    ensures
        ({
            let whole = bind::bound_program(e.bytes, e.table_offset, e.patches, ids);
            &&& whole.len() == e.bytes.len()
            &&& forall|at: int, n: int|
                0 <= at && 0 <= n && at + n <= 36 ==> #[trigger] bytes::part(whole, at, n)
                    == bytes::part(e.bytes, at, n)
        }),
{
    let whole = bind::bound_program(e.bytes, e.table_offset, e.patches, ids);
    assert forall|at: int| 0 <= at < 36 implies whole.len() == e.bytes.len() && #[trigger] whole[at]
        == e.bytes[at] by {
        assert forall|i: int| 0 <= i < e.patches.len() implies !((#[trigger] e.patches[i]).0 <= at
            < e.patches[i].0 + 2) by {
            let (offset, declaration) = e.patches[i];
        }
        bind::binding_keeps_other_bytes(e.bytes, e.table_offset, e.patches, ids, at);
    }
    assert(whole[0] == e.bytes[0]);
    assert forall|at: int, n: int| 0 <= at && 0 <= n && at + n <= 36 implies #[trigger] bytes::part(
        whole,
        at,
        n,
    ) == bytes::part(e.bytes, at, n) by {
        assert(bytes::part(whole, at, n) =~= bytes::part(e.bytes, at, n));
    }
}

} // verus!
