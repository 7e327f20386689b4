//! What a reader finds in an encoded program.

use super::bytecode;
use super::bytecode::{Code, EncodedModel};
use super::error::Fault;
use super::types;
use super::types::Shape;
use crate::bytes;
use vstd::prelude::*;

verus! {

/// The first `n` blobs of `s`, and what follows them.
pub open spec fn blobs(s: Seq<u8>, n: nat) -> (Seq<Seq<u8>>, Seq<u8>)
    decreases n,
{
    if n == 0 {
        (Seq::empty(), s)
    } else {
        let length = bytes::un32(bytes::part(s, 0, 4)) as int;
        let (list, rest) = blobs(s.skip(4 + length), (n - 1) as nat);
        (seq![bytes::part(s, 4, length)] + list, rest)
    }
}

/// The opcodes and the operands of the first `n` instructions of `s`, and what
/// follows them.
pub open spec fn instructions(s: Seq<u8>, n: nat) -> (Seq<(u8, Seq<u8>)>, Seq<u8>)
    decreases n,
{
    if n == 0 {
        (Seq::empty(), s)
    } else {
        let length = bytes::un16(bytes::part(s, 2, 2)) as int;
        let (list, rest) = instructions(s.skip(4 + length), (n - 1) as nat);
        (seq![(s[0], bytes::part(s, 4, length))] + list, rest)
    }
}

/// The descriptors of some types.
pub open spec fn descriptors(shapes: Seq<Shape>) -> Seq<Seq<u8>> {
    Seq::new(shapes.len(), |i: int| types::descriptor(shapes[i]))
}

/// The descriptor and the value of each constant, in turn.
pub open spec fn flattened(constants: Seq<(Shape, Seq<u8>)>) -> Seq<Seq<u8>> {
    Seq::new(
        2 * constants.len(),
        |i: int|
            if i % 2 == 0 {
                types::descriptor(constants[i / 2].0)
            } else {
                constants[i / 2].1
            },
    )
}

/// The opcode and the operands of each instruction.
pub open spec fn plain(code: Seq<Code>) -> Seq<(u8, Seq<u8>)> {
    Seq::new(code.len(), |i: int| (code[i].opcode, code[i].operands))
}

/// A blob is read first.
proof fn lemma_blob(value: Seq<u8>, after: Seq<u8>, n: nat)
    requires
        value.len() <= u32::MAX,
        n > 0,
    ensures
        blobs(bytes::blob(value) + after, n) == (
            seq![value] + blobs(after, (n - 1) as nat).0,
            blobs(after, (n - 1) as nat).1,
        ),
        bytes::blob(value).len() == 4 + value.len(),
{
    broadcast use bytes::group_le;

    let s = bytes::blob(value) + after;
    assert(bytes::part(s, 0, 4) =~= bytes::le32(value.len() as u32));
    assert(bytes::part(s, 4, value.len() as int) =~= value);
    assert(s.skip((4 + value.len()) as int) =~= after);
}

proof fn lemma_types(out: Seq<u8>, shapes: Seq<Shape>, i: int, longer: Seq<u8>, after: Seq<u8>)
    requires
        0 <= i <= shapes.len(),
        bytecode::with_types(out, shapes, i) == Some(longer),
    ensures
        out.len() <= longer.len(),
        longer.take(out.len() as int) == out,
        blobs(longer.skip(out.len() as int) + after, (shapes.len() - i) as nat) == (
            descriptors(shapes.skip(i)),
            after,
        ),
    decreases shapes.len() - i,
{
    if i < shapes.len() {
        let value = types::descriptor(shapes[i]);
        let next = out + bytes::blob(value);
        lemma_types(next, shapes, i + 1, longer, after);
        let rest = longer.skip(next.len() as int) + after;
        lemma_blob(value, rest, (shapes.len() - i) as nat);
        assert(longer =~= next + longer.skip(next.len() as int)) by {
            assert(longer =~= longer.take(next.len() as int) + longer.skip(next.len() as int));
        }
        assert(longer.skip(out.len() as int) + after =~= bytes::blob(value) + rest);
        assert(descriptors(shapes.skip(i)) =~= seq![value] + descriptors(shapes.skip(i + 1)));
        assert(longer.take(out.len() as int) =~= out);
    } else {
        assert(longer.take(out.len() as int) =~= out);
        assert(longer.skip(out.len() as int) + after =~= after);
        assert(descriptors(shapes.skip(i)) =~= Seq::empty());
    }
}

proof fn lemma_constants(
    out: Seq<u8>,
    constants: Seq<(Shape, Seq<u8>)>,
    i: int,
    longer: Seq<u8>,
    after: Seq<u8>,
)
    requires
        0 <= i <= constants.len(),
        bytecode::with_constants(out, constants, i) == Some(longer),
    ensures
        out.len() <= longer.len(),
        longer.take(out.len() as int) == out,
        blobs(longer.skip(out.len() as int) + after, (2 * (constants.len() - i)) as nat) == (
            flattened(constants.skip(i)),
            after,
        ),
    decreases constants.len() - i,
{
    if i < constants.len() {
        let ty = types::descriptor(constants[i].0);
        let value = constants[i].1;
        let typed = out + bytes::blob(ty);
        let next = typed + bytes::blob(value);
        lemma_constants(next, constants, i + 1, longer, after);
        let rest = longer.skip(next.len() as int) + after;
        let n = (2 * (constants.len() - i)) as nat;
        lemma_blob(ty, bytes::blob(value) + rest, n);
        lemma_blob(value, rest, (n - 1) as nat);
        assert(longer =~= next + longer.skip(next.len() as int)) by {
            assert(longer =~= longer.take(next.len() as int) + longer.skip(next.len() as int));
        }
        assert(longer.skip(out.len() as int) + after =~= bytes::blob(ty) + (bytes::blob(value)
            + rest));
        let later = flattened(constants.skip(i + 1));
        let all = flattened(constants.skip(i));
        let both = seq![ty] + (seq![value] + later);
        assert forall|k: int| 0 <= k < all.len() implies all[k] == both[k] by {
            if k >= 2 {
                assert(constants.skip(i)[k / 2] == constants.skip(i + 1)[(k - 2) / 2]);
                assert(both[k] == later[k - 2]);
            }
        }
        assert(all =~= both);
        assert(longer.take(out.len() as int) =~= out);
    } else {
        assert(longer.take(out.len() as int) =~= out);
        assert(longer.skip(out.len() as int) + after =~= after);
        assert(flattened(constants.skip(i)) =~= Seq::empty());
    }
}

proof fn lemma_code(
    out: Seq<u8>,
    patches: Seq<(usize, u16)>,
    code: Seq<Code>,
    i: int,
    longer: Seq<u8>,
    listed: Seq<(usize, u16)>,
)
    requires
        0 <= i <= code.len(),
        bytecode::with_code(out, patches, code, i) == Some((longer, listed)),
        forall|k: int| 0 <= k < code.len() ==> (#[trigger] code[k]).operands.len() <= 65535,
    ensures
        out.len() <= longer.len(),
        longer.take(out.len() as int) == out,
        instructions(longer.skip(out.len() as int), (code.len() - i) as nat) == (
            plain(code.skip(i)),
            Seq::<u8>::empty(),
        ),
    decreases code.len() - i,
{
    broadcast use bytes::group_le;

    if i < code.len() {
        let one = code[i];
        let next = out + bytecode::code_bytes(one);
        let longer_patches = match one.table {
            Some((offset, index)) => patches.push(((out.len() + 4 + offset) as usize, index)),
            None => patches,
        };
        lemma_code(next, longer_patches, code, i + 1, longer, listed);
        let rest = longer.skip(next.len() as int);
        assert(longer =~= next + rest) by {
            assert(longer =~= longer.take(next.len() as int) + rest);
        }
        let s = longer.skip(out.len() as int);
        assert(s =~= bytecode::code_bytes(one) + rest);
        assert(bytes::part(s, 2, 2) =~= bytes::le16(one.operands.len() as u16));
        assert(bytes::part(s, 4, one.operands.len() as int) =~= one.operands);
        assert(s.skip((4 + one.operands.len()) as int) =~= rest);
        assert(plain(code.skip(i)) =~= seq![(one.opcode, one.operands)] + plain(code.skip(i + 1)));
        assert(longer.take(out.len() as int) =~= out);
    } else {
        assert(longer.take(out.len() as int) =~= out);
        assert(longer.skip(out.len() as int) =~= Seq::empty());
        assert(plain(code.skip(i)) =~= Seq::empty());
    }
}

/// An encoded program is read back: its header says how long it is and how much
/// of everything it holds; behind it stand the type of the result, room for the
/// tables, the types of the arguments and of the registers, the constants and
/// the instructions, and nothing more.
pub proof fn programs_are_read_back(
    result: Shape,
    arguments: Seq<Shape>,
    registers: Seq<Shape>,
    tables: int,
    constants: Seq<(Shape, Seq<u8>)>,
    code: Seq<Code>,
    encoded: EncodedModel,
)
    requires
        0 <= tables,
        forall|k: int| 0 <= k < code.len() ==> (#[trigger] code[k]).operands.len() <= 65535,
        bytecode::container(result, arguments, registers, tables, constants, code) == Ok::<
            EncodedModel,
            Fault,
        >(encoded),
    ensures
        ({
            let b = encoded.bytes;
            let (first, s1) = blobs(b.skip(32), 1);
            let (shapes, s2) = blobs(s1.skip(8 * tables), arguments.len() + registers.len());
            let (values, s3) = blobs(s2, 2 * constants.len());
            let (list, s4) = instructions(s3, code.len());
            &&& bytes::part(b, 0, 8) == seq![0x42u8, 0x4c, 0x4f, 0x50, 0x56, 0x4d, 0x30, 0x31]
            &&& bytes::un32(bytes::part(b, 12, 4)) == b.len()
            &&& bytes::un16(bytes::part(b, 16, 2)) == registers.len()
            &&& bytes::un16(bytes::part(b, 18, 2)) == arguments.len()
            &&& bytes::un16(bytes::part(b, 20, 2)) == tables
            &&& bytes::un16(bytes::part(b, 22, 2)) == constants.len()
            &&& bytes::un32(bytes::part(b, 24, 4)) == code.len()
            &&& first == seq![types::descriptor(result)]
            &&& s1.take(8 * tables) == bytes::zeros((8 * tables) as nat)
            &&& encoded.table_offset == b.len() - s1.len()
            &&& shapes == descriptors(arguments + registers)
            &&& values == flattened(constants)
            &&& list == plain(code)
            &&& s4.len() == 0
        }),
{
    broadcast use bytes::group_le;

    let start = bytecode::header(
        0,
        registers.len() as int,
        arguments.len() as int,
        tables,
        constants.len() as int,
        code.len() as int,
    );
    let ty = types::descriptor(result);
    let typed = start + bytes::blob(ty);
    let room = typed + bytes::zeros((8 * tables) as nat);
    let all_types = arguments + registers;
    let pools = bytecode::with_types(room, all_types, 0)->0;
    let data = bytecode::with_constants(pools, constants, 0)->0;
    let (all, patches) = bytecode::with_code(data, Seq::empty(), code, 0)->0;
    let b = encoded.bytes;
    assert(b == bytes::overwritten(all, 12, bytes::le32(all.len() as u32)));
    assert(start.len() == 32);
    lemma_code(data, Seq::empty(), code, 0, all, patches);
    let k = all.skip(data.len() as int);
    lemma_constants(pools, constants, 0, data, k);
    let c = data.skip(pools.len() as int) + k;
    lemma_types(room, all_types, 0, pools, c);
    let t = pools.skip(room.len() as int) + c;
    lemma_blob(ty, bytes::zeros((8 * tables) as nat) + t, 1);
    assert(all =~= start + (bytes::blob(ty) + (bytes::zeros((8 * tables) as nat) + t))) by {
        assert(all =~= all.take(data.len() as int) + k);
        assert(data =~= data.take(pools.len() as int) + data.skip(pools.len() as int));
        assert(pools =~= pools.take(room.len() as int) + pools.skip(room.len() as int));
    }
    assert(b.skip(32) =~= bytes::blob(ty) + (bytes::zeros((8 * tables) as nat) + t));
    let s1 = bytes::zeros((8 * tables) as nat) + t;
    assert(blobs(s1, 0) == (Seq::<Seq<u8>>::empty(), s1));
    assert(seq![ty] + Seq::<Seq<u8>>::empty() =~= seq![ty]);
    assert(s1.take(8 * tables) =~= bytes::zeros((8 * tables) as nat));
    assert(s1.skip(8 * tables) =~= t);
    assert(all_types.skip(0) =~= all_types);
    assert(constants.skip(0) =~= constants);
    assert(code.skip(0) =~= code);
    assert(all.take(32) =~= start);
    lemma_header(b, start, all);
    assert(bytes::part(b, 16, 2) =~= bytes::le16(registers.len() as u16));
    assert(bytes::part(b, 18, 2) =~= bytes::le16(arguments.len() as u16));
    assert(bytes::part(b, 20, 2) =~= bytes::le16(tables as u16));
    assert(bytes::part(b, 22, 2) =~= bytes::le16(constants.len() as u16));
    assert(bytes::part(b, 24, 4) =~= bytes::le32(code.len() as u32));
    assert(bytes::part(b, 0, 8) =~= bytecode::magic());
}

/// The header of an encoded program, but for its length, is as it was begun.
proof fn lemma_header(b: Seq<u8>, start: Seq<u8>, all: Seq<u8>)
    requires
        start.len() == 32,
        all.len() >= 32,
        all.len() <= u32::MAX,
        all.take(32) == start,
        b == bytes::overwritten(all, 12, bytes::le32(all.len() as u32)),
    ensures
        b.len() == all.len(),
        forall|i: int| #![trigger b[i]] 0 <= i < 12 || 16 <= i < 32 ==> b[i] == start[i],
        bytes::un32(bytes::part(b, 12, 4)) == b.len(),
{
    broadcast use bytes::group_le;

    assert(bytes::part(b, 12, 4) =~= bytes::le32(all.len() as u32));
    assert forall|i: int| #![trigger b[i]] 0 <= i < 12 || 16 <= i < 32 implies b[i]
        == start[i] by {
        assert(all.take(32)[i] == all[i]);
    }
}

} // verus!
