//! What a run reads of its encoded arguments.

use super::compile::program;
use super::compile::program::CaptureValue;
use super::machine::Value;
use super::types;
use super::types::Shape;
use crate::bind::{BuildError, MAX_ARGUMENT_BYTES};
use crate::bytes;
use vstd::prelude::*;
use vstd::utf8::*;

verus! {

/// The value that was captured.
pub open spec fn value_of(value: CaptureValue) -> Value
    decreases value,
{
    match value {
        CaptureValue::Unit => Value::Unit,
        CaptureValue::Bool(b) => Value::Bool(b),
        CaptureValue::I64(n) => Value::I64(n as int),
        CaptureValue::U64(n) => Value::U64(n as int),
        CaptureValue::Bytes(b) => Value::Bytes(b@),
        CaptureValue::String(s) => Value::Text(encode_utf8(s@)),
        CaptureValue::Tuple(fields) => Value::Tuple(
            Seq::new(
                fields@.len(),
                |i: int|
                    if 0 <= i < fields@.len() {
                        value_of(fields@[i])
                    } else {
                        arbitrary()
                    },
            ),
        ),
    }
}

/// The value of a type that stands in `s` at `at`, and where it ends.
pub open spec fn value_at(ty: Shape, s: Seq<u8>, at: int) -> (Value, int)
    decreases ty, 0int,
{
    match ty {
        Shape::Bool => (Value::Bool(s[at] == 1), at + 1),
        Shape::I64 => {
            let n = bytes::un64(bytes::part(s, at, 8)) as int;
            (
                Value::I64(
                    if n > i64::MAX {
                        n - 0x1_0000_0000_0000_0000
                    } else {
                        n
                    },
                ),
                at + 8,
            )
        },
        Shape::U64 => (Value::U64(bytes::un64(bytes::part(s, at, 8)) as int), at + 8),
        Shape::Bytes(_) => {
            let n = bytes::un32(bytes::part(s, at, 4)) as int;
            (Value::Bytes(bytes::part(s, at + 4, n)), at + 4 + n)
        },
        Shape::String(_) => {
            let n = bytes::un32(bytes::part(s, at, 4)) as int;
            (Value::Text(bytes::part(s, at + 4, n)), at + 4 + n)
        },
        Shape::Tuple(types) => {
            let (fields, next) = fields_at(types, s, at, 0);
            (Value::Tuple(fields), next)
        },
        _ => (Value::Unit, at),
    }
}

/// The fields from the `i`-th on that stand in `s` at `at`, and where they end.
pub open spec fn fields_at(types: Seq<Shape>, s: Seq<u8>, at: int, i: int) -> (Seq<Value>, int)
    decreases types, types.len() - i,
{
    if !(0 <= i < types.len()) {
        (Seq::empty(), at)
    } else {
        let (field, next) = value_at(types[i], s, at);
        let (rest, end) = fields_at(types, s, next, i + 1);
        (seq![field] + rest, end)
    }
}

/// The arguments from the `i`-th on, each behind its length, and where they end.
pub open spec fn arguments_at(types: Seq<Shape>, s: Seq<u8>, at: int, i: int) -> (
    Seq<Value>,
    int,
)
    decreases types.len() - i,
{
    if !(0 <= i < types.len()) {
        (Seq::empty(), at)
    } else {
        let (value, _) = value_at(types[i], s, at + 4);
        let next = at + 4 + bytes::un32(bytes::part(s, at, 4));
        let (rest, end) = arguments_at(types, s, next, i + 1);
        (seq![value] + rest, end)
    }
}

/// The two's complement of a number.
proof fn lemma_signed(n: i64)
    ensures
        (n as u64) as int == if n < 0 {
            n + 0x1_0000_0000_0000_0000
        } else {
            n as int
        },
{
    let m = n as u64;
    if n < 0 {
        assert(m as i128 == n as i128 + 0x1_0000_0000_0000_0000i128) by (bit_vector)
            requires
                m == n as u64,
                n < 0,
        ;
    } else {
        assert(m as i128 == n as i128) by (bit_vector)
            requires
                m == n as u64,
                n >= 0,
        ;
    }
}

proof fn lemma_value(
    before: Seq<u8>,
    out: Seq<u8>,
    ty: Shape,
    value: CaptureValue,
    longer: Seq<u8>,
    after: Seq<u8>,
)
    requires
        program::capturable(ty, value),
        program::with_value(out, ty, value) == Ok::<Seq<u8>, BuildError>(longer),
    ensures
        out.len() <= longer.len(),
        longer.take(out.len() as int) == out,
        value_at(ty, before + longer + after, (before.len() + out.len()) as int) == (
            value_of(value),
            (before.len() + longer.len()) as int,
        ),
    decreases value, 0nat,
{
    broadcast use bytes::group_le;

    let s = before + longer + after;
    let at = (before.len() + out.len()) as int;
    match (ty, value) {
        (Shape::Bool, CaptureValue::Bool(b)) => {
            assert(s[at] == longer[out.len() as int]);
        },
        (Shape::I64, CaptureValue::I64(n)) => {
            assert(bytes::part(s, at, 8) =~= bytes::le64(n as u64));
            lemma_signed(n);
        },
        (Shape::U64, CaptureValue::U64(n)) => {
            assert(bytes::part(s, at, 8) =~= bytes::le64(n));
        },
        (Shape::Bytes(_), CaptureValue::Bytes(b)) => {
            lemma_blob(before, out, b@, after);
        },
        (Shape::String(_), CaptureValue::String(text)) => {
            lemma_blob(before, out, encode_utf8(text@), after);
        },
        (Shape::Tuple(types), CaptureValue::Tuple(values)) => {
            assert(decreases_to!(value => value->Tuple_0));
            lemma_fields(before, out, types, values@, 0, longer, after);
            assert(value_of(value)->Tuple_0 =~= fields_at(types, s, at, 0).0);
        },
        _ => {},
    }
    assert(longer.take(out.len() as int) =~= out);
}

proof fn lemma_blob(before: Seq<u8>, out: Seq<u8>, value: Seq<u8>, after: Seq<u8>)
    requires
        value.len() <= u32::MAX,
    ensures
        ({
            let s = before + (out + bytes::blob(value)) + after;
            let at = (before.len() + out.len()) as int;
            &&& bytes::un32(bytes::part(s, at, 4)) == value.len()
            &&& bytes::part(s, at + 4, value.len() as int) == value
            &&& bytes::blob(value).len() == 4 + value.len()
        }),
{
    broadcast use bytes::group_le;

    let s = before + (out + bytes::blob(value)) + after;
    let at = (before.len() + out.len()) as int;
    assert(bytes::part(s, at, 4) =~= bytes::le32(value.len() as u32));
    assert(bytes::part(s, at + 4, value.len() as int) =~= value);
}

proof fn lemma_fields(
    before: Seq<u8>,
    out: Seq<u8>,
    types: Seq<Shape>,
    values: Seq<CaptureValue>,
    i: int,
    longer: Seq<u8>,
    after: Seq<u8>,
)
    requires
        0 <= i <= values.len(),
        types.len() == values.len(),
        forall|k: int|
            0 <= k < values.len() ==> program::capturable(types[k], #[trigger] values[k]),
        program::with_values(out, types, values, i) == Ok::<Seq<u8>, BuildError>(longer),
    ensures
        out.len() <= longer.len(),
        longer.take(out.len() as int) == out,
        ({
            let (fields, end) = fields_at(
                types,
                before + longer + after,
                (before.len() + out.len()) as int,
                i,
            );
            &&& fields.len() == values.len() - i
            &&& end == before.len() + longer.len()
            &&& forall|k: int|
                #![trigger fields[k]]
                0 <= k < fields.len() ==> fields[k] == value_of(values[i + k])
        }),
    decreases values, values.len() - i,
{
    if i < values.len() {
        assert(decreases_to!(values => values[i]));
        assert(program::capturable(types[i], values[i]));
        let next = program::with_value(out, types[i], values[i])->Ok_0;
        lemma_fields(before, next, types, values, i + 1, longer, after);
        let behind = longer.skip(next.len() as int);
        lemma_value(before, out, types[i], values[i], next, behind + after);
        assert(before + next + (behind + after) =~= before + longer + after) by {
            assert(longer =~= longer.take(next.len() as int) + behind);
        }
        assert(longer.take(out.len() as int) =~= longer.take(next.len() as int).take(
            out.len() as int,
        ));
    } else {
        assert(longer.take(out.len() as int) =~= out);
    }
}

proof fn lemma_arguments(
    out: Seq<u8>,
    types: Seq<Shape>,
    values: Seq<CaptureValue>,
    i: int,
    all: Seq<u8>,
)
    requires
        0 <= i <= values.len(),
        types.len() == values.len(),
        forall|k: int|
            0 <= k < values.len() ==> program::capturable(types[k], #[trigger] values[k]),
        program::with_arguments(out, types, values, i) == Ok::<Seq<u8>, BuildError>(all),
    ensures
        out.len() <= all.len(),
        all.take(out.len() as int) == out,
        ({
            let (list, end) = arguments_at(types, all, out.len() as int, i);
            &&& list.len() == values.len() - i
            &&& end == all.len()
            &&& forall|k: int|
                #![trigger list[k]]
                0 <= k < list.len() ==> list[k] == value_of(values[i + k])
        }),
    decreases values.len() - i,
{
    broadcast use bytes::group_le;

    if i < values.len() {
        assert(program::capturable(types[i], values[i]));
        let value = program::with_value(Seq::empty(), types[i], values[i])->Ok_0;
        let next = out + bytes::blob(value);
        lemma_arguments(next, types, values, i + 1, all);
        let behind = all.skip(next.len() as int);
        assert(all =~= next + behind) by {
            assert(all =~= all.take(next.len() as int) + behind);
        }
        lemma_blob(Seq::empty(), out, value, behind);
        assert(Seq::<u8>::empty() + next + behind =~= all);
        let head = out + bytes::le32(value.len() as u32);
        lemma_value(head, Seq::empty(), types[i], values[i], value, behind);
        assert(head + value + behind =~= all);
        assert(all.take(out.len() as int) =~= out);
    } else {
        assert(all.take(out.len() as int) =~= out);
    }
}

/// Encoded arguments are read back: their number, and behind it every captured
/// value, in order and to the end.
pub proof fn arguments_are_read_back(
    types: Seq<Shape>,
    values: Seq<CaptureValue>,
    arguments: Seq<u8>,
)
    requires
        values.len() <= 65535,
        types.len() == values.len(),
        forall|k: int|
            0 <= k < values.len() ==> program::capturable(types[k], #[trigger] values[k]),
        program::arguments_of(types, values) == Ok::<Seq<u8>, BuildError>(arguments),
    ensures
        bytes::un32(bytes::part(arguments, 0, 4)) == values.len(),
        arguments_at(types, arguments, 4, 0) == (
            values.map_values(|v: CaptureValue| value_of(v)),
            arguments.len() as int,
        ),
{
    broadcast use bytes::group_le;

    let count = bytes::le32(values.len() as u32);
    lemma_arguments(count, types, values, 0, arguments);
    assert(bytes::part(arguments, 0, 4) =~= count) by {
        assert(arguments.take(4)[0] == count[0]);
        assert(arguments.take(4) =~= count);
    }
    assert(arguments_at(types, arguments, 4, 0).0 =~= values.map_values(
        |v: CaptureValue| value_of(v),
    ));
}

// ---- When arguments can be encoded ---------------------------------------

/// How many bytes a captured value takes.
pub open spec fn extent(value: CaptureValue) -> nat
    decreases value, 0nat,
{
    match value {
        CaptureValue::Unit => 0,
        CaptureValue::Bool(_) => 1,
        CaptureValue::I64(_) | CaptureValue::U64(_) => 8,
        CaptureValue::Bytes(b) => 4 + b@.len(),
        CaptureValue::String(s) => 4 + encode_utf8(s@).len(),
        CaptureValue::Tuple(fields) => extents(fields@, 0),
    }
}

/// How many bytes the captured values from the `i`-th on take.
pub open spec fn extents(values: Seq<CaptureValue>, i: int) -> nat
    decreases values, values.len() - i,
{
    if !(0 <= i < values.len()) {
        0
    } else {
        extent(values[i]) + extents(values, i + 1)
    }
}

/// Whether a value can be captured and keeps the bounds of its type.
pub open spec fn bounded(ty: Shape, value: CaptureValue) -> bool
    decreases value,
{
    match (ty, value) {
        (Shape::Unit, CaptureValue::Unit) => true,
        (Shape::Bool, CaptureValue::Bool(_)) => true,
        (Shape::I64, CaptureValue::I64(_)) => true,
        (Shape::U64, CaptureValue::U64(_)) => true,
        (Shape::Bytes(bound), CaptureValue::Bytes(b)) => b@.len() <= bound,
        (Shape::String(bound), CaptureValue::String(s)) => encode_utf8(s@).len() <= bound,
        (Shape::Tuple(types), CaptureValue::Tuple(fields)) => types.len() == fields@.len()
            && forall|i: int|
            0 <= i < fields@.len() ==> bounded(types[i], #[trigger] fields@[i]),
        _ => false,
    }
}

proof fn lemma_bounded(out: Seq<u8>, ty: Shape, value: CaptureValue)
    requires
        bounded(ty, value),
        out.len() + extent(value) <= MAX_ARGUMENT_BYTES,
    ensures
        program::with_value(out, ty, value) matches Ok(longer) && longer.len() == out.len()
            + extent(value),
    decreases value, 0nat,
{
    broadcast use bytes::group_le;

    if let (Shape::Tuple(types), CaptureValue::Tuple(fields)) = (ty, value) {
        assert(decreases_to!(value => value->Tuple_0));
        lemma_bounded_fields(out, types, fields@, 0);
    }
}

proof fn lemma_bounded_fields(
    out: Seq<u8>,
    types: Seq<Shape>,
    values: Seq<CaptureValue>,
    i: int,
)
    requires
        0 <= i <= values.len(),
        types.len() == values.len(),
        forall|k: int| 0 <= k < values.len() ==> bounded(types[k], #[trigger] values[k]),
        out.len() + extents(values, i) <= MAX_ARGUMENT_BYTES,
    ensures
        program::with_values(out, types, values, i) matches Ok(longer) && longer.len() == out.len()
            + extents(values, i),
    decreases values, values.len() - i,
{
    if i < values.len() {
        assert(decreases_to!(values => values[i]));
        lemma_bounded(out, types[i], values[i]);
        let next = program::with_value(out, types[i], values[i])->Ok_0;
        lemma_bounded_fields(next, types, values, i + 1);
    }
}

proof fn lemma_encodes(out: Seq<u8>, types: Seq<Shape>, values: Seq<CaptureValue>, i: int)
    requires
        0 <= i <= values.len(),
        types.len() == values.len(),
        forall|k: int| 0 <= k < values.len() ==> bounded(types[k], #[trigger] values[k]),
        out.len() + extents(values, i) + 4 * (values.len() - i) <= MAX_ARGUMENT_BYTES,
    ensures
        program::with_arguments(out, types, values, i) is Ok,
    decreases values.len() - i,
{
    broadcast use bytes::group_le;

    if i < values.len() {
        assert(bounded(types[i], values[i]));
        lemma_bounded(Seq::empty(), types[i], values[i]);
        let value = program::with_value(Seq::empty(), types[i], values[i])->Ok_0;
        lemma_encodes(out + bytes::blob(value), types, values, i + 1);
    }
}

/// Values that keep the bounds of their types can be passed, as long as all of
/// them together fit.
pub proof fn bounded_arguments_are_encoded(types: Seq<Shape>, values: Seq<CaptureValue>)
    requires
        values.len() <= 65535,
        types.len() == values.len(),
        forall|k: int| 0 <= k < values.len() ==> bounded(types[k], #[trigger] values[k]),
        4 + extents(values, 0) + 4 * values.len() <= MAX_ARGUMENT_BYTES,
    ensures
        program::arguments_of(types, values) is Ok,
{
    broadcast use bytes::group_le;

    lemma_encodes(bytes::le32(values.len() as u32), types, values, 0);
}

/// A value that keeps the bounds of its type takes no more bytes than the type
/// allows for.
pub proof fn values_keep_the_size_of_their_types(ty: Shape, value: CaptureValue)
    requires
        bounded(ty, value),
    ensures
        extent(value) <= types::max_size(ty),
    decreases value,
{
    if let (Shape::Tuple(shapes), CaptureValue::Tuple(fields)) = (ty, value) {
        assert(decreases_to!(value => value->Tuple_0));
        assert forall|k: int| 0 <= k < shapes.len() implies extent(fields@[k]) <= types::max_size(
            #[trigger] shapes[k],
        ) by {
            assert(decreases_to!(fields@ => fields@[k]));
            assert(bounded(shapes[k], fields@[k]));
            values_keep_the_size_of_their_types(shapes[k], fields@[k]);
        }
        lemma_sizes(shapes, fields@, 0);
    }
}

proof fn lemma_sizes(shapes: Seq<Shape>, values: Seq<CaptureValue>, i: int)
    requires
        0 <= i <= values.len(),
        shapes.len() == values.len(),
        forall|k: int|
            0 <= k < shapes.len() ==> extent(values[k]) <= types::max_size(#[trigger] shapes[k]),
    ensures
        types::max_sizes(shapes, i as nat) + extents(values, i) <= types::max_sizes(
            shapes,
            shapes.len(),
        ),
    decreases values.len() - i,
{
    if i < values.len() {
        lemma_sizes(shapes, values, i + 1);
        assert(extent(values[i]) <= types::max_size(shapes[i]));
    }
}

} // verus!
