//! The types of the transaction language and their descriptors.

use super::error;
use super::error::{CompileError, Span};
use crate::bytes;
use crate::bytes::{push_u16, push_u32};
use vstd::prelude::*;

verus! {

/// The largest encoding of a value, a program or its arguments.
pub const VALUE_LIMIT: u64 = 16777216;

/// The largest type descriptor.
pub const DESCRIPTOR_LIMIT: usize = 65536;

/// How deep types may nest.
pub const DEPTH_LIMIT: u8 = 16;

/// Why a type may not be used.
pub const INVALID_TYPE: &'static str =
    "type exceeds ISA 1 bounds, nesting, or tuple limits, or uses Rows in a schema/capture";

/// A type of the transaction language.
#[derive(Debug, PartialEq, Eq)]
pub enum Type {
    Unit,
    Bool,
    I64,
    U64,
    /// At most this many bytes.
    Bytes(u32),
    /// Text of at most this many bytes.
    String(u32),
    Tuple(Vec<Type>),
    /// Keys, values and the largest number of rows.
    Rows(Box<Type>, Box<Type>, u32),
}

/// The mathematical model of a type: a tree.
pub enum Shape {
    Unit,
    Bool,
    I64,
    U64,
    Bytes(u32),
    String(u32),
    Tuple(Seq<Shape>),
    Rows(Box<Shape>, Box<Shape>, u32),
}

/// The models of the types in `types`.
pub open spec fn shapes(types: Seq<Type>) -> Seq<Shape> {
    types.map_values(|t: Type| t@)
}

impl Type {
    pub open spec fn view(self) -> Shape
        decreases self,
    {
        match self {
            Type::Unit => Shape::Unit,
            Type::Bool => Shape::Bool,
            Type::I64 => Shape::I64,
            Type::U64 => Shape::U64,
            Type::Bytes(n) => Shape::Bytes(n),
            Type::String(n) => Shape::String(n),
            Type::Tuple(fields) => Shape::Tuple(
                Seq::new(
                    fields@.len(),
                    |i: int|
                        if 0 <= i < fields@.len() {
                            fields@[i].view()
                        } else {
                            Shape::Unit
                        },
                ),
            ),
            Type::Rows(key, value, n) => Shape::Rows(
                Box::new(key.view()),
                Box::new(value.view()),
                n,
            ),
        }
    }
}

/// The model of a tuple holds the models of its fields.
pub proof fn lemma_tuple_view(fields: Vec<Type>)
    ensures
        Type::Tuple(fields)@ == Shape::Tuple(shapes(fields@)),
{
    assert(Type::Tuple(fields)@->Tuple_0 =~= shapes(fields@));
}

/// Whether two types differ only in their bounds.
pub open spec fn same_shape(a: Shape, b: Shape) -> bool
    decreases a,
{
    match (a, b) {
        (Shape::Bytes(_), Shape::Bytes(_)) => true,
        (Shape::String(_), Shape::String(_)) => true,
        (Shape::Tuple(x), Shape::Tuple(y)) => x.len() == y.len() && forall|i: int|
            0 <= i < x.len() ==> same_shape(x[i], #[trigger] y[i]),
        (Shape::Rows(ak, av, _), Shape::Rows(bk, bv, _)) => same_shape(*ak, *bk) && same_shape(
            *av,
            *bv,
        ),
        _ => a == b,
    }
}

pub open spec fn larger(a: u32, b: u32) -> u32 {
    if a >= b {
        a
    } else {
        b
    }
}

/// The type that has the larger of the bounds wherever `a` and `b` have the
/// same shape, and is `a` elsewhere.
pub open spec fn union(a: Shape, b: Shape) -> Shape
    decreases a,
{
    match (a, b) {
        (Shape::Bytes(x), Shape::Bytes(y)) => Shape::Bytes(larger(x, y)),
        (Shape::String(x), Shape::String(y)) => Shape::String(larger(x, y)),
        (Shape::Tuple(x), Shape::Tuple(y)) => Shape::Tuple(
            Seq::new(
                if x.len() <= y.len() {
                    x.len()
                } else {
                    y.len()
                },
                |i: int|
                    if 0 <= i < x.len() {
                        union(x[i], y[i])
                    } else {
                        Shape::Unit
                    },
            ),
        ),
        (Shape::Rows(ak, av, x), Shape::Rows(bk, bv, y)) => Shape::Rows(
            Box::new(union(*ak, *bk)),
            Box::new(union(*av, *bv)),
            larger(x, y),
        ),
        _ => a,
    }
}

/// The node bytes of a type, without the descriptor version.
pub open spec fn node(shape: Shape) -> Seq<u8>
    decreases shape, 0nat,
{
    match shape {
        Shape::Unit => seq![0u8],
        Shape::Bool => seq![1u8],
        Shape::I64 => seq![2u8],
        Shape::U64 => seq![3u8],
        Shape::Bytes(n) => seq![4u8] + bytes::le32(n),
        Shape::String(n) => seq![5u8] + bytes::le32(n),
        Shape::Tuple(fields) => seq![6u8] + bytes::le16((fields.len() % 65536) as u16) + nodes(
            fields,
            fields.len(),
        ),
        Shape::Rows(key, value, n) => seq![0x20u8] + bytes::le32(n) + node(*key) + node(*value),
    }
}

/// The node bytes of the first `n` types of `fields`, one after the other.
pub open spec fn nodes(fields: Seq<Shape>, n: nat) -> Seq<u8>
    decreases fields, n,
{
    if n == 0 || n > fields.len() {
        Seq::empty()
    } else {
        nodes(fields, (n - 1) as nat) + node(fields[n - 1])
    }
}

/// The descriptor of a type: version 1, then its node bytes.
pub open spec fn descriptor(shape: Shape) -> Seq<u8> {
    seq![1u8, 0u8] + node(shape)
}

/// The length of the longest encoding of a value of this type.
pub open spec fn max_size(shape: Shape) -> nat
    decreases shape, 0nat,
{
    match shape {
        Shape::Unit => 0,
        Shape::Bool => 1,
        Shape::I64 | Shape::U64 => 8,
        Shape::Bytes(n) | Shape::String(n) => 4 + n as nat,
        Shape::Tuple(fields) => max_sizes(fields, fields.len()),
        Shape::Rows(key, value, n) => (max_size(*key) + max_size(*value)) * n as nat + 4,
    }
}

/// The sum of `max_size` over the first `n` types of `fields`.
pub open spec fn max_sizes(fields: Seq<Shape>, n: nat) -> nat
    decreases fields, n,
{
    if n == 0 || n > fields.len() {
        0
    } else {
        max_sizes(fields, (n - 1) as nat) + max_size(fields[n - 1])
    }
}

/// Whether the type keeps the limits on nesting, tuple arity, rows and encoded
/// size, where it stands `depth` levels deep and may hold rows if `rows`.
pub open spec fn within(shape: Shape, depth: int, rows: bool) -> bool
    decreases shape,
{
    &&& depth <= DEPTH_LIMIT
    &&& max_size(shape) <= VALUE_LIMIT
    &&& match shape {
        Shape::Tuple(fields) => fields.len() <= 256 && forall|i: int|
            0 <= i < fields.len() ==> within(#[trigger] fields[i], depth + 1, false),
        Shape::Rows(key, value, n) => rows && n <= 65535 && within(*key, depth + 1, false)
            && within(*value, depth + 1, false),
        _ => true,
    }
}

/// Whether a type may be used: within its limits, and with a descriptor of at
/// most 65,536 bytes. Rows are allowed only at the top, and only if `rows`.
pub open spec fn valid_type(shape: Shape, rows: bool) -> bool {
    within(shape, 1, rows) && descriptor(shape).len() <= DESCRIPTOR_LIMIT
}

/// The length of the longest canonical key of this type; rows have no keys.
pub open spec fn key_extent(shape: Shape) -> nat
    decreases shape, 0nat,
{
    match shape {
        Shape::Unit => 0,
        Shape::Bool => 1,
        Shape::I64 | Shape::U64 => 8,
        Shape::Bytes(n) | Shape::String(n) => 2 * n as nat + 2,
        Shape::Tuple(fields) => key_extents(fields, fields.len()),
        Shape::Rows(..) => u64::MAX as nat,
    }
}

/// The sum of `key_extent` over the first `n` types of `fields`.
pub open spec fn key_extents(fields: Seq<Shape>, n: nat) -> nat
    decreases fields, n,
{
    if n == 0 || n > fields.len() {
        0
    } else {
        key_extents(fields, (n - 1) as nat) + key_extent(fields[n - 1])
    }
}

impl Type {
    /// A copy of this type.
    pub fn duplicate(&self) -> (copy: Type)
        ensures
            copy@ == self@,
        decreases self,
    {
        match self {
            Type::Unit => Type::Unit,
            Type::Bool => Type::Bool,
            Type::I64 => Type::I64,
            Type::U64 => Type::U64,
            Type::Bytes(n) => Type::Bytes(*n),
            Type::String(n) => Type::String(*n),
            Type::Tuple(fields) => {
                let mut copies: Vec<Type> = Vec::new();
                let mut i: usize = 0;
                while i < fields.len()
                    invariant
                        *self == Type::Tuple(*fields),
                        i <= fields@.len(),
                        copies@.len() == i,
                        forall|k: int| 0 <= k < i ==> copies@[k]@ == fields@[k]@,
                    decreases fields@.len() - i,
                {
                    assert(decreases_to!(self => self->Tuple_0));
                    copies.push(fields[i].duplicate());
                    i += 1;
                }
                let copy = Type::Tuple(copies);
                assert(copy@->Tuple_0 =~= self@->Tuple_0);
                copy
            },
            Type::Rows(key, value, n) => Type::Rows(
                Box::new(key.duplicate()),
                Box::new(value.duplicate()),
                *n,
            ),
        }
    }

    /// Whether this is `i64` or `u64`.
    pub fn is_integer(&self) -> (integer: bool)
        ensures
            integer == (self@ is I64 || self@ is U64),
    {
        match self {
            Type::I64 => true,
            Type::U64 => true,
            _ => false,
        }
    }

    /// Whether this is rows.
    pub fn is_rows(&self) -> (rows: bool)
        ensures
            rows == (self@ is Rows),
    {
        match self {
            Type::Rows(..) => true,
            _ => false,
        }
    }

    /// Whether two types are equal, bounds included.
    pub fn same(&self, other: &Type) -> (same: bool)
        ensures
            same == (self@ == other@),
        decreases self,
    {
        match (self, other) {
            (Type::Unit, Type::Unit) => true,
            (Type::Bool, Type::Bool) => true,
            (Type::I64, Type::I64) => true,
            (Type::U64, Type::U64) => true,
            (Type::Bytes(a), Type::Bytes(b)) => *a == *b,
            (Type::String(a), Type::String(b)) => *a == *b,
            (Type::Tuple(a), Type::Tuple(b)) => {
                proof {
                    lemma_tuple_view(*a);
                    lemma_tuple_view(*b);
                }
                if a.len() != b.len() {
                    assert(shapes(a@).len() != shapes(b@).len());
                    return false;
                }
                let mut i: usize = 0;
                while i < a.len()
                    invariant
                        *self == Type::Tuple(*a),
                        self@ == Shape::Tuple(shapes(a@)),
                        other@ == Shape::Tuple(shapes(b@)),
                        a@.len() == b@.len(),
                        i <= a@.len(),
                        forall|k: int| 0 <= k < i ==> a@[k]@ == b@[k]@,
                    decreases a@.len() - i,
                {
                    assert(decreases_to!(self => self->Tuple_0));
                    if !a[i].same(&b[i]) {
                        assert(shapes(a@)[i as int] != shapes(b@)[i as int]);
                        return false;
                    }
                    i += 1;
                }
                assert(shapes(a@) =~= shapes(b@));
                true
            },
            (Type::Rows(ak, av, a), Type::Rows(bk, bv, b)) => {
                *a == *b && ak.same(bk) && av.same(bv)
            },
            _ => false,
        }
    }

    /// Whether two types differ only in their bounds.
    pub fn same_shape(&self, other: &Type) -> (same: bool)
        ensures
            same == same_shape(self@, other@),
        decreases self,
    {
        match (self, other) {
            (Type::Unit, Type::Unit) => true,
            (Type::Bool, Type::Bool) => true,
            (Type::I64, Type::I64) => true,
            (Type::U64, Type::U64) => true,
            (Type::Bytes(_), Type::Bytes(_)) => true,
            (Type::String(_), Type::String(_)) => true,
            (Type::Tuple(a), Type::Tuple(b)) => {
                proof {
                    lemma_tuple_view(*a);
                    lemma_tuple_view(*b);
                }
                if a.len() != b.len() {
                    return false;
                }
                let mut i: usize = 0;
                while i < a.len()
                    invariant
                        *self == Type::Tuple(*a),
                        self@ == Shape::Tuple(shapes(a@)),
                        other@ == Shape::Tuple(shapes(b@)),
                        a@.len() == b@.len(),
                        i <= a@.len(),
                        forall|k: int|
                            0 <= k < i ==> same_shape(shapes(a@)[k], #[trigger] shapes(b@)[k]),
                    decreases a@.len() - i,
                {
                    assert(decreases_to!(self => self->Tuple_0));
                    if !a[i].same_shape(&b[i]) {
                        assert(!same_shape(shapes(a@)[i as int], shapes(b@)[i as int]));
                        return false;
                    }
                    i += 1;
                }
                true
            },
            (Type::Rows(ak, av, _), Type::Rows(bk, bv, _)) => {
                ak.same_shape(bk) && av.same_shape(bv)
            },
            _ => false,
        }
    }

    /// The type with the larger of the two bounds wherever both have the same
    /// shape.
    pub fn union(&self, other: &Type) -> (both: Type)
        ensures
            both@ == union(self@, other@),
        decreases self,
    {
        match (self, other) {
            (Type::Bytes(a), Type::Bytes(b)) => Type::Bytes(
                if *a >= *b {
                    *a
                } else {
                    *b
                },
            ),
            (Type::String(a), Type::String(b)) => Type::String(
                if *a >= *b {
                    *a
                } else {
                    *b
                },
            ),
            (Type::Tuple(a), Type::Tuple(b)) => {
                let mut fields: Vec<Type> = Vec::new();
                let mut i: usize = 0;
                while i < a.len() && i < b.len()
                    invariant
                        *self == Type::Tuple(*a),
                        i <= a@.len(),
                        i <= b@.len(),
                        fields@.len() == i,
                        forall|k: int| 0 <= k < i ==> fields@[k]@ == union(a@[k]@, b@[k]@),
                    decreases a@.len() - i,
                {
                    assert(decreases_to!(self => self->Tuple_0));
                    fields.push(a[i].union(&b[i]));
                    i += 1;
                }
                proof {
                    lemma_tuple_view(*a);
                    lemma_tuple_view(*b);
                    lemma_tuple_view(fields);
                    assert(shapes(fields@) =~= union(self@, other@)->Tuple_0);
                }
                Type::Tuple(fields)
            },
            (Type::Rows(ak, av, a), Type::Rows(bk, bv, b)) => Type::Rows(
                Box::new(ak.union(bk)),
                Box::new(av.union(bv)),
                if *a >= *b {
                    *a
                } else {
                    *b
                },
            ),
            _ => self.duplicate(),
        }
    }

    /// The canonical descriptor of this type.
    pub fn descriptor(&self) -> (bytes: Vec<u8>)
        ensures
            bytes@ == descriptor(self@),
    {
        let mut bytes: Vec<u8> = Vec::new();
        bytes.push(1);
        bytes.push(0);
        encode_node(self, &mut bytes);
        assert(bytes@ =~= descriptor(self@));
        bytes
    }
}

impl Clone for Type {
    fn clone(&self) -> (copy: Type)
        ensures
            copy@ == self@,
    {
        self.duplicate()
    }
}

/// Append the node bytes of `ty`.
pub fn encode_node(ty: &Type, out: &mut Vec<u8>)
    ensures
        final(out)@ == old(out)@ + node(ty@),
    decreases ty,
{
    let ghost before = out@;
    match ty {
        Type::Unit => out.push(0),
        Type::Bool => out.push(1),
        Type::I64 => out.push(2),
        Type::U64 => out.push(3),
        Type::Bytes(n) => {
            out.push(4);
            push_u32(out, *n);
        },
        Type::String(n) => {
            out.push(5);
            push_u32(out, *n);
        },
        Type::Tuple(fields) => {
            out.push(6);
            push_u16(out, (fields.len() % 65536) as u16);
            let ghost start = out@;
            proof {
                lemma_tuple_view(*fields);
            }
            let ghost all = shapes(fields@);
            let mut i: usize = 0;
            assert(out@ =~= start + nodes(all, 0));
            while i < fields.len()
                invariant
                    *ty == Type::Tuple(*fields),
                    all == shapes(fields@),
                    i <= fields@.len(),
                    out@ == start + nodes(all, i as nat),
                decreases fields@.len() - i,
            {
                assert(decreases_to!(ty => ty->Tuple_0));
                encode_node(&fields[i], out);
                i += 1;
                assert(out@ =~= start + nodes(all, i as nat));
            }
        },
        Type::Rows(key, value, n) => {
            out.push(0x20);
            push_u32(out, *n);
            encode_node(key, out);
            encode_node(value, out);
        },
    }
    assert(out@ =~= before + node(ty@));
}

/// The length of the longest encoding, or `None` for a type beyond the limits.
fn size(ty: &Type, depth: u8, rows: bool) -> (length: Option<u64>)
    requires
        depth <= 17,
    ensures
        length is Some <==> within(ty@, depth as int, rows),
        length matches Some(n) ==> n == max_size(ty@),
    decreases ty,
{
    if depth > DEPTH_LIMIT {
        return None;
    }
    let length: u64 = match ty {
        Type::Unit => 0,
        Type::Bool => 1,
        Type::I64 => 8,
        Type::U64 => 8,
        Type::Bytes(n) => 4 + *n as u64,
        Type::String(n) => 4 + *n as u64,
        Type::Tuple(fields) => {
            proof {
                lemma_tuple_view(*fields);
            }
            let ghost all = shapes(fields@);
            if fields.len() > 256 {
                return None;
            }
            let mut length: u64 = 0;
            let mut i: usize = 0;
            while i < fields.len()
                invariant
                    *ty == Type::Tuple(*fields),
                    ty@ == Shape::Tuple(all),
                    all == shapes(fields@),
                    depth <= 16,
                    i <= fields@.len() <= 256,
                    length == max_sizes(all, i as nat),
                    length <= i * VALUE_LIMIT,
                    forall|k: int| 0 <= k < i ==> within(#[trigger] all[k], depth + 1, false),
                decreases fields@.len() - i,
            {
                assert(decreases_to!(ty => ty->Tuple_0));
                match size(&fields[i], depth + 1, false) {
                    None => {
                        assert(!within(all[i as int], depth + 1, false));
                        return None;
                    },
                    Some(n) => {
                        assert(within(all[i as int], depth + 1, false));
                        length = length + n;
                    },
                }
                i += 1;
            }
            length
        },
        Type::Rows(key, value, count) => {
            if !rows || *count > 65535 {
                return None;
            }
            let key_length = match size(key, depth + 1, false) {
                None => {
                    return None;
                },
                Some(n) => n,
            };
            let value_length = match size(value, depth + 1, false) {
                None => {
                    return None;
                },
                Some(n) => n,
            };
            let row: u64 = key_length + value_length;
            let product: u64 = mul_rows(row, *count);
            product + 4
        },
    };
    if length <= VALUE_LIMIT {
        Some(length)
    } else {
        None
    }
}

/// `row * count` for a row of two bounded values.
fn mul_rows(row: u64, count: u32) -> (product: u64)
    requires
        row <= 2 * VALUE_LIMIT,
        count <= 65535,
    ensures
        product == row * count,
        product <= 2 * VALUE_LIMIT * 65535,
{
    assert(row * count <= 33554432 * 65535) by (nonlinear_arith)
        requires
            row <= 33554432,
            count <= 65535,
    ;
    row * count as u64
}

/// Check that `ty` may be used: as a value, or also as a register or result
/// type if `allow_rows`.
pub fn validate_type(ty: &Type, allow_rows: bool, span: Span) -> (valid: Result<(), CompileError>)
    ensures
        match valid {
            Ok(()) => valid_type(ty@, allow_rows),
            Err(e) => !valid_type(ty@, allow_rows) && e@ == error::fault(span, INVALID_TYPE),
        },
{
    let valid = match size(ty, 1, allow_rows) {
        None => false,
        Some(_) => ty.descriptor().len() <= DESCRIPTOR_LIMIT,
    };
    if valid {
        Ok(())
    } else {
        Err(CompileError::rule(span, INVALID_TYPE))
    }
}

/// The length of the longest canonical key of type `ty`.
pub fn key_size(ty: &Type) -> (length: u64)
    requires
        key_extent(ty@) <= u64::MAX,
    ensures
        length == key_extent(ty@),
    decreases ty,
{
    match ty {
        Type::Unit => 0,
        Type::Bool => 1,
        Type::I64 => 8,
        Type::U64 => 8,
        Type::Bytes(n) => 2 * (*n as u64) + 2,
        Type::String(n) => 2 * (*n as u64) + 2,
        Type::Tuple(fields) => {
            proof {
                lemma_tuple_view(*fields);
            }
            let ghost all = shapes(fields@);
            let mut length: u64 = 0;
            let mut i: usize = 0;
            while i < fields.len()
                invariant
                    *ty == Type::Tuple(*fields),
                    all == shapes(fields@),
                    key_extents(all, all.len()) <= u64::MAX,
                    i <= fields@.len(),
                    length == key_extents(all, i as nat),
                decreases fields@.len() - i,
            {
                assert(decreases_to!(ty => ty->Tuple_0));
                proof {
                    lemma_key_extents_grow(all, (i + 1) as nat, all.len());
                }
                length = length + key_size(&fields[i]);
                i += 1;
            }
            length
        },
        Type::Rows(..) => u64::MAX,
    }
}

/// A longer prefix of fields has at least the key length of a shorter one.
proof fn lemma_key_extents_grow(fields: Seq<Shape>, n: nat, m: nat)
    requires
        n <= m <= fields.len(),
    ensures
        key_extents(fields, n) <= key_extents(fields, m),
    decreases m,
{
    if n < m {
        lemma_key_extents_grow(fields, n, (m - 1) as nat);
    }
}

// ---- Laws ----------------------------------------------------------------

/// Whether `a` differs from `b` only in bounds that are at least as large.
pub open spec fn covers(a: Shape, b: Shape) -> bool
    decreases a,
{
    match (a, b) {
        (Shape::Bytes(x), Shape::Bytes(y)) => x >= y,
        (Shape::String(x), Shape::String(y)) => x >= y,
        (Shape::Tuple(x), Shape::Tuple(y)) => x.len() == y.len() && forall|i: int|
            0 <= i < x.len() ==> covers(x[i], #[trigger] y[i]),
        (Shape::Rows(ak, av, x), Shape::Rows(bk, bv, y)) => x >= y && covers(*ak, *bk) && covers(
            *av,
            *bv,
        ),
        _ => a == b,
    }
}

/// A type has the shape of itself.
pub proof fn shapes_are_reflexive(a: Shape)
    ensures
        same_shape(a, a),
    decreases a,
{
    match a {
        Shape::Tuple(x) => {
            assert forall|i: int| 0 <= i < x.len() implies same_shape(x[i], #[trigger] x[i]) by {
                shapes_are_reflexive(x[i]);
            }
        },
        Shape::Rows(key, value, _) => {
            shapes_are_reflexive(*key);
            shapes_are_reflexive(*value);
        },
        _ => {},
    }
}

/// Types have the same shape in either order.
pub proof fn shapes_are_symmetric(a: Shape, b: Shape)
    requires
        same_shape(a, b),
    ensures
        same_shape(b, a),
    decreases a,
{
    match (a, b) {
        (Shape::Tuple(x), Shape::Tuple(y)) => {
            assert forall|i: int| 0 <= i < y.len() implies same_shape(y[i], #[trigger] x[i]) by {
                assert(same_shape(x[i], y[i]));
                shapes_are_symmetric(x[i], y[i]);
            }
        },
        (Shape::Rows(ak, av, _), Shape::Rows(bk, bv, _)) => {
            shapes_are_symmetric(*ak, *bk);
            shapes_are_symmetric(*av, *bv);
        },
        _ => {},
    }
}

/// Types that have the shape of a third one have the same shape.
pub proof fn shapes_are_transitive(a: Shape, b: Shape, c: Shape)
    requires
        same_shape(a, b),
        same_shape(b, c),
    ensures
        same_shape(a, c),
    decreases a,
{
    match (a, b, c) {
        (Shape::Tuple(x), Shape::Tuple(y), Shape::Tuple(z)) => {
            assert forall|i: int| 0 <= i < x.len() implies same_shape(x[i], #[trigger] z[i]) by {
                assert(same_shape(x[i], y[i]));
                assert(same_shape(y[i], z[i]));
                shapes_are_transitive(x[i], y[i], z[i]);
            }
        },
        (Shape::Rows(ak, av, _), Shape::Rows(bk, bv, _), Shape::Rows(ck, cv, _)) => {
            shapes_are_transitive(*ak, *bk, *ck);
            shapes_are_transitive(*av, *bv, *cv);
        },
        _ => {},
    }
}

/// The union of two types of the same shape has room for the values of both, and
/// does not depend on their order.
pub proof fn unions_cover_both(a: Shape, b: Shape)
    requires
        same_shape(a, b),
    ensures
        covers(union(a, b), a),
        covers(union(a, b), b),
        same_shape(union(a, b), a),
        union(a, b) == union(b, a),
    decreases a,
{
    match (a, b) {
        (Shape::Tuple(x), Shape::Tuple(y)) => {
            let u = union(a, b)->Tuple_0;
            let v = union(b, a)->Tuple_0;
            assert forall|i: int| 0 <= i < x.len() implies covers(u[i], #[trigger] x[i]) && covers(
                u[i],
                y[i],
            ) && same_shape(u[i], x[i]) && u[i] == v[i] by {
                assert(same_shape(x[i], y[i]));
                unions_cover_both(x[i], y[i]);
            }
            assert forall|i: int| 0 <= i < y.len() implies covers(u[i], #[trigger] y[i]) by {
                assert(covers(u[i], x[i]) && covers(u[i], y[i]));
            }
            assert(u =~= v) by {
                assert forall|i: int| 0 <= i < u.len() implies u[i] == v[i] by {
                    assert(covers(u[i], x[i]));
                }
            }
        },
        (Shape::Rows(ak, av, _), Shape::Rows(bk, bv, _)) => {
            unions_cover_both(*ak, *bk);
            unions_cover_both(*av, *bv);
        },
        _ => {},
    }
}

} // verus!
