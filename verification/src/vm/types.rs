//! The types of stored values and their canonical descriptors.

use super::Error;
use crate::bytes;
use crate::bytes::{read_u16, read_u32};
use crate::compiler::error::CALL_SITE;
use crate::compiler::types;
use crate::compiler::types::{validate_type, Shape};
use vstd::prelude::*;

verus! {

pub const SHORT_DESCRIPTOR: &'static str = "truncated type descriptor";

pub const BAD_DESCRIPTOR: &'static str = "invalid type descriptor";

/// The type of a key, a value or a result.
#[derive(Debug, PartialEq, Eq)]
pub enum Type {
    Unit,
    Boolean,
    I64,
    U64,
    Bytes(u32),
    String(u32),
    Tuple(Vec<Type>),
    Rows { max_rows: u32, key: Box<Type>, value: Box<Type> },
}

/// The models of the types in `list`.
pub open spec fn shapes(list: Seq<Type>) -> Seq<Shape> {
    list.map_values(|t: Type| t@)
}

impl Type {
    pub open spec fn view(self) -> Shape
        decreases self,
    {
        match self {
            Type::Unit => Shape::Unit,
            Type::Boolean => Shape::Bool,
            Type::I64 => Shape::I64,
            Type::U64 => Shape::U64,
            Type::Bytes(n) => Shape::Bytes(n),
            Type::String(n) => Shape::String(n),
            Type::Tuple(fields) => Shape::Tuple(
                Seq::new(
                    fields@.len(),
                    |i: int|
                        if 0 <= i < fields@.len() {
                            fields@[i].view()
                        } else {
                            Shape::Unit
                        },
                ),
            ),
            Type::Rows { max_rows, key, value } => Shape::Rows(
                Box::new(key.view()),
                Box::new(value.view()),
                max_rows,
            ),
        }
    }

    /// The same type as the compiler has it.
    fn lowered(&self) -> (ty: types::Type)
        ensures
            ty@ == self@,
        decreases self,
    {
        match self {
            Type::Unit => types::Type::Unit,
            Type::Boolean => types::Type::Bool,
            Type::I64 => types::Type::I64,
            Type::U64 => types::Type::U64,
            Type::Bytes(n) => types::Type::Bytes(*n),
            Type::String(n) => types::Type::String(*n),
            Type::Tuple(fields) => {
                let mut list: Vec<types::Type> = Vec::new();
                let mut i: usize = 0;
                while i < fields.len()
                    invariant
                        *self == Type::Tuple(*fields),
                        i <= fields@.len(),
                        list@.len() == i,
                        forall|k: int| 0 <= k < i ==> (#[trigger] list@[k])@ == fields@[k]@,
                    decreases fields@.len() - i,
                {
                    assert(decreases_to!(self => self->Tuple_0));
                    list.push(fields[i].lowered());
                    i += 1;
                }
                proof {
                    types::lemma_tuple_view(list);
                    lemma_tuple_view(*fields);
                    assert(types::shapes(list@) =~= shapes(fields@));
                }
                types::Type::Tuple(list)
            },
            Type::Rows { max_rows, key, value } => types::Type::Rows(
                Box::new(key.lowered()),
                Box::new(value.lowered()),
                *max_rows,
            ),
        }
    }

    /// A copy of this type.
    pub fn duplicate(&self) -> (copy: Type)
        ensures
            copy@ == self@,
        decreases self,
    {
        match self {
            Type::Unit => Type::Unit,
            Type::Boolean => Type::Boolean,
            Type::I64 => Type::I64,
            Type::U64 => Type::U64,
            Type::Bytes(n) => Type::Bytes(*n),
            Type::String(n) => Type::String(*n),
            Type::Tuple(fields) => {
                let mut list: Vec<Type> = Vec::new();
                let mut i: usize = 0;
                while i < fields.len()
                    invariant
                        *self == Type::Tuple(*fields),
                        i <= fields@.len(),
                        list@.len() == i,
                        forall|k: int| 0 <= k < i ==> (#[trigger] list@[k])@ == fields@[k]@,
                    decreases fields@.len() - i,
                {
                    assert(decreases_to!(self => self->Tuple_0));
                    list.push(fields[i].duplicate());
                    i += 1;
                }
                proof {
                    lemma_tuple_view(list);
                    lemma_tuple_view(*fields);
                    assert(shapes(list@) =~= shapes(fields@));
                }
                Type::Tuple(list)
            },
            Type::Rows { max_rows, key, value } => Type::Rows {
                max_rows: *max_rows,
                key: Box::new(key.duplicate()),
                value: Box::new(value.duplicate()),
            },
        }
    }

    /// Whether this type keeps the limits of the format; rows are allowed at
    /// the top if `rows`.
    pub fn is_valid(&self, rows: bool) -> (valid: bool)
        ensures
            valid == types::valid_type(self@, rows),
    {
        validate_type(&self.lowered(), rows, CALL_SITE).is_ok()
    }

    /// The length of the longest canonical key of this type.
    pub fn key_length(&self) -> (length: u64)
        requires
            types::key_extent(self@) <= u64::MAX,
        ensures
            length == types::key_extent(self@),
    {
        types::key_size(&self.lowered())
    }

    /// The canonical descriptor of this type.
    pub fn descriptor(&self) -> (bytes: Vec<u8>)
        ensures
            bytes@ == types::descriptor(self@),
    {
        self.lowered().descriptor()
    }

    /// Read a descriptor.
    pub fn decode(bytes: &[u8]) -> (ty: Result<Type, Error>)
        ensures
            match ty {
                Ok(ty) => type_of(bytes@) == Ok::<Shape, Error>(ty@),
                Err(e) => type_of(bytes@) == Err::<Shape, Error>(e),
            },
    {
        if bytes.len() < 2 {
            return Err(Error::Invalid(SHORT_DESCRIPTOR));
        }
        let version: u16 = read_u16(bytes, 0);
        if version != 1 {
            return Err(Error::Unsupported { format: "type descriptor", version });
        }
        match decode_node(bytes, 2, 1) {
            Some((ty, end)) => if end == bytes.len() && ty.is_valid(true) {
                Ok(ty)
            } else {
                Err(Error::Invalid(BAD_DESCRIPTOR))
            },
            None => Err(Error::Invalid(BAD_DESCRIPTOR)),
        }
    }
}

impl Clone for Type {
    fn clone(&self) -> (copy: Type)
        ensures
            copy@ == self@,
    {
        self.duplicate()
    }
}

/// The view of a tuple holds the views of its fields.
pub proof fn lemma_tuple_view(fields: Vec<Type>)
    ensures
        Type::Tuple(fields)@ == Shape::Tuple(shapes(fields@)),
{
    assert(Type::Tuple(fields)@->Tuple_0 =~= shapes(fields@));
}

// ---- Reading descriptors -------------------------------------------------

/// The type whose node bytes start at `at`, and where they end; it may nest no
/// deeper than the format allows and stands `depth` levels deep itself.
pub open spec fn node_at(s: Seq<u8>, at: int, depth: int) -> Option<(Shape, int)>
    decreases 17 - depth, 0nat,
{
    if depth > 16 || !(0 <= at < s.len()) {
        None
    } else if s[at] == 0 {
        Some((Shape::Unit, at + 1))
    } else if s[at] == 1 {
        Some((Shape::Bool, at + 1))
    } else if s[at] == 2 {
        Some((Shape::I64, at + 1))
    } else if s[at] == 3 {
        Some((Shape::U64, at + 1))
    } else if s[at] == 4 && at + 5 <= s.len() {
        Some((Shape::Bytes(bytes::un32(bytes::part(s, at + 1, 4))), at + 5))
    } else if s[at] == 5 && at + 5 <= s.len() {
        Some((Shape::String(bytes::un32(bytes::part(s, at + 1, 4))), at + 5))
    } else if s[at] == 6 && at + 3 <= s.len() && bytes::un16(bytes::part(s, at + 1, 2)) <= 256 {
        match fields_at(s, at + 3, bytes::un16(bytes::part(s, at + 1, 2)) as nat, depth + 1) {
            None => None,
            Some((fields, end)) => Some((Shape::Tuple(fields), end)),
        }
    } else if s[at] == 0x20 && at + 5 <= s.len() {
        match node_at(s, at + 5, depth + 1) {
            None => None,
            Some((key, middle)) => match node_at(s, middle, depth + 1) {
                None => None,
                Some((value, end)) => Some(
                    (
                        Shape::Rows(
                            Box::new(key),
                            Box::new(value),
                            bytes::un32(bytes::part(s, at + 1, 4)),
                        ),
                        end,
                    ),
                ),
            },
        }
    } else {
        None
    }
}

/// The `n` types whose node bytes start at `at`, and where they end.
pub open spec fn fields_at(s: Seq<u8>, at: int, n: nat, depth: int) -> Option<(Seq<Shape>, int)>
    decreases 17 - depth, n + 1,
{
    if n == 0 || depth > 17 {
        if n == 0 {
            Some((Seq::empty(), at))
        } else {
            None
        }
    } else {
        match fields_at(s, at, (n - 1) as nat, depth) {
            None => None,
            Some((fields, middle)) => match node_at(s, middle, depth) {
                None => None,
                Some((last, end)) => Some((fields.push(last), end)),
            },
        }
    }
}

/// The type that a descriptor describes, or why it is none.
pub open spec fn type_of(s: Seq<u8>) -> Result<Shape, Error> {
    if s.len() < 2 {
        Err(Error::Invalid(SHORT_DESCRIPTOR))
    } else if bytes::un16(bytes::part(s, 0, 2)) != 1 {
        Err(
            Error::Unsupported {
                format: "type descriptor",
                version: bytes::un16(bytes::part(s, 0, 2)),
            },
        )
    } else {
        match node_at(s, 2, 1) {
            Some((shape, end)) => if end == s.len() && types::valid_type(shape, true) {
                Ok(shape)
            } else {
                Err(Error::Invalid(BAD_DESCRIPTOR))
            },
            None => Err(Error::Invalid(BAD_DESCRIPTOR)),
        }
    }
}

/// Read the node bytes at `at`.
fn decode_node(bytes: &[u8], at: usize, depth: u8) -> (node: Option<(Type, usize)>)
    requires
        depth <= 17,
    ensures
        match node {
            Some((ty, end)) => node_at(bytes@, at as int, depth as int) == Some((ty@, end as int))
                && end <= bytes@.len(),
            None => node_at(bytes@, at as int, depth as int) is None,
        },
    decreases 17 - depth, 0nat,
{
    if depth > 16 || at >= bytes.len() {
        return None;
    }
    let tag: u8 = bytes[at];
    if tag == 0 {
        Some((Type::Unit, at + 1))
    } else if tag == 1 {
        Some((Type::Boolean, at + 1))
    } else if tag == 2 {
        Some((Type::I64, at + 1))
    } else if tag == 3 {
        Some((Type::U64, at + 1))
    } else if tag == 4 && bytes.len() - at >= 5 {
        Some((Type::Bytes(read_u32(bytes, at + 1)), at + 5))
    } else if tag == 5 && bytes.len() - at >= 5 {
        Some((Type::String(read_u32(bytes, at + 1)), at + 5))
    } else if tag == 6 && bytes.len() - at >= 3 {
        let count: u16 = read_u16(bytes, at + 1);
        if count > 256 {
            return None;
        }
        match decode_fields(bytes, at + 3, count, depth + 1) {
            None => None,
            Some((fields, end)) => {
                proof {
                    lemma_tuple_view(fields);
                }
                Some((Type::Tuple(fields), end))
            },
        }
    } else if tag == 0x20 && bytes.len() - at >= 5 {
        let max_rows: u32 = read_u32(bytes, at + 1);
        match decode_node(bytes, at + 5, depth + 1) {
            None => None,
            Some((key, middle)) => match decode_node(bytes, middle, depth + 1) {
                None => None,
                Some((value, end)) => Some(
                    (Type::Rows { max_rows, key: Box::new(key), value: Box::new(value) }, end),
                ),
            },
        }
    } else {
        None
    }
}

/// Read the node bytes of `n` types at `at`.
fn decode_fields(bytes: &[u8], at: usize, n: u16, depth: u8) -> (fields: Option<
    (Vec<Type>, usize),
>)
    requires
        depth <= 17,
        at <= bytes@.len(),
    ensures
        match fields {
            Some((list, end)) => fields_at(bytes@, at as int, n as nat, depth as int) == Some(
                (shapes(list@), end as int),
            ) && end <= bytes@.len(),
            None => fields_at(bytes@, at as int, n as nat, depth as int) is None,
        },
    decreases 17 - depth, n + 1,
{
    let mut list: Vec<Type> = Vec::new();
    let mut end: usize = at;
    let mut i: u16 = 0;
    assert(shapes(list@) =~= Seq::empty());
    while i < n
        invariant
            depth <= 17,
            i <= n,
            end <= bytes@.len(),
            fields_at(bytes@, at as int, i as nat, depth as int) == Some(
                (shapes(list@), end as int),
            ),
        decreases n - i,
    {
        match decode_node(bytes, end, depth) {
            None => {
                proof {
                    lemma_fields_stop(bytes@, at as int, (i + 1) as nat, n as nat, depth as int);
                }
                return None;
            },
            Some((ty, next)) => {
                let ghost before = shapes(list@);
                list.push(ty);
                assert(shapes(list@) =~= before.push(ty@));
                end = next;
            },
        }
        i += 1;
    }
    Some((list, end))
}

/// Where a shorter list of types cannot be read, a longer one cannot either.
proof fn lemma_fields_stop(s: Seq<u8>, at: int, n: nat, m: nat, depth: int)
    requires
        n <= m,
        fields_at(s, at, n, depth) is None,
    ensures
        fields_at(s, at, m, depth) is None,
    decreases m,
{
    if n < m {
        lemma_fields_stop(s, at, n, (m - 1) as nat, depth);
    }
}

// ---- Descriptors are canonical -------------------------------------------

/// The node bytes of a type are read as that type, whatever stands around them.
proof fn lemma_node_read(before: Seq<u8>, shape: Shape, after: Seq<u8>, depth: int, rows: bool)
    requires
        types::within(shape, depth, rows),
    ensures
        node_at(before + types::node(shape) + after, before.len() as int, depth) == Some(
            (shape, (before.len() + types::node(shape).len()) as int),
        ),
    decreases shape, 0nat,
{
    broadcast use bytes::group_le;

    let s = before + types::node(shape) + after;
    let at = before.len() as int;
    assert(types::node(shape).len() > 0);
    assert(s[at] == types::node(shape)[0]);
    match shape {
        Shape::Bytes(n) => {
            assert(bytes::part(s, at + 1, 4) =~= bytes::le32(n));
        },
        Shape::String(n) => {
            assert(bytes::part(s, at + 1, 4) =~= bytes::le32(n));
        },
        Shape::Tuple(fields) => {
            let count = (fields.len() % 65536) as u16;
            assert(bytes::part(s, at + 1, 2) =~= bytes::le16(count));
            let head = before + seq![6u8] + bytes::le16(count);
            assert(decreases_to!(shape => shape->Tuple_0));
            lemma_fields_read(head, fields, fields.len(), after, depth + 1);
            assert(head + types::nodes(fields, fields.len()) + after =~= s);
            assert(fields.subrange(0, fields.len() as int) =~= fields);
        },
        Shape::Rows(key, value, n) => {
            assert(bytes::part(s, at + 1, 4) =~= bytes::le32(n));
            let head = before + seq![0x20u8] + bytes::le32(n);
            lemma_node_read(head, *key, types::node(*value) + after, depth + 1, false);
            assert(head + types::node(*key) + (types::node(*value) + after) =~= s);
            let second = head + types::node(*key);
            lemma_node_read(second, *value, after, depth + 1, false);
            assert(second + types::node(*value) + after =~= s);
        },
        _ => {},
    }
}

proof fn lemma_fields_read(
    before: Seq<u8>,
    fields: Seq<Shape>,
    n: nat,
    after: Seq<u8>,
    depth: int,
)
    requires
        n <= fields.len(),
        depth <= 17,
        forall|i: int| 0 <= i < fields.len() ==> types::within(#[trigger] fields[i], depth, false),
    ensures
        fields_at(
            before + types::nodes(fields, n) + after,
            before.len() as int,
            n,
            depth,
        ) == Some((fields.subrange(0, n as int), (before.len() + types::nodes(fields, n).len()) as int)),
    decreases fields, n,
{
    let s = before + types::nodes(fields, n) + after;
    if n == 0 {
        assert(fields.subrange(0, 0) =~= Seq::empty());
    } else {
        let last = fields[n - 1];
        let front = types::nodes(fields, (n - 1) as nat);
        lemma_fields_read(before, fields, (n - 1) as nat, types::node(last) + after, depth);
        assert(before + front + (types::node(last) + after) =~= s);
        lemma_node_read(before + front, last, after, depth, false);
        assert((before + front) + types::node(last) + after =~= s);
        assert(fields.subrange(0, n as int) =~= fields.subrange(0, n - 1).push(last));
    }
}

/// What is read as a type are its node bytes.
proof fn lemma_node_bytes(s: Seq<u8>, at: int, depth: int)
    ensures
        node_at(s, at, depth) matches Some((shape, end)) ==> at < end <= s.len() && s.subrange(
            at,
            end,
        ) == types::node(shape),
    decreases 17 - depth, 0nat,
{
    broadcast use bytes::group_le;

    if let Some((shape, end)) = node_at(s, at, depth) {
        if s[at] == 6 {
            let count = bytes::un16(bytes::part(s, at + 1, 2));
            lemma_field_bytes(s, at + 3, count as nat, depth + 1);
            assert(bytes::le16(count) == bytes::part(s, at + 1, 2));
            let fields = shape->Tuple_0;
            assert(s.subrange(at, end) =~= seq![6u8] + bytes::part(s, at + 1, 2) + s.subrange(
                at + 3,
                end,
            ));
        } else if s[at] == 0x20 {
            let n = bytes::un32(bytes::part(s, at + 1, 4));
            assert(bytes::le32(n) == bytes::part(s, at + 1, 4));
            lemma_node_bytes(s, at + 5, depth + 1);
            let (key, middle) = node_at(s, at + 5, depth + 1).unwrap();
            lemma_node_bytes(s, middle, depth + 1);
            assert(s.subrange(at, end) =~= seq![0x20u8] + bytes::part(s, at + 1, 4) + s.subrange(
                at + 5,
                middle,
            ) + s.subrange(middle, end));
        } else if s[at] == 4 || s[at] == 5 {
            let n = bytes::un32(bytes::part(s, at + 1, 4));
            assert(bytes::le32(n) == bytes::part(s, at + 1, 4));
            assert(s.subrange(at, end) =~= seq![s[at]] + bytes::part(s, at + 1, 4));
        } else {
            assert(s.subrange(at, end) =~= seq![s[at]]);
        }
    }
}

proof fn lemma_field_bytes(s: Seq<u8>, at: int, n: nat, depth: int)
    requires
        0 <= at <= s.len(),
    ensures
        fields_at(s, at, n, depth) matches Some((fields, end)) ==> fields.len() == n && at <= end
            <= s.len() && s.subrange(at, end) == types::nodes(fields, n),
    decreases 17 - depth, n + 1,
{
    if let Some((fields, end)) = fields_at(s, at, n, depth) {
        if n == 0 {
            assert(s.subrange(at, end) =~= Seq::empty());
        } else {
            lemma_field_bytes(s, at, (n - 1) as nat, depth);
            let (front, middle) = fields_at(s, at, (n - 1) as nat, depth).unwrap();
            lemma_node_bytes(s, middle, depth);
            lemma_nodes_prefix(front, fields, (n - 1) as nat);
            assert(s.subrange(at, end) =~= s.subrange(at, middle) + s.subrange(middle, end));
        }
    }
}

/// The node bytes of the first types depend on those types alone.
proof fn lemma_nodes_prefix(a: Seq<Shape>, b: Seq<Shape>, n: nat)
    requires
        n <= a.len(),
        n <= b.len(),
        forall|i: int| 0 <= i < n ==> a[i] == b[i],
    ensures
        types::nodes(a, n) == types::nodes(b, n),
    decreases n,
{
    if n > 0 {
        lemma_nodes_prefix(a, b, (n - 1) as nat);
    }
}

/// The descriptor of every valid type is read as that type.
pub proof fn descriptors_are_read_back(shape: Shape)
    requires
        types::valid_type(shape, true),
    ensures
        type_of(types::descriptor(shape)) == Ok::<Shape, Error>(shape),
{
    let s = types::descriptor(shape);
    lemma_node_read(seq![1u8, 0u8], shape, Seq::empty(), 1, true);
    assert(seq![1u8, 0u8] + types::node(shape) + Seq::<u8>::empty() =~= s);
    assert(bytes::un16(bytes::part(s, 0, 2)) == 1) by {
        reveal(bytes::un16);
    }
}

/// Each type has one descriptor: what is read as a type is its descriptor.
pub proof fn read_descriptors_are_canonical(s: Seq<u8>, shape: Shape)
    requires
        type_of(s) == Ok::<Shape, Error>(shape),
    ensures
        types::valid_type(shape, true),
        s == types::descriptor(shape),
{
    lemma_node_bytes(s, 2, 1);
    assert(s[0] == 1 && s[1] == 0) by {
        reveal(bytes::un16);
    }
    assert(s =~= seq![1u8, 0u8] + s.subrange(2, s.len() as int));
}

} // verus!
