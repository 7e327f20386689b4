//! Binding of captured values and table IDs to compiled programs.

use crate::bytes;
use crate::bytes::{push_bytes, push_u16, push_u32, push_u64, to_vec, write_at};
use crate::external::sort_by_second;
use crate::text;
use crate::text::to_decimal;
use vstd::prelude::*;
use vstd::seq_lib::*;
use vstd::set_lib::*;

verus! {

/// The largest encoding of the arguments.
pub const MAX_ARGUMENT_BYTES: usize = 16777216;

/// A compiled transaction program and its separately encoded arguments.
#[derive(Clone, Debug, PartialEq, Eq)]
pub struct Transaction {
    program: Vec<u8>,
    arguments: Vec<u8>,
}

/// The model of a [`Transaction`].
#[verifier::ext_equal]
pub struct TransactionModel {
    pub program: Seq<u8>,
    pub arguments: Seq<u8>,
}

impl Transaction {
    pub closed spec fn view(&self) -> TransactionModel {
        TransactionModel { program: self.program@, arguments: self.arguments@ }
    }

    /// The transaction of the given program and arguments.
    pub fn from_parts(program: Vec<u8>, arguments: Vec<u8>) -> (transaction: Transaction)
        ensures
            transaction@ == (TransactionModel { program: program@, arguments: arguments@ }),
    {
        Transaction { program, arguments }
    }

    /// The complete program container, with its header.
    pub fn program_bytes(&self) -> (bytes: &[u8])
        ensures
            bytes@ == self@.program,
    {
        self.program.as_slice()
    }

    /// The encoded arguments, with their count and blob lengths.
    pub fn argument_bytes(&self) -> (bytes: &[u8])
        ensures
            bytes@ == self@.arguments,
    {
        self.arguments.as_slice()
    }

    /// The program bytes and the argument bytes.
    pub fn into_parts(self) -> (parts: (Vec<u8>, Vec<u8>))
        ensures
            parts.0@ == self@.program,
            parts.1@ == self@.arguments,
    {
        (self.program, self.arguments)
    }

    /// A copy of this transaction.
    pub fn duplicate(&self) -> (copy: Transaction)
        ensures
            copy@ == self@,
    {
        Transaction {
            program: to_vec(self.program.as_slice()),
            arguments: to_vec(self.arguments.as_slice()),
        }
    }
}

/// A failure to bind runtime inputs to a compiled transaction program.
#[derive(Clone, Debug, PartialEq, Eq, Structural)]
pub enum BuildError {
    /// A captured byte or string value exceeds its declared byte bound.
    BoundExceeded { max_bytes: u32, actual_bytes: usize },
    /// The complete encoded arguments would exceed 16 MiB.
    ArgumentsTooLarge,
    /// A table ID is zero or the reserved value `u64::MAX`.
    InvalidTableId(u64),
    /// Separate table declarations were bound to the same table ID.
    DuplicateTableId(u64),
    /// The compiler supplied invalid table counts, offsets or patch indices.
    InvalidTemplate,
}

/// The text of a [`BuildError`].
pub open spec fn build_text(error: BuildError) -> Seq<char> {
    match error {
        BuildError::BoundExceeded { max_bytes, actual_bytes } => "value is "@ + text::decimal(
            actual_bytes as nat,
        ) + " bytes, exceeding the bound of "@ + text::decimal(max_bytes as nat) + " bytes"@,
        BuildError::ArgumentsTooLarge => "encoded arguments exceed the 16 MiB limit"@,
        BuildError::InvalidTableId(id) => "invalid table ID "@ + text::decimal(id as nat)
            + ": the ID is reserved"@,
        BuildError::DuplicateTableId(id) => "table ID "@ + text::decimal(id as nat)
            + " is bound to separate table declarations"@,
        BuildError::InvalidTemplate =>
            "compiler-generated program template or table patches are invalid"@,
    }
}

impl BuildError {
    /// The text of this error.
    pub fn message(&self) -> (message: String)
        ensures
            message@ == build_text(*self),
    {
        match self {
            BuildError::BoundExceeded { max_bytes, actual_bytes } => {
                let mut message = "value is ".to_owned();
                message.append(to_decimal(*actual_bytes as u64).as_str());
                message.append(" bytes, exceeding the bound of ");
                message.append(to_decimal(*max_bytes as u64).as_str());
                message.append(" bytes");
                message
            },
            BuildError::ArgumentsTooLarge => {
                "encoded arguments exceed the 16 MiB limit".to_owned()
            },
            BuildError::InvalidTableId(id) => {
                let mut message = "invalid table ID ".to_owned();
                message.append(to_decimal(*id).as_str());
                message.append(": the ID is reserved");
                message
            },
            BuildError::DuplicateTableId(id) => {
                let mut message = "table ID ".to_owned();
                message.append(to_decimal(*id).as_str());
                message.append(" is bound to separate table declarations");
                message
            },
            BuildError::InvalidTemplate => {
                "compiler-generated program template or table patches are invalid".to_owned()
            },
        }
    }
}

/// The blob of `value` after `out`, where the bound and the limit on the
/// arguments allow it.
pub open spec fn pushed(out: Seq<u8>, value: Seq<u8>, max_bytes: u32) -> Result<
    Seq<u8>,
    BuildError,
> {
    if value.len() > max_bytes {
        Err(BuildError::BoundExceeded { max_bytes, actual_bytes: value.len() as usize })
    } else if out.len() + 4 + value.len() > MAX_ARGUMENT_BYTES {
        Err(BuildError::ArgumentsTooLarge)
    } else {
        Ok(out + bytes::blob(value))
    }
}

/// Append one length-prefixed blob, without changing `out` on error.
pub fn push_blob(out: &mut Vec<u8>, value: &[u8], max_bytes: u32) -> (done: Result<(), BuildError>)
    ensures
        match done {
            Ok(()) => pushed(old(out)@, value@, max_bytes) == Ok::<Seq<u8>, BuildError>(
                final(out)@,
            ),
            Err(e) => pushed(old(out)@, value@, max_bytes) == Err::<Seq<u8>, BuildError>(e)
                && final(out)@ == old(out)@,
        },
{
    let length: usize = value.len();
    if length as u128 > max_bytes as u128 {
        return Err(BuildError::BoundExceeded { max_bytes, actual_bytes: length });
    }
    if length > MAX_ARGUMENT_BYTES - 4 || out.len() > MAX_ARGUMENT_BYTES - 4 - length {
        return Err(BuildError::ArgumentsTooLarge);
    }
    push_u32(out, length as u32);
    push_bytes(out, value);
    assert(out@ =~= old(out)@ + bytes::blob(value@));
    Ok(())
}

// ---- Table slots ---------------------------------------------------------

/// How many of the first `n` IDs are less than `id`.
pub open spec fn below(ids: Seq<u64>, id: u64, n: int) -> int
    decreases n,
{
    if n <= 0 || n > ids.len() {
        0
    } else {
        below(ids, id, n - 1) + if ids[n - 1] < id {
            1int
        } else {
            0int
        }
    }
}

/// The place of declaration `d` in ascending order of the IDs.
pub open spec fn slot(ids: Seq<u64>, d: int) -> int {
    below(ids, ids[d], ids.len() as int)
}

pub open spec fn reserved_id(id: u64) -> bool {
    id == 0 || id == u64::MAX
}

/// Whether two declarations have the ID `id`.
pub open spec fn repeated(ids: Seq<u64>, id: u64) -> bool {
    exists|i: int, j: int| 0 <= i < j < ids.len() && ids[i] == id && #[trigger] ids[j] == #[trigger] ids[i]
}

/// Whether no two declarations have the same ID.
pub open spec fn distinct(ids: Seq<u64>) -> bool {
    forall|i: int, j: int| 0 <= i < j < ids.len() ==> #[trigger] ids[i] != #[trigger] ids[j]
}

/// `program` with the first `n` IDs in their slots of the array at `offset`.
pub open spec fn placed(program: Seq<u8>, offset: int, ids: Seq<u64>, n: int) -> Seq<u8>
    decreases n,
{
    if n <= 0 {
        program
    } else {
        bytes::overwritten(
            placed(program, offset, ids, n - 1),
            offset + 8 * slot(ids, n - 1),
            bytes::le64(ids[n - 1]),
        )
    }
}

/// `program` with the first `n` patches written: each is the slot of its
/// declaration.
pub open spec fn patched(program: Seq<u8>, patches: Seq<(usize, u16)>, ids: Seq<u64>, n: int) -> Seq<
    u8,
>
    decreases n,
{
    if n <= 0 {
        program
    } else {
        bytes::overwritten(
            patched(program, patches, ids, n - 1),
            patches[n - 1].0 as int,
            bytes::le16(slot(ids, patches[n - 1].1 as int) as u16),
        )
    }
}

/// The program that binding `ids` to `template` gives.
pub open spec fn bound_program(
    template: Seq<u8>,
    table_offset: int,
    patches: Seq<(usize, u16)>,
    ids: Seq<u64>,
) -> Seq<u8> {
    patched(
        placed(template, table_offset, ids, ids.len() as int),
        patches,
        ids,
        patches.len() as int,
    )
}

/// Whether the table array fits into the template.
pub open spec fn array_fits(template: Seq<u8>, table_offset: int, ids: Seq<u64>) -> bool {
    ids.len() <= 65535 && table_offset + 8 * ids.len() <= template.len()
}

/// Whether every ID may be bound.
pub open spec fn ids_allowed(ids: Seq<u64>) -> bool {
    forall|i: int| 0 <= i < ids.len() ==> !reserved_id(#[trigger] ids[i])
}

/// Whether every patch names a declaration and lies behind the table array.
pub open spec fn patches_fit(
    template: Seq<u8>,
    table_offset: int,
    patches: Seq<(usize, u16)>,
    ids: Seq<u64>,
) -> bool {
    forall|i: int|
        0 <= i < patches.len() ==> {
            let (offset, declaration) = #[trigger] patches[i];
            declaration < ids.len() && table_offset + 8 * ids.len() <= offset && offset + 2
                <= template.len()
        }
}

/// Whether a pair of the list holds declaration `d`.
spec fn listed(sorted: Seq<(usize, u64)>, d: int) -> bool {
    exists|i: int| 0 <= i < sorted.len() && (#[trigger] sorted[i]).0 == d
}

/// The slots of distinct IDs are their places in ascending order.
proof fn lemma_slots(ids: Seq<u64>, sorted: Seq<(usize, u64)>, k: int)
    requires
        distinct(ids),
        sorted.len() == ids.len(),
        ids.len() <= usize::MAX,
        forall|i: int, j: int| 0 <= i <= j < sorted.len() ==> sorted[i].1 <= sorted[j].1,
        forall|i: int|
            0 <= i < sorted.len() ==> (#[trigger] sorted[i]).0 < ids.len() && sorted[i].1
                == ids[sorted[i].0 as int],
        forall|i: int, j: int|
            0 <= i < j < sorted.len() ==> (#[trigger] sorted[i]).0 != (#[trigger] sorted[j]).0,
        forall|d: int|
            0 <= d < ids.len() ==> #[trigger] listed(sorted, d),
        0 <= k < sorted.len(),
    ensures
        slot(ids, sorted[k].0 as int) == k,
{
    let id = sorted[k].1;
    let n = ids.len() as int;
    let smaller = Set::<int>::new(|j: int| 0 <= j < n && ids[j] < id);
    lemma_below_is_count(ids, id, n);
    let places = set_int_range(0, k);
    lemma_int_range(0, k);
    let f = |i: int| sorted[i].0 as int;
    assert(places.map(f) =~= smaller) by {
        assert forall|j: int| smaller.contains(j) implies places.map(f).contains(j) by {
            assert(listed(sorted, j));
            let i = choose|i: int| 0 <= i < sorted.len() && (#[trigger] sorted[i]).0 == j;
            assert(ids[j] == sorted[i].1);
            assert(i < k);
            assert(places.contains(i) && f(i) == j);
        }
        assert forall|j: int| places.map(f).contains(j) implies smaller.contains(j) by {
            let i = choose|i: int| places.contains(i) && j == f(i);
            assert(sorted[i].1 <= sorted[k].1);
            assert(sorted[i].0 != sorted[k].0);
            if sorted[i].0 < sorted[k].0 {
                assert(ids[sorted[i].0 as int] != ids[sorted[k].0 as int]);
            } else {
                assert(ids[sorted[k].0 as int] != ids[sorted[i].0 as int]);
            }
        }
    }
    assert(vstd::relations::injective_on(f, places)) by {
        assert forall|a: int, b: int| places.contains(a) && places.contains(b) && #[trigger] f(a)
            == #[trigger] f(b) implies a == b by {
            if a < b {
                assert(sorted[a].0 != sorted[b].0);
            } else if b < a {
                assert(sorted[b].0 != sorted[a].0);
            }
        }
    }
    lemma_map_size(places, smaller, f);
}

/// `below` counts the positions of smaller IDs.
proof fn lemma_below_is_count(ids: Seq<u64>, id: u64, n: int)
    requires
        0 <= n <= ids.len(),
    ensures
        Set::<int>::new(|j: int| 0 <= j < n && ids[j] < id).finite(),
        Set::<int>::new(|j: int| 0 <= j < n && ids[j] < id).len() == below(ids, id, n),
    decreases n,
{
    let s = Set::<int>::new(|j: int| 0 <= j < n && ids[j] < id);
    if n == 0 {
        assert(s =~= Set::empty());
    } else {
        lemma_below_is_count(ids, id, n - 1);
        let t = Set::<int>::new(|j: int| 0 <= j < n - 1 && ids[j] < id);
        if ids[n - 1] < id {
            assert(s =~= t.insert(n - 1));
        } else {
            assert(s =~= t);
        }
    }
}

/// A place in ascending order is less than the number of declarations.
pub proof fn lemma_slot_bound(ids: Seq<u64>, d: int)
    requires
        0 <= d < ids.len(),
    ensures
        0 <= slot(ids, d) < ids.len(),
{
    lemma_below_bound(ids, ids[d], ids.len() as int, d);
}

proof fn lemma_below_bound(ids: Seq<u64>, id: u64, n: int, d: int)
    requires
        0 <= n <= ids.len(),
        0 <= d < ids.len(),
        ids[d] == id,
    ensures
        0 <= below(ids, id, n) <= n,
        d < n ==> below(ids, id, n) < n,
    decreases n,
{
    if n > 0 {
        lemma_below_bound(ids, id, n - 1, d);
    }
}

/// The slot of each declaration, or a repeated ID.
fn assign_slots(table_ids: &[u64]) -> (slots: Result<Vec<u16>, u64>)
    requires
        table_ids@.len() <= 65535,
    ensures
        match slots {
            Ok(slots) => {
                &&& distinct(table_ids@)
                &&& slots@.len() == table_ids@.len()
                &&& forall|d: int|
                    0 <= d < slots@.len() ==> #[trigger] slots@[d] == slot(table_ids@, d)
            },
            Err(id) => repeated(table_ids@, id) && forall|other: u64|
                other < id ==> !repeated(table_ids@, other),
        },
{
    let ghost ids = table_ids@;
    let n: usize = table_ids.len();
    let mut sorted: Vec<(usize, u64)> = Vec::new();
    let mut i: usize = 0;
    while i < n
        invariant
            n == table_ids@.len(),
            i <= n,
            sorted@.len() == i,
            forall|k: int| 0 <= k < i ==> #[trigger] sorted@[k] == (k as usize, table_ids@[k]),
        decreases n - i,
    {
        sorted.push((i, table_ids[i]));
        i += 1;
    }
    let ghost pairs = sorted@;
    sort_by_second(&mut sorted);
    proof {
        lemma_sorted_pairs(ids, pairs, sorted@);
    }
    let mut k: usize = 1;
    while k < n
        invariant
            n == table_ids@.len() == sorted@.len(),
            ids == table_ids@,
            1 <= k,
            n > 0 ==> k <= n,
            forall|i: int, j: int|
                0 <= i <= j < sorted@.len() ==> sorted@[i].1 <= sorted@[j].1,
            forall|i: int|
                0 <= i < sorted@.len() ==> (#[trigger] sorted@[i]).0 < ids.len() && sorted@[i].1
                    == ids[sorted@[i].0 as int],
            forall|i: int, j: int|
                0 <= i < j < sorted@.len() ==> (#[trigger] sorted@[i]).0 != (#[trigger] sorted@[j]).0,
            forall|d: int|
                0 <= d < ids.len() ==> #[trigger] listed(sorted@, d),
            forall|i: int| 1 <= i < k ==> sorted@[i - 1].1 != (#[trigger] sorted@[i]).1,
        decreases n - k,
    {
        if sorted[k - 1].1 == sorted[k].1 {
            let id: u64 = sorted[k].1;
            proof {
                let a = sorted@[k - 1].0 as int;
                let b = sorted@[k as int].0 as int;
                assert(a != b);
                if a < b {
                    assert(ids[b] == ids[a]);
                } else {
                    assert(ids[a] == ids[b]);
                }
                assert forall|other: u64| other < id implies !repeated(ids, other) by {
                    if repeated(ids, other) {
                        lemma_repeat_is_adjacent(ids, sorted@, k as int, other);
                    }
                }
            }
            return Err(id);
        }
        k += 1;
    }
    proof {
        assert(distinct(ids)) by {
            assert forall|i: int, j: int| 0 <= i < j < ids.len() implies #[trigger] ids[i]
                != #[trigger] ids[j] by {
                if ids[i] == ids[j] {
                    assert(repeated(ids, ids[i]));
                    lemma_repeat_is_adjacent(ids, sorted@, n as int, ids[i]);
                }
            }
        }
    }
    let mut slots: Vec<u16> = Vec::new();
    let mut z: usize = 0;
    while z < n
        invariant
            z <= n,
            slots@.len() == z,
        decreases n - z,
    {
        slots.push(0);
        z += 1;
    }
    let mut s: usize = 0;
    while s < n
        invariant
            n == table_ids@.len() == sorted@.len() == slots@.len(),
            n <= 65535,
            ids == table_ids@,
            distinct(ids),
            s <= n,
            forall|i: int, j: int|
                0 <= i <= j < sorted@.len() ==> sorted@[i].1 <= sorted@[j].1,
            forall|i: int|
                0 <= i < sorted@.len() ==> (#[trigger] sorted@[i]).0 < ids.len() && sorted@[i].1
                    == ids[sorted@[i].0 as int],
            forall|i: int, j: int|
                0 <= i < j < sorted@.len() ==> (#[trigger] sorted@[i]).0 != (#[trigger] sorted@[j]).0,
            forall|d: int|
                0 <= d < ids.len() ==> #[trigger] listed(sorted@, d),
            forall|i: int|
                0 <= i < s ==> slots@[(#[trigger] sorted@[i]).0 as int] == slot(
                    ids,
                    sorted@[i].0 as int,
                ),
        decreases n - s,
    {
        proof {
            lemma_slots(ids, sorted@, s as int);
        }
        let declaration: usize = sorted[s].0;
        slots.set(declaration, s as u16);
        s += 1;
    }
    proof {
        assert forall|d: int| 0 <= d < slots@.len() implies #[trigger] slots@[d] == slot(
            ids,
            d,
        ) by {
            assert(listed(sorted@, d));
            let i = choose|i: int| 0 <= i < sorted@.len() && (#[trigger] sorted@[i]).0 == d;
            assert(slots@[sorted@[i].0 as int] == slot(ids, sorted@[i].0 as int));
        }
    }
    Ok(slots)
}

/// Equal IDs stand side by side once they are in order.
proof fn lemma_repeat_is_adjacent(ids: Seq<u64>, sorted: Seq<(usize, u64)>, k: int, id: u64)
    requires
        sorted.len() == ids.len(),
        repeated(ids, id),
        forall|i: int, j: int| 0 <= i <= j < sorted.len() ==> sorted[i].1 <= sorted[j].1,
        forall|i: int|
            0 <= i < sorted.len() ==> (#[trigger] sorted[i]).0 < ids.len() && sorted[i].1
                == ids[sorted[i].0 as int],
        forall|d: int|
            0 <= d < ids.len() ==> #[trigger] listed(sorted, d),
        1 <= k <= sorted.len(),
        forall|i: int| 1 <= i < k ==> sorted[i - 1].1 != (#[trigger] sorted[i]).1,
    ensures
        k < sorted.len() && sorted[k].1 <= id,
{
    let (a, b) = choose|i: int, j: int|
        0 <= i < j < ids.len() && ids[i] == id && #[trigger] ids[j] == #[trigger] ids[i];
    assert(listed(sorted, a) && listed(sorted, b));
    let p = choose|i: int| 0 <= i < sorted.len() && (#[trigger] sorted[i]).0 == a;
    let q = choose|i: int| 0 <= i < sorted.len() && (#[trigger] sorted[i]).0 == b;
    assert(p != q);
    let low = if p < q {
        p
    } else {
        q
    };
    let high = if p < q {
        q
    } else {
        p
    };
    assert(sorted[low].1 == id && sorted[high].1 == id);
    assert(sorted[low].1 <= sorted[low + 1].1 <= sorted[high].1);
    if low + 1 < k {
        assert(sorted[low + 1 - 1].1 != sorted[low + 1].1);
    }
    assert(k <= low + 1);
    assert(sorted[k].1 <= sorted[low + 1].1);
}

/// Sorting the numbered IDs keeps each declaration exactly once.
proof fn lemma_sorted_pairs(ids: Seq<u64>, pairs: Seq<(usize, u64)>, sorted: Seq<(usize, u64)>)
    requires
        ids.len() <= usize::MAX,
        pairs.len() == ids.len(),
        forall|k: int| 0 <= k < ids.len() ==> #[trigger] pairs[k] == (k as usize, ids[k]),
        sorted.to_multiset() == pairs.to_multiset(),
    ensures
        sorted.len() == ids.len(),
        forall|i: int|
            0 <= i < sorted.len() ==> (#[trigger] sorted[i]).0 < ids.len() && sorted[i].1
                == ids[sorted[i].0 as int],
        forall|i: int, j: int|
            0 <= i < j < sorted.len() ==> (#[trigger] sorted[i]).0 != (#[trigger] sorted[j]).0,
        forall|d: int|
            0 <= d < ids.len() ==> #[trigger] listed(sorted, d),
{
    broadcast use group_to_multiset_ensures;

    assert(pairs.len() == pairs.to_multiset().len());
    assert(sorted.len() == sorted.to_multiset().len());
    assert(pairs.no_duplicates());
    pairs.lemma_multiset_has_no_duplicates();
    sorted.lemma_multiset_has_no_duplicates_conv();
    assert forall|i: int| 0 <= i < sorted.len() implies (#[trigger] sorted[i]).0 < ids.len()
        && sorted[i].1 == ids[sorted[i].0 as int] by {
        assert(sorted.contains(sorted[i]));
        assert(sorted.to_multiset().count(sorted[i]) > 0);
        assert(pairs.contains(sorted[i]));
        let k = choose|k: int| 0 <= k < pairs.len() && pairs[k] == sorted[i];
        assert(pairs[k] == (k as usize, ids[k]));
    }
    assert forall|d: int| 0 <= d < ids.len() implies #[trigger] listed(
        sorted,
        d,
    ) by {
        assert(pairs.contains(pairs[d]));
        assert(pairs.to_multiset().count(pairs[d]) > 0);
        assert(sorted.contains(pairs[d]));
        let i = choose|i: int| 0 <= i < sorted.len() && sorted[i] == pairs[d];
        assert(sorted[i].0 == d);
    }
}

/// Bind table IDs to a compiler-validated template and attach encoded
/// arguments.
///
/// Each patch holds an absolute byte offset and the index of a table
/// declaration. Only the table array and these `u16` operands are rewritten.
pub fn bind_program(
    template: &'static [u8],
    table_offset: usize,
    patches: &[(usize, u16)],
    table_ids: &[u64],
    arguments: Vec<u8>,
) -> (bound: Result<Transaction, BuildError>)
    ensures
        binding(template@, table_offset as int, patches@, table_ids@, arguments@, bound),
{
    bind_template(template, table_offset, patches, table_ids, arguments)
}

/// What binding gives: the bound program and the arguments, or the first rule
/// that is broken.
pub open spec fn binding(
    template: Seq<u8>,
    table_offset: int,
    patches: Seq<(usize, u16)>,
    ids: Seq<u64>,
    arguments: Seq<u8>,
    bound: Result<Transaction, BuildError>,
) -> bool {
    let small = arguments.len() <= MAX_ARGUMENT_BYTES;
    let fits = array_fits(template, table_offset, ids);
    match bound {
        Ok(transaction) => {
            &&& small && fits && ids_allowed(ids) && distinct(ids) && patches_fit(
                template,
                table_offset,
                patches,
                ids,
            )
            &&& transaction@ == TransactionModel {
                program: bound_program(template, table_offset, patches, ids),
                arguments,
            }
        },
        Err(BuildError::ArgumentsTooLarge) => !small,
        Err(BuildError::InvalidTableId(id)) => small && fits && exists|i: int|
            0 <= i < ids.len() && #[trigger] ids[i] == id && reserved_id(id) && forall|j: int|
                0 <= j < i ==> !reserved_id(#[trigger] ids[j]),
        Err(BuildError::DuplicateTableId(id)) => small && fits && ids_allowed(ids) && repeated(
            ids,
            id,
        ) && forall|other: u64| other < id ==> !repeated(ids, other),
        Err(BuildError::InvalidTemplate) => small && (!fits || (ids_allowed(ids) && distinct(ids)
            && !patches_fit(template, table_offset, patches, ids))),
        Err(BuildError::BoundExceeded { .. }) => false,
    }
}

/// Bind table IDs to a template that need not be static.
pub fn bind_template(
    template: &[u8],
    table_offset: usize,
    patches: &[(usize, u16)],
    table_ids: &[u64],
    arguments: Vec<u8>,
) -> (bound: Result<Transaction, BuildError>)
    ensures
        binding(template@, table_offset as int, patches@, table_ids@, arguments@, bound),
{
    broadcast use bytes::group_le;

    let ghost ids = table_ids@;
    if arguments.len() > MAX_ARGUMENT_BYTES {
        return Err(BuildError::ArgumentsTooLarge);
    }
    let count: usize = table_ids.len();
    if count > 65535 {
        return Err(BuildError::InvalidTemplate);
    }
    if 8 * count > template.len() || table_offset > template.len() - 8 * count {
        return Err(BuildError::InvalidTemplate);
    }
    let table_end: usize = table_offset + 8 * count;
    let mut i: usize = 0;
    while i < count
        invariant
            count == table_ids@.len(),
            i <= count,
            array_fits(template@, table_offset as int, table_ids@),
            arguments@.len() <= MAX_ARGUMENT_BYTES,
            forall|j: int| 0 <= j < i ==> !reserved_id(#[trigger] table_ids@[j]),
        decreases count - i,
    {
        let id: u64 = table_ids[i];
        if id == 0 || id == u64::MAX {
            assert(table_ids@[i as int] == id);
            return Err(BuildError::InvalidTableId(id));
        }
        i += 1;
    }
    let slots = match assign_slots(table_ids) {
        Ok(slots) => slots,
        Err(id) => {
            return Err(BuildError::DuplicateTableId(id));
        },
    };
    let mut program: Vec<u8> = to_vec(template);
    let mut d: usize = 0;
    while d < count
        invariant
            forall|v: u64| (#[trigger] bytes::le64(v)).len() == 8,
            count == table_ids@.len() == slots@.len(),
            ids == table_ids@,
            d <= count <= 65535,
            table_offset + 8 * count <= template@.len(),
            table_end == table_offset + 8 * count,
            program@.len() == template@.len(),
            forall|k: int| 0 <= k < slots@.len() ==> #[trigger] slots@[k] == slot(ids, k),
            program@ == placed(template@, table_offset as int, ids, d as int),
        decreases count - d,
    {
        proof {
            lemma_slot_bound(ids, d as int);
        }
        let mut field: Vec<u8> = Vec::new();
        push_u64(&mut field, table_ids[d]);
        assert(field@ =~= bytes::le64(ids[d as int]));
        assert(slots@[d as int] == slot(ids, d as int));
        write_at(&mut program, table_offset + 8 * (slots[d] as usize), field.as_slice());
        d += 1;
    }
    let ghost array = program@;
    let mut p: usize = 0;
    while p < patches.len()
        invariant
            forall|v: u16| (#[trigger] bytes::le16(v)).len() == 2,
            count == ids.len() == slots@.len(),
            ids == table_ids@,
            count <= 65535,
            ids_allowed(ids),
            distinct(ids),
            arguments@.len() <= MAX_ARGUMENT_BYTES,
            array_fits(template@, table_offset as int, ids),
            table_end == table_offset + 8 * count,
            p <= patches@.len(),
            program@.len() == template@.len(),
            forall|k: int| 0 <= k < slots@.len() ==> #[trigger] slots@[k] == slot(ids, k),
            program@ == patched(array, patches@, ids, p as int),
            forall|k: int|
                0 <= k < p ==> {
                    let (offset, declaration) = #[trigger] patches@[k];
                    declaration < ids.len() && table_offset + 8 * ids.len() <= offset && offset + 2
                        <= template@.len()
                },
        decreases patches@.len() - p,
    {
        let (offset, declaration): (usize, u16) = patches[p];
        assert(patches@[p as int] == (offset, declaration));
        if declaration as usize >= count || offset < table_end || program.len() < 2 || offset
            > program.len() - 2 {
            assert(!patches_fit(template@, table_offset as int, patches@, ids));
            return Err(BuildError::InvalidTemplate);
        }
        proof {
            lemma_slot_bound(ids, declaration as int);
        }
        let mut field: Vec<u8> = Vec::new();
        push_u16(&mut field, slots[declaration as usize]);
        assert(field@ =~= bytes::le16(slot(ids, declaration as int) as u16));
        write_at(&mut program, offset, field.as_slice());
        p += 1;
    }
    Ok(Transaction { program, arguments })
}

// ---- Laws ----------------------------------------------------------------

/// Only the table array and the patched operands differ from the template: any
/// other byte of the bound program is that of the template.
pub proof fn binding_keeps_other_bytes(
    template: Seq<u8>,
    table_offset: int,
    patches: Seq<(usize, u16)>,
    ids: Seq<u64>,
    at: int,
)
    requires
        array_fits(template, table_offset, ids),
        0 <= table_offset,
        0 <= at < template.len(),
        !(table_offset <= at < table_offset + 8 * ids.len()),
        forall|i: int|
            0 <= i < patches.len() ==> !((#[trigger] patches[i]).0 <= at < patches[i].0 + 2),
    ensures
        bound_program(template, table_offset, patches, ids).len() == template.len(),
        bound_program(template, table_offset, patches, ids)[at] == template[at],
{
    lemma_placed(template, table_offset, ids, ids.len() as int, at);
    lemma_patched(
        placed(template, table_offset, ids, ids.len() as int),
        patches,
        ids,
        patches.len() as int,
        at,
    );
}

proof fn lemma_placed(program: Seq<u8>, offset: int, ids: Seq<u64>, n: int, at: int)
    requires
        0 <= n <= ids.len(),
        0 <= at < program.len(),
        0 <= offset,
        !(offset <= at < offset + 8 * ids.len()),
    ensures
        placed(program, offset, ids, n).len() == program.len(),
        placed(program, offset, ids, n)[at] == program[at],
    decreases n,
{
    broadcast use bytes::group_le;

    if n > 0 {
        lemma_placed(program, offset, ids, n - 1, at);
        lemma_slot_bound(ids, n - 1);
    }
}

proof fn lemma_patched(
    program: Seq<u8>,
    patches: Seq<(usize, u16)>,
    ids: Seq<u64>,
    n: int,
    at: int,
)
    requires
        0 <= n <= patches.len(),
        0 <= at < program.len(),
        forall|i: int|
            0 <= i < patches.len() ==> !((#[trigger] patches[i]).0 <= at < patches[i].0 + 2),
    ensures
        patched(program, patches, ids, n).len() == program.len(),
        patched(program, patches, ids, n)[at] == program[at],
    decreases n,
{
    broadcast use bytes::group_le;

    if n > 0 {
        lemma_patched(program, patches, ids, n - 1, at);
        assert(!(patches[n - 1].0 <= at < patches[n - 1].0 + 2));
    }
}

/// The bound table array holds each ID in its slot, and the slots follow the
/// order of the IDs.
pub proof fn binding_sorts_the_table_array(
    template: Seq<u8>,
    table_offset: int,
    patches: Seq<(usize, u16)>,
    ids: Seq<u64>,
    d: int,
    other: int,
)
    requires
        array_fits(template, table_offset, ids),
        0 <= table_offset,
        distinct(ids),
        patches_fit(template, table_offset, patches, ids),
        0 <= d < ids.len(),
        0 <= other < ids.len(),
    ensures
        bytes::part(
            bound_program(template, table_offset, patches, ids),
            table_offset + 8 * slot(ids, d),
            8,
        ) == bytes::le64(ids[d]),
        ids[d] < ids[other] <==> slot(ids, d) < slot(ids, other),
{
    broadcast use bytes::group_le;

    lemma_slot_bound(ids, d);
    lemma_slot_order(ids, d, other);
    lemma_slot_order(ids, other, d);
    let array = placed(template, table_offset, ids, ids.len() as int);
    let program = bound_program(template, table_offset, patches, ids);
    let start = table_offset + 8 * slot(ids, d);
    lemma_placed_at(template, table_offset, ids, ids.len() as int, d);
    assert forall|i: int| start <= i < start + 8 implies program[i] == array[i] by {
        assert forall|k: int| 0 <= k < patches.len() implies !((#[trigger] patches[k]).0 <= i
            < patches[k].0 + 2) by {
            let (offset, declaration) = patches[k];
        }
        lemma_patched(array, patches, ids, patches.len() as int, i);
    }
    lemma_patched_len(array, patches, ids, patches.len() as int);
    assert(bytes::part(program, start, 8) =~= bytes::le64(ids[d]));
}

proof fn lemma_patched_len(program: Seq<u8>, patches: Seq<(usize, u16)>, ids: Seq<u64>, n: int)
    ensures
        patched(program, patches, ids, n).len() == program.len(),
    decreases n,
{
    if n > 0 {
        lemma_patched_len(program, patches, ids, n - 1);
    }
}

/// The slots of distinct IDs are all places.
pub proof fn lemma_slots_cover(ids: Seq<u64>, k: int) -> (d: int)
    requires
        distinct(ids),
        0 <= k < ids.len(),
    ensures
        0 <= d < ids.len(),
        slot(ids, d) == k,
{
    let n = ids.len() as int;
    let places = set_int_range(0, n);
    lemma_int_range(0, n);
    let f = |d: int| slot(ids, d);
    let image = places.map(f);
    assert(vstd::relations::injective_on(f, places)) by {
        assert forall|a: int, b: int| places.contains(a) && places.contains(b) && #[trigger] f(a)
            == #[trigger] f(b) implies a == b by {
            if a != b {
                if a < b {
                    assert(ids[a] != ids[b]);
                } else {
                    assert(ids[b] != ids[a]);
                }
                lemma_slot_order(ids, a, b);
                lemma_slot_order(ids, b, a);
            }
        }
    }
    lemma_map_size(places, image, f);
    assert(image.subset_of(places)) by {
        assert forall|x: int| image.contains(x) implies places.contains(x) by {
            let d = choose|d: int| places.contains(d) && x == f(d);
            lemma_slot_bound(ids, d);
        }
    }
    lemma_subset_equality(image, places);
    assert(image.contains(k));
    let d = choose|d: int| places.contains(d) && k == f(d);
    d
}

/// A smaller ID has a smaller slot.
pub proof fn lemma_slot_order(ids: Seq<u64>, d: int, other: int)
    requires
        0 <= d < ids.len(),
        0 <= other < ids.len(),
    ensures
        ids[d] < ids[other] ==> slot(ids, d) < slot(ids, other),
        ids[d] == ids[other] ==> slot(ids, d) == slot(ids, other),
{
    if ids[d] < ids[other] {
        lemma_below_grows(ids, ids[d], ids[other], ids.len() as int, d);
    }
}

proof fn lemma_below_grows(ids: Seq<u64>, a: u64, b: u64, n: int, d: int)
    requires
        a < b,
        0 <= n <= ids.len(),
        0 <= d < ids.len(),
        ids[d] == a,
    ensures
        below(ids, a, n) <= below(ids, b, n),
        d < n ==> below(ids, a, n) < below(ids, b, n),
    decreases n,
{
    if n > 0 {
        lemma_below_grows(ids, a, b, n - 1, d);
    }
}

proof fn lemma_placed_at(program: Seq<u8>, offset: int, ids: Seq<u64>, n: int, d: int)
    requires
        0 <= d < n <= ids.len(),
        0 <= offset,
        offset + 8 * ids.len() <= program.len(),
        distinct(ids),
    ensures
        placed(program, offset, ids, n).len() == program.len(),
        forall|i: int|
            offset + 8 * slot(ids, d) <= i < offset + 8 * slot(ids, d) + 8 ==> #[trigger] placed(
                program,
                offset,
                ids,
                n,
            )[i] == bytes::le64(ids[d])[i - offset - 8 * slot(ids, d)],
    decreases n,
{
    broadcast use bytes::group_le;

    lemma_slot_bound(ids, d);
    lemma_slot_bound(ids, n - 1);
    if d == n - 1 {
        lemma_placed_len(program, offset, ids, n - 1);
    } else {
        lemma_placed_at(program, offset, ids, n - 1, d);
        assert(ids[d] != ids[n - 1]);
        lemma_slot_order(ids, d, n - 1);
        lemma_slot_order(ids, n - 1, d);
        assert(slot(ids, d) != slot(ids, n - 1));
    }
}

proof fn lemma_placed_len(program: Seq<u8>, offset: int, ids: Seq<u64>, n: int)
    ensures
        placed(program, offset, ids, n).len() == program.len(),
    decreases n,
{
    if n > 0 {
        lemma_placed_len(program, offset, ids, n - 1);
    }
}

/// Whether `ids` are reordered to `other`, where declaration `d` becomes
/// declaration `order[d]`.
pub open spec fn reordered(ids: Seq<u64>, other: Seq<u64>, order: Seq<int>) -> bool {
    &&& other.len() == ids.len()
    &&& order.len() == ids.len()
    &&& order.no_duplicates()
    &&& forall|d: int|
        0 <= d < ids.len() ==> 0 <= #[trigger] order[d] < other.len() && other[order[d]] == ids[d]
}

/// The patches of reordered declarations.
pub open spec fn redirected(patches: Seq<(usize, u16)>, order: Seq<int>) -> Seq<(usize, u16)> {
    patches.map_values(|p: (usize, u16)| (p.0, order[p.1 as int] as u16))
}

/// Every declaration is one of the reordered ones.
proof fn lemma_order_covers(ids: Seq<u64>, other: Seq<u64>, order: Seq<int>, k: int) -> (d: int)
    requires
        reordered(ids, other, order),
        0 <= k < other.len(),
    ensures
        0 <= d < ids.len(),
        order[d] == k,
{
    let n = ids.len() as int;
    let places = set_int_range(0, n);
    lemma_int_range(0, n);
    let f = |d: int| order[d];
    let image = places.map(f);
    assert(vstd::relations::injective_on(f, places));
    lemma_map_size(places, image, f);
    assert(image.subset_of(places)) by {
        assert forall|x: int| image.contains(x) implies places.contains(x) by {
            let d = choose|d: int| places.contains(d) && x == f(d);
            assert(0 <= order[d] < other.len());
        }
    }
    lemma_subset_equality(image, places);
    assert(image.contains(k));
    choose|d: int| places.contains(d) && k == f(d)
}

/// The slot of a declaration does not depend on the order of the declarations.
proof fn lemma_same_slot(ids: Seq<u64>, other: Seq<u64>, order: Seq<int>, d: int)
    requires
        reordered(ids, other, order),
        0 <= d < ids.len(),
    ensures
        slot(other, order[d]) == slot(ids, d),
{
    let n = ids.len() as int;
    let id = ids[d];
    lemma_below_is_count(ids, id, n);
    lemma_below_is_count(other, id, n);
    let a = Set::<int>::new(|j: int| 0 <= j < n && ids[j] < id);
    let b = Set::<int>::new(|j: int| 0 <= j < n && other[j] < id);
    let f = |j: int| order[j];
    assert(vstd::relations::injective_on(f, a));
    assert(a.map(f) =~= b) by {
        assert forall|k: int| b.contains(k) implies a.map(f).contains(k) by {
            let j = lemma_order_covers(ids, other, order, k);
            assert(a.contains(j) && f(j) == k);
        }
        assert forall|k: int| a.map(f).contains(k) implies b.contains(k) by {
            let j = choose|j: int| a.contains(j) && k == f(j);
            assert(0 <= order[j] < other.len() && other[order[j]] == ids[j]);
        }
    }
    lemma_map_size(a, b, f);
    assert(other[order[d]] == id);
}

proof fn lemma_same_array(
    template: Seq<u8>,
    offset: int,
    ids: Seq<u64>,
    other: Seq<u64>,
    order: Seq<int>,
)
    requires
        reordered(ids, other, order),
        distinct(ids),
        distinct(other),
        0 <= offset,
        array_fits(template, offset, ids),
    ensures
        placed(template, offset, ids, ids.len() as int) == placed(
            template,
            offset,
            other,
            other.len() as int,
        ),
{
    let n = ids.len() as int;
    let a = placed(template, offset, ids, n);
    let b = placed(template, offset, other, n);
    lemma_placed_len(template, offset, ids, n);
    lemma_placed_len(template, offset, other, n);
    assert forall|at: int| 0 <= at < template.len() implies #[trigger] a[at] == b[at] by {
        if offset <= at < offset + 8 * n {
            let k = (at - offset) / 8;
            assert(0 <= k < n && offset + 8 * k <= at < offset + 8 * k + 8);
            let d = lemma_slots_cover(ids, k);
            lemma_same_slot(ids, other, order, d);
            assert(0 <= order[d] < other.len() && other[order[d]] == ids[d]);
            lemma_placed_at(template, offset, ids, n, d);
            lemma_placed_at(template, offset, other, n, order[d]);
        } else {
            lemma_placed(template, offset, ids, n, at);
            lemma_placed(template, offset, other, n, at);
        }
    }
    assert(a =~= b);
}

proof fn lemma_same_patches(
    program: Seq<u8>,
    patches: Seq<(usize, u16)>,
    ids: Seq<u64>,
    other: Seq<u64>,
    order: Seq<int>,
    n: int,
)
    requires
        reordered(ids, other, order),
        ids.len() <= 65535,
        0 <= n <= patches.len(),
        forall|i: int| 0 <= i < patches.len() ==> (#[trigger] patches[i]).1 < ids.len(),
    ensures
        patched(program, patches, ids, n) == patched(
            program,
            redirected(patches, order),
            other,
            n,
        ),
    decreases n,
{
    if n > 0 {
        lemma_same_patches(program, patches, ids, other, order, n - 1);
        let d = patches[n - 1].1 as int;
        assert(patches[n - 1].1 < ids.len());
        assert(0 <= order[d] < other.len());
        lemma_same_slot(ids, other, order, d);
        assert(redirected(patches, order)[n - 1] == (patches[n - 1].0, order[d] as u16));
    }
}

/// The bound program does not depend on the order in which the tables were
/// declared: where the declarations are reordered, and the patches with them,
/// binding gives the same transaction.
pub proof fn binding_ignores_the_order_of_declarations(
    template: Seq<u8>,
    table_offset: int,
    patches: Seq<(usize, u16)>,
    ids: Seq<u64>,
    arguments: Seq<u8>,
    transaction: Transaction,
    other: Seq<u64>,
    order: Seq<int>,
    bound: Result<Transaction, BuildError>,
)
    requires
        0 <= table_offset,
        binding(
            template,
            table_offset,
            patches,
            ids,
            arguments,
            Ok::<Transaction, BuildError>(transaction),
        ),
        reordered(ids, other, order),
        binding(
            template,
            table_offset,
            redirected(patches, order),
            other,
            arguments,
            bound,
        ),
    ensures
        bound matches Ok(same) && same@ == transaction@,
{
    let list = redirected(patches, order);
    assert(distinct(other)) by {
        assert forall|i: int, j: int| 0 <= i < j < other.len() implies #[trigger] other[i]
            != #[trigger] other[j] by {
            let a = lemma_order_covers(ids, other, order, i);
            let b = lemma_order_covers(ids, other, order, j);
            assert(ids[a] == other[i] && ids[b] == other[j]);
            if a < b {
                assert(ids[a] != ids[b]);
            } else {
                assert(ids[b] != ids[a]);
            }
        }
    }
    assert(ids_allowed(other)) by {
        assert forall|i: int| 0 <= i < other.len() implies !reserved_id(#[trigger] other[i]) by {
            let a = lemma_order_covers(ids, other, order, i);
            assert(!reserved_id(ids[a]));
        }
    }
    assert forall|i: int| 0 <= i < patches.len() implies (#[trigger] patches[i]).1 < ids.len() by {
        let (offset, declaration) = patches[i];
    }
    assert(patches_fit(template, table_offset, list, other)) by {
        assert forall|i: int| 0 <= i < list.len() implies {
            let (offset, declaration) = #[trigger] list[i];
            declaration < other.len() && table_offset + 8 * other.len() <= offset && offset + 2
                <= template.len()
        } by {
            let (offset, declaration) = patches[i];
            assert(0 <= order[declaration as int] < other.len());
        }
    }
    if let Err(BuildError::DuplicateTableId(id)) = bound {
        let (i, j) = choose|i: int, j: int|
            0 <= i < j < other.len() && other[i] == id && #[trigger] other[j]
                == #[trigger] other[i];
        assert(other[i] != other[j]);
    }
    lemma_same_array(template, table_offset, ids, other, order);
    lemma_same_patches(
        placed(template, table_offset, ids, ids.len() as int),
        patches,
        ids,
        other,
        order,
        patches.len() as int,
    );
}

} // verus!
