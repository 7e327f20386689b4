//! The table array of a program container.

use super::Error;
use crate::bind;
use crate::bytes;
use crate::bytes::{read_u16, read_u32, read_u64, same_bytes, zero_between};
use crate::compiler::bytecode;
use vstd::prelude::*;

verus! {

pub const SHORT_PROGRAM: &'static str = "truncated program";

pub const BAD_PROGRAM: &'static str = "invalid program header";

pub const BAD_TABLES: &'static str = "invalid program table IDs";

/// Whether table IDs ascend, and none is reserved.
pub open spec fn ordered_ids(ids: Seq<u64>) -> bool {
    &&& forall|i: int| 0 <= i < ids.len() ==> !bind::reserved_id(#[trigger] ids[i])
    &&& forall|i: int, j: int| 0 <= i < j < ids.len() ==> #[trigger] ids[i] < #[trigger] ids[j]
}

/// Where the table array of a program starts.
pub open spec fn table_start(program: Seq<u8>) -> int {
    36 + bytes::un32(bytes::part(program, 32, 4))
}

/// How many tables a program has.
pub open spec fn table_count(program: Seq<u8>) -> nat {
    bytes::un16(bytes::part(program, 20, 2)) as nat
}

/// The table IDs of a program, or the first rule that its header breaks.
pub open spec fn tables_of(program: Seq<u8>) -> Result<Seq<u64>, Error> {
    if program.len() < 36 {
        Err(Error::Invalid(SHORT_PROGRAM))
    } else if bytes::part(program, 0, 8) != bytecode::magic() {
        Err(Error::Invalid(BAD_PROGRAM))
    } else if bytes::un16(bytes::part(program, 8, 2)) != 1 {
        Err(
            Error::Unsupported {
                format: "program",
                version: bytes::un16(bytes::part(program, 8, 2)),
            },
        )
    } else if bytes::part(program, 10, 2) != bytes::zeros(2) || bytes::part(program, 28, 4)
        != bytes::zeros(4) || bytes::un32(bytes::part(program, 12, 4)) != program.len() {
        Err(Error::Invalid(BAD_PROGRAM))
    } else if table_start(program) + 8 * table_count(program) > program.len() {
        Err(Error::Invalid(SHORT_PROGRAM))
    } else if !ordered_ids(bytes::un64s(program, table_start(program), table_count(program))) {
        Err(Error::Invalid(BAD_TABLES))
    } else {
        Ok(bytes::un64s(program, table_start(program), table_count(program)))
    }
}

/// The eight bytes at the front of a program.
fn magic_bytes() -> (magic: Vec<u8>)
    ensures
        magic@ == bytecode::magic(),
{
    let mut magic: Vec<u8> = Vec::new();
    magic.push(0x42);
    magic.push(0x4c);
    magic.push(0x4f);
    magic.push(0x50);
    magic.push(0x56);
    magic.push(0x4d);
    magic.push(0x30);
    magic.push(0x31);
    assert(magic@ =~= bytecode::magic());
    magic
}

/// The table IDs of a program.
pub fn transaction_tables(program: &[u8]) -> (tables: Result<Vec<u64>, Error>)
    ensures
        match tables {
            Ok(tables) => tables_of(program@) == Ok::<Seq<u64>, Error>(tables@) && tables@.len()
                <= 65535,
            Err(e) => tables_of(program@) == Err::<Seq<u64>, Error>(e),
        },
{
    if program.len() < 36 {
        return Err(Error::Invalid(SHORT_PROGRAM));
    }
    let magic = magic_bytes();
    if !same_bytes(&program[0..8], magic.as_slice()) {
        return Err(Error::Invalid(BAD_PROGRAM));
    }
    let version: u16 = read_u16(program, 8);
    if version != 1 {
        return Err(Error::Unsupported { format: "program", version });
    }
    if !zero_between(program, 10, 12) || !zero_between(program, 28, 32) || read_u32(program, 12)
        as u64 != program.len() as u64 {
        return Err(Error::Invalid(BAD_PROGRAM));
    }
    let count: usize = read_u16(program, 20) as usize;
    let described: u64 = read_u32(program, 32) as u64;
    if described + 36 + 8 * (count as u64) > program.len() as u64 {
        return Err(Error::Invalid(SHORT_PROGRAM));
    }
    let start: usize = 36 + described as usize;
    let ghost ids = bytes::un64s(program@, start as int, count as nat);
    let mut tables: Vec<u64> = Vec::new();
    let mut i: usize = 0;
    while i < count
        invariant
            i <= count <= 65535,
            start + 8 * count <= program@.len() <= u32::MAX,
            start == table_start(program@),
            count == table_count(program@),
            program@.len() >= 36,
            ids == bytes::un64s(program@, start as int, count as nat),
            tables@ == ids.subrange(0, i as int),
            forall|k: int| 0 <= k < i ==> !bind::reserved_id(#[trigger] ids[k]),
            forall|k: int, l: int| 0 <= k < l < i ==> #[trigger] ids[k] < #[trigger] ids[l],
            !ordered_ids(ids) ==> tables_of(program@) == Err::<Seq<u64>, Error>(
                Error::Invalid(BAD_TABLES),
            ),
        decreases count - i,
    {
        let id: u64 = read_u64(program, start + 8 * i);
        assert(id == ids[i as int]);
        if id == 0 || id == u64::MAX {
            assert(!ordered_ids(ids));
            return Err(Error::Invalid(BAD_TABLES));
        }
        if i > 0 && tables[i - 1] >= id {
            assert(!(ids[i - 1] < ids[i as int]));
            assert(!ordered_ids(ids));
            return Err(Error::Invalid(BAD_TABLES));
        }
        tables.push(id);
        i += 1;
        assert(tables@ =~= ids.subrange(0, i as int));
    }
    assert(tables@ =~= ids);
    Ok(tables)
}

} // verus!
