//! Canonical record bodies for the serial writer and replay.
//!
//! Every transaction declares exactly one read/write table scope for every
//! table of its program, including unused declarations. Decoding rejects every
//! other manifest rather than discarding or trusting unverified declarations.

use crate::bind::{Transaction, TransactionModel};
use crate::bytes;
use crate::bytes::{
    push_bytes, push_u32, push_u64, read_u16, read_u32, read_u64, same_bytes, to_vec,
};
use crate::compiler::types;
use crate::compiler::types::Shape;
use crate::external::utf8_text;
use crate::storage;
use crate::storage::{push_values, read_values, LimitPolicy};
use crate::vm::catalogue;
use crate::vm::catalogue::{valid_name_bytes, OperationModel};
use crate::vm::program;
use crate::vm::types as stored_types;
use crate::vm::{transaction_tables, validate_catalogue, CatalogueOperation, Error, Type};
use vstd::prelude::*;
use vstd::utf8::*;

verus! {

pub const MAX_RECORD_LENGTH: usize = 67108864;

/// The length of a log record around its body.
pub const RECORD_OVERHEAD: usize = 72;

pub const RECORD_TOO_LONG: &'static str = "log record exceeds 64 MiB";

pub const UNKNOWN_KIND: &'static str = "unknown record kind";

pub const TRUNCATED: &'static str = "truncated record body";

pub const EXCEEDS_CLAIMS: &'static str = "transaction bytes exceed claims";

pub const TOO_MANY_SCOPES: &'static str = "manifest_scopes exceeds claim";

pub const OTHER_MANIFEST: &'static str = "manifest does not match broad table profile";

pub const TRANSACTION_RESERVED: &'static str = "nonzero transaction reserved field";

pub const ADMINISTRATIVE_RESERVED: &'static str = "nonzero administrative reserved field";

pub const POLICY_RESERVED: &'static str = "nonzero limit policy reserved field";

pub const UNKNOWN_OPERATION: &'static str = "unknown catalogue operation";

pub const BAD_UTF8: &'static str = "invalid UTF-8 table name";

pub const TRAILING: &'static str = "trailing record body bytes";

pub const RESERVED_SEQUENCE: &'static str = "reserved record sequence";

/// What a record asks for.
#[derive(Debug, PartialEq, Eq)]
pub enum Command {
    Transaction { transaction: Transaction, claims: LimitPolicy },
    Catalogue(CatalogueOperation),
    Limits(LimitPolicy),
}

/// The model of a [`Command`].
pub enum CommandModel {
    Transaction { transaction: TransactionModel, claims: Seq<u64> },
    Catalogue(OperationModel),
    Limits(Seq<u64>),
}

impl Command {
    pub open spec fn view(&self) -> CommandModel {
        match self {
            Command::Transaction { transaction, claims } => CommandModel::Transaction {
                transaction: transaction@,
                claims: claims@,
            },
            Command::Catalogue(operation) => CommandModel::Catalogue(operation@),
            Command::Limits(policy) => CommandModel::Limits(policy@),
        }
    }
}

// ---- The access manifest -------------------------------------------------

/// The entries of a manifest: each table may be read and written as a whole.
pub open spec fn table_entries(tables: Seq<u64>) -> Seq<u8>
    decreases tables.len(),
{
    if tables.len() == 0 {
        Seq::empty()
    } else {
        table_entries(tables.drop_last()) + bytes::le64(tables.last()) + seq![
            0u8,
            3u8,
            0u8,
            0u8,
            0u8,
            0u8,
            0u8,
            0u8,
        ]
    }
}

/// A manifest: the number of entries, then the entries.
pub open spec fn broad_manifest(tables: Seq<u64>) -> Seq<u8> {
    bytes::le32(tables.len() as u32) + table_entries(tables)
}

/// The manifest of a transaction, or the first rule that it breaks.
pub open spec fn manifest_of(transaction: TransactionModel, claims: Seq<u64>) -> Result<
    Seq<u8>,
    Error,
> {
    if transaction.program.len() > claims[0] || transaction.arguments.len() > claims[4] {
        Err(Error::Invalid(EXCEEDS_CLAIMS))
    } else {
        match program::tables_of(transaction.program) {
            Err(e) => Err(e),
            Ok(tables) => if tables.len() > claims[6] {
                Err(Error::Invalid(TOO_MANY_SCOPES))
            } else {
                Ok(broad_manifest(tables))
            },
        }
    }
}

/// The manifest of a transaction.
pub fn access_manifest(transaction: &Transaction, claims: &LimitPolicy) -> (manifest: Result<
    Vec<u8>,
    Error,
>)
    ensures
        match manifest {
            Ok(manifest) => manifest_of(transaction@, claims@) == Ok::<Seq<u8>, Error>(manifest@)
                && manifest@.len() <= 4 + 16 * 16384,
            Err(e) => manifest_of(transaction@, claims@) == Err::<Seq<u8>, Error>(e),
        },
{
    broadcast use bytes::group_le;

    let values = claims.values();
    if transaction.program_bytes().len() as u64 > values[0] || transaction.argument_bytes().len()
        as u64 > values[4] {
        return Err(Error::Invalid(EXCEEDS_CLAIMS));
    }
    let tables = transaction_tables(transaction.program_bytes())?;
    if tables.len() as u64 > values[6] {
        return Err(Error::Invalid(TOO_MANY_SCOPES));
    }
    assert(values@[6] <= storage::CEILINGS@[6]);
    let mut manifest: Vec<u8> = Vec::new();
    push_u32(&mut manifest, tables.len() as u32);
    let ghost count = bytes::le32(tables@.len() as u32);
    let mut i: usize = 0;
    assert(tables@.subrange(0, 0) =~= Seq::empty());
    assert(manifest@ =~= count + table_entries(tables@.subrange(0, 0)));
    while i < tables.len()
        invariant
            i <= tables@.len(),
            count.len() == 4,
            forall|v: u64| (#[trigger] bytes::le64(v)).len() == 8,
            manifest@.len() == 4 + 16 * i,
            manifest@ == count + table_entries(tables@.subrange(0, i as int)),
        decreases tables@.len() - i,
    {
        push_u64(&mut manifest, tables[i]);
        manifest.push(0);
        manifest.push(3);
        bytes::push_zeros(&mut manifest, 6);
        i += 1;
        assert(tables@.subrange(0, i as int).drop_last() =~= tables@.subrange(0, i - 1));
        assert(manifest@ =~= count + table_entries(tables@.subrange(0, i as int)));
    }
    assert(tables@.subrange(0, tables@.len() as int) =~= tables@);
    Ok(manifest)
}

// ---- Encoding ------------------------------------------------------------

/// The body of a transaction record.
pub open spec fn transaction_body(
    transaction: TransactionModel,
    manifest: Seq<u8>,
    claims: Seq<u64>,
) -> Seq<u8> {
    seq![1u8, 0u8, 0u8, 0u8] + bytes::blob(transaction.program) + bytes::blob(transaction.arguments)
        + bytes::blob(manifest) + bytes::le64s(claims)
}

/// The body of a catalogue record.
pub open spec fn catalogue_body(operation: OperationModel) -> Seq<u8> {
    match operation {
        OperationModel::Create { name, key, value } => seq![1u8, 0u8, 1u8, 0u8] + bytes::blob(
            encode_utf8(name),
        ) + bytes::blob(types::descriptor(key)) + bytes::blob(types::descriptor(value)),
        OperationModel::Rename { table, name } => seq![1u8, 0u8, 2u8, 0u8] + bytes::le64(table)
            + bytes::blob(encode_utf8(name)),
        OperationModel::Drop { table } => seq![1u8, 0u8, 3u8, 0u8] + bytes::le64(table),
    }
}

/// The kind and the body of the record of a command, or why it has none.
pub open spec fn body_of(command: CommandModel) -> Result<(u8, Seq<u8>), Error> {
    match command {
        CommandModel::Transaction { transaction, claims } => match manifest_of(
            transaction,
            claims,
        ) {
            Err(e) => Err(e),
            Ok(manifest) => Ok((1u8, transaction_body(transaction, manifest, claims))),
        },
        CommandModel::Catalogue(operation) => match catalogue::operation_fault(operation) {
            Some(reason) => Err(Error::Invalid(reason)),
            None => Ok((2u8, catalogue_body(operation))),
        },
        CommandModel::Limits(policy) => Ok((3u8, storage::policy_bytes(policy))),
    }
}

/// Append a blob.
fn push_blob(out: &mut Vec<u8>, value: &[u8])
    requires
        value@.len() <= u32::MAX,
    ensures
        final(out)@ == old(out)@ + bytes::blob(value@),
{
    push_u32(out, value.len() as u32);
    push_bytes(out, value);
    assert(out@ =~= old(out)@ + bytes::blob(value@));
}

/// The kind and the body of the record of a command.
pub fn encode(command: &Command) -> (record: Result<(u8, Vec<u8>), Error>)
    ensures
        match record {
            Ok((kind, body)) => body_of(command@) == Ok::<(u8, Seq<u8>), Error>((kind, body@)),
            Err(e) => body_of(command@) == Err::<(u8, Seq<u8>), Error>(e),
        },
{
    match command {
        Command::Transaction { transaction, claims } => {
            let manifest = access_manifest(transaction, claims)?;
            let values = claims.values();
            assert(values@[0] <= storage::CEILINGS@[0] && values@[4] <= storage::CEILINGS@[4]);
            let mut body: Vec<u8> = Vec::new();
            body.push(1);
            bytes::push_zeros(&mut body, 3);
            assert(body@ =~= seq![1u8, 0u8, 0u8, 0u8]);
            push_blob(&mut body, transaction.program_bytes());
            push_blob(&mut body, transaction.argument_bytes());
            push_blob(&mut body, manifest.as_slice());
            push_values(&mut body, values);
            Ok((1, body))
        },
        Command::Catalogue(operation) => {
            validate_catalogue(operation)?;
            let mut body: Vec<u8> = Vec::new();
            body.push(1);
            body.push(0);
            match operation {
                CatalogueOperation::Create { name, key, value } => {
                    body.push(1);
                    body.push(0);
                    assert(body@ =~= seq![1u8, 0u8, 1u8, 0u8]);
                    push_blob(&mut body, name.as_str().as_bytes());
                    push_blob(&mut body, key.descriptor().as_slice());
                    push_blob(&mut body, value.descriptor().as_slice());
                },
                CatalogueOperation::Rename { table, name } => {
                    body.push(2);
                    body.push(0);
                    assert(body@ =~= seq![1u8, 0u8, 2u8, 0u8]);
                    push_u64(&mut body, *table);
                    push_blob(&mut body, name.as_str().as_bytes());
                },
                CatalogueOperation::Drop { table } => {
                    body.push(3);
                    body.push(0);
                    assert(body@ =~= seq![1u8, 0u8, 3u8, 0u8]);
                    push_u64(&mut body, *table);
                },
            }
            Ok((2, body))
        },
        Command::Limits(policy) => Ok((3, policy.encode())),
    }
}

// ---- Decoding ------------------------------------------------------------

/// The blob at `at`, and where it ends.
pub open spec fn blob_at(s: Seq<u8>, at: int) -> Result<(Seq<u8>, int), Error> {
    if at + 4 > s.len() {
        Err(Error::Invalid(TRUNCATED))
    } else {
        let n = bytes::un32(bytes::part(s, at, 4));
        if at + 4 + n > s.len() {
            Err(Error::Invalid(TRUNCATED))
        } else {
            Ok((bytes::part(s, at + 4, n as int), at + 4 + n))
        }
    }
}

/// The name at `at`, and where it ends.
pub open spec fn name_at(s: Seq<u8>, at: int) -> Result<(Seq<char>, int), Error> {
    match blob_at(s, at) {
        Err(e) => Err(e),
        Ok((name, end)) => if !catalogue::name_bytes(name) {
            Err(Error::Invalid(catalogue::BAD_NAME))
        } else if !valid_utf8(name) {
            Err(Error::Invalid(BAD_UTF8))
        } else {
            Ok((decode_utf8(name), end))
        },
    }
}

/// The type at `at`, and where its descriptor ends.
pub open spec fn type_at(s: Seq<u8>, at: int) -> Result<(Shape, int), Error> {
    match blob_at(s, at) {
        Err(e) => Err(e),
        Ok((descriptor, end)) => match stored_types::type_of(descriptor) {
            Err(e) => Err(e),
            Ok(shape) => Ok((shape, end)),
        },
    }
}

/// The policy at `at`, and where it ends.
pub open spec fn budget_at(s: Seq<u8>, at: int) -> Result<(Seq<u64>, int), Error> {
    if at + 136 > s.len() {
        Err(Error::Invalid(TRUNCATED))
    } else if !storage::allowed(bytes::un64s(s, at, 17)) {
        Err(Error::Invalid(storage::ABOVE_CEILING))
    } else {
        Ok((bytes::un64s(s, at, 17), at + 136))
    }
}

/// The table ID at `at`, and where it ends.
pub open spec fn id_at(s: Seq<u8>, at: int) -> Result<(u64, int), Error> {
    if at + 8 > s.len() {
        Err(Error::Invalid(TRUNCATED))
    } else {
        Ok((bytes::un64(bytes::part(s, at, 8)), at + 8))
    }
}

/// The transaction in a body, and where it ends.
pub open spec fn transaction_in(s: Seq<u8>) -> Result<(CommandModel, int), Error> {
    if s.len() < 4 {
        Err(Error::Invalid(TRUNCATED))
    } else if s[2] != 0 || s[3] != 0 {
        Err(Error::Invalid(TRANSACTION_RESERVED))
    } else {
        match blob_at(s, 4) {
            Err(e) => Err(e),
            Ok((program, a)) => match blob_at(s, a) {
                Err(e) => Err(e),
                Ok((arguments, b)) => match blob_at(s, b) {
                    Err(e) => Err(e),
                    Ok((manifest, c)) => match budget_at(s, c) {
                        Err(e) => Err(e),
                        Ok((claims, end)) => {
                            let transaction = TransactionModel { program, arguments };
                            match manifest_of(transaction, claims) {
                                Err(e) => Err(e),
                                Ok(expected) => if manifest != expected {
                                    Err(Error::Invalid(OTHER_MANIFEST))
                                } else {
                                    Ok((CommandModel::Transaction { transaction, claims }, end))
                                },
                            }
                        },
                    },
                },
            },
        }
    }
}

/// The operation in a body, before it is checked, and where it ends.
pub open spec fn operation_in(s: Seq<u8>) -> Result<(OperationModel, int), Error> {
    if s.len() < 4 {
        Err(Error::Invalid(TRUNCATED))
    } else if s[3] != 0 {
        Err(Error::Invalid(ADMINISTRATIVE_RESERVED))
    } else if s[2] == 1 {
        match name_at(s, 4) {
            Err(e) => Err(e),
            Ok((name, a)) => match type_at(s, a) {
                Err(e) => Err(e),
                Ok((key, b)) => match type_at(s, b) {
                    Err(e) => Err(e),
                    Ok((value, end)) => Ok((OperationModel::Create { name, key, value }, end)),
                },
            },
        }
    } else if s[2] == 2 {
        match id_at(s, 4) {
            Err(e) => Err(e),
            Ok((table, a)) => match name_at(s, a) {
                Err(e) => Err(e),
                Ok((name, end)) => Ok((OperationModel::Rename { table, name }, end)),
            },
        }
    } else if s[2] == 3 {
        match id_at(s, 4) {
            Err(e) => Err(e),
            Ok((table, end)) => Ok((OperationModel::Drop { table }, end)),
        }
    } else {
        Err(Error::Invalid(UNKNOWN_OPERATION))
    }
}

/// The catalogue command in a body, and where it ends.
pub open spec fn catalogue_in(s: Seq<u8>) -> Result<(CommandModel, int), Error> {
    match operation_in(s) {
        Err(e) => Err(e),
        Ok((operation, end)) => match catalogue::operation_fault(operation) {
            Some(reason) => Err(Error::Invalid(reason)),
            None => Ok((CommandModel::Catalogue(operation), end)),
        },
    }
}

/// The policy in a body, and where it ends.
pub open spec fn limits_in(s: Seq<u8>) -> Result<(CommandModel, int), Error> {
    if s.len() < 4 {
        Err(Error::Invalid(TRUNCATED))
    } else if s[2] != 0 || s[3] != 0 {
        Err(Error::Invalid(POLICY_RESERVED))
    } else {
        match budget_at(s, 4) {
            Err(e) => Err(e),
            Ok((policy, end)) => Ok((CommandModel::Limits(policy), end)),
        }
    }
}

/// What bodies of a kind are called.
pub open spec fn format_of(kind: u8) -> &'static str {
    if kind == 1 {
        "transaction"
    } else if kind == 2 {
        "administrative"
    } else {
        "limit policy"
    }
}

/// The command in the body of a record, or the first rule that it breaks.
pub open spec fn command_of(kind: u8, s: Seq<u8>) -> Result<CommandModel, Error> {
    if !(1 <= kind <= 3) {
        Err(Error::Invalid(UNKNOWN_KIND))
    } else if s.len() > MAX_RECORD_LENGTH - RECORD_OVERHEAD {
        Err(Error::Invalid(RECORD_TOO_LONG))
    } else if s.len() < 2 {
        Err(Error::Invalid(TRUNCATED))
    } else if bytes::un16(bytes::part(s, 0, 2)) != 1 {
        Err(
            Error::Unsupported {
                format: format_of(kind),
                version: bytes::un16(bytes::part(s, 0, 2)),
            },
        )
    } else {
        let command = if kind == 1 {
            transaction_in(s)
        } else if kind == 2 {
            catalogue_in(s)
        } else {
            limits_in(s)
        };
        match command {
            Err(e) => Err(e),
            Ok((command, end)) => if end != s.len() {
                Err(Error::Invalid(TRAILING))
            } else {
                Ok(command)
            },
        }
    }
}

/// Where the blob at `at` starts and ends.
fn read_blob(s: &[u8], at: usize) -> (range: Result<(usize, usize), Error>)
    requires
        at <= s@.len(),
    ensures
        match range {
            Ok((start, end)) => start == at + 4 && start <= end <= s@.len() && blob_at(
                s@,
                at as int,
            ) == Ok::<(Seq<u8>, int), Error>(
                (s@.subrange(start as int, end as int), end as int),
            ),
            Err(e) => blob_at(s@, at as int) == Err::<(Seq<u8>, int), Error>(e),
        },
{
    if s.len() - at < 4 {
        return Err(Error::Invalid(TRUNCATED));
    }
    let length: u64 = read_u32(s, at) as u64;
    if length > (s.len() - at - 4) as u64 {
        return Err(Error::Invalid(TRUNCATED));
    }
    Ok((at + 4, at + 4 + length as usize))
}

/// Read the name at `at`.
fn read_name(s: &[u8], at: usize) -> (name: Result<(String, usize), Error>)
    requires
        at <= s@.len(),
    ensures
        match name {
            Ok((name, end)) => name_at(s@, at as int) == Ok::<(Seq<char>, int), Error>(
                (name@, end as int),
            ) && end <= s@.len(),
            Err(e) => name_at(s@, at as int) == Err::<(Seq<char>, int), Error>(e),
        },
{
    broadcast use encode_utf8_decode_utf8;

    let (start, end) = read_blob(s, at)?;
    let name = &s[start..end];
    if !valid_name_bytes(name) {
        return Err(Error::Invalid(catalogue::BAD_NAME));
    }
    match utf8_text(name) {
        Some(text) => {
            assert(decode_utf8(encode_utf8(text@)) == text@);
            Ok((text, end))
        },
        None => Err(Error::Invalid(BAD_UTF8)),
    }
}

/// Read the type at `at`.
fn read_type(s: &[u8], at: usize) -> (ty: Result<(Type, usize), Error>)
    requires
        at <= s@.len(),
    ensures
        match ty {
            Ok((ty, end)) => type_at(s@, at as int) == Ok::<(Shape, int), Error>(
                (ty@, end as int),
            ) && end <= s@.len(),
            Err(e) => type_at(s@, at as int) == Err::<(Shape, int), Error>(e),
        },
{
    let (start, end) = read_blob(s, at)?;
    let ty = Type::decode(&s[start..end])?;
    Ok((ty, end))
}

/// Read the policy at `at`.
fn read_budget(s: &[u8], at: usize) -> (policy: Result<(LimitPolicy, usize), Error>)
    requires
        at <= s@.len(),
    ensures
        match policy {
            Ok((policy, end)) => budget_at(s@, at as int) == Ok::<(Seq<u64>, int), Error>(
                (policy@, end as int),
            ) && end <= s@.len(),
            Err(e) => budget_at(s@, at as int) == Err::<(Seq<u64>, int), Error>(e),
        },
{
    if s.len() - at < 136 {
        return Err(Error::Invalid(TRUNCATED));
    }
    match LimitPolicy::new(read_values(s, at)) {
        Ok(policy) => Ok((policy, at + 136)),
        Err(_) => Err(Error::Invalid(storage::ABOVE_CEILING)),
    }
}

/// Read the transaction in a body.
fn decode_transaction(s: &[u8]) -> (command: Result<(Command, usize), Error>)
    ensures
        match command {
            Ok((command, end)) => transaction_in(s@) == Ok::<(CommandModel, int), Error>(
                (command@, end as int),
            ),
            Err(e) => transaction_in(s@) == Err::<(CommandModel, int), Error>(e),
        },
{
    if s.len() < 4 {
        return Err(Error::Invalid(TRUNCATED));
    }
    if s[2] != 0 || s[3] != 0 {
        return Err(Error::Invalid(TRANSACTION_RESERVED));
    }
    let (p, a) = read_blob(s, 4)?;
    let (q, b) = read_blob(s, a)?;
    let (r, c) = read_blob(s, b)?;
    let (claims, end) = read_budget(s, c)?;
    let transaction = Transaction::from_parts(to_vec(&s[p..a]), to_vec(&s[q..b]));
    let manifest = access_manifest(&transaction, &claims)?;
    if !same_bytes(&s[r..c], manifest.as_slice()) {
        return Err(Error::Invalid(OTHER_MANIFEST));
    }
    Ok((Command::Transaction { transaction, claims }, end))
}

/// Read the operation in a body.
fn decode_operation(s: &[u8]) -> (operation: Result<(CatalogueOperation, usize), Error>)
    ensures
        match operation {
            Ok((operation, end)) => operation_in(s@) == Ok::<(OperationModel, int), Error>(
                (operation@, end as int),
            ),
            Err(e) => operation_in(s@) == Err::<(OperationModel, int), Error>(e),
        },
{
    if s.len() < 4 {
        return Err(Error::Invalid(TRUNCATED));
    }
    if s[3] != 0 {
        return Err(Error::Invalid(ADMINISTRATIVE_RESERVED));
    }
    if s[2] == 1 {
        let (name, a) = read_name(s, 4)?;
        let (key, b) = read_type(s, a)?;
        let (value, end) = read_type(s, b)?;
        Ok((CatalogueOperation::Create { name, key, value }, end))
    } else if s[2] == 2 {
        if s.len() < 12 {
            return Err(Error::Invalid(TRUNCATED));
        }
        let table: u64 = read_u64(s, 4);
        let (name, end) = read_name(s, 12)?;
        Ok((CatalogueOperation::Rename { table, name }, end))
    } else if s[2] == 3 {
        if s.len() < 12 {
            return Err(Error::Invalid(TRUNCATED));
        }
        Ok((CatalogueOperation::Drop { table: read_u64(s, 4) }, 12))
    } else {
        Err(Error::Invalid(UNKNOWN_OPERATION))
    }
}

/// Read the policy in a body.
fn decode_limits(s: &[u8]) -> (command: Result<(Command, usize), Error>)
    ensures
        match command {
            Ok((command, end)) => limits_in(s@) == Ok::<(CommandModel, int), Error>(
                (command@, end as int),
            ),
            Err(e) => limits_in(s@) == Err::<(CommandModel, int), Error>(e),
        },
{
    if s.len() < 4 {
        return Err(Error::Invalid(TRUNCATED));
    }
    if s[2] != 0 || s[3] != 0 {
        return Err(Error::Invalid(POLICY_RESERVED));
    }
    let (policy, end) = read_budget(s, 4)?;
    Ok((Command::Limits(policy), end))
}

/// Read the body of a record.
pub fn decode(kind: u8, body: &[u8]) -> (command: Result<Command, Error>)
    ensures
        match command {
            Ok(command) => command_of(kind, body@) == Ok::<CommandModel, Error>(command@),
            Err(e) => command_of(kind, body@) == Err::<CommandModel, Error>(e),
        },
{
    if kind < 1 || kind > 3 {
        return Err(Error::Invalid(UNKNOWN_KIND));
    }
    if body.len() > MAX_RECORD_LENGTH - RECORD_OVERHEAD {
        return Err(Error::Invalid(RECORD_TOO_LONG));
    }
    if body.len() < 2 {
        return Err(Error::Invalid(TRUNCATED));
    }
    let version: u16 = read_u16(body, 0);
    if version != 1 {
        let format = if kind == 1 {
            "transaction"
        } else if kind == 2 {
            "administrative"
        } else {
            "limit policy"
        };
        return Err(Error::Unsupported { format, version });
    }
    let (command, end) = if kind == 1 {
        decode_transaction(body)?
    } else if kind == 2 {
        let (operation, end) = decode_operation(body)?;
        validate_catalogue(&operation)?;
        (Command::Catalogue(operation), end)
    } else {
        decode_limits(body)?
    };
    if end != body.len() {
        return Err(Error::Invalid(TRAILING));
    }
    Ok(command)
}

// ---- Records are canonical -----------------------------------------------

/// Whether the parts of a command are well-formed by themselves.
pub open spec fn well_formed(command: CommandModel) -> bool {
    match command {
        CommandModel::Transaction { claims, .. } => storage::allowed(claims),
        CommandModel::Catalogue(_) => true,
        CommandModel::Limits(policy) => storage::allowed(policy),
    }
}

/// A blob is read back, whatever stands around it.
proof fn lemma_blob_read(before: Seq<u8>, value: Seq<u8>, after: Seq<u8>)
    requires
        value.len() <= u32::MAX,
    ensures
        blob_at(before + bytes::blob(value) + after, before.len() as int) == Ok::<
            (Seq<u8>, int),
            Error,
        >((value, (before.len() + 4 + value.len()) as int)),
{
    broadcast use bytes::group_le;

    let s = before + bytes::blob(value) + after;
    let at = before.len() as int;
    assert(bytes::part(s, at, 4) =~= bytes::le32(value.len() as u32));
    assert(bytes::part(s, at + 4, value.len() as int) =~= value);
}

/// What is read as a blob is one.
proof fn lemma_blob_bytes(s: Seq<u8>, at: int)
    requires
        0 <= at,
    ensures
        blob_at(s, at) matches Ok((value, end)) ==> {
            &&& at + 4 <= end <= s.len()
            &&& value.len() == end - at - 4
            &&& s.subrange(at, end) == bytes::blob(value)
        },
{
    broadcast use bytes::group_le;

    if let Ok((value, end)) = blob_at(s, at) {
        let n = bytes::un32(bytes::part(s, at, 4));
        assert(bytes::le32(n) == bytes::part(s, at, 4));
        assert(s.subrange(at, end) =~= bytes::part(s, at, 4) + value);
    }
}

proof fn lemma_entries_length(tables: Seq<u64>)
    ensures
        table_entries(tables).len() == 16 * tables.len(),
    decreases tables.len(),
{
    broadcast use bytes::group_le;

    if tables.len() > 0 {
        lemma_entries_length(tables.drop_last());
    }
}

proof fn lemma_transaction_read(transaction: TransactionModel, claims: Seq<u64>, s: Seq<u8>)
    requires
        storage::allowed(claims),
        manifest_of(transaction, claims) matches Ok(manifest) && s == transaction_body(
            transaction,
            manifest,
            claims,
        ),
    ensures
        s.len() <= MAX_RECORD_LENGTH - RECORD_OVERHEAD,
        command_of(1, s) == Ok::<CommandModel, Error>(
            CommandModel::Transaction { transaction, claims },
        ),
{
    broadcast use bytes::group_le;

    let manifest = manifest_of(transaction, claims)->Ok_0;
    let tables = program::tables_of(transaction.program)->Ok_0;
    lemma_entries_length(tables);
    assert(claims[0] <= storage::CEILINGS@[0] && claims[4] <= storage::CEILINGS@[4] && claims[6]
        <= storage::CEILINGS@[6]);
    let (p, q, m) = (
        bytes::blob(transaction.program),
        bytes::blob(transaction.arguments),
        bytes::blob(manifest),
    );
    let head = seq![1u8, 0u8, 0u8, 0u8];
    let values = bytes::le64s(claims);
    lemma_blob_read(head, transaction.program, q + m + values);
    assert(head + p + (q + m + values) =~= s);
    lemma_blob_read(head + p, transaction.arguments, m + values);
    assert(head + p + q + (m + values) =~= s);
    lemma_blob_read(head + p + q, manifest, values);
    assert(head + p + q + m + values =~= s);
    bytes::lemma_le64s(head + p + q + m, claims, Seq::empty());
    assert(head + p + q + m + values + Seq::<u8>::empty() =~= s);
    lemma_version(s);
}

/// Bodies that start with one and zero have version one.
proof fn lemma_version(s: Seq<u8>)
    ensures
        s.len() >= 2 ==> ((bytes::un16(bytes::part(s, 0, 2)) == 1) <==> (s[0] == 1 && s[1] == 0)),
{
    reveal(bytes::un16);
}

proof fn lemma_catalogue_read(operation: OperationModel, s: Seq<u8>)
    requires
        catalogue::operation_fault(operation) is None,
        s == catalogue_body(operation),
    ensures
        s.len() <= MAX_RECORD_LENGTH - RECORD_OVERHEAD,
        command_of(2, s) == Ok::<CommandModel, Error>(CommandModel::Catalogue(operation)),
{
    broadcast use {bytes::group_le, encode_utf8_decode_utf8, encode_utf8_valid_utf8};

    lemma_version(s);
    match operation {
        OperationModel::Create { name, key, value } => {
            let head = seq![1u8, 0u8, 1u8, 0u8];
            let (n, k, v) = (
                bytes::blob(encode_utf8(name)),
                bytes::blob(types::descriptor(key)),
                bytes::blob(types::descriptor(value)),
            );
            lemma_valid_with_rows(key, 1);
            lemma_valid_with_rows(value, 1);
            stored_types::descriptors_are_read_back(key);
            stored_types::descriptors_are_read_back(value);
            lemma_blob_read(head, encode_utf8(name), k + v);
            assert(head + n + (k + v) =~= s);
            lemma_blob_read(head + n, types::descriptor(key), v);
            lemma_blob_read(head + n + k, types::descriptor(value), Seq::empty());
            assert(head + n + k + v + Seq::<u8>::empty() =~= s);
        },
        OperationModel::Rename { table, name } => {
            let head = seq![1u8, 0u8, 2u8, 0u8];
            assert(bytes::part(s, 4, 8) =~= bytes::le64(table));
            lemma_blob_read(head + bytes::le64(table), encode_utf8(name), Seq::empty());
            assert(head + bytes::le64(table) + bytes::blob(encode_utf8(name)) + Seq::<u8>::empty()
                =~= s);
        },
        OperationModel::Drop { table } => {
            assert(bytes::part(s, 4, 8) =~= bytes::le64(table));
        },
    }
}

/// A type that is valid without rows is valid where they are allowed too.
proof fn lemma_valid_with_rows(shape: Shape, depth: int)
    requires
        types::within(shape, depth, false),
    ensures
        types::within(shape, depth, true),
{
}

/// The record of every command is read back as that command.
pub proof fn records_are_read_back(command: CommandModel, kind: u8, body: Seq<u8>)
    requires
        well_formed(command),
        body_of(command) == Ok::<(u8, Seq<u8>), Error>((kind, body)),
    ensures
        command_of(kind, body) == Ok::<CommandModel, Error>(command),
{
    match command {
        CommandModel::Transaction { transaction, claims } => {
            lemma_transaction_read(transaction, claims, body);
        },
        CommandModel::Catalogue(operation) => {
            lemma_catalogue_read(operation, body);
        },
        CommandModel::Limits(policy) => {
            let head = seq![1u8, 0u8, 0u8, 0u8];
            bytes::lemma_le64s(head, policy, Seq::empty());
            assert(head + bytes::le64s(policy) + Seq::<u8>::empty() =~= body);
            lemma_version(body);
        },
    }
}

/// What is read as a command is the record of that command, byte for byte.
pub proof fn read_records_are_canonical(kind: u8, body: Seq<u8>, command: CommandModel)
    requires
        command_of(kind, body) == Ok::<CommandModel, Error>(command),
    ensures
        well_formed(command),
        body_of(command) == Ok::<(u8, Seq<u8>), Error>((kind, body)),
{
    broadcast use bytes::group_le;

    lemma_version(body);
    match command {
        CommandModel::Transaction { transaction, claims } => {
            lemma_blob_bytes(body, 4);
            let (p, a) = blob_at(body, 4)->Ok_0;
            lemma_blob_bytes(body, a);
            let (q, b) = blob_at(body, a)->Ok_0;
            lemma_blob_bytes(body, b);
            let (m, c) = blob_at(body, b)->Ok_0;
            bytes::lemma_un64s(body, c, 17);
            assert(body =~= seq![1u8, 0u8, 0u8, 0u8] + body.subrange(4, a) + body.subrange(a, b)
                + body.subrange(b, c) + bytes::part(body, c, 136));
            assert(body == transaction_body(transaction, m, claims));
        },
        CommandModel::Catalogue(operation) => {
            lemma_operation_bytes(body);
            assert(body.subrange(0, body.len() as int) =~= body);
        },
        CommandModel::Limits(policy) => {
            bytes::lemma_un64s(body, 4, 17);
            assert(body =~= seq![1u8, 0u8, 0u8, 0u8] + bytes::part(body, 4, 136));
        },
    }
}

/// More bytes do not change a blob that is complete.
proof fn lemma_blob_before(s: Seq<u8>, more: Seq<u8>, at: int)
    requires
        0 <= at,
        blob_at(s, at) is Ok,
    ensures
        blob_at(s + more, at) == blob_at(s, at),
{
    let n = bytes::un32(bytes::part(s, at, 4));
    assert(bytes::part(s + more, at, 4) =~= bytes::part(s, at, 4));
    assert(bytes::part(s + more, at + 4, n as int) =~= bytes::part(s, at + 4, n as int));
}

/// More bytes do not change a policy that is complete.
proof fn lemma_budget_before(s: Seq<u8>, more: Seq<u8>, at: int)
    requires
        0 <= at,
        budget_at(s, at) is Ok,
    ensures
        budget_at(s + more, at) == budget_at(s, at),
{
    let a = bytes::un64s(s, at, 17);
    let b = bytes::un64s(s + more, at, 17);
    assert forall|i: int| 0 <= i < 17 implies a[i] == b[i] by {
        assert(bytes::part(s + more, at + 8 * i, 8) =~= bytes::part(s, at + 8 * i, 8));
    }
    assert(a =~= b);
}

/// More bytes behind a whole body make it no other one.
proof fn lemma_lengthened(kind: u8, s: Seq<u8>, more: Seq<u8>)
    requires
        command_of(kind, s) is Ok,
        more.len() > 0,
    ensures
        command_of(kind, s + more) matches Err(Error::Invalid(_)),
{
    let t = s + more;
    assert(bytes::part(t, 0, 2) =~= bytes::part(s, 0, 2));
    assert(t[2] == s[2] && t[3] == s[3]);
    if kind == 1 {
        lemma_blob_bytes(s, 4);
        let (_, a) = blob_at(s, 4)->Ok_0;
        lemma_blob_bytes(s, a);
        let (_, b) = blob_at(s, a)->Ok_0;
        lemma_blob_bytes(s, b);
        let (_, c) = blob_at(s, b)->Ok_0;
        lemma_blob_before(s, more, 4);
        lemma_blob_before(s, more, a);
        lemma_blob_before(s, more, b);
        lemma_budget_before(s, more, c);
        assert(transaction_in(t) == transaction_in(s));
    } else if kind == 2 {
        if s[2] == 1 {
            lemma_blob_bytes(s, 4);
            let (_, a) = blob_at(s, 4)->Ok_0;
            lemma_blob_bytes(s, a);
            let (_, b) = blob_at(s, a)->Ok_0;
            lemma_blob_before(s, more, 4);
            lemma_blob_before(s, more, a);
            lemma_blob_before(s, more, b);
        } else {
            assert(bytes::part(t, 4, 8) =~= bytes::part(s, 4, 8));
            if s[2] == 2 {
                lemma_blob_before(s, more, 12);
            }
        }
        assert(operation_in(t) == operation_in(s));
    } else {
        lemma_budget_before(s, more, 4);
    }
}

/// What is lengthened to a whole body is none.
proof fn lemma_front(kind: u8, short: Seq<u8>, rest: Seq<u8>)
    requires
        rest.len() > 0,
        command_of(kind, short + rest) is Ok,
    ensures
        command_of(kind, short) is Err,
{
    if command_of(kind, short) is Ok {
        lemma_lengthened(kind, short, rest);
    }
}

/// No front of a whole body is one.
proof fn lemma_shortened(kind: u8, s: Seq<u8>, length: int)
    requires
        command_of(kind, s) is Ok,
        0 <= length < s.len(),
    ensures
        command_of(kind, s.subrange(0, length)) is Err,
{
    let short = s.subrange(0, length);
    let rest = s.subrange(length, s.len() as int);
    assert(short + rest =~= s);
    lemma_front(kind, short, rest);
}

/// A body of another version is refused as such.
proof fn lemma_other_version(kind: u8, s: Seq<u8>, version: u8)
    requires
        command_of(kind, s) is Ok,
        version != 1,
    ensures
        command_of(kind, s.update(0, version)) == Err::<CommandModel, Error>(
            Error::Unsupported { format: format_of(kind), version: version as u16 },
        ),
{
    let changed = s.update(0, version);
    lemma_version(s);
    assert(changed[0] == version && changed[1] == 0);
    lemma_low_version(changed);
}

/// Only whole bodies of version one are read: a shortened or lengthened body,
/// another version and another kind are refused.
pub proof fn changed_records_are_refused(
    command: CommandModel,
    kind: u8,
    body: Seq<u8>,
    length: int,
    more: Seq<u8>,
    version: u8,
    other: u8,
)
    requires
        well_formed(command),
        body_of(command) == Ok::<(u8, Seq<u8>), Error>((kind, body)),
    ensures
        0 <= length < body.len() ==> command_of(kind, body.subrange(0, length)) is Err,
        more.len() > 0 ==> command_of(kind, body + more) matches Err(Error::Invalid(_)),
        version != 1 ==> command_of(kind, body.update(0, version)) == Err::<CommandModel, Error>(
            Error::Unsupported { format: format_of(kind), version: version as u16 },
        ),
        !(1 <= other <= 3) ==> command_of(other, body) matches Err(Error::Invalid(_)),
{
    records_are_read_back(command, kind, body);
    if more.len() > 0 {
        lemma_lengthened(kind, body, more);
    }
    if 0 <= length < body.len() {
        lemma_shortened(kind, body, length);
    }
    if version != 1 {
        lemma_other_version(kind, body, version);
    }
}

/// Bodies whose second byte is zero have the version of the first one.
proof fn lemma_low_version(s: Seq<u8>)
    requires
        s.len() >= 2,
        s[1] == 0,
    ensures
        bytes::un16(bytes::part(s, 0, 2)) == s[0],
{
    reveal(bytes::un16);
}

/// A name that is read is the blob of its UTF-8 bytes.
proof fn lemma_name_bytes(s: Seq<u8>, at: int)
    requires
        0 <= at,
    ensures
        name_at(s, at) matches Ok((name, end)) ==> {
            &&& at + 4 <= end <= s.len()
            &&& s.subrange(at, end) == bytes::blob(encode_utf8(name))
        },
{
    broadcast use decode_utf8_encode_utf8;

    lemma_blob_bytes(s, at);
}

/// A type that is read is the blob of its descriptor.
proof fn lemma_type_bytes(s: Seq<u8>, at: int)
    requires
        0 <= at,
    ensures
        type_at(s, at) matches Ok((shape, end)) ==> {
            &&& at + 4 <= end <= s.len()
            &&& s.subrange(at, end) == bytes::blob(types::descriptor(shape))
        },
{
    lemma_blob_bytes(s, at);
    if let Ok((shape, end)) = type_at(s, at) {
        stored_types::read_descriptors_are_canonical(blob_at(s, at)->Ok_0.0, shape);
    }
}

proof fn lemma_operation_bytes(s: Seq<u8>)
    requires
        s.len() >= 2,
        s[0] == 1,
        s[1] == 0,
    ensures
        operation_in(s) matches Ok((operation, end)) ==> end <= s.len() && s.subrange(0, end)
            == catalogue_body(operation),
{
    broadcast use bytes::group_le;

    if let Ok((operation, end)) = operation_in(s) {
        match operation {
            OperationModel::Create { name, key, value } => {
                lemma_name_bytes(s, 4);
                let (_, a) = name_at(s, 4)->Ok_0;
                lemma_type_bytes(s, a);
                let (_, b) = type_at(s, a)->Ok_0;
                lemma_type_bytes(s, b);
                assert(s.subrange(0, end) =~= seq![1u8, 0u8, 1u8, 0u8] + s.subrange(4, a)
                    + s.subrange(a, b) + s.subrange(b, end));
            },
            OperationModel::Rename { table, name } => {
                lemma_name_bytes(s, 12);
                assert(bytes::le64(table) == bytes::part(s, 4, 8));
                assert(s.subrange(0, end) =~= seq![1u8, 0u8, 2u8, 0u8] + bytes::part(s, 4, 8)
                    + s.subrange(12, end));
            },
            OperationModel::Drop { table } => {
                assert(bytes::le64(table) == bytes::part(s, 4, 8));
                assert(s.subrange(0, end) =~= seq![1u8, 0u8, 3u8, 0u8] + bytes::part(s, 4, 8));
            },
        }
    }
}

// ---- Validation ----------------------------------------------------------

/// Whether a record can be logged at a sequence, given what the transaction
/// machine says of the program.
pub open spec fn admitted(
    sequence: u64,
    command: CommandModel,
    machine: Result<(), Error>,
) -> Result<(), Error> {
    if sequence == 0 || sequence == u64::MAX {
        Err(Error::Invalid(RESERVED_SEQUENCE))
    } else {
        match command {
            CommandModel::Transaction { transaction, claims } => match manifest_of(
                transaction,
                claims,
            ) {
                Err(e) => Err(e),
                Ok(_) => machine,
            },
            CommandModel::Catalogue(operation) => match catalogue::operation_fault(operation) {
                Some(reason) => Err(Error::Invalid(reason)),
                None => Ok(()),
            },
            CommandModel::Limits(_) => Ok(()),
        }
    }
}

/// Check a record before it is logged or replayed. `machine` is what the
/// transaction machine says of the program against the historical catalogue
/// and policy; only transactions depend on it.
pub fn validate(sequence: u64, command: &Command, machine: Result<(), Error>) -> (valid: Result<
    (),
    Error,
>)
    ensures
        valid == admitted(sequence, command@, machine),
{
    if sequence == 0 || sequence == u64::MAX {
        return Err(Error::Invalid(RESERVED_SEQUENCE));
    }
    match command {
        Command::Transaction { transaction, claims } => {
            match access_manifest(transaction, claims) {
                Ok(_) => machine,
                Err(e) => Err(e),
            }
        },
        Command::Catalogue(operation) => match validate_catalogue(operation) {
            Ok(()) => Ok(()),
            Err(e) => Err(e),
        },
        Command::Limits(_) => Ok(()),
    }
}

} // verus!
