//! Durable transaction submission: record bodies, the log, recovery, the
//! scheduler, snapshots, cursors and feeds.

pub mod budget;
pub mod cursor;
pub mod durability;
pub mod engine;
pub mod exchange;
pub mod feed;
pub mod maintenance;
pub mod record;
pub mod recovery;
pub mod replica;
pub mod restart;
pub mod scheduler;
pub mod segments;
pub mod snapshot;
pub mod workers;

pub use crate::storage::TailRecovery;
pub use budget::EngineOptions;

use crate::external::random_bytes;
use crate::limits::Limits;
use crate::storage;
use crate::storage::LimitPolicy;
use crate::text;
use crate::text::to_decimal;
use crate::vm;
use maintenance::AttachMode;
use vstd::prelude::*;

verus! {

pub const LIMIT_TOO_LARGE: &'static str = "resource limit exceeds format ceiling";

/// Database initialization settings. Omitted identities are independently
/// generated version 4 UUIDs. Explicit identities must be unique and nonzero.
/// Defaults use the finite format ceilings; applications can lower individual
/// named limits. All resolved settings are persisted, never regenerated on
/// open.
#[derive(Clone, Debug)]
pub struct CreateOptions {
    pub limits: Limits,
    pub database_id: Option<[u8; 16]>,
    pub cursor_namespace: Option<[u8; 16]>,
}

impl Default for CreateOptions {
    fn default() -> (options: CreateOptions)
        ensures
            options.limits@ == storage::CEILINGS@,
            options.database_id is None,
            options.cursor_namespace is None,
    {
        CreateOptions { limits: Limits::default(), database_id: None, cursor_namespace: None }
    }
}

/// A durable result in the contiguous visible prefix. The materialized
/// checkpoint may lag behind; recovery replays its durable log suffix.
/// An aborted outcome contains no data writes but still occupies this sequence
/// and is durably recorded.
#[derive(Clone, Debug, PartialEq, Eq)]
pub struct Receipt {
    pub sequence: u64,
    pub outcome: vm::Outcome,
}

/// Limits cover the complete batch header and checksum. Records are never split.
#[derive(Clone, Copy, Debug, PartialEq, Eq, Structural)]
pub struct BatchLimits {
    pub max_records: usize,
    pub max_bytes: usize,
}

impl Default for BatchLimits {
    fn default() -> (limits: BatchLimits)
        ensures
            limits.max_records == 1024,
            limits.max_bytes == exchange::MAX_BATCH_BYTES,
    {
        BatchLimits { max_records: 1024, max_bytes: exchange::MAX_BATCH_BYTES }
    }
}

/// Submission and system errors, separate from deterministic aborts.
#[derive(Clone, Debug, PartialEq, Eq)]
pub enum Error {
    ReadOnly,
    SnapshotRevoked,
    HistoryUnavailable,
    CursorReleased,
    CursorIdExhausted,
    InvalidToken(&'static str),
    InvalidFormat(&'static str),
    InvalidInput(&'static str),
    BatchTooSmall { required: usize },
    /// Read or exchange failure, never a semantic transaction abort.
    Read(vm::Error),
    /// Validation rejected the request before sequencing. Nothing was written.
    Rejected(vm::Error),
    /// Definite rejection by this process's operational capacity before
    /// sequencing.
    OperationalLimit { resource: &'static str, required: u64, limit: u64 },
    /// A system failure during startup or before this request was appended.
    Storage(storage::Error),
    /// The request may be durable, even if its receipt was lost.
    Uncertain { sequence: Option<u64>, source: Option<vm::Error> },
    /// The writer is closed. This request was not executed.
    Closed,
}

// ---- Error texts ---------------------------------------------------------

/// The optional end of the text of an uncertain submission.
pub open spec fn at_sequence(sequence: Option<u64>) -> Seq<char> {
    match sequence {
        Some(n) => " at sequence "@ + text::decimal(n as nat),
        None => Seq::empty(),
    }
}

/// The text of an error; `cause` is the text of the error that it holds, where
/// it holds one.
pub open spec fn message_of(error: Error, cause: Seq<char>) -> Seq<char> {
    match error {
        Error::ReadOnly => "read-only replica cannot accept canonical submissions"@,
        Error::SnapshotRevoked => "snapshot has been revoked"@,
        Error::HistoryUnavailable => "required history is unavailable"@,
        Error::CursorReleased => "cursor has been released"@,
        Error::CursorIdExhausted => "cursor ID space is exhausted"@,
        Error::InvalidToken(reason) => "invalid cursor token or watermark: "@ + reason@,
        Error::InvalidFormat(reason) => "invalid exchange format: "@ + reason@,
        Error::InvalidInput(reason) => "invalid database input: "@ + reason@,
        Error::BatchTooSmall { required } => "batch requires at least "@ + text::decimal(
            required as nat,
        ) + " bytes for its first complete record"@,
        Error::Read(_) => cause,
        Error::Rejected(_) => "transaction rejected: "@ + cause,
        Error::OperationalLimit { resource, required, limit } => "operational limit "@ + resource@
            + ": requires "@ + text::decimal(required as nat) + ", configured "@ + text::decimal(
            limit as nat,
        ),
        Error::Storage(_) => cause,
        Error::Uncertain { sequence, source } => "submission outcome is uncertain"@ + at_sequence(
            sequence,
        ) + match source {
            Some(_) => ": "@ + cause,
            None => Seq::empty(),
        },
        Error::Closed => "database writer is closed"@,
    }
}

/// `start` and `end` as one text.
fn joined(start: &str, end: &str) -> (whole: String)
    ensures
        whole@ == start@ + end@,
{
    let mut whole = start.to_owned();
    whole.append(end);
    whole
}

impl Error {
    /// The text of this error. `cause` is the text of the error that it holds;
    /// it is not used where it holds none.
    pub fn message(&self, cause: &str) -> (message: String)
        ensures
            message@ == message_of(*self, cause@),
    {
        match self {
            Error::ReadOnly => "read-only replica cannot accept canonical submissions".to_owned(),
            Error::SnapshotRevoked => "snapshot has been revoked".to_owned(),
            Error::HistoryUnavailable => "required history is unavailable".to_owned(),
            Error::CursorReleased => "cursor has been released".to_owned(),
            Error::CursorIdExhausted => "cursor ID space is exhausted".to_owned(),
            Error::InvalidToken(reason) => joined("invalid cursor token or watermark: ", reason),
            Error::InvalidFormat(reason) => joined("invalid exchange format: ", reason),
            Error::InvalidInput(reason) => joined("invalid database input: ", reason),
            Error::BatchTooSmall { required } => {
                let mut text = joined(
                    "batch requires at least ",
                    to_decimal(*required as u64).as_str(),
                );
                text.append(" bytes for its first complete record");
                text
            },
            Error::Read(_) => cause.to_owned(),
            Error::Rejected(_) => joined("transaction rejected: ", cause),
            Error::OperationalLimit { resource, required, limit } => {
                let mut text = joined("operational limit ", resource);
                text.append(": requires ");
                text.append(to_decimal(*required).as_str());
                text.append(", configured ");
                text.append(to_decimal(*limit).as_str());
                text
            },
            Error::Storage(_) => cause.to_owned(),
            Error::Uncertain { sequence, source } => {
                let mut text = "submission outcome is uncertain".to_owned();
                let ghost start = text@;
                match sequence {
                    Some(n) => {
                        text.append(" at sequence ");
                        text.append(to_decimal(*n).as_str());
                    },
                    None => {},
                }
                assert(text@ =~= start + at_sequence(*sequence));
                match source {
                    Some(_) => {
                        text.append(": ");
                        text.append(cause);
                    },
                    None => {},
                }
                assert(text@ =~= message_of(*self, cause@));
                text
            },
            Error::Closed => "database writer is closed".to_owned(),
        }
    }
}

// ---- Classification ------------------------------------------------------

/// How a failure to read what the database itself wrote is reported.
pub open spec fn unreadable(error: vm::Error) -> Error {
    match error {
        vm::Error::Invalid(reason) => Error::Storage(storage::Error::Corrupt(reason)),
        vm::Error::Storage(storage::Error::InvalidInput(reason)) => Error::Storage(
            storage::Error::Corrupt(reason),
        ),
        other => Error::Read(other),
    }
}

/// How a failure to read what the database itself wrote is reported.
pub fn persisted_read(error: vm::Error) -> (fault: Error)
    ensures
        fault == unreadable(error),
{
    match error {
        vm::Error::Invalid(reason) => Error::Storage(storage::Error::Corrupt(reason)),
        vm::Error::Storage(storage::Error::InvalidInput(reason)) => Error::Storage(
            storage::Error::Corrupt(reason),
        ),
        other => Error::Read(other),
    }
}

/// Resolve the limits of a submission.
pub fn validate_limits(limits: Limits) -> (policy: Result<LimitPolicy, Error>)
    ensures
        match policy {
            Ok(policy) => storage::allowed(limits@) && policy@ == limits@,
            Err(e) => !storage::allowed(limits@) && e == Error::Rejected(
                vm::Error::Invalid(LIMIT_TOO_LARGE),
            ),
        },
{
    match limits.policy() {
        Ok(policy) => Ok(policy),
        Err(_) => Err(Error::Rejected(vm::Error::Invalid(LIMIT_TOO_LARGE))),
    }
}

/// Whether a handle takes submissions.
pub fn check_writable(read_only: bool) -> (checked: Result<(), Error>)
    ensures
        checked == if read_only {
            Err::<(), Error>(Error::ReadOnly)
        } else {
            Ok(())
        },
{
    if read_only {
        return Err(Error::ReadOnly);
    }
    Ok(())
}

/// What closing a database reports once its writer has stopped: whether the
/// request still reached the writer, and whether the writer failed.
pub fn closed(reached: bool, poisoned: bool) -> (result: Result<(), Error>)
    ensures
        result == if !reached {
            Err::<(), Error>(Error::Closed)
        } else if poisoned {
            Err(Error::Storage(storage::Error::NeedsRecovery))
        } else {
            Ok(())
        },
{
    if !reached {
        return Err(Error::Closed);
    }
    if poisoned {
        return Err(Error::Storage(storage::Error::NeedsRecovery));
    }
    Ok(())
}

/// How the store of an engine is made available.
#[derive(Clone, Copy, Debug, PartialEq, Eq, Structural)]
pub enum Opening {
    Create,
    /// Give a copied directory a fresh cursor namespace.
    Attach { read_only: bool },
    Open,
}

/// How the store of an engine is made available: a new one where there are
/// settings for it, else the existing one, attached if a mode is given.
pub open spec fn opening_of(create: bool, attachment: Option<AttachMode>) -> Opening {
    if create {
        Opening::Create
    } else {
        match attachment {
            Some(mode) => Opening::Attach { read_only: mode == AttachMode::ReadOnlyReplica },
            None => Opening::Open,
        }
    }
}

/// How the store of an engine is made available.
pub fn opening(create: bool, attachment: Option<AttachMode>) -> (opening: Opening)
    ensures
        opening == opening_of(create, attachment),
{
    if create {
        Opening::Create
    } else {
        match attachment {
            Some(mode) => Opening::Attach { read_only: mode.is_read_only() },
            None => Opening::Open,
        }
    }
}

impl Opening {
    /// Whether the log is replayed before submissions are accepted.
    pub fn replays(&self) -> (replays: bool)
        ensures
            replays == (*self != Opening::Create),
    {
        match self {
            Opening::Create => false,
            _ => true,
        }
    }
}

// ---- Identities ----------------------------------------------------------

/// Sixteen bytes with the version and variant bits of a version 4 UUID.
pub open spec fn uuid_of(bytes: Seq<u8>) -> Seq<u8> {
    bytes.update(6, (bytes[6] & 0x0f) | 0x40).update(8, (bytes[8] & 0x3f) | 0x80)
}

/// Whether bytes carry the version and variant bits of a version 4 UUID.
pub open spec fn is_uuid(bytes: Seq<u8>) -> bool {
    &&& bytes.len() == 16
    &&& bytes[6] >> 4 == 4
    &&& bytes[8] >> 6 == 2
}

/// A made UUID carries its version and variant, and keeps the other 122 bits.
pub proof fn uuids_are_marked_and_random(bytes: Seq<u8>)
    requires
        bytes.len() == 16,
    ensures
        is_uuid(uuid_of(bytes)),
        uuid_of(bytes)[6] & 0x0f == bytes[6] & 0x0f,
        uuid_of(bytes)[8] & 0x3f == bytes[8] & 0x3f,
        forall|i: int|
            0 <= i < 16 && i != 6 && i != 8 ==> #[trigger] uuid_of(bytes)[i] == bytes[i],
{
    let six = bytes[6];
    let eight = bytes[8];
    assert(((six & 0x0f) | 0x40) >> 4 == 4u8 && ((six & 0x0f) | 0x40) & 0x0f == six & 0x0f
        && ((eight & 0x3f) | 0x80) >> 6 == 2u8 && ((eight & 0x3f) | 0x80) & 0x3f == eight & 0x3f)
        by (bit_vector);
}

/// Mark sixteen random bytes as a version 4 UUID.
pub fn uuid(bytes: [u8; 16]) -> (id: [u8; 16])
    ensures
        id@ == uuid_of(bytes@),
        is_uuid(id@),
{
    let mut id = bytes;
    id[6] = (bytes[6] & 0x0f) | 0x40;
    id[8] = (bytes[8] & 0x3f) | 0x80;
    proof {
        uuids_are_marked_and_random(bytes@);
    }
    assert(id@ =~= uuid_of(bytes@));
    id
}

/// A new identity: a version 4 UUID, or the text with which the system refused
/// random bytes.
pub fn random_uuid() -> (id: Result<[u8; 16], storage::Error>)
    ensures
        match id {
            Ok(id) => is_uuid(id@),
            Err(e) => e is Io,
        },
{
    match random_bytes() {
        Ok(bytes) => Ok(uuid(bytes)),
        Err(message) => Err(storage::Error::Io(message)),
    }
}

/// What a new database is created with.
#[derive(Debug, PartialEq, Eq)]
pub struct Genesis {
    pub database_id: [u8; 16],
    pub initial_policy: LimitPolicy,
    pub cursor_namespace: [u8; 16],
}

/// The identity that was asked for, or a new one.
fn identity(wanted: Option<[u8; 16]>) -> (id: Result<[u8; 16], storage::Error>)
    ensures
        match id {
            Ok(id) => match wanted {
                Some(w) => id == w,
                None => is_uuid(id@),
            },
            Err(e) => wanted is None && e is Io,
        },
{
    match wanted {
        Some(id) => Ok(id),
        None => random_uuid(),
    }
}

/// Resolve the settings of a new database. Its limits are checked first; only
/// the identities that were left out depend on the system's random numbers.
pub fn initialize(options: CreateOptions) -> (genesis: Result<Genesis, storage::Error>)
    ensures
        !storage::allowed(options.limits@) ==> genesis == Err::<Genesis, storage::Error>(
            storage::Error::InvalidInput(storage::ABOVE_CEILING),
        ),
        storage::allowed(options.limits@) ==> match genesis {
            Ok(genesis) => {
                &&& genesis.initial_policy@ == options.limits@
                &&& match options.database_id {
                    Some(id) => genesis.database_id == id,
                    None => is_uuid(genesis.database_id@),
                }
                &&& match options.cursor_namespace {
                    Some(id) => genesis.cursor_namespace == id,
                    None => is_uuid(genesis.cursor_namespace@),
                }
            },
            Err(e) => e is Io && (options.database_id is None || options.cursor_namespace is None),
        },
{
    let initial_policy = options.limits.policy()?;
    let database_id = identity(options.database_id)?;
    let cursor_namespace = identity(options.cursor_namespace)?;
    Ok(Genesis { database_id, initial_policy, cursor_namespace })
}

} // verus!
