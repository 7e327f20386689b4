//! Preparation of a submission: its record and what it reserves.

use crate::database::budget;
use crate::database::budget::{input_bytes, EngineOptions};
use crate::database::engine;
use crate::database::engine::{envelope, next_sequence, rejection};
use crate::database::record;
use crate::database::record::{encode, Command, CommandModel};
use crate::database::Error;
use crate::storage;
use crate::vm;
use crate::vm::access;
use crate::vm::{AccessManifest, AccessMode, Scope};
use vstd::prelude::*;

verus! {

/// What the transaction machine says of a transaction before it is sequenced.
#[derive(Debug, PartialEq, Eq)]
pub enum Preparation {
    /// It can run, needs this many bytes and uses these scopes.
    Ready { reservation: u64, manifest: AccessManifest },
    /// Its preparation alone needs this many bytes.
    Capacity(u64),
}

/// A transaction that can be assigned.
#[derive(Debug, PartialEq, Eq)]
pub struct Prepared {
    pub sequence: u64,
    /// Its log record.
    pub bytes: Vec<u8>,
    pub reservation: u64,
    pub manifest: AccessManifest,
}

/// The model of a [`Prepared`].
#[verifier::ext_equal]
pub struct PreparedModel {
    pub sequence: u64,
    pub bytes: Seq<u8>,
    pub reservation: u64,
    pub entries: Seq<(Scope, AccessMode)>,
}

impl Prepared {
    pub open spec fn view(&self) -> PreparedModel {
        PreparedModel {
            sequence: self.sequence,
            bytes: self.bytes@,
            reservation: self.reservation,
            entries: self.manifest.entries@,
        }
    }
}

/// A definite rejection by the capacity of this process.
pub open spec fn over(resource: &'static str, required: u64, limit: u64) -> Error {
    Error::OperationalLimit { resource, required, limit }
}

/// What a transaction reserves until its receipt is visible.
pub open spec fn reserved(reservation: u64, count: usize, charge: u64) -> u64 {
    access::saturated((reservation + count * 16 + charge * 3) as nat)
}

/// Whether an administrative command fits into the backlog.
pub open spec fn administrative(command: CommandModel, options: EngineOptions) -> Result<
    Option<PreparedModel>,
    Error,
> {
    match record::body_of(command) {
        Err(e) => Err(engine::rejected(e)),
        Ok((_, body)) => {
            let required = access::saturated(body.len() + 72);
            if required > options.assigned_backlog_bytes {
                Err(over("assigned_backlog_bytes", required, options.assigned_backlog_bytes))
            } else {
                Ok(None)
            }
        },
    }
}

/// The prepared transaction, given its reservation and its scopes.
pub open spec fn transactional(
    command: CommandModel,
    options: EngineOptions,
    sequence: u64,
    predecessor: Seq<u8>,
    reservation: u64,
    entries: Seq<(Scope, AccessMode)>,
) -> Result<Option<PreparedModel>, Error> {
    let whole = reserved(
        reservation,
        options.assigned_backlog_count,
        budget::charged(command, entries)->Ok_0,
    );
    if whole > options.execution_bytes {
        Err(over("execution_bytes", whole, options.execution_bytes))
    } else if whole > options.preparation_bytes {
        Err(over("preparation_bytes", whole, options.preparation_bytes))
    } else {
        match record::body_of(command) {
            Err(e) => Err(engine::rejected(e)),
            Ok((kind, body)) => match engine::envelope_fault(sequence, kind, body.len()) {
                Some(reason) => Err(engine::rejected(vm::Error::Invalid(reason))),
                None => {
                    let length = body.len() + record::RECORD_OVERHEAD;
                    if length > options.assigned_backlog_bytes {
                        Err(
                            over(
                                "assigned_backlog_bytes",
                                length as u64,
                                options.assigned_backlog_bytes,
                            ),
                        )
                    } else {
                        Ok(
                            Some(
                                PreparedModel {
                                    sequence,
                                    bytes: engine::record_bytes(sequence, predecessor, kind, body),
                                    reservation: whole,
                                    entries,
                                },
                            ),
                        )
                    }
                },
            },
        }
    }
}

/// What becomes of a submission behind `previous`: nothing more for an
/// administrative command, the prepared transaction otherwise.
pub open spec fn prepared(
    command: CommandModel,
    options: EngineOptions,
    previous: u64,
    predecessor: Seq<u8>,
    preparation: Result<Preparation, vm::Error>,
) -> Result<Option<PreparedModel>, Error> {
    if !(command is Transaction) {
        administrative(command, options)
    } else {
        match engine::following(previous) {
            None => Err(Error::Storage(storage::Error::Exhausted)),
            Some(sequence) => match preparation {
                Err(e) => Err(engine::rejected(e)),
                Ok(Preparation::Capacity(required)) => Err(
                    over("preparation_bytes", required, options.preparation_bytes),
                ),
                Ok(Preparation::Ready { reservation, manifest }) => transactional(
                    command,
                    options,
                    sequence,
                    predecessor,
                    reservation,
                    manifest.entries@,
                ),
            },
        }
    }
}

/// The model of an optional prepared transaction.
pub open spec fn prepared_model(prepared: Option<Prepared>) -> Option<PreparedModel> {
    match prepared {
        Some(prepared) => Some(prepared@),
        None => None,
    }
}

/// Check one capacity.
pub fn capacity(resource: &'static str, required: u64, limit: u64) -> (checked: Result<(), Error>)
    ensures
        checked == if required > limit {
            Err::<(), Error>(over(resource, required, limit))
        } else {
            Ok(())
        },
{
    if required > limit {
        return Err(Error::OperationalLimit { resource, required, limit });
    }
    Ok(())
}

/// Prepare a submission that follows the record `previous_sequence` with the
/// digest `predecessor`. `preparation` is what the transaction machine says of a
/// transaction at that place; it is not used for other commands.
pub fn prepare(
    command: &Command,
    options: &EngineOptions,
    previous_sequence: u64,
    predecessor: [u8; 32],
    preparation: Result<Preparation, vm::Error>,
) -> (result: Result<Option<Prepared>, Error>)
    requires
        budget::options_allowed(*options),
    ensures
        match result {
            Ok(found) => prepared(
                command@,
                *options,
                previous_sequence,
                predecessor@,
                preparation,
            ) == Ok::<Option<PreparedModel>, Error>(prepared_model(found)),
            Err(e) => prepared(
                command@,
                *options,
                previous_sequence,
                predecessor@,
                preparation,
            ) == Err::<Option<PreparedModel>, Error>(e),
        },
        result matches Ok(Some(found)) ==> {
            &&& engine::following(previous_sequence) == Some(found.sequence)
            &&& found.bytes@.len() <= options.assigned_backlog_bytes
            &&& found.reservation <= options.execution_bytes
        },
{
    let transactional = match command {
        Command::Transaction { .. } => true,
        _ => false,
    };
    if !transactional {
        let (_, body) = match encode(command) {
            Ok(record) => record,
            Err(e) => {
                return Err(rejection(e));
            },
        };
        let required: u64 = (body.len() as u64).saturating_add(72);
        capacity("assigned_backlog_bytes", required, options.assigned_backlog_bytes)?;
        return Ok(None);
    }
    let sequence: u64 = next_sequence(previous_sequence)?;
    let (machine, manifest) = match preparation {
        Err(e) => {
            return Err(rejection(e));
        },
        Ok(Preparation::Capacity(required)) => {
            return Err(
                Error::OperationalLimit {
                    resource: "preparation_bytes",
                    required,
                    limit: options.preparation_bytes,
                },
            );
        },
        Ok(Preparation::Ready { reservation, manifest }) => (reservation, manifest),
    };
    let charge: u64 = input_bytes(command, Some(&manifest))?;
    let reservation: u64 = machine.saturating_add(
        options.assigned_backlog_count as u64 * 16,
    ).saturating_add(charge.saturating_add(charge).saturating_add(charge));
    capacity("execution_bytes", reservation, options.execution_bytes)?;
    capacity("preparation_bytes", reservation, options.preparation_bytes)?;
    let (kind, body) = match encode(command) {
        Ok(record) => record,
        Err(e) => {
            return Err(rejection(e));
        },
    };
    let bytes = match envelope(sequence, predecessor, kind, body.as_slice()) {
        Ok(bytes) => bytes,
        Err(e) => {
            return Err(rejection(e));
        },
    };
    capacity("assigned_backlog_bytes", bytes.len() as u64, options.assigned_backlog_bytes)?;
    Ok(Some(Prepared { sequence, bytes, reservation, manifest }))
}

// ---- Laws ----------------------------------------------------------------

/// A prepared transaction follows the record before it, uses the scopes of its
/// manifest, reserves at least what its run needs, and its record is read back
/// as the command that was submitted.
pub proof fn prepared_records_hold_their_commands(
    command: CommandModel,
    options: EngineOptions,
    previous: u64,
    predecessor: Seq<u8>,
    reservation: u64,
    manifest: AccessManifest,
    p: PreparedModel,
)
    requires
        record::well_formed(command),
        predecessor.len() == 32,
        prepared(
            command,
            options,
            previous,
            predecessor,
            Ok(Preparation::Ready { reservation, manifest }),
        ) == Ok::<Option<PreparedModel>, Error>(Some(p)),
    ensures
        p.sequence == previous + 1,
        p.entries == manifest.entries@,
        p.reservation >= reservation,
        engine::record_fault(p.bytes, p.bytes.len() as u64, p.sequence, predecessor) is None,
        record::command_of(p.bytes[24], p.bytes.subrange(64, p.bytes.len() - 8)) == Ok::<
            CommandModel,
            vm::Error,
        >(command),
{
    let (kind, body) = record::body_of(command)->Ok_0;
    record::records_are_read_back(command, kind, body);
    engine::logged_records_are_read_back(
        p.sequence,
        predecessor,
        kind,
        body,
        Seq::empty(),
        (body.len() + record::RECORD_OVERHEAD) as u64,
    );
    let bytes = engine::record_bytes(p.sequence, predecessor, kind, body);
    assert(bytes + Seq::<u8>::empty() =~= bytes);
    assert(0 <= options.assigned_backlog_count * 16) by (nonlinear_arith)
        requires
            options.assigned_backlog_count >= 0,
    ;
}

/// A transaction is prepared whenever a sequence is left, its command can be
/// logged and what it needs fits.
pub proof fn transactions_that_fit_are_prepared(
    command: CommandModel,
    options: EngineOptions,
    previous: u64,
    predecessor: Seq<u8>,
    reservation: u64,
    manifest: AccessManifest,
    kind: u8,
    body: Seq<u8>,
)
    requires
        command is Transaction,
        previous < u64::MAX - 1,
        record::body_of(command) == Ok::<(u8, Seq<u8>), vm::Error>((kind, body)),
        1 <= kind <= 3,
        body.len() + 72 <= record::MAX_RECORD_LENGTH,
        body.len() + 72 <= options.assigned_backlog_bytes,
        reservation + 16 * options.assigned_backlog_count + 3 * budget::charged(
            command,
            manifest.entries@,
        )->Ok_0 <= options.execution_bytes,
        reservation + 16 * options.assigned_backlog_count + 3 * budget::charged(
            command,
            manifest.entries@,
        )->Ok_0 <= options.preparation_bytes,
    ensures
        prepared(
            command,
            options,
            previous,
            predecessor,
            Ok(Preparation::Ready { reservation, manifest }),
        ) matches Ok(Some(_)),
{
}

} // verus!
