//! Logical imports: verify a batch before it is made durable on a replica.
//!
//! The bytes are decoded, every outcome is reproduced in an isolated copy and
//! compared, the verified bytes are appended, and then replayed.

use super::budget;
use super::budget::{input_bytes, EngineOptions};
use super::engine;
use super::exchange;
use super::exchange::batch;
use super::exchange::batch::{BatchModel, FeedBatch, FeedRecord, FeedRecords};
use super::exchange::{Watermark, WatermarkModel, EMPTY_BATCH_BYTES, MAX_BATCH_BYTES};
use super::feed;
use super::feed::FeedModel;
use super::record;
use super::record::{decode, Command, CommandModel};
use super::scheduler::coordinator::NOT_A_REPLICA;
use super::scheduler::prepare;
use super::scheduler::prepare::{capacity, Preparation};
use super::Error;
use crate::bytes;
use crate::bytes::{same_bytes, to_vec};
use crate::external;
use crate::storage;
use crate::storage::{Manifest, ManifestModel};
use crate::vm;
use crate::vm::access;
use crate::vm::outcome;
use crate::vm::{encode_outcome, Outcome};
use vstd::prelude::*;

verus! {

pub const NOT_LOGICAL: &'static str = "import requires a logical batch";

pub const OTHER_DATABASE: &'static str = "logical import database identity mismatch";

pub const OTHER_BASELINE: &'static str = "logical import identity or baseline mismatch";

pub const OTHER_PREDECESSOR: &'static str = "logical import predecessor anchor mismatch";

pub const DIVERGED: &'static str = "logical import outcome divergence";

/// A record of an import.
#[derive(Debug, PartialEq, Eq)]
pub struct ParsedRecord {
    pub bytes: Vec<u8>,
    pub command: Command,
    pub sequence: u64,
    pub digest: [u8; 32],
    /// The stored form of the outcome that the source reports.
    pub outcome: Vec<u8>,
}

/// The model of a [`ParsedRecord`].
#[verifier::ext_equal]
pub struct ParsedRecordModel {
    pub bytes: Seq<u8>,
    pub command: CommandModel,
    pub sequence: u64,
    pub digest: Seq<u8>,
    pub outcome: Seq<u8>,
}

/// Parsed import data.
#[derive(Debug, PartialEq, Eq)]
pub struct ParsedBatch {
    pub start: u64,
    pub watermark: Watermark,
    pub records: Vec<ParsedRecord>,
    /// What the batch is charged with in the submission queue.
    pub bytes: u64,
    pub log_bytes: u64,
}

/// The model of a [`ParsedBatch`].
#[verifier::ext_equal]
pub struct ParsedModel {
    pub start: u64,
    pub watermark: WatermarkModel,
    pub records: Seq<ParsedRecordModel>,
    pub bytes: u64,
    pub log_bytes: u64,
}

impl ParsedRecord {
    pub open spec fn view(&self) -> ParsedRecordModel {
        ParsedRecordModel {
            bytes: self.bytes@,
            command: self.command@,
            sequence: self.sequence,
            digest: self.digest@,
            outcome: self.outcome@,
        }
    }
}

/// The models of some records.
pub open spec fn parsed_records(list: Seq<ParsedRecord>) -> Seq<ParsedRecordModel> {
    list.map_values(|r: ParsedRecord| r@)
}

impl ParsedBatch {
    pub open spec fn view(&self) -> ParsedModel {
        ParsedModel {
            start: self.start,
            watermark: self.watermark@,
            records: parsed_records(self.records@),
            bytes: self.bytes,
            log_bytes: self.log_bytes,
        }
    }
}

impl ParsedModel {
    /// Whether every record holds a whole frame.
    pub open spec fn framed(self) -> bool {
        forall|i: int| 0 <= i < self.records.len() ==> (#[trigger] self.records[i]).bytes.len() >= 72
    }
}

// ---- Errors --------------------------------------------------------------

/// How a failure to read a foreign record is reported.
pub open spec fn input_fault(error: vm::Error) -> Error {
    match error {
        vm::Error::Invalid(reason) => Error::InvalidFormat(reason),
        vm::Error::Storage(storage::Error::InvalidInput(reason)) => Error::InvalidFormat(reason),
        vm::Error::Unsupported { .. } => Error::Rejected(error),
        other => Error::Read(other),
    }
}

/// How a failure to read a foreign record is reported.
pub fn input_error(error: vm::Error) -> (fault: Error)
    ensures
        fault == input_fault(error),
{
    match error {
        vm::Error::Invalid(reason) => Error::InvalidFormat(reason),
        vm::Error::Storage(storage::Error::InvalidInput(reason)) => Error::InvalidFormat(reason),
        vm::Error::Unsupported { format, version } => Error::Rejected(
            vm::Error::Unsupported { format, version },
        ),
        other => Error::Read(other),
    }
}

// ---- Parsing -------------------------------------------------------------

/// The command of a logged record.
pub open spec fn logged_command(log: Seq<u8>) -> Result<CommandModel, Error> {
    match record::command_of(log[24], log.subrange(64, log.len() - 8)) {
        Err(e) => Err(input_fault(e)),
        Ok(command) => match budget::charged(command, Seq::empty()) {
            Err(e) => Err(e),
            Ok(_) => Ok(command),
        },
    }
}

/// What a record is charged with: its owned representations and the scratch of
/// comparisons as well as its bytes.
pub open spec fn record_charge(r: FeedRecord, command: CommandModel) -> nat {
    (3 * budget::charged(command, Seq::empty())->Ok_0 + 4 * (r.log.len()
        + outcome::outcome_bytes(r.outcome).len())) as nat
}

/// The first `n` records of a batch as an import, with their charge and the
/// length of their logged bytes, or what is wrong with the first bad one.
pub open spec fn imported(records: Seq<FeedRecord>, n: int) -> Result<
    (Seq<ParsedRecordModel>, nat, nat),
    Error,
>
    decreases n,
{
    if !(0 < n <= records.len()) {
        Ok((Seq::empty(), 0, 0))
    } else {
        match imported(records, n - 1) {
            Err(e) => Err(e),
            Ok((front, charge, length)) => {
                let r = records[n - 1];
                match logged_command(r.log) {
                    Err(e) => Err(e),
                    Ok(command) => Ok(
                        (
                            front.push(
                                ParsedRecordModel {
                                    bytes: r.log,
                                    command,
                                    sequence: r.outcome.sequence,
                                    digest: r.outcome.digest,
                                    outcome: outcome::outcome_bytes(r.outcome),
                                },
                            ),
                            charge + record_charge(r, command),
                            length + r.log.len(),
                        ),
                    ),
                }
            },
        }
    }
}

/// A batch as an import.
pub open spec fn parsed_batch(b: BatchModel) -> Result<ParsedModel, Error> {
    let watermark = WatermarkModel { database_id: b.database_id, sequence: b.end };
    if !exchange::watermark_allowed(watermark) {
        Err(Error::InvalidFormat(exchange::BAD_WATERMARK))
    } else if !b.logical {
        Err(Error::InvalidFormat(NOT_LOGICAL))
    } else {
        match imported(b.records, b.records.len() as int) {
            Err(e) => Err(e),
            Ok((records, charge, length)) => Ok(
                ParsedModel {
                    start: b.start,
                    watermark,
                    records,
                    bytes: access::saturated(512 + charge),
                    log_bytes: access::saturated(length),
                },
            ),
        }
    }
}

/// Encoded bytes as an import.
pub open spec fn parsed(encoded: Seq<u8>) -> Result<ParsedModel, Error> {
    match batch::batch_of(encoded) {
        Err(e) => Err(e),
        Ok(b) => parsed_batch(b),
    }
}

proof fn lemma_import_prefix(records: Seq<FeedRecord>, n: int, m: int)
    requires
        0 <= n <= m <= records.len(),
    ensures
        imported(records, n) matches Err(e) ==> imported(records, m) == Err::<
            (Seq<ParsedRecordModel>, nat, nat),
            Error,
        >(e),
    decreases m,
{
    if n < m {
        lemma_import_prefix(records, n, m - 1);
    }
}

/// Three times a charge.
fn thrice(charge: u64) -> (whole: u64)
    ensures
        whole == access::saturated((3 * charge) as nat),
{
    charge.saturating_add(charge).saturating_add(charge)
}

/// Four times the sum of two lengths.
fn four_times(a: usize, b: usize) -> (whole: u64)
    ensures
        whole == access::saturated((4 * (a + b)) as nat),
{
    let one: u64 = (a as u64).saturating_add(b as u64);
    let two: u64 = one.saturating_add(one);
    two.saturating_add(two)
}

/// Decode an import.
pub fn parse(encoded: &[u8]) -> (parsed_import: Result<ParsedBatch, Error>)
    ensures
        match parsed_import {
            Ok(found) => parsed(encoded@) == Ok::<ParsedModel, Error>(found@) && found@.framed(),
            Err(e) => parsed(encoded@) == Err::<ParsedModel, Error>(e),
        },
{
    let decoded = FeedBatch::decode(encoded)?;
    let watermark = decoded.watermark()?;
    let ghost b = decoded@;
    let FeedBatch { start_exclusive, records, .. } = decoded;
    let logical = match records {
        FeedRecords::Logical(list) => list,
        FeedRecords::Resolved(_) => {
            return Err(Error::InvalidFormat(NOT_LOGICAL));
        },
    };
    let mut found: Vec<ParsedRecord> = Vec::new();
    let mut bytes: u64 = 512;
    let mut log_bytes: u64 = 0;
    let mut i: usize = 0;
    assert(b.records =~= batch::logical_records(logical@));
    assert(parsed_records(found@) =~= Seq::empty());
    while i < logical.len()
        invariant
            i <= logical@.len(),
            b.records == batch::logical_records(logical@),
            b.logical,
            batch::batch_of(encoded@) == Ok::<BatchModel, Error>(b),
            exchange::watermark_allowed(
                WatermarkModel { database_id: b.database_id, sequence: b.end },
            ),
            forall|k: int| 0 <= k < found@.len() ==> (#[trigger] found@[k]).bytes@.len() >= 72,
            imported(b.records, i as int) matches Ok((list, charge, length)) && list
                == parsed_records(found@) && bytes == access::saturated(512 + charge) && log_bytes
                == access::saturated(length),
        decreases logical@.len() - i,
    {
        let item = &logical[i];
        let ghost r = b.records[i as int];
        let ghost before = parsed_records(found@);
        proof {
            assert(r == item@);
            batch::read_batches_are_chained(encoded@, b, i as int);
            lemma_import_prefix(b.records, i + 1, b.records.len() as int);
        }
        let log = &item.log_record;
        let kind: u8 = log[24];
        let command = match decode(kind, &log.as_slice()[64..log.len() - 8]) {
            Ok(command) => command,
            Err(e) => {
                return Err(input_error(e));
            },
        };
        let charge: u64 = input_bytes(&command, None)?;
        let stored = batch::encode_outcome(&item.outcome)?;
        bytes = bytes.saturating_add(thrice(charge)).saturating_add(
            four_times(log.len(), stored.len()),
        );
        log_bytes = log_bytes.saturating_add(log.len() as u64);
        let record = ParsedRecord {
            bytes: to_vec(log.as_slice()),
            command,
            sequence: item.outcome.sequence,
            digest: item.outcome.record_digest,
            outcome: stored,
        };
        found.push(record);
        proof {
            assert(parsed_records(found@) =~= before.push(record@));
            assert(record@ =~= ParsedRecordModel {
                bytes: r.log,
                command: command@,
                sequence: r.outcome.sequence,
                digest: r.outcome.digest,
                outcome: outcome::outcome_bytes(r.outcome),
            });
        }
        i += 1;
    }
    Ok(ParsedBatch { start: start_exclusive, watermark, records: found, bytes, log_bytes })
}

/// Check an import before it waits for its turn.
pub fn check_request(read_only: bool, length: usize) -> (checked: Result<(), Error>)
    ensures
        checked == if !read_only {
            Err::<(), Error>(Error::InvalidInput(NOT_A_REPLICA))
        } else if !(EMPTY_BATCH_BYTES <= length <= MAX_BATCH_BYTES) {
            Err(Error::InvalidFormat(exchange::BAD_LENGTH))
        } else {
            Ok(())
        },
{
    if !read_only {
        return Err(Error::InvalidInput(NOT_A_REPLICA));
    }
    if length < EMPTY_BATCH_BYTES || length > MAX_BATCH_BYTES {
        return Err(Error::InvalidFormat(exchange::BAD_LENGTH));
    }
    Ok(())
}

impl ParsedBatch {
    /// Check that a batch comes from this database.
    pub fn check_database(&self, database_id: [u8; 16]) -> (checked: Result<(), Error>)
        ensures
            checked == if self@.watermark.database_id == database_id@ {
                Ok::<(), Error>(())
            } else {
                Err(Error::InvalidInput(OTHER_DATABASE))
            },
    {
        if !same_bytes(self.watermark.database_id().as_slice(), database_id.as_slice()) {
            return Err(Error::InvalidInput(OTHER_DATABASE));
        }
        Ok(())
    }

    /// How many places in the submission queue a batch takes.
    pub fn queue_count(&self) -> (count: usize)
        ensures
            count == if self@.records.len() == 0 {
                1
            } else {
                self@.records.len() as int
            },
    {
        if self.records.len() == 0 {
            1
        } else {
            self.records.len()
        }
    }
}

// ---- Installation --------------------------------------------------------

/// Why a batch cannot follow the durable end of the log, or what capacity it
/// exceeds.
pub open spec fn install_fault(m: ManifestModel, p: ParsedModel, options: EngineOptions) -> Option<
    Error,
> {
    if m.checkpoint_sequence != m.durable_sequence {
        Some(Error::Storage(storage::Error::NeedsRecovery))
    } else if p.watermark.database_id != m.database_id || p.start != m.durable_sequence {
        Some(Error::InvalidInput(OTHER_BASELINE))
    } else if p.records.len() > 0 && bytes::part(p.records[0].bytes, 28, 32) != m.durable_digest {
        Some(Error::InvalidInput(OTHER_PREDECESSOR))
    } else if p.records.len() > options.assigned_backlog_count {
        Some(
            prepare::over(
                "assigned_backlog_count",
                p.records.len() as u64,
                options.assigned_backlog_count as u64,
            ),
        )
    } else if p.log_bytes > options.assigned_backlog_bytes {
        Some(prepare::over("assigned_backlog_bytes", p.log_bytes, options.assigned_backlog_bytes))
    } else if p.bytes > options.preparation_bytes {
        Some(prepare::over("preparation_bytes", p.bytes, options.preparation_bytes))
    } else if p.bytes > options.execution_bytes {
        Some(prepare::over("execution_bytes", p.bytes, options.execution_bytes))
    } else {
        None
    }
}

/// Check that a batch follows the durable end of the log and keeps the capacity
/// of the process. An empty batch needs nothing more.
pub fn check_install(manifest: &Manifest, parsed_import: &ParsedBatch, options: &EngineOptions) -> (checked:
    Result<(), Error>)
    requires
        parsed_import@.framed(),
    ensures
        match checked {
            Ok(()) => install_fault(manifest@, parsed_import@, *options) is None,
            Err(e) => install_fault(manifest@, parsed_import@, *options) == Some(e),
        },
{
    if manifest.checkpoint_sequence != manifest.durable_sequence {
        return Err(Error::Storage(storage::Error::NeedsRecovery));
    }
    if !same_bytes(
        parsed_import.watermark.database_id().as_slice(),
        manifest.database_id.as_slice(),
    ) || parsed_import.start != manifest.durable_sequence {
        return Err(Error::InvalidInput(OTHER_BASELINE));
    }
    if parsed_import.records.len() > 0 {
        assert(parsed_import@.records[0] == parsed_import.records@[0]@);
        if !same_bytes(
            &parsed_import.records[0].bytes.as_slice()[28..60],
            manifest.durable_digest.as_slice(),
        ) {
            return Err(Error::InvalidInput(OTHER_PREDECESSOR));
        }
    }
    capacity(
        "assigned_backlog_count",
        parsed_import.records.len() as u64,
        options.assigned_backlog_count as u64,
    )?;
    capacity("assigned_backlog_bytes", parsed_import.log_bytes, options.assigned_backlog_bytes)?;
    capacity("preparation_bytes", parsed_import.bytes, options.preparation_bytes)?;
    capacity("execution_bytes", parsed_import.bytes, options.execution_bytes)?;
    Ok(())
}

/// How many bytes the preparation of a transaction may take beside its batch.
pub fn preparation_room(options: &EngineOptions, charge: u64) -> (room: u64)
    requires
        charge <= options.preparation_bytes,
    ensures
        room == options.preparation_bytes - charge,
{
    options.preparation_bytes - charge
}

/// Why a transaction of a batch cannot be reproduced, given what the machine
/// says of it.
pub open spec fn execution_fault(
    charge: u64,
    options: EngineOptions,
    preparation: Result<Preparation, vm::Error>,
) -> Option<Error> {
    match preparation {
        Err(e) => Some(input_fault(e)),
        Ok(Preparation::Capacity(required)) => Some(
            prepare::over(
                "preparation_bytes",
                access::saturated((charge + required) as nat),
                options.preparation_bytes,
            ),
        ),
        Ok(Preparation::Ready { reservation, .. }) => {
            let whole = access::saturated((charge + reservation) as nat);
            if whole > options.execution_bytes {
                Some(prepare::over("execution_bytes", whole, options.execution_bytes))
            } else if whole > options.preparation_bytes {
                Some(prepare::over("preparation_bytes", whole, options.preparation_bytes))
            } else {
                None
            }
        },
    }
}

/// Check the capacity that reproducing a transaction of a batch needs beside
/// the batch itself.
pub fn check_execution(
    charge: u64,
    options: &EngineOptions,
    preparation: Result<Preparation, vm::Error>,
) -> (checked: Result<(), Error>)
    ensures
        match checked {
            Ok(()) => execution_fault(charge, *options, preparation) is None,
            Err(e) => execution_fault(charge, *options, preparation) == Some(e),
        },
{
    match preparation {
        Err(e) => Err(input_error(e)),
        Ok(Preparation::Capacity(required)) => Err(
            Error::OperationalLimit {
                resource: "preparation_bytes",
                required: charge.saturating_add(required),
                limit: options.preparation_bytes,
            },
        ),
        Ok(Preparation::Ready { reservation, .. }) => {
            let whole: u64 = charge.saturating_add(reservation);
            capacity("execution_bytes", whole, options.execution_bytes)?;
            capacity("preparation_bytes", whole, options.preparation_bytes)?;
            Ok(())
        },
    }
}

/// Why the outcome that was reproduced for a record is not the reported one.
pub open spec fn divergence(r: ParsedRecordModel, reproduced: Result<Outcome, vm::Error>) -> Option<
    Error,
> {
    match reproduced {
        Err(e) => Some(input_fault(e)),
        Ok(o) => {
            let model = outcome::OutcomeModel {
                sequence: r.sequence,
                digest: r.digest,
                kind: r.bytes[24],
                aborted: o.aborted,
                payload: o.payload@,
            };
            if !outcome::storable(model) {
                Some(Error::Read(vm::Error::Invalid(outcome::BAD_OUTCOME)))
            } else if outcome::outcome_bytes(model) != r.outcome {
                Some(Error::InvalidInput(DIVERGED))
            } else {
                None
            }
        },
    }
}

impl ParsedRecord {
    /// Compare the outcome that was reproduced with the reported one.
    pub fn check_outcome(&self, reproduced: Result<Outcome, vm::Error>) -> (checked: Result<
        (),
        Error,
    >)
        requires
            self@.bytes.len() > 24,
        ensures
            match checked {
                Ok(()) => divergence(self@, reproduced) is None,
                Err(e) => divergence(self@, reproduced) == Some(e),
            },
    {
        match reproduced {
            Err(e) => Err(input_error(e)),
            Ok(found) => {
                match encode_outcome(self.sequence, self.digest, self.bytes[24], &found) {
                    Err(e) => Err(Error::Read(e)),
                    Ok(actual) => {
                        if !same_bytes(actual.as_slice(), self.outcome.as_slice()) {
                            return Err(Error::InvalidInput(DIVERGED));
                        }
                        Ok(())
                    },
                }
            },
        }
    }
}

/// How far an installation has come.
#[derive(Clone, Copy, Debug, PartialEq, Eq, Structural)]
pub enum Phase {
    /// Prepare a transaction in an isolated copy.
    Prepare,
    /// Execute a record there, and compare its outcome.
    Execute,
    /// Append the records to the log.
    Append,
    /// Replay the log.
    Recover,
    Done,
}

/// The installation of a batch: the phase, and the record that is next in it.
#[derive(Clone, Copy, Debug, PartialEq, Eq, Structural)]
pub struct Installation {
    pub phase: Phase,
    pub next: usize,
}

/// What is handed to an installation.
pub enum Progress {
    /// What the machine says of the next record, which is a transaction.
    Prepared(Result<Preparation, vm::Error>),
    /// What it reproduced for the next record.
    Reproduced(Result<Outcome, vm::Error>),
    /// Whether the next record was appended.
    Appended(Result<(), storage::Error>),
    /// Whether the log was replayed.
    Recovered(Result<(), storage::Error>),
}

/// The place where the `i`-th record is verified: a transaction is prepared
/// first.
pub open spec fn verifying(p: ParsedModel, i: int) -> Installation {
    Installation {
        phase: if p.records[i].command is Transaction {
            Phase::Prepare
        } else {
            Phase::Execute
        },
        next: i as usize,
    }
}

/// Where an installation starts.
pub open spec fn start_of(p: ParsedModel) -> Installation {
    if p.records.len() == 0 {
        Installation { phase: Phase::Done, next: 0 }
    } else {
        verifying(p, 0)
    }
}

/// The place behind the `i`-th record in a phase.
pub open spec fn behind(p: ParsedModel, phase: Phase, i: usize) -> Installation {
    if i + 1 < p.records.len() {
        if phase == Phase::Execute {
            verifying(p, i + 1)
        } else {
            Installation { phase, next: (i + 1) as usize }
        }
    } else {
        Installation {
            phase: if phase == Phase::Execute {
                Phase::Append
            } else {
                Phase::Recover
            },
            next: 0,
        }
    }
}

/// An installation after what was handed to it.
pub open spec fn progressed(
    p: ParsedModel,
    options: EngineOptions,
    at: Installation,
    progress: Progress,
) -> Result<Installation, Error> {
    match progress {
        Progress::Prepared(preparation) => match execution_fault(p.bytes, options, preparation) {
            Some(e) => Err(e),
            None => Ok(Installation { phase: Phase::Execute, ..at }),
        },
        Progress::Reproduced(reproduced) => match divergence(
            p.records[at.next as int],
            reproduced,
        ) {
            Some(e) => Err(e),
            None => Ok(behind(p, Phase::Execute, at.next)),
        },
        Progress::Appended(Ok(())) => Ok(behind(p, Phase::Append, at.next)),
        Progress::Appended(Err(e)) => Err(
            Error::Uncertain {
                sequence: Some(p.records[at.next as int].sequence),
                source: Some(vm::Error::Storage(e)),
            },
        ),
        Progress::Recovered(Ok(())) => Ok(Installation { phase: Phase::Done, next: 0 }),
        Progress::Recovered(Err(e)) => Err(
            Error::Uncertain {
                sequence: Some(p.watermark.sequence),
                source: Some(vm::Error::Storage(e)),
            },
        ),
    }
}

/// Whether what is handed to an installation belongs to its phase.
pub open spec fn fits_phase(p: ParsedModel, at: Installation, progress: Progress) -> bool {
    match progress {
        Progress::Prepared(_) => at.phase == Phase::Prepare && at.next < p.records.len(),
        Progress::Reproduced(_) => at.phase == Phase::Execute && at.next < p.records.len(),
        Progress::Appended(_) => at.phase == Phase::Append && at.next < p.records.len(),
        Progress::Recovered(_) => at.phase == Phase::Recover,
    }
}

impl Installation {
    /// Start to install a batch that can follow the durable end. An empty one is
    /// done at once.
    pub fn start(manifest: &Manifest, parsed_import: &ParsedBatch, options: &EngineOptions) -> (started:
        Result<Installation, Error>)
        requires
            parsed_import@.framed(),
        ensures
            match started {
                Ok(at) => install_fault(manifest@, parsed_import@, *options) is None && at
                    == start_of(parsed_import@),
                Err(e) => install_fault(manifest@, parsed_import@, *options) == Some(e),
            },
    {
        check_install(manifest, parsed_import, options)?;
        if parsed_import.records.len() == 0 {
            return Ok(Installation { phase: Phase::Done, next: 0 });
        }
        Ok(Installation { phase: Installation::first_phase(parsed_import, 0), next: 0 })
    }

    /// The phase in which a record is verified first.
    fn first_phase(parsed_import: &ParsedBatch, i: usize) -> (phase: Phase)
        requires
            i < parsed_import@.records.len(),
        ensures
            phase == verifying(parsed_import@, i as int).phase,
    {
        let record = &parsed_import.records[i];
        assert(parsed_import@.records[i as int] == record@);
        match &record.command {
            Command::Transaction { .. } => Phase::Prepare,
            _ => Phase::Execute,
        }
    }

    /// The place behind the next record.
    fn step(&mut self, parsed_import: &ParsedBatch)
        requires
            old(self).next < parsed_import@.records.len(),
            old(self).phase == Phase::Execute || old(self).phase == Phase::Append,
        ensures
            *final(self) == behind(parsed_import@, old(self).phase, old(self).next),
    {
        let count: usize = parsed_import.records.len();
        if self.next < count - 1 {
            self.next = self.next + 1;
            if self.phase == Phase::Execute {
                self.phase = Installation::first_phase(parsed_import, self.next);
            }
        } else {
            self.phase = match self.phase {
                Phase::Execute => Phase::Append,
                _ => Phase::Recover,
            };
            self.next = 0;
        }
    }

    /// Take what the machine says of the next transaction. It is executed only
    /// where there is room for it beside the batch.
    pub fn prepared(
        &mut self,
        parsed_import: &ParsedBatch,
        options: &EngineOptions,
        preparation: Result<Preparation, vm::Error>,
    ) -> (done: Result<(), Error>)
        requires
            old(self).phase == Phase::Prepare,
            old(self).next < parsed_import@.records.len(),
        ensures
            match done {
                Ok(()) => progressed(
                    parsed_import@,
                    *options,
                    *old(self),
                    Progress::Prepared(preparation),
                ) == Ok::<Installation, Error>(*final(self)),
                Err(e) => progressed(
                    parsed_import@,
                    *options,
                    *old(self),
                    Progress::Prepared(preparation),
                ) == Err::<Installation, Error>(e) && *final(self) == *old(self),
            },
    {
        check_execution(parsed_import.bytes, options, preparation)?;
        self.phase = Phase::Execute;
        Ok(())
    }

    /// Take what an isolated execution of the next record gave.
    pub fn reproduced(&mut self, parsed_import: &ParsedBatch, outcome: Result<Outcome, vm::Error>) -> (done:
        Result<(), Error>)
        requires
            parsed_import@.framed(),
            old(self).phase == Phase::Execute,
            old(self).next < parsed_import@.records.len(),
        ensures
            forall|options: EngineOptions|
                match done {
                    Ok(()) => #[trigger] progressed(
                        parsed_import@,
                        options,
                        *old(self),
                        Progress::Reproduced(outcome),
                    ) == Ok::<Installation, Error>(*final(self)),
                    Err(e) => progressed(
                        parsed_import@,
                        options,
                        *old(self),
                        Progress::Reproduced(outcome),
                    ) == Err::<Installation, Error>(e) && *final(self) == *old(self),
                },
    {
        let record = &parsed_import.records[self.next];
        assert(parsed_import@.records[self.next as int] == record@);
        record.check_outcome(outcome)?;
        self.step(parsed_import);
        Ok(())
    }

    /// Take whether the next record was appended.
    pub fn appended(&mut self, parsed_import: &ParsedBatch, result: Result<(), storage::Error>) -> (done:
        Result<(), Error>)
        requires
            old(self).phase == Phase::Append,
            old(self).next < parsed_import@.records.len(),
        ensures
            forall|options: EngineOptions|
                match done {
                    Ok(()) => #[trigger] progressed(
                        parsed_import@,
                        options,
                        *old(self),
                        Progress::Appended(result),
                    ) == Ok::<Installation, Error>(*final(self)),
                    Err(e) => progressed(
                        parsed_import@,
                        options,
                        *old(self),
                        Progress::Appended(result),
                    ) == Err::<Installation, Error>(e) && *final(self) == *old(self),
                },
    {
        assert(parsed_import@.records[self.next as int] == parsed_import.records@[self.next as int]@);
        match result {
            Ok(()) => {
                self.step(parsed_import);
                Ok(())
            },
            Err(e) => Err(
                Error::Uncertain {
                    sequence: Some(parsed_import.records[self.next].sequence),
                    source: Some(vm::Error::Storage(e)),
                },
            ),
        }
    }

    /// Take whether the log was replayed.
    pub fn recovered(&mut self, parsed_import: &ParsedBatch, result: Result<(), storage::Error>) -> (done:
        Result<(), Error>)
        requires
            old(self).phase == Phase::Recover,
        ensures
            forall|options: EngineOptions|
                match done {
                    Ok(()) => #[trigger] progressed(
                        parsed_import@,
                        options,
                        *old(self),
                        Progress::Recovered(result),
                    ) == Ok::<Installation, Error>(*final(self)),
                    Err(e) => progressed(
                        parsed_import@,
                        options,
                        *old(self),
                        Progress::Recovered(result),
                    ) == Err::<Installation, Error>(e) && *final(self) == *old(self),
                },
    {
        match result {
            Ok(()) => {
                self.phase = Phase::Done;
                self.next = 0;
                Ok(())
            },
            Err(e) => Err(
                Error::Uncertain {
                    sequence: Some(parsed_import.watermark.sequence()),
                    source: Some(vm::Error::Storage(e)),
                },
            ),
        }
    }
}

// ---- Laws ----------------------------------------------------------------

proof fn lemma_imported(records: Seq<FeedRecord>, n: int, i: int)
    requires
        0 <= i < n <= records.len(),
        imported(records, n) is Ok,
    ensures
        ({
            let list = imported(records, n)->Ok_0.0;
            &&& list.len() == n
            &&& list[i].bytes == records[i].log
            &&& list[i].sequence == records[i].outcome.sequence
            &&& list[i].digest == records[i].outcome.digest
            &&& list[i].outcome == outcome::outcome_bytes(records[i].outcome)
            &&& logged_command(records[i].log) == Ok::<CommandModel, Error>(list[i].command)
        }),
    decreases n,
{
    assert(imported(records, n - 1) is Ok);
    if n > 1 {
        if i < n - 1 {
            lemma_imported(records, n - 1, i);
        } else {
            lemma_imported(records, n - 1, 0);
        }
    } else {
        assert(imported(records, 0)->Ok_0.0.len() == 0);
    }
}

/// What a source logged is what a replica imports: the record of a command is
/// parsed as that command.
pub proof fn logged_commands_are_imported(
    sequence: u64,
    predecessor: Seq<u8>,
    kind: u8,
    body: Seq<u8>,
    command: CommandModel,
)
    requires
        predecessor.len() == 32,
        record::well_formed(command),
        record::body_of(command) == Ok::<(u8, Seq<u8>), vm::Error>((kind, body)),
        engine::envelope_fault(sequence, kind, body.len()) is None,
    ensures
        logged_command(engine::record_bytes(sequence, predecessor, kind, body)) == Ok::<
            CommandModel,
            Error,
        >(command),
{
    let log = engine::record_bytes(sequence, predecessor, kind, body);
    engine::logged_records_are_read_back(
        sequence,
        predecessor,
        kind,
        body,
        Seq::empty(),
        u64::MAX,
    );
    assert(log + Seq::<u8>::empty() =~= log);
    record::records_are_read_back(command, kind, body);
}

/// Whether a feed holds the log records of some commands.
pub open spec fn feeds(f: FeedModel, commands: Seq<CommandModel>) -> bool {
    &&& f.logical
    &&& f.records.len() == commands.len()
    &&& forall|i: int| 0 <= i < commands.len() ==> fed(#[trigger] f.records[i], commands[i])
}

/// Whether a record of a feed is the log record of a command.
pub open spec fn fed(r: FeedRecord, command: CommandModel) -> bool {
    &&& record::well_formed(command)
    &&& record::body_of(command) matches Ok((kind, body))
    &&& exists|predecessor: Seq<u8>|
        predecessor.len() == 32 && engine::envelope_fault(
            r.outcome.sequence,
            kind,
            body.len(),
        ) is None && r.log == #[trigger] engine::record_bytes(
            r.outcome.sequence,
            predecessor,
            kind,
            body,
        )
}

proof fn lemma_fed(records: Seq<FeedRecord>, commands: Seq<CommandModel>, n: int)
    requires
        0 <= n <= records.len(),
        records.len() == commands.len(),
        forall|i: int| 0 <= i < commands.len() ==> fed(#[trigger] records[i], commands[i]),
    ensures
        imported(records, n) matches Ok((list, _, _)) && list.len() == n && forall|i: int|
            0 <= i < n ==> (#[trigger] list[i]).command == commands[i],
    decreases n,
{
    if n > 0 {
        lemma_fed(records, commands, n - 1);
        let r = records[n - 1];
        let command = commands[n - 1];
        assert(fed(r, command));
        let (kind, body) = record::body_of(command)->Ok_0;
        let predecessor = choose|predecessor: Seq<u8>|
            predecessor.len() == 32 && engine::envelope_fault(
                r.outcome.sequence,
                kind,
                body.len(),
            ) is None && r.log == #[trigger] engine::record_bytes(
                r.outcome.sequence,
                predecessor,
                kind,
                body,
            );
        logged_commands_are_imported(r.outcome.sequence, predecessor, kind, body, command);
    }
}

/// What a feed sends is read as the batch that it put together.
proof fn lemma_sent(f: FeedModel, id: Seq<u8>)
    requires
        f.wf(),
        feed::sourced(f),
        f.logical,
        id.len() == 16,
        id != bytes::zeros(16),
    ensures
        batch::batch_bytes(feed::batch_model(f, id)) matches Ok(s) && batch::batch_of(s) == Ok::<
            BatchModel,
            Error,
        >(feed::batch_model(f, id)),
{
    feed::collected_batches_can_be_sent(f, id);
    let b = feed::batch_model(f, id);
    batch::batches_are_read_back(b, batch::batch_bytes(b)->Ok_0);
}

/// A batch of the log records of some commands is imported as these commands.
proof fn lemma_batch_imported(b: BatchModel, commands: Seq<CommandModel>)
    requires
        b.logical,
        exchange::watermark_allowed(
            WatermarkModel { database_id: b.database_id, sequence: b.end },
        ),
        b.records.len() == commands.len(),
        forall|i: int| 0 <= i < commands.len() ==> fed(#[trigger] b.records[i], commands[i]),
    ensures
        parsed_batch(b) matches Ok(p) && p.start == b.start && p.watermark == (WatermarkModel {
            database_id: b.database_id,
            sequence: b.end,
        }) && p.records.len() == commands.len() && forall|i: int|
            0 <= i < commands.len() ==> (#[trigger] p.records[i]).command == commands[i],
{
    lemma_fed(b.records, commands, commands.len() as int);
}

/// What a source feeds is what a replica imports: the encoded batch of a feed
/// that holds the log records of some commands is parsed as exactly these
/// commands, between the same sequences.
pub proof fn fed_commands_are_imported(f: FeedModel, id: Seq<u8>, commands: Seq<CommandModel>)
    requires
        f.wf(),
        feed::sourced(f),
        feeds(f, commands),
        id.len() == 16,
        id != bytes::zeros(16),
    ensures
        batch::batch_bytes(feed::batch_model(f, id)) matches Ok(s) && parsed(s) matches Ok(p)
            && p.start == f.start && p.watermark == (WatermarkModel {
            database_id: id,
            sequence: f.end,
        }) && p.records.len() == commands.len() && forall|i: int|
            0 <= i < commands.len() ==> (#[trigger] p.records[i]).command == commands[i],
{
    let b = feed::batch_model(f, id);
    lemma_sent(f, id);
    lemma_batch_imported(b, commands);
    let s = batch::batch_bytes(b)->Ok_0;
    assert(parsed(s) == parsed_batch(b));
}

/// An import continues the log: the bytes that it appends are the log records of
/// the next sequences, each chained to the one before it and the first to the
/// durable end, and each is reported under the digest of its bytes.
pub proof fn imports_continue_the_log(
    encoded: Seq<u8>,
    m: ManifestModel,
    options: EngineOptions,
    p: ParsedModel,
    i: int,
)
    requires
        parsed(encoded) == Ok::<ParsedModel, Error>(p),
        install_fault(m, p, options) is None,
        0 <= i < p.records.len(),
    ensures
        p.records[i].sequence == m.durable_sequence + i + 1,
        p.records[i].digest == external::sha256_of(p.records[i].bytes),
        engine::record_fault(
            p.records[i].bytes,
            p.records[i].bytes.len() as u64,
            p.records[i].sequence,
            if i == 0 {
                m.durable_digest
            } else {
                p.records[i - 1].digest
            },
        ) is None,
{
    reveal(engine::record_fault);
    let b = batch::batch_of(encoded)->Ok_0;
    let n = b.records.len() as int;
    if n == 0 {
        assert(false);
    }
    lemma_imported(b.records, n, 0);
    lemma_imported(b.records, n, i);
    batch::read_batches_are_chained(encoded, b, i);
    if i > 0 {
        lemma_imported(b.records, n, i - 1);
        batch::read_batches_are_chained(encoded, b, i - 1);
    }
    let log = p.records[i].bytes;
    assert(log.subrange(0, log.len() as int) =~= log);
}

/// An installation after some inputs that belong to its phases.
pub open spec fn installed(p: ParsedModel, options: EngineOptions, inputs: Seq<Progress>) -> Option<
    Installation,
>
    decreases inputs.len(),
{
    if inputs.len() == 0 {
        Some(start_of(p))
    } else {
        match installed(p, options, inputs.drop_last()) {
            None => None,
            Some(at) => if !fits_phase(p, at, inputs.last()) {
                None
            } else {
                match progressed(p, options, at, inputs.last()) {
                    Ok(next) => Some(next),
                    Err(_) => None,
                }
            },
        }
    }
}

/// How many of the first `n` inputs are reproduced outcomes.
pub open spec fn verified(inputs: Seq<Progress>, n: int) -> nat
    decreases n,
{
    if n <= 0 {
        0
    } else {
        verified(inputs, n - 1) + if inputs[n - 1] is Reproduced {
            1nat
        } else {
            0nat
        }
    }
}

/// Whether the `i`-th input is allowed where it stands: an outcome is the
/// reported one of the next record, and a transaction was prepared within the
/// capacity right before it was executed; a record is appended only when all
/// were verified.
pub open spec fn in_order(p: ParsedModel, options: EngineOptions, inputs: Seq<Progress>, i: int) -> bool {
    let next = verified(inputs, i) as int;
    match inputs[i] {
        Progress::Prepared(preparation) => next < p.records.len() && p.records[next].command
            is Transaction && execution_fault(p.bytes, options, preparation) is None,
        Progress::Reproduced(reproduced) => {
            &&& next < p.records.len()
            &&& divergence(p.records[next], reproduced) is None
            &&& p.records[next].command is Transaction ==> i > 0 && inputs[i - 1] is Prepared
        },
        _ => next == p.records.len(),
    }
}

proof fn lemma_verified_front(a: Seq<Progress>, b: Seq<Progress>, n: int)
    requires
        n <= a.len() <= b.len(),
        b.subrange(0, a.len() as int) == a,
    ensures
        verified(a, n) == verified(b, n),
    decreases n,
{
    if n > 0 {
        lemma_verified_front(a, b, n - 1);
        assert(b.subrange(0, a.len() as int)[n - 1] == b[n - 1]);
    }
}

/// Nothing is appended before every outcome of the batch has been reproduced, in
/// order; and no transaction is executed before there is room for it.
pub proof fn nothing_is_appended_before_all_is_verified(
    p: ParsedModel,
    options: EngineOptions,
    inputs: Seq<Progress>,
)
    requires
        p.records.len() <= usize::MAX,
        installed(p, options, inputs) is Some,
    ensures
        ({
            let at = installed(p, options, inputs)->0;
            let n = inputs.len() as int;
            &&& at.phase == Phase::Prepare || at.phase == Phase::Execute ==> at.next == verified(
                inputs,
                n,
            ) && at.next < p.records.len()
            &&& at.phase == Phase::Prepare ==> p.records[at.next as int].command is Transaction
            &&& at.phase == Phase::Execute && p.records[at.next as int].command is Transaction ==> n
                > 0 && inputs[n - 1] is Prepared
            &&& at.phase == Phase::Append || at.phase == Phase::Recover || at.phase == Phase::Done
                ==> verified(inputs, n) == p.records.len()
            &&& forall|i: int| 0 <= i < n ==> in_order(p, options, inputs, i)
        }),
    decreases inputs.len(),
{
    let n = inputs.len() as int;
    if n > 0 {
        let front = inputs.drop_last();
        nothing_is_appended_before_all_is_verified(p, options, front);
        assert(inputs.subrange(0, front.len() as int) =~= front);
        lemma_verified_front(front, inputs, n - 1);
        assert forall|i: int| 0 <= i < n implies in_order(p, options, inputs, i) by {
            if i < n - 1 {
                assert(in_order(p, options, front, i));
                assert(front[i] == inputs[i]);
                lemma_verified_front(front, inputs, i);
                if i > 0 {
                    assert(front[i - 1] == inputs[i - 1]);
                }
            } else if n > 1 {
                assert(front[n - 2] == inputs[n - 2]);
            }
        }
    }
}

/// A batch is installed exactly when it begins at the durable end of a settled
/// log, of the same database and behind the same record, and fits.
pub proof fn batches_that_continue_the_log_are_installed(
    m: ManifestModel,
    p: ParsedModel,
    options: EngineOptions,
)
    ensures
        install_fault(m, p, options) is None <==> {
            &&& m.checkpoint_sequence == m.durable_sequence
            &&& p.watermark.database_id == m.database_id
            &&& p.start == m.durable_sequence
            &&& p.records.len() > 0 ==> p.records[0].bytes.subrange(28, 60) == m.durable_digest
            &&& p.records.len() <= options.assigned_backlog_count
            &&& p.log_bytes <= options.assigned_backlog_bytes
            &&& p.bytes <= options.preparation_bytes
            &&& p.bytes <= options.execution_bytes
        },
{
}

/// A record is verified exactly when its reported outcome is read as the one
/// that was reproduced: under its sequence and digest, with the same decision
/// and the same payload.
pub proof fn verified_outcomes_are_the_reported_ones(r: ParsedRecordModel, o: Outcome)
    ensures
        divergence(r, Ok(o)) is None <==> (outcome::outcome_of(r.outcome) matches Ok(reported)
            && reported.sequence == r.sequence && reported.digest == r.digest && reported.kind
            == r.bytes[24] && reported.aborted == o.aborted && reported.payload == o.payload@),
{
    let model = outcome::OutcomeModel {
        sequence: r.sequence,
        digest: r.digest,
        kind: r.bytes[24],
        aborted: o.aborted,
        payload: o.payload@,
    };
    if outcome::storable(model) {
        outcome::stored_outcomes_are_read_back(model);
    }
    if let Ok(reported) = outcome::outcome_of(r.outcome) {
        outcome::read_outcomes_are_canonical(r.outcome, reported);
    }
}

} // verus!
