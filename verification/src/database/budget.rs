//! Process capacity: engine options and what a submission is charged with.

use super::engine;
use super::engine::rejection;
use super::record::{Command, CommandModel};
use super::Error;
use crate::compiler::types;
use crate::external::max_permits;
use crate::storage::TailRecovery;
use crate::vm;
use crate::vm::access;
use crate::vm::access::Scope;
use crate::vm::catalogue;
use crate::vm::catalogue::OperationModel;
use crate::vm::{validate_catalogue, AccessManifest, AccessMode, CatalogueOperation};
use vstd::prelude::*;
use vstd::utf8::*;

verus! {

pub const BAD_OPTIONS: &'static str = "invalid operational engine limits";

/// Process settings, not persisted semantic policy. Reservations are
/// conservative accounting units, not a limit on memory or disk space.
#[derive(Clone, Debug, PartialEq, Eq, Structural)]
pub struct EngineOptions {
    /// What opening does about a damaged end of the log.
    pub tail_recovery: TailRecovery,
    pub workers: usize,
    pub execution_window: u64,
    /// From 1 to 4096. The coordinator publishes a checkpoint with every move of
    /// the visible frontier, so that a greater value delays none.
    pub checkpoint_interval: u64,
    pub submission_queue_count: usize,
    pub submission_queue_bytes: usize,
    pub assigned_backlog_count: usize,
    pub assigned_backlog_bytes: u64,
    /// Full lifetime reservations, retained through visible receipts.
    pub execution_bytes: u64,
    /// Bounds decoding, access analysis and the retained prepared queue head.
    pub preparation_bytes: u64,
}

/// How many workers to start on a machine: its processors, but 2 to 4; 2 where
/// their number is unknown.
pub open spec fn default_workers(processors: Option<usize>) -> usize {
    match processors {
        None => 2,
        Some(n) => if n < 2 {
            2
        } else if n > 4 {
            4
        } else {
            n
        },
    }
}

/// The default options on a machine with some processors.
pub open spec fn default_options(processors: Option<usize>) -> EngineOptions {
    EngineOptions {
        tail_recovery: TailRecovery::DiscardInvalid,
        workers: default_workers(processors),
        execution_window: 64,
        checkpoint_interval: 64,
        submission_queue_count: 64,
        submission_queue_bytes: 67108864,
        assigned_backlog_count: 64,
        assigned_backlog_bytes: 67108864,
        execution_bytes: 536870912,
        preparation_bytes: 536870912,
    }
}

/// Whether options can be used.
pub open spec fn options_allowed(o: EngineOptions) -> bool {
    &&& 1 <= o.workers <= 256
    &&& o.execution_window != 0
    &&& 1 <= o.checkpoint_interval <= 4096
    &&& 1 <= o.submission_queue_count <= usize::MAX / 8
    &&& 1 <= o.submission_queue_bytes <= usize::MAX / 8
    &&& o.submission_queue_bytes <= u32::MAX
    &&& 1 <= o.assigned_backlog_count <= u32::MAX
    &&& o.assigned_backlog_bytes != 0
    &&& o.execution_bytes != 0
    &&& o.preparation_bytes != 0
}

impl EngineOptions {
    /// The default options on a machine with some processors; `None` where
    /// their number is unknown.
    pub fn for_parallelism(processors: Option<usize>) -> (options: EngineOptions)
        ensures
            options == default_options(processors),
            options_allowed(options),
    {
        let workers: usize = match processors {
            None => 2,
            Some(n) => if n < 2 {
                2
            } else if n > 4 {
                4
            } else {
                n
            },
        };
        EngineOptions {
            tail_recovery: TailRecovery::DiscardInvalid,
            workers,
            execution_window: 64,
            checkpoint_interval: 64,
            submission_queue_count: 64,
            submission_queue_bytes: 67108864,
            assigned_backlog_count: 64,
            assigned_backlog_bytes: 67108864,
            execution_bytes: 536870912,
            preparation_bytes: 536870912,
        }
    }

    /// A copy of these options.
    pub fn duplicate(&self) -> (copy: EngineOptions)
        ensures
            copy == *self,
    {
        EngineOptions {
            tail_recovery: self.tail_recovery,
            workers: self.workers,
            execution_window: self.execution_window,
            checkpoint_interval: self.checkpoint_interval,
            submission_queue_count: self.submission_queue_count,
            submission_queue_bytes: self.submission_queue_bytes,
            assigned_backlog_count: self.assigned_backlog_count,
            assigned_backlog_bytes: self.assigned_backlog_bytes,
            execution_bytes: self.execution_bytes,
            preparation_bytes: self.preparation_bytes,
        }
    }
}

/// The default options of some machine: how many processors this one has is not
/// asked here. A caller that knows their number hands it to
/// [`EngineOptions::for_parallelism`].
impl Default for EngineOptions {
    fn default() -> (options: EngineOptions)
        ensures
            exists|processors: Option<usize>| options == #[trigger] default_options(processors),
            options_allowed(options),
    {
        EngineOptions::for_parallelism(None)
    }
}

/// Check options before anything is started with them.
pub fn validate(options: &EngineOptions) -> (valid: Result<(), Error>)
    ensures
        valid == if options_allowed(*options) {
            Ok::<(), Error>(())
        } else {
            Err(Error::InvalidInput(BAD_OPTIONS))
        },
{
    let permits: usize = max_permits();
    if options.workers < 1 || options.workers > 256 || options.execution_window == 0
        || options.checkpoint_interval < 1 || options.checkpoint_interval > 4096
        || options.submission_queue_count == 0 || options.submission_queue_count > permits
        || options.submission_queue_bytes == 0 || options.submission_queue_bytes > permits
        || options.submission_queue_bytes as u64 > u32::MAX as u64
        || options.assigned_backlog_count == 0 || options.assigned_backlog_count as u64
        > u32::MAX as u64 || options.assigned_backlog_bytes == 0 || options.execution_bytes == 0
        || options.preparation_bytes == 0 {
        return Err(Error::InvalidInput(BAD_OPTIONS));
    }
    Ok(())
}

// ---- Reservations --------------------------------------------------------

/// The entries of an optional manifest.
pub open spec fn entries_of(manifest: Option<&AccessManifest>) -> Seq<(Scope, AccessMode)> {
    match manifest {
        Some(manifest) => manifest.entries@,
        None => Seq::empty(),
    }
}

/// The bytes that a command holds.
pub open spec fn held_bytes(command: CommandModel, entries: Seq<(Scope, AccessMode)>) -> nat {
    match command {
        CommandModel::Transaction { transaction, .. } => transaction.program.len()
            + transaction.arguments.len() + access::charge(entries),
        CommandModel::Catalogue(OperationModel::Create { name, key, value }) => encode_utf8(
            name,
        ).len() + 64 * (types::descriptor(key).len() + types::descriptor(value).len()),
        CommandModel::Catalogue(OperationModel::Rename { name, .. }) => encode_utf8(name).len(),
        CommandModel::Catalogue(OperationModel::Drop { .. }) => 8,
        CommandModel::Limits(_) => 140,
    }
}

/// What a command is charged with in the submission queue.
pub open spec fn charged(command: CommandModel, entries: Seq<(Scope, AccessMode)>) -> Result<
    u64,
    Error,
> {
    match command {
        CommandModel::Catalogue(operation) => match catalogue::operation_fault(operation) {
            Some(reason) => Err(engine::rejected(vm::Error::Invalid(reason))),
            None => Ok(access::saturated(held_bytes(command, entries) + 512)),
        },
        _ => Ok(access::saturated(held_bytes(command, entries) + 512)),
    }
}

/// What a command is charged with in the submission queue.
pub fn input_bytes(command: &Command, manifest: Option<&AccessManifest>) -> (bytes: Result<
    u64,
    Error,
>)
    ensures
        bytes == charged(command@, entries_of(manifest)),
{
    let bytes: u64 = match command {
        Command::Transaction { transaction, .. } => {
            let scopes: u64 = match manifest {
                Some(manifest) => manifest.queue_bytes(),
                None => 0,
            };
            (transaction.program_bytes().len() as u64).saturating_add(
                transaction.argument_bytes().len() as u64,
            ).saturating_add(scopes)
        },
        Command::Catalogue(operation) => {
            match validate_catalogue(operation) {
                Ok(()) => {},
                Err(e) => {
                    return Err(rejection(e));
                },
            }
            match operation {
                CatalogueOperation::Create { name, key, value } => {
                    let described: usize = key.descriptor().len() + value.descriptor().len();
                    name.as_str().as_bytes().len() as u64 + 64 * (described as u64)
                },
                CatalogueOperation::Rename { name, .. } => name.as_str().as_bytes().len() as u64,
                CatalogueOperation::Drop { .. } => 8,
            }
        },
        Command::Limits(_) => 140,
    };
    Ok(bytes.saturating_add(512))
}

/// Whether a queue can ever hold some submissions, or which of its limits they
/// exceed.
pub open spec fn reservable(max_count: usize, max_bytes: usize, count: usize, bytes: u64) -> Result<
    (),
    Error,
> {
    if count > max_count {
        Err(
            Error::OperationalLimit {
                resource: "submission_queue_count",
                required: count as u64,
                limit: max_count as u64,
            },
        )
    } else if bytes > max_bytes {
        Err(
            Error::OperationalLimit {
                resource: "submission_queue_bytes",
                required: bytes,
                limit: max_bytes as u64,
            },
        )
    } else {
        Ok(())
    }
}

/// Check that a queue can ever hold some submissions, before their caller waits
/// for room.
pub fn check_reservation(max_count: usize, max_bytes: usize, count: usize, bytes: u64) -> (checked:
    Result<(), Error>)
    ensures
        checked == reservable(max_count, max_bytes, count, bytes),
{
    if count > max_count {
        return Err(
            Error::OperationalLimit {
                resource: "submission_queue_count",
                required: count as u64,
                limit: max_count as u64,
            },
        );
    }
    if bytes > max_bytes as u64 {
        return Err(
            Error::OperationalLimit {
                resource: "submission_queue_bytes",
                required: bytes,
                limit: max_bytes as u64,
            },
        );
    }
    Ok(())
}

/// Every transaction is charged, and with at least the bytes that it brings: its
/// program, its arguments and the keys that its manifest names. An entry more
/// makes no charge smaller.
pub proof fn charges_cover_what_is_brought(
    command: CommandModel,
    entries: Seq<(Scope, AccessMode)>,
    entry: (Scope, AccessMode),
)
    requires
        command is Transaction,
    ensures
        charged(command, entries) matches Ok(charge) && (charge == u64::MAX || charge
            >= command->transaction.program.len() + command->transaction.arguments.len()),
        charged(command, entries.push(entry)) matches Ok(longer) && (longer == u64::MAX || longer
            > charged(command, entries)->Ok_0 + (match entry.0@ {
            access::ScopeModel::Table(_) => 0,
            access::ScopeModel::Key(_, key) => key.len(),
        })),
{
    assert(entries.push(entry).drop_last() =~= entries);
}

/// Submissions are refused exactly when they could never fit: what fits goes on
/// fitting with less, and in a greater queue.
pub proof fn reservations_fit_or_never_will(
    max_count: usize,
    max_bytes: usize,
    count: usize,
    bytes: u64,
)
    ensures
        reservable(max_count, max_bytes, count, bytes) is Ok <==> count <= max_count && bytes
            <= max_bytes,
        reservable(max_count, max_bytes, count, bytes) matches Err(e) ==> (e matches
            Error::OperationalLimit { resource, required, limit } && required > limit),
{
}

} // verus!
