//! What can be seen of the coordinator without waiting for it.

use super::coordinator::{Coordinator, Head, HeadModel, State};
use super::schedule;
use super::schedule::{Plan, Record, Schedule};
use crate::database::budget::EngineOptions;
use crate::database::cursor::RetentionFloors;
use crate::database::engine;
use crate::database::maintenance::MaintenanceReport;
use crate::storage::Manifest;
use vstd::prelude::*;

verus! {

pub const PANICKED: &'static str = "database coordinator panicked; reopen required";

/// Last coordinator sample. Available without waiting for workers or storage
/// I/O. Byte fields report reserved capacity, not measured allocator or disk
/// usage.
#[derive(Clone, Debug, PartialEq, Eq)]
pub struct EngineStatus {
    pub options: EngineOptions,
    pub log_tail: u64,
    pub durable_frontier: u64,
    pub visibility_frontier: u64,
    pub checkpoint: u64,
    pub queued_count: usize,
    pub queued_bytes: u64,
    pub assigned_count: usize,
    pub assigned_bytes: u64,
    pub reserved_execution_bytes: u64,
    pub prepared_head_bytes: u64,
    pub oldest_unresolved: Option<u64>,
    pub resolved_above_frontier: usize,
    pub active_workers: usize,
    pub dependency_waiting: usize,
    pub administrative_barrier: Option<u64>,
    pub maintenance_pending: bool,
    pub backup_jobs: usize,
    pub last_maintenance: Option<MaintenanceReport>,
    pub retention: RetentionFloors,
    pub poisoned: bool,
    pub closed: bool,
    pub last_error: Option<String>,
}

/// The status of an engine that has not started.
pub fn initial_status(options: EngineOptions) -> (status: EngineStatus)
    ensures
        status == (EngineStatus {
            options,
            log_tail: 0,
            durable_frontier: 0,
            visibility_frontier: 0,
            checkpoint: 0,
            queued_count: 0,
            queued_bytes: 0,
            assigned_count: 0,
            assigned_bytes: 0,
            reserved_execution_bytes: 0,
            prepared_head_bytes: 0,
            oldest_unresolved: None,
            resolved_above_frontier: 0,
            active_workers: 0,
            dependency_waiting: 0,
            administrative_barrier: None,
            maintenance_pending: false,
            backup_jobs: 0,
            last_maintenance: None,
            retention: RetentionFloors { history: 0, log: 1 },
            poisoned: false,
            closed: false,
            last_error: None,
        }),
{
    EngineStatus {
        options,
        log_tail: 0,
        durable_frontier: 0,
        visibility_frontier: 0,
        checkpoint: 0,
        queued_count: 0,
        queued_bytes: 0,
        assigned_count: 0,
        assigned_bytes: 0,
        reserved_execution_bytes: 0,
        prepared_head_bytes: 0,
        oldest_unresolved: None,
        resolved_above_frontier: 0,
        active_workers: 0,
        dependency_waiting: 0,
        administrative_barrier: None,
        maintenance_pending: false,
        backup_jobs: 0,
        last_maintenance: None,
        retention: RetentionFloors { history: 0, log: 1 },
        poisoned: false,
        closed: false,
        last_error: None,
    }
}

/// The first unresolved sequence from the `i`-th record on.
pub open spec fn oldest(list: Seq<Record>, i: int) -> Option<u64>
    decreases list.len() - i,
{
    if !(0 <= i < list.len()) {
        None
    } else if !list[i].resolved() {
        Some(list[i].sequence)
    } else {
        oldest(list, i + 1)
    }
}

/// How many of the first `n` records are resolved and not visible.
pub open spec fn resolved_above(p: Plan, n: int) -> nat
    decreases n,
{
    if !(0 < n <= p.records.len()) {
        0
    } else {
        let record = p.records[n - 1];
        resolved_above(p, n - 1) + if record.sequence > p.frontier && record.resolved() {
            1nat
        } else {
            0nat
        }
    }
}

/// How many of the first `n` records wait for another one.
pub open spec fn held_back(list: Seq<Record>, n: int) -> nat
    decreases n,
{
    if !(0 < n <= list.len()) {
        0
    } else {
        held_back(list, n - 1) + if list[n - 1].dependencies.len() > 0 {
            1nat
        } else {
            0nat
        }
    }
}

/// How many of the first `n` workers are busy.
pub open spec fn active(busy: Seq<bool>, n: int) -> nat
    decreases n,
{
    if !(0 < n <= busy.len()) {
        0
    } else {
        active(busy, n - 1) + if busy[n - 1] {
            1nat
        } else {
            0nat
        }
    }
}

/// What the head holds while it waits for room.
pub open spec fn head_bytes(s: State) -> u64 {
    match s.head {
        Some(HeadModel::Transaction(p)) => p.reservation,
        _ => 0,
    }
}

/// The sequence that an administrative head will get.
pub open spec fn barrier(s: State, durable: u64) -> Option<u64> {
    match s.head {
        Some(HeadModel::Administrative) => engine::following(durable),
        _ => None,
    }
}

impl Schedule {
    /// The first unresolved sequence.
    fn oldest_unresolved(&self) -> (sequence: Option<u64>)
        ensures
            sequence == oldest(self@.records, 0),
    {
        let mut i: usize = 0;
        while i < self.entries.len()
            invariant
                i <= self.entries@.len(),
                oldest(self@.records, 0) == oldest(self@.records, i as int),
            decreases self.entries@.len() - i,
        {
            let entry = &self.entries[i];
            assert(self@.records[i as int] == entry@);
            if entry.outcome.is_none() {
                return Some(entry.sequence);
            }
            i += 1;
        }
        None
    }

    /// How many records are resolved and not visible, and how many wait for
    /// another one.
    fn counts(&self) -> (counts: (usize, usize))
        ensures
            counts.0 == resolved_above(self@, self@.records.len() as int),
            counts.1 == held_back(self@.records, self@.records.len() as int),
    {
        let mut above: usize = 0;
        let mut held: usize = 0;
        let mut i: usize = 0;
        while i < self.entries.len()
            invariant
                i <= self.entries@.len(),
                above <= i,
                held <= i,
                above == resolved_above(self@, i as int),
                held == held_back(self@.records, i as int),
            decreases self.entries@.len() - i,
        {
            let entry = &self.entries[i];
            assert(self@.records[i as int] == entry@);
            if entry.sequence > self.frontier && entry.outcome.is_some() {
                above += 1;
            }
            if entry.dependencies.len() > 0 {
                held += 1;
            }
            i += 1;
        }
        (above, held)
    }
}

/// How many workers are busy.
fn active_workers(busy: &Vec<bool>) -> (count: usize)
    ensures
        count == active(busy@, busy@.len() as int),
{
    let mut count: usize = 0;
    let mut i: usize = 0;
    while i < busy.len()
        invariant
            i <= busy@.len(),
            count <= i,
            count == active(busy@, i as int),
        decreases busy@.len() - i,
    {
        if busy[i] {
            count += 1;
        }
        i += 1;
    }
    count
}

impl EngineStatus {
    /// Record what the coordinator and the manifest show.
    pub fn sample(
        &mut self,
        coordinator: &Coordinator,
        manifest: &Manifest,
        queued_count: usize,
        queued_bytes: u64,
        retention: RetentionFloors,
    )
        ensures
            *final(self) == (EngineStatus {
                log_tail: manifest.durable_sequence,
                durable_frontier: manifest.durable_sequence,
                visibility_frontier: coordinator@.plan.frontier,
                checkpoint: manifest.checkpoint_sequence,
                queued_count,
                queued_bytes,
                assigned_count: coordinator.schedule.entries.len(),
                assigned_bytes: coordinator@.plan.assigned_bytes,
                reserved_execution_bytes: coordinator@.plan.reserved_bytes,
                prepared_head_bytes: head_bytes(coordinator@),
                oldest_unresolved: oldest(coordinator@.plan.records, 0),
                resolved_above_frontier: resolved_above(
                    coordinator@.plan,
                    coordinator@.plan.records.len() as int,
                ) as usize,
                active_workers: active(
                    coordinator@.busy,
                    coordinator@.busy.len() as int,
                ) as usize,
                dependency_waiting: held_back(
                    coordinator@.plan.records,
                    coordinator@.plan.records.len() as int,
                ) as usize,
                administrative_barrier: barrier(coordinator@, manifest.durable_sequence),
                retention,
                ..*old(self)
            }),
    {
        self.log_tail = manifest.durable_sequence;
        self.durable_frontier = manifest.durable_sequence;
        self.visibility_frontier = coordinator.schedule.frontier;
        self.checkpoint = manifest.checkpoint_sequence;
        self.queued_count = queued_count;
        self.queued_bytes = queued_bytes;
        self.assigned_count = coordinator.schedule.entries.len();
        self.assigned_bytes = coordinator.schedule.assigned_bytes;
        self.reserved_execution_bytes = coordinator.schedule.reserved_bytes;
        self.prepared_head_bytes = match &coordinator.head {
            Some(Head::Transaction(p)) => p.reservation,
            _ => 0,
        };
        self.oldest_unresolved = coordinator.schedule.oldest_unresolved();
        let (above, held) = coordinator.schedule.counts();
        self.resolved_above_frontier = above;
        self.active_workers = active_workers(&coordinator.busy);
        self.dependency_waiting = held;
        self.administrative_barrier = match &coordinator.head {
            Some(Head::Administrative) => match engine::next_sequence(manifest.durable_sequence) {
                Ok(sequence) => Some(sequence),
                Err(_) => None,
            },
            _ => None,
        };
        self.retention = retention;
    }

    /// Record that an engine opened a manifest.
    pub fn opened(&mut self, manifest: &Manifest)
        ensures
            *final(self) == (EngineStatus {
                log_tail: manifest.durable_sequence,
                durable_frontier: manifest.durable_sequence,
                visibility_frontier: manifest.checkpoint_sequence,
                checkpoint: manifest.checkpoint_sequence,
                ..*old(self)
            }),
    {
        self.log_tail = manifest.durable_sequence;
        self.durable_frontier = manifest.durable_sequence;
        self.visibility_frontier = manifest.checkpoint_sequence;
        self.checkpoint = manifest.checkpoint_sequence;
    }

    /// Record that an import made everything durable visible.
    pub fn imported(&mut self, manifest: &Manifest, frontier: u64)
        ensures
            *final(self) == (EngineStatus {
                log_tail: manifest.durable_sequence,
                durable_frontier: manifest.durable_sequence,
                visibility_frontier: frontier,
                checkpoint: manifest.checkpoint_sequence,
                ..*old(self)
            }),
    {
        self.visibility_frontier = frontier;
        self.checkpoint = manifest.checkpoint_sequence;
        self.durable_frontier = manifest.durable_sequence;
        self.log_tail = self.durable_frontier;
    }

    /// Record that the coordinator has left its loop, and why.
    pub fn ended(&mut self, failed: bool, last_error: Option<String>)
        ensures
            *final(self) == (EngineStatus {
                poisoned: failed,
                closed: true,
                last_error,
                ..*old(self)
            }),
    {
        self.poisoned = failed;
        self.closed = true;
        self.last_error = last_error;
    }

    /// Record that the coordinator panicked.
    pub fn panicked(&mut self)
        ensures
            final(self).poisoned,
            final(self).closed,
            final(self).active_workers == 0,
            final(self).last_error matches Some(text) && text@ == PANICKED@,
            *final(self) == (EngineStatus {
                poisoned: true,
                closed: true,
                active_workers: 0,
                last_error: final(self).last_error,
                ..*old(self)
            }),
    {
        self.poisoned = true;
        self.closed = true;
        self.active_workers = 0;
        self.last_error = Some(PANICKED.to_owned());
    }

    /// Record that every worker and every backup has stopped.
    pub fn stopped(&mut self)
        ensures
            *final(self) == (EngineStatus {
                active_workers: 0,
                backup_jobs: 0,
                maintenance_pending: false,
                ..*old(self)
            }),
    {
        self.active_workers = 0;
        self.backup_jobs = 0;
        self.maintenance_pending = false;
    }
}

} // verus!
