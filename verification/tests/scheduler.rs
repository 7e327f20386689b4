//! The schedule, the coordinator and log groups.

use blop_db::bind::Transaction;
use blop_db::database::budget::EngineOptions;
use blop_db::database::cursor::RetentionFloors;
use blop_db::database::record::Command;
use blop_db::database::scheduler::coordinator::{
    fatal, Coordinator, Effect, Event, Source, Turn, Work,
};
use blop_db::database::scheduler::prepare::{capacity, prepare, Preparation, Prepared};
use blop_db::database::scheduler::register::{Arrival, Registration, Round};
use blop_db::database::scheduler::schedule::{in_window, overlaps, Job, Schedule};
use blop_db::database::scheduler::status::initial_status;
use blop_db::database::workers::{check_pool, failure, fault_text};
use blop_db::database::{Error, TailRecovery};
use blop_db::storage;
use blop_db::storage::{LimitPolicy, Manifest};
use blop_db::vm;
use blop_db::vm::{AccessManifest, AccessMode, CatalogueOperation, Outcome, Scope};
use std::collections::BTreeMap;

#[test]
fn window_arithmetic_cannot_wrap_at_reserved_sequence_boundary() {
    assert!(in_window(
        u64::MAX - 2,
        u64::MAX - 3,
        u64::MAX - 2,
        u64::MAX
    ));
    assert!(!in_window(4, 2, 3, u64::MAX));
    assert!(!in_window(5, 2, 5, 2));
    assert!(!in_window(2, 2, 5, 2));
}

fn options() -> EngineOptions {
    EngineOptions {
        tail_recovery: TailRecovery::DiscardInvalid,
        workers: 2,
        execution_window: 8,
        checkpoint_interval: 4,
        submission_queue_count: 8,
        submission_queue_bytes: 10_000,
        assigned_backlog_count: 3,
        assigned_backlog_bytes: 1000,
        execution_bytes: 3000,
        preparation_bytes: 2900,
    }
}

fn manifest(entries: &[(u64, AccessMode)]) -> AccessManifest {
    AccessManifest {
        entries: entries
            .iter()
            .map(|(table, mode)| (Scope::Table(*table), *mode))
            .collect(),
    }
}

fn writes(table: u64) -> AccessManifest {
    manifest(&[(table, AccessMode::Write)])
}

fn reads(table: u64) -> AccessManifest {
    manifest(&[(table, AccessMode::Read)])
}

fn outcome(byte: u8) -> Outcome {
    Outcome {
        aborted: false,
        payload: vec![byte; 32],
    }
}

fn job(worker: usize, sequence: u64) -> Job {
    Job { worker, sequence }
}

#[test]
fn scopes_overlap_by_table_and_key() {
    let table = |id| vec![Scope::Table(id)];
    let key = |id, byte| vec![Scope::Key(id, vec![byte])];
    assert!(overlaps(&table(1), &table(1)));
    assert!(!overlaps(&table(1), &table(2)));
    assert!(overlaps(&table(1), &key(1, 9)));
    assert!(overlaps(&key(1, 9), &table(1)));
    assert!(overlaps(&key(1, 9), &key(1, 9)));
    assert!(!overlaps(&key(1, 9), &key(1, 8)));
    assert!(!overlaps(&key(2, 9), &key(1, 9)));
    assert!(!overlaps(&vec![], &table(1)));
}

#[test]
fn readers_wait_for_the_writers_before_them_and_prefixes_become_visible() {
    let options = options();
    let mut schedule = Schedule::new(0);
    schedule.assign(&options, 1, [1; 32], &writes(1), 100, 50);
    schedule.assign(&options, 2, [2; 32], &reads(1), 100, 50);
    schedule.assign(&options, 3, [3; 32], &writes(2), 100, 50);
    assert_eq!(schedule.assigned_bytes, 300);
    assert_eq!(schedule.reserved_bytes, 150);
    assert!(!schedule.fits(&options, 1, 1));

    let mut busy = vec![false; 2];
    assert_eq!(
        schedule.dispatch(&mut busy, 3, 8),
        vec![job(0, 1), job(1, 3)]
    );
    assert_eq!(busy, vec![true, true]);
    assert!(schedule.is_running(3));
    assert!(!schedule.is_running(2));

    // The third record resolves first: nothing becomes visible.
    schedule.resolve(3, outcome(3));
    busy[1] = false;
    assert_eq!(schedule.advance(), None);
    assert_eq!(schedule.frontier, 0);
    assert_eq!(schedule.dispatch(&mut busy, 3, 8), vec![]);

    schedule.resolve(1, outcome(1));
    busy[0] = false;
    assert_eq!(schedule.advance(), Some([1; 32]));
    assert_eq!(schedule.frontier, 1);
    assert_eq!(schedule.dispatch(&mut busy, 3, 8), vec![job(0, 2)]);
    schedule.resolve(2, outcome(2));
    assert_eq!(schedule.advance(), Some([3; 32]));
    assert_eq!(schedule.frontier, 3);

    let receipts = schedule.retire();
    let sequences: Vec<u64> = receipts.iter().map(|r| r.sequence).collect();
    assert_eq!(sequences, vec![1, 2, 3]);
    assert_eq!(receipts[1].outcome, outcome(2));
    assert_eq!(schedule.assigned_bytes, 0);
    assert_eq!(schedule.reserved_bytes, 0);
    assert!(schedule.entries.is_empty());
}

#[test]
fn records_beyond_the_log_or_the_window_are_not_started() {
    let options = options();
    let mut schedule = Schedule::new(0);
    for sequence in 1..4 {
        schedule.assign(&options, sequence, [0; 32], &writes(sequence), 1, 1);
    }
    let mut busy = vec![false; 2];
    assert_eq!(schedule.dispatch(&mut busy, 0, 8), vec![]);
    assert_eq!(schedule.dispatch(&mut busy, 3, 1), vec![job(0, 1)]);
    assert_eq!(schedule.dispatch(&mut busy, 3, 8), vec![job(1, 2)]);
}

#[test]
fn the_backlog_is_bounded_by_count_bytes_and_reservations() {
    let options = options();
    let schedule = Schedule::new(0);
    assert!(schedule.fits(&options, 1000, 3000));
    assert!(!schedule.fits(&options, 1001, 3000));
    assert!(!schedule.fits(&options, 1000, 3001));
}

fn command(table: u64) -> Command {
    Command::Catalogue(CatalogueOperation::Drop { table })
}

/// A transaction that returns 42.
fn transaction() -> Command {
    let mut program = b"BLOPVM01".to_vec();
    program.extend_from_slice(&[1, 0, 0, 0, 79, 0, 0, 0]);
    program.extend_from_slice(&[1, 0, 0, 0, 0, 0, 1, 0, 2, 0, 0, 0, 0, 0, 0, 0]);
    program.extend_from_slice(&[3, 0, 0, 0, 1, 0, 3, 3, 0, 0, 0, 1, 0, 3]);
    program.extend_from_slice(&[3, 0, 0, 0, 1, 0, 3, 8, 0, 0, 0, 42, 0, 0, 0, 0, 0, 0, 0]);
    program.extend_from_slice(&[1, 0, 4, 0, 0, 0, 0, 0, 0x64, 0, 2, 0, 0, 0]);
    let claims = [79, 2, 1, 0, 4, 0, 0, 0, 0, 0, 8, 8, 0, 0, 0, 0, 8];
    Command::Transaction {
        transaction: Transaction::from_parts(program, vec![0; 4]),
        claims: LimitPolicy::new(claims).unwrap(),
    }
}

fn ready(reservation: u64) -> Result<Preparation, vm::Error> {
    Ok(Preparation::Ready {
        reservation,
        manifest: writes(1),
    })
}

#[test]
fn preparation_checks_the_record_the_machine_and_the_capacity() {
    let options = options();
    // An administrative record is prepared when it is committed.
    assert_eq!(
        prepare(&command(1), &options, 4, [9; 32], ready(1)),
        Ok(None)
    );
    let prepared = prepare(&transaction(), &options, 4, [9; 32], ready(600))
        .unwrap()
        .unwrap();
    assert_eq!(prepared.sequence, 5);
    // The machine's bytes, 16 for each record of the backlog, and three times
    // what the submission is charged with.
    assert_eq!(prepared.reservation, 600 + 3 * 16 + 3 * (83 + 128 + 512));
    assert_eq!(prepared.manifest, writes(1));
    assert_eq!(&prepared.bytes[28..60], &[9; 32]);
    assert_eq!(
        prepare(&transaction(), &options, 4, [9; 32], ready(800)),
        Err(Error::OperationalLimit {
            resource: "execution_bytes",
            required: 3017,
            limit: 3000
        })
    );
    assert_eq!(
        prepare(
            &transaction(),
            &options,
            4,
            [9; 32],
            Ok(Preparation::Capacity(2901))
        ),
        Err(Error::OperationalLimit {
            resource: "preparation_bytes",
            required: 2901,
            limit: 2900
        })
    );
    assert_eq!(
        prepare(&transaction(), &options, 4, [9; 32], ready(700)),
        Err(Error::OperationalLimit {
            resource: "preparation_bytes",
            required: 2917,
            limit: 2900
        })
    );
    assert_eq!(
        prepare(
            &transaction(),
            &options,
            4,
            [9; 32],
            Err(vm::Error::Invalid("machine"))
        ),
        Err(Error::Rejected(vm::Error::Invalid("machine")))
    );
    assert_eq!(
        prepare(&transaction(), &options, u64::MAX - 1, [9; 32], ready(1)),
        Err(Error::Storage(storage::Error::Exhausted))
    );
    let narrow = EngineOptions {
        assigned_backlog_bytes: 100,
        ..options.duplicate()
    };
    let length = prepared.bytes.len() as u64;
    assert_eq!(
        prepare(&transaction(), &narrow, 4, [9; 32], ready(1)),
        Err(Error::OperationalLimit {
            resource: "assigned_backlog_bytes",
            required: length,
            limit: 100
        })
    );
    assert_eq!(capacity("memory", 3, 3), Ok(()));
    assert_eq!(
        capacity("memory", 4, 3),
        Err(Error::OperationalLimit {
            resource: "memory",
            required: 4,
            limit: 3
        })
    );
}

fn prepared(sequence: u64, table: u64) -> Prepared {
    Prepared {
        sequence,
        bytes: vec![sequence as u8; 100],
        reservation: 50,
        manifest: writes(table),
    }
}

#[test]
fn a_coordinator_drains_in_log_order_and_then_stops() {
    let mut coordinator = Coordinator::new(options(), 0);
    assert_eq!(coordinator.turn(false, false), Turn::Dispatch);
    assert!(coordinator.waits().requests);
    assert!(coordinator.waits().controls);

    coordinator.hold(Some(prepared(1, 1)));
    assert_eq!(coordinator.turn(false, false), Turn::Register);
    let mut group = Registration::start(5);
    assert!(matches!(
        group.step(&mut coordinator, false),
        Round::Assigned
    ));
    assert!(matches!(
        group.step(&mut coordinator, false),
        Round::Receive
    ));
    assert_eq!(
        group.receive(&mut coordinator, Arrival::Prepared(prepared(2, 2))),
        Ok(())
    );
    assert!(matches!(
        group.step(&mut coordinator, false),
        Round::Assigned
    ));
    // A control request ends the group.
    assert!(matches!(
        group.step(&mut coordinator, true),
        Round::Finished
    ));
    let sequences: Vec<u64> = group.records.iter().map(|r| r.sequence).collect();
    assert_eq!(sequences, vec![1, 2]);
    assert_eq!(
        group.append_failed(vm::Error::Invalid("disk")),
        Error::Uncertain {
            sequence: Some(1),
            source: Some(vm::Error::Invalid("disk"))
        }
    );

    assert_eq!(coordinator.dispatch(2), vec![job(0, 1), job(1, 2)]);
    // Requests end: what was accepted is still executed.
    assert!(matches!(
        coordinator.receive(Event::Close, false, 2),
        Effect::CloseQueue
    ));
    assert!(matches!(
        coordinator.receive(Event::RequestsClosed, false, 2),
        Effect::Nothing
    ));
    assert_eq!(coordinator.turn(false, false), Turn::Dispatch);
    assert_eq!(coordinator.turn(false, true), Turn::Complete);
    for (worker, sequence) in [(1, 2), (0, 1)] {
        let accepted = coordinator
            .accept(worker, Ok(outcome(sequence as u8)), false)
            .unwrap();
        coordinator.installed(sequence, accepted);
    }
    assert_eq!(coordinator.advance(), Some(coordinator.schedule.entries[1].digest));
    let sequences: Vec<u64> = coordinator.retire().iter().map(|r| r.sequence).collect();
    assert_eq!(sequences, vec![1, 2]);
    assert_eq!(coordinator.turn(false, false), Turn::Stop);
    assert_eq!(coordinator.turn(true, false), Turn::Fail);
}

#[test]
fn lost_work_is_uncertain_from_its_first_record() {
    let mut coordinator = Coordinator::new(options(), 0);
    coordinator.hold(Some(prepared(1, 1)));
    let mut group = Registration::start(0);
    assert!(matches!(
        group.step(&mut coordinator, false),
        Round::Assigned
    ));
    assert_eq!(coordinator.dispatch(1), vec![job(0, 1)]);
    let refused = coordinator.accept(0, Ok(outcome(1)), true);
    assert_eq!(refused, Err(failure("worker pool requires recovery")));
    assert!(coordinator.fault(Work::Storage, &Error::Closed, "lost"));
    coordinator.leave(None);
    assert!(coordinator.failed);
    assert_eq!(coordinator.last_error, Some("lost".to_string()));
    assert_eq!(
        coordinator.losses(),
        vec![Error::Uncertain {
            sequence: Some(1),
            source: Some(failure("lost"))
        }]
    );
}

#[test]
fn events_are_answered_by_what_the_coordinator_is_doing() {
    let mut coordinator = Coordinator::new(options(), 0);
    assert!(matches!(
        coordinator.receive(Event::Import, false, 0),
        Effect::Refuse(Error::InvalidInput(
            "logical import requires a read-only replica"
        ))
    ));
    assert!(matches!(
        coordinator.receive(Event::Execute, true, 0),
        Effect::Refuse(Error::ReadOnly)
    ));
    assert!(matches!(
        coordinator.receive(Event::Execute, false, 0),
        Effect::PrepareSubmission
    ));
    assert!(matches!(
        coordinator.receive(Event::Snapshot, false, 0),
        Effect::CaptureSnapshot
    ));
    assert!(matches!(
        coordinator.receive(Event::Retention, false, 0),
        Effect::ChangeRetention
    ));
    assert!(matches!(
        coordinator.receive(Event::Backup, false, 0),
        Effect::StartBackup
    ));
    assert!(matches!(
        coordinator.receive(Event::CompletionsClosed, false, 0),
        Effect::Leave
    ));
    assert!(matches!(
        coordinator.receive(Event::Maintenance, false, 0),
        Effect::Nothing
    ));
    assert!(coordinator.maintenance);
    assert_eq!(coordinator.turn(false, false), Turn::Maintain);
    coordinator.take_maintenance();
    assert!(!coordinator.maintenance);
}

#[test]
fn completions_come_first_and_requests_and_controls_take_turns() {
    let mut coordinator = Coordinator::new(options(), 0);
    assert_eq!(
        coordinator.waits().choose_source(true, true, true),
        Some(Source::Completion)
    );
    assert_eq!(coordinator.waits().choose_source(false, false, false), None);
    let first = coordinator.waits().choose_source(false, true, true).unwrap();
    let event = match first {
        Source::Request => Event::Execute,
        _ => Event::Snapshot,
    };
    coordinator.receive(event, false, 0);
    let second = coordinator.waits().choose_source(false, true, true);
    assert_ne!(Some(first), second);
}

#[test]
fn faults_of_the_storage_stop_the_coordinator() {
    assert!(!fatal(
        Work::Preparation,
        &Error::Rejected(vm::Error::Invalid("x"))
    ));
    let full = Error::OperationalLimit {
        resource: "execution_bytes",
        required: 2,
        limit: 1,
    };
    assert!(!fatal(Work::Preparation, &full));
    assert!(fatal(
        Work::Preparation,
        &Error::Storage(storage::Error::NeedsRecovery)
    ));
    assert!(fatal(
        Work::Commit,
        &Error::Uncertain {
            sequence: Some(1),
            source: None
        }
    ));
    assert!(!fatal(
        Work::Commit,
        &Error::Rejected(vm::Error::Invalid("x"))
    ));
    assert!(!fatal(Work::Control, &Error::HistoryUnavailable));
    assert!(fatal(Work::Storage, &Error::Closed));
}

#[test]
fn the_status_shows_the_coordinator() {
    let mut coordinator = Coordinator::new(options(), 0);
    coordinator.hold(Some(prepared(1, 1)));
    let mut group = Registration::start(1);
    assert!(matches!(
        group.step(&mut coordinator, false),
        Round::Assigned
    ));
    coordinator.hold(Some(prepared(2, 2)));
    assert_eq!(coordinator.dispatch(1), vec![job(0, 1)]);
    let manifest = Manifest {
        generation: 1,
        database_id: [1; 16],
        cursor_namespace: [2; 16],
        next_cursor_id: 1,
        checkpoint_sequence: 0,
        checkpoint_digest: [7; 32],
        durable_sequence: 1,
        durable_digest: [8; 32],
        history_floor: 0,
        log_floor: 1,
        page_file_id: 1,
        page_count: 3,
        next_segment_id: 1,
        segments: vec![],
    };
    let mut status = initial_status(options());
    assert!(!status.poisoned);
    status.opened(&manifest);
    let floors = RetentionFloors { history: 0, log: 1 };
    status.sample(&coordinator, &manifest, 2, 77, floors);
    assert_eq!(status.log_tail, 1);
    assert_eq!(status.durable_frontier, 1);
    assert_eq!(status.visibility_frontier, 0);
    assert_eq!(status.queued_count, 2);
    assert_eq!(status.queued_bytes, 77);
    assert_eq!(status.assigned_count, 1);
    assert_eq!(status.assigned_bytes, 100);
    assert_eq!(status.reserved_execution_bytes, 50);
    assert_eq!(status.prepared_head_bytes, 50);
    assert_eq!(status.oldest_unresolved, Some(1));
    assert_eq!(status.active_workers, 1);
    status.panicked();
    assert!(status.poisoned && status.closed);
    assert_eq!(status.active_workers, 0);
    assert_eq!(
        status.last_error,
        Some("database coordinator panicked; reopen required".to_string())
    );
}

#[test]
fn worker_faults_are_named() {
    assert_eq!(check_pool(false), Ok(()));
    let poisoned = check_pool(true).unwrap_err();
    assert_eq!(poisoned, failure("worker pool requires recovery"));
    assert!(matches!(
        failure("x"),
        vm::Error::Storage(storage::Error::Io(_))
    ));
    assert_eq!(fault_text(7, "broken"), "record 7: broken");
}

/// A record that adds to the row of one table what it finds in those of others.
struct Sum {
    reads: &'static [u64],
    writes: u64,
    adds: u64,
}

/// What each record wrote, by its place in the log.
type Written = BTreeMap<usize, u64>;

/// The row of a table as the record at `place` finds it.
fn row(records: &[Sum], written: &Written, table: u64, place: usize) -> u64 {
    (0..place)
        .rev()
        .find(|&earlier| records[earlier].writes == table && written.contains_key(&earlier))
        .map_or(0, |earlier| written[&earlier])
}

fn interpret(records: &[Sum], written: &Written, place: usize) -> u64 {
    let found: u64 = records[place]
        .reads
        .iter()
        .map(|&table| row(records, written, table, place))
        .sum();
    2 * found + records[place].adds
}

/// Run records concurrently; `choices` says which of the running ones finishes
/// next. Gives what they wrote, and between how many was chosen each time.
fn concurrently(records: &[Sum], choices: &[usize]) -> (Written, Vec<usize>) {
    let options = EngineOptions {
        assigned_backlog_count: records.len(),
        ..options()
    };
    let mut schedule = Schedule::new(0);
    for (place, record) in records.iter().enumerate() {
        let mut entries: Vec<_> = record.reads.iter().map(|&t| (t, AccessMode::Read)).collect();
        entries.push((record.writes, AccessMode::Write));
        let sequence = place as u64 + 1;
        schedule.assign(&options, sequence, [0; 32], &manifest(&entries), 1, 1);
    }
    let mut busy = vec![false; 2];
    let mut running: Vec<(Job, u64)> = vec![];
    let mut written = Written::new();
    let mut offered = vec![];
    while written.len() < records.len() {
        for job in schedule.dispatch(&mut busy, records.len() as u64, 8) {
            let computed = interpret(records, &written, job.sequence as usize - 1);
            running.push((job, computed));
        }
        let choice = choices.get(offered.len()).copied().unwrap_or(0);
        offered.push(running.len());
        let (job, computed) = running.remove(choice);
        busy[job.worker] = false;
        written.insert(job.sequence as usize - 1, computed);
        schedule.resolve(job.sequence, outcome(0));
        schedule.advance();
        schedule.retire();
    }
    assert_eq!(schedule.frontier, records.len() as u64);
    (written, offered)
}

#[test]
fn every_order_of_completion_gives_the_serial_rows() {
    let logs = [
        [
            (&[1][..], 1, 1),
            (&[1][..], 2, 10),
            (&[3][..], 3, 100),
            (&[2, 3][..], 1, 5),
            (&[1][..], 1, 7),
        ],
        [
            (&[][..], 1, 1),
            (&[][..], 1, 2),
            (&[1][..], 2, 3),
            (&[][..], 2, 4),
            (&[1, 2][..], 3, 5),
        ],
    ];
    let mut orders = 0;
    for log in logs {
        let records: Vec<Sum> = log
            .into_iter()
            .map(|(reads, writes, adds)| Sum {
                reads,
                writes,
                adds,
            })
            .collect();
        let mut serial = Written::new();
        for place in 0..records.len() {
            serial.insert(place, interpret(&records, &serial, place));
        }
        let mut choices: Vec<usize> = vec![];
        loop {
            let (written, offered) = concurrently(&records, &choices);
            assert_eq!(written, serial);
            orders += 1;
            choices.resize(offered.len(), 0);
            while let Some(last) = choices.pop() {
                if last + 1 < offered[choices.len()] {
                    choices.push(last + 1);
                    break;
                }
            }
            if choices.is_empty() {
                break;
            }
        }
    }
    assert!(orders >= 8);
}

#[test]
fn outcomes_are_kept_until_their_receipts() {
    let mut coordinator = Coordinator::new(options(), 0);
    let mut group = Registration::start(8);
    for sequence in 1..4 {
        coordinator.hold(Some(prepared(sequence, sequence)));
        assert_eq!(group.step(&mut coordinator, false), Round::Assigned);
    }
    assert_eq!(coordinator.dispatch(3), vec![job(0, 1), job(1, 2)]);
    let aborted = Outcome {
        aborted: true,
        payload: vec![2; 32],
    };
    let accepted = coordinator.accept(1, Ok(aborted.clone()), false).unwrap();
    coordinator.installed(2, accepted);
    assert_eq!(coordinator.advance(), None);
    assert_eq!(coordinator.retire(), vec![]);
    // Other turns pass before the first record is done.
    assert_eq!(coordinator.dispatch(3), vec![job(1, 3)]);
    coordinator.receive(Event::Maintenance, false, 3);
    coordinator.take_maintenance();
    assert!(!coordinator.take_set_aside());
    let accepted = coordinator.accept(1, Ok(outcome(3)), false).unwrap();
    coordinator.installed(3, accepted);
    let accepted = coordinator.accept(0, Ok(outcome(1)), false).unwrap();
    coordinator.installed(1, accepted);
    assert!(coordinator.advance().is_some());
    let receipts = coordinator.retire();
    let outcomes: Vec<(u64, Outcome)> = receipts
        .into_iter()
        .map(|receipt| (receipt.sequence, receipt.outcome))
        .collect();
    assert_eq!(outcomes, vec![(1, outcome(1)), (2, aborted), (3, outcome(3))]);
}
