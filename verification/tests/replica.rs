//! Imports of logical batches.

use blop_db::bind::Transaction;
use blop_db::database::budget::EngineOptions;
use blop_db::database::engine::envelope;
use blop_db::database::exchange::batch::{FeedBatch, FeedRecords, LogicalRecord};
use blop_db::database::record::{encode, Command};
use blop_db::database::replica::{
    check_execution, check_request, input_error, parse, preparation_room, Installation,
    ParsedBatch, Phase,
};
use blop_db::database::scheduler::prepare::Preparation;
use blop_db::database::Error;
use blop_db::storage;
use blop_db::storage::{LimitPolicy, Manifest};
use blop_db::vm;
use blop_db::vm::{AccessManifest, CatalogueOperation, Outcome, OutcomeRecord};
use sha2::{Digest, Sha256};

fn options() -> EngineOptions {
    EngineOptions::for_parallelism(Some(2))
}

fn drop_table(table: u64) -> Command {
    Command::Catalogue(CatalogueOperation::Drop { table })
}

/// A transaction that returns 42.
fn answer() -> Command {
    let mut program = b"BLOPVM01".to_vec();
    program.extend_from_slice(&[1, 0, 0, 0, 79, 0, 0, 0]);
    program.extend_from_slice(&[1, 0, 0, 0, 0, 0, 1, 0, 2, 0, 0, 0, 0, 0, 0, 0]);
    program.extend_from_slice(&[3, 0, 0, 0, 1, 0, 3, 3, 0, 0, 0, 1, 0, 3]);
    program.extend_from_slice(&[3, 0, 0, 0, 1, 0, 3, 8, 0, 0, 0, 42, 0, 0, 0, 0, 0, 0, 0]);
    program.extend_from_slice(&[1, 0, 4, 0, 0, 0, 0, 0, 0x64, 0, 2, 0, 0, 0]);
    let claims = [79, 2, 1, 0, 4, 0, 0, 0, 0, 0, 8, 8, 0, 0, 0, 0, 8];
    Command::Transaction {
        transaction: Transaction::from_parts(program, vec![0; 4]),
        claims: LimitPolicy::new(claims).unwrap(),
    }
}

fn outcome(sequence: u64) -> Outcome {
    Outcome {
        aborted: false,
        payload: vec![sequence as u8; 32],
    }
}

/// Commands behind the sequence 3 as a batch.
fn batch(commands: &[Command]) -> FeedBatch {
    let mut predecessor = [9; 32];
    let mut records = vec![];
    for (index, command) in commands.iter().enumerate() {
        let sequence = index as u64 + 4;
        let (kind, body) = encode(command).unwrap();
        let log_record = envelope(sequence, predecessor, kind, &body).unwrap();
        predecessor = <[u8; 32]>::from(Sha256::digest(&log_record));
        records.push(LogicalRecord {
            log_record,
            outcome: OutcomeRecord {
                sequence,
                record_digest: predecessor,
                record_kind: kind,
                outcome: outcome(sequence),
            },
        });
    }
    FeedBatch {
        database_id: [1; 16],
        start_exclusive: 3,
        end_inclusive: 3 + commands.len() as u64,
        records: FeedRecords::Logical(records),
    }
}

fn import(commands: &[Command]) -> ParsedBatch {
    parse(&batch(commands).encode().unwrap()).unwrap()
}

fn replica() -> Manifest {
    Manifest {
        generation: 1,
        database_id: [1; 16],
        cursor_namespace: [2; 16],
        next_cursor_id: 1,
        checkpoint_sequence: 3,
        checkpoint_digest: [9; 32],
        durable_sequence: 3,
        durable_digest: [9; 32],
        history_floor: 0,
        log_floor: 1,
        page_file_id: 1,
        page_count: 3,
        next_segment_id: 1,
        segments: vec![],
    }
}

fn ready(reservation: u64) -> Result<Preparation, vm::Error> {
    Ok(Preparation::Ready {
        reservation,
        manifest: AccessManifest { entries: vec![] },
    })
}

#[test]
fn batches_are_parsed_into_their_commands() {
    let commands = [drop_table(1), answer()];
    let parsed = import(&commands);
    assert_eq!(parsed.start, 3);
    assert_eq!(parsed.watermark.sequence(), 5);
    assert_eq!(parsed.queue_count(), 2);
    assert_eq!(parsed.check_database([1; 16]), Ok(()));
    assert_eq!(
        parsed.check_database([2; 16]),
        Err(Error::InvalidInput("logical import database identity mismatch"))
    );
    for (record, command) in parsed.records.iter().zip(&commands) {
        assert_eq!(encode(&record.command), encode(command));
        assert_eq!(record.outcome.len(), 76);
    }
    let logs: u64 = parsed.records.iter().map(|r| r.bytes.len() as u64).sum();
    assert_eq!(parsed.log_bytes, logs);
    // Three times what each command is charged with, and four times its bytes.
    let charges = 3 * (520 + 83 + 512);
    assert_eq!(parsed.bytes, 512 + charges + 4 * (logs + 2 * 76));
    assert_eq!(import(&[]).queue_count(), 1);
}

#[test]
fn only_logical_batches_are_imported() {
    let resolved = FeedBatch {
        records: FeedRecords::Resolved(vec![]),
        ..batch(&[])
    };
    assert_eq!(
        parse(&resolved.encode().unwrap()).err(),
        Some(Error::InvalidFormat("import requires a logical batch"))
    );
    assert_eq!(
        parse(&[0; 10]).err(),
        Some(Error::InvalidFormat("invalid exchange length"))
    );
    assert_eq!(check_request(true, 60), Ok(()));
    assert_eq!(
        check_request(false, 60),
        Err(Error::InvalidInput(
            "logical import requires a read-only replica"
        ))
    );
    for length in [59, 256 * 1024 * 1024 + 1] {
        assert_eq!(
            check_request(true, length),
            Err(Error::InvalidFormat("invalid exchange length"))
        );
    }
}

#[test]
fn a_batch_is_verified_then_appended_then_replayed() {
    let parsed = import(&[drop_table(1), answer()]);
    let options = options();
    let mut install = Installation::start(&replica(), &parsed, &options).unwrap();
    assert_eq!(install.phase, Phase::Execute);
    install.reproduced(&parsed, Ok(outcome(4))).unwrap();
    assert_eq!(install.phase, Phase::Prepare);
    let mut refused = install;
    assert!(matches!(
        refused.prepared(&parsed, &options, ready(u64::MAX)),
        Err(Error::OperationalLimit { .. })
    ));
    assert_eq!(refused.phase, Phase::Prepare);
    install.prepared(&parsed, &options, ready(0)).unwrap();
    assert_eq!(install.phase, Phase::Execute);
    install.reproduced(&parsed, Ok(outcome(5))).unwrap();
    assert_eq!(install.phase, Phase::Append);
    install.appended(&parsed, Ok(())).unwrap();
    let mut failing = install;
    assert_eq!(
        failing.appended(&parsed, Err(storage::Error::Exhausted)),
        Err(Error::Uncertain {
            sequence: Some(5),
            source: Some(vm::Error::Storage(storage::Error::Exhausted))
        })
    );
    install.appended(&parsed, Ok(())).unwrap();
    assert_eq!(install.phase, Phase::Recover);
    let mut failing = install;
    assert_eq!(
        failing.recovered(&parsed, Err(storage::Error::NeedsRecovery)),
        Err(Error::Uncertain {
            sequence: Some(5),
            source: Some(vm::Error::Storage(storage::Error::NeedsRecovery))
        })
    );
    install.recovered(&parsed, Ok(())).unwrap();
    assert_eq!(install.phase, Phase::Done);
    let nothing = Installation::start(&replica(), &import(&[]), &options).unwrap();
    assert_eq!(nothing.phase, Phase::Done);
}

#[test]
fn outcomes_that_differ_stop_a_batch_before_it_is_appended() {
    let parsed = import(&[drop_table(1)]);
    let options = options();
    let mut install = Installation::start(&replica(), &parsed, &options).unwrap();
    assert_eq!(
        install.reproduced(&parsed, Ok(outcome(5))),
        Err(Error::InvalidInput("logical import outcome divergence"))
    );
    let aborted = Outcome {
        aborted: true,
        ..outcome(4)
    };
    assert_eq!(
        install.reproduced(&parsed, Ok(aborted)),
        Err(Error::InvalidInput("logical import outcome divergence"))
    );
    assert_eq!(
        install.reproduced(&parsed, Err(vm::Error::Invalid("machine"))),
        Err(Error::InvalidFormat("machine"))
    );
    assert_eq!(install.phase, Phase::Execute);
}

#[test]
fn batches_must_follow_the_durable_end() {
    let parsed = import(&[drop_table(1), answer()]);
    let options = options();
    let start = |manifest: Manifest, options: &EngineOptions| {
        Installation::start(&manifest, &parsed, options).err()
    };
    assert_eq!(start(replica(), &options), None);
    let behind = Manifest {
        checkpoint_sequence: 2,
        ..replica()
    };
    assert_eq!(
        start(behind, &options),
        Some(Error::Storage(storage::Error::NeedsRecovery))
    );
    let baseline = Some(Error::InvalidInput(
        "logical import identity or baseline mismatch",
    ));
    let other = Manifest {
        database_id: [5; 16],
        ..replica()
    };
    assert_eq!(start(other, &options), baseline);
    let further = Manifest {
        checkpoint_sequence: 4,
        durable_sequence: 4,
        ..replica()
    };
    assert_eq!(start(further, &options), baseline);
    let diverged = Manifest {
        durable_digest: [8; 32],
        ..replica()
    };
    assert_eq!(
        start(diverged, &options),
        Some(Error::InvalidInput(
            "logical import predecessor anchor mismatch"
        ))
    );
    let narrow = |resource: &'static str, required: u64| {
        Some(Error::OperationalLimit {
            resource,
            required,
            limit: 1,
        })
    };
    let one = EngineOptions {
        assigned_backlog_count: 1,
        ..options.duplicate()
    };
    assert_eq!(start(replica(), &one), narrow("assigned_backlog_count", 2));
    let one = EngineOptions {
        assigned_backlog_bytes: 1,
        ..options.duplicate()
    };
    assert_eq!(
        start(replica(), &one),
        narrow("assigned_backlog_bytes", parsed.log_bytes)
    );
    let one = EngineOptions {
        preparation_bytes: 1,
        ..options.duplicate()
    };
    assert_eq!(
        start(replica(), &one),
        narrow("preparation_bytes", parsed.bytes)
    );
    let one = EngineOptions {
        execution_bytes: 1,
        ..options.duplicate()
    };
    assert_eq!(
        start(replica(), &one),
        narrow("execution_bytes", parsed.bytes)
    );
}

#[test]
fn transactions_are_reproduced_within_the_capacity_beside_the_batch() {
    let options = EngineOptions {
        execution_bytes: 100,
        preparation_bytes: 90,
        ..options()
    };
    let limit = |resource: &'static str, required: u64, limit: u64| {
        Err(Error::OperationalLimit {
            resource,
            required,
            limit,
        })
    };
    assert_eq!(preparation_room(&options, 30), 60);
    assert_eq!(check_execution(30, &options, ready(60)), Ok(()));
    assert_eq!(
        check_execution(30, &options, ready(61)),
        limit("preparation_bytes", 91, 90)
    );
    assert_eq!(
        check_execution(30, &options, ready(71)),
        limit("execution_bytes", 101, 100)
    );
    assert_eq!(
        check_execution(30, &options, Ok(Preparation::Capacity(61))),
        limit("preparation_bytes", 91, 90)
    );
    assert_eq!(
        input_error(vm::Error::Unsupported {
            format: "program",
            version: 2
        }),
        Error::Rejected(vm::Error::Unsupported {
            format: "program",
            version: 2
        })
    );
    assert_eq!(
        input_error(vm::Error::Storage(storage::Error::InvalidInput("x"))),
        Error::InvalidFormat("x")
    );
    assert_eq!(
        input_error(vm::Error::Storage(storage::Error::Locked)),
        Error::Read(vm::Error::Storage(storage::Error::Locked))
    );
}
