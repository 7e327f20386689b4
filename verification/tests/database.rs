//! Errors, identities, settings and maintenance.

use blop_db::database::cursor::RetentionFloors;
use blop_db::database::maintenance::{
    begin, check_backup, report, rotation, AttachMode, MaintenanceOptions, Reclaimed,
};
use blop_db::database::{
    check_writable, closed, initialize, opening, persisted_read, random_uuid, uuid,
    validate_limits, BatchLimits, CreateOptions, Error, Opening,
};
use blop_db::limits::Limits;
use blop_db::storage;
use blop_db::storage::{Manifest, SegmentDescriptor};
use blop_db::vm;

#[test]
fn errors_are_described() {
    let invalid = || vm::Error::Invalid("x");
    for (error, text) in [
        (
            Error::ReadOnly,
            "read-only replica cannot accept canonical submissions",
        ),
        (Error::SnapshotRevoked, "snapshot has been revoked"),
        (Error::HistoryUnavailable, "required history is unavailable"),
        (Error::CursorReleased, "cursor has been released"),
        (Error::CursorIdExhausted, "cursor ID space is exhausted"),
        (
            Error::InvalidToken("x"),
            "invalid cursor token or watermark: x",
        ),
        (Error::InvalidFormat("x"), "invalid exchange format: x"),
        (Error::InvalidInput("x"), "invalid database input: x"),
        (
            Error::BatchTooSmall { required: 148 },
            "batch requires at least 148 bytes for its first complete record",
        ),
        (Error::Read(invalid()), "why"),
        (Error::Rejected(invalid()), "transaction rejected: why"),
        (
            Error::OperationalLimit {
                resource: "memory",
                required: 20,
                limit: 3,
            },
            "operational limit memory: requires 20, configured 3",
        ),
        (Error::Storage(storage::Error::Locked), "why"),
        (
            Error::Uncertain {
                sequence: None,
                source: None,
            },
            "submission outcome is uncertain",
        ),
        (
            Error::Uncertain {
                sequence: Some(18446744073709551615),
                source: Some(invalid()),
            },
            "submission outcome is uncertain at sequence 18446744073709551615: why",
        ),
        (Error::Closed, "database writer is closed"),
    ] {
        assert_eq!(error.message("why"), text);
    }
}

#[test]
fn generated_identities_are_distinct_and_marked() {
    let marked = uuid([0xff; 16]);
    assert_eq!(marked[6], 0x4f);
    assert_eq!(marked[8], 0xbf);
    assert_eq!(marked[0], 0xff);
    assert_eq!(uuid([0; 16])[6], 0x40);
    assert_eq!(uuid([0; 16])[8], 0x80);
    let (first, second) = (random_uuid().unwrap(), random_uuid().unwrap());
    assert_ne!(first, second);
    for id in [first, second] {
        assert_eq!(id[6] >> 4, 4);
        assert_eq!(id[8] >> 6, 2);
    }
    let genesis = initialize(CreateOptions::default()).unwrap();
    assert_ne!(genesis.database_id, genesis.cursor_namespace);
    assert_eq!(genesis.initial_policy.values(), &storage::CEILINGS);
}

#[test]
fn explicit_identities_and_limits_are_kept() {
    let limits = Limits {
        writes: 17,
        ..Limits::default()
    };
    let genesis = initialize(CreateOptions {
        limits,
        database_id: Some([3; 16]),
        cursor_namespace: Some([4; 16]),
    })
    .unwrap();
    assert_eq!(genesis.database_id, [3; 16]);
    assert_eq!(genesis.cursor_namespace, [4; 16]);
    assert_eq!(Limits::of(&genesis.initial_policy).writes, 17);
}

#[test]
fn limits_above_the_ceilings_are_refused() {
    let limits = || Limits {
        tables: u64::MAX,
        ..Limits::default()
    };
    assert_eq!(
        validate_limits(limits()).err(),
        Some(Error::Rejected(vm::Error::Invalid(
            "resource limit exceeds format ceiling"
        )))
    );
    assert_eq!(
        initialize(CreateOptions {
            limits: limits(),
            ..CreateOptions::default()
        })
        .err(),
        Some(storage::Error::InvalidInput(
            "resource limit exceeds format ceiling"
        ))
    );
    let policy = validate_limits(Limits::default()).unwrap();
    assert_eq!(policy.values(), &storage::CEILINGS);
}

#[test]
fn stores_are_created_attached_or_opened() {
    assert_eq!(opening(true, None), Opening::Create);
    assert_eq!(opening(false, None), Opening::Open);
    assert_eq!(
        opening(false, Some(AttachMode::ReadOnlyReplica)),
        Opening::Attach { read_only: true }
    );
    assert_eq!(
        opening(false, Some(AttachMode::RestorePrimarySourceRetired)),
        Opening::Attach { read_only: false }
    );
    assert!(!Opening::Create.replays());
    assert!(Opening::Open.replays());
    assert_eq!(check_writable(false), Ok(()));
    assert_eq!(check_writable(true), Err(Error::ReadOnly));
}

#[test]
fn closing_reports_a_failed_writer() {
    assert_eq!(closed(true, false), Ok(()));
    assert_eq!(closed(false, false), Err(Error::Closed));
    assert_eq!(
        closed(true, true),
        Err(Error::Storage(storage::Error::NeedsRecovery))
    );
}

#[test]
fn unreadable_stored_data_is_corruption() {
    assert_eq!(
        persisted_read(vm::Error::Invalid("x")),
        Error::Storage(storage::Error::Corrupt("x"))
    );
    assert_eq!(
        persisted_read(vm::Error::Storage(storage::Error::InvalidInput("x"))),
        Error::Storage(storage::Error::Corrupt("x"))
    );
    assert_eq!(
        persisted_read(vm::Error::Storage(storage::Error::Locked)),
        Error::Read(vm::Error::Storage(storage::Error::Locked))
    );
}

fn manifest(segments: u64) -> Manifest {
    Manifest {
        generation: 4,
        database_id: [1; 16],
        cursor_namespace: [2; 16],
        next_cursor_id: 1,
        checkpoint_sequence: 6,
        checkpoint_digest: [6; 32],
        durable_sequence: 8,
        durable_digest: [8; 32],
        history_floor: 2,
        log_floor: 3,
        page_file_id: 1,
        page_count: 30,
        next_segment_id: 1,
        segments: (0..segments)
            .map(|segment_id| SegmentDescriptor {
                segment_id,
                first_sequence: segment_id + 1,
                last_sequence: segment_id + 1,
                committed_bytes: 200,
                predecessor_digest: [0; 32],
                last_digest: [0; 32],
            })
            .collect(),
    }
}

#[test]
fn maintenance_begins_with_a_checkpoint_of_a_drained_log() {
    let next = begin(&manifest(3), 8).unwrap();
    assert_eq!(next.checkpoint_sequence, 8);
    assert_eq!(next.checkpoint_digest, [8; 32]);
    assert_eq!(
        begin(&manifest(3), 7).err(),
        Some(Error::Storage(storage::Error::InvalidInput(
            "maintenance sequencer is not drained"
        )))
    );
}

#[test]
fn maintenance_reports_what_changed() {
    let candidate = Manifest {
        history_floor: 5,
        log_floor: 6,
        page_file_id: 2,
        page_count: 11,
        ..manifest(1)
    };
    let reclaimed = Reclaimed {
        files: 3,
        deferred_files: 1,
    };
    let found = report(&manifest(3), &candidate, 9, 8, 20, 10, true, reclaimed);
    assert_eq!(found.generation, 9);
    assert_eq!(found.frontier, 8);
    assert_eq!(
        found.previous_floors,
        RetentionFloors { history: 2, log: 3 }
    );
    assert_eq!(found.floors, RetentionFloors { history: 5, log: 6 });
    assert_eq!(found.segments_retired, 2);
    assert_eq!((found.previous_page_file, found.page_file), (1, 2));
    assert_eq!((found.previous_pages, found.pages), (30, 11));
    assert_eq!((found.versions_removed, found.outcomes_removed), (20, 10));
    assert!(found.rotation_pending);
    assert_eq!(found.reclaimed, reclaimed);
    let kept = MaintenanceOptions {
        rotate_log: false,
        ..MaintenanceOptions::default()
    };
    assert!(rotation(false, &MaintenanceOptions::default()));
    assert!(rotation(true, &kept));
    assert!(!rotation(false, &kept));
}

#[test]
fn batches_are_limited_to_the_largest_exchange() {
    assert_eq!(BatchLimits::default().max_records, 1024);
    assert_eq!(BatchLimits::default().max_bytes, 256 * 1024 * 1024);
}

#[test]
fn backups_are_bounded() {
    assert_eq!(check_backup(3), Ok(()));
    assert_eq!(
        check_backup(4),
        Err(Error::OperationalLimit {
            resource: "backup_jobs",
            required: 5,
            limit: 4
        })
    );
}
