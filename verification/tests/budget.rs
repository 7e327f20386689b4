//! Engine options and reservations.

use blop_db::database::budget::{check_reservation, input_bytes, validate, EngineOptions};
use blop_db::database::record::Command;
use blop_db::database::{Error, TailRecovery};
use blop_db::bind::Transaction;
use blop_db::storage::{Damage, LimitPolicy};
use blop_db::vm::{AccessManifest, AccessMode, CatalogueOperation, Scope, Type};

#[test]
fn invalid_options_are_rejected_before_constructing_channels_or_threads() {
    for options in [
        EngineOptions {
            workers: 0,
            ..Default::default()
        },
        EngineOptions {
            workers: 257,
            ..Default::default()
        },
        EngineOptions {
            execution_window: 0,
            ..Default::default()
        },
        EngineOptions {
            checkpoint_interval: 0,
            ..Default::default()
        },
        EngineOptions {
            checkpoint_interval: 4097,
            ..Default::default()
        },
        EngineOptions {
            submission_queue_count: 0,
            ..Default::default()
        },
        EngineOptions {
            submission_queue_bytes: usize::MAX,
            ..Default::default()
        },
        EngineOptions {
            assigned_backlog_count: 0,
            ..Default::default()
        },
        EngineOptions {
            assigned_backlog_bytes: 0,
            ..Default::default()
        },
        EngineOptions {
            execution_bytes: 0,
            ..Default::default()
        },
        EngineOptions {
            preparation_bytes: 0,
            ..Default::default()
        },
    ] {
        assert!(matches!(validate(&options), Err(Error::InvalidInput(_))));
    }
}

#[test]
fn default_options_are_valid_and_bound_the_workers() {
    assert_eq!(validate(&EngineOptions::default()), Ok(()));
    for (processors, workers) in [(None, 2), (Some(1), 2), (Some(3), 3), (Some(64), 4)] {
        let options = EngineOptions::for_parallelism(processors);
        assert_eq!(options.workers, workers);
        assert_eq!(validate(&options), Ok(()));
    }
    // The largest number of permits that a semaphore holds.
    let largest = usize::MAX >> 3;
    let counted = |submission_queue_count| EngineOptions {
        submission_queue_count,
        ..Default::default()
    };
    assert_eq!(validate(&counted(largest)), Ok(()));
    assert!(validate(&counted(largest + 1)).is_err());
}

#[test]
fn commands_are_charged_with_what_they_hold() {
    let transaction = Command::Transaction {
        transaction: Transaction::from_parts(vec![0; 100], vec![0; 7]),
        claims: LimitPolicy::new([0; 17]).unwrap(),
    };
    assert_eq!(input_bytes(&transaction, None), Ok(107 + 512));
    let manifest = AccessManifest {
        entries: vec![
            (Scope::Table(1), AccessMode::Read),
            (Scope::Key(2, vec![0; 5]), AccessMode::Write),
        ],
    };
    assert_eq!(
        input_bytes(&transaction, Some(&manifest)),
        Ok(107 + 128 + 138 + 512)
    );
    let create = Command::Catalogue(CatalogueOperation::Create {
        name: "data".to_string(),
        key: Type::U64,
        value: Type::Bytes(4),
    });
    assert_eq!(input_bytes(&create, None), Ok(4 + 64 * (3 + 7) + 512));
    let drop = Command::Catalogue(CatalogueOperation::Drop { table: 3 });
    assert_eq!(input_bytes(&drop, None), Ok(520));
    let policy = Command::Limits(LimitPolicy::new([0; 17]).unwrap());
    assert_eq!(input_bytes(&policy, None), Ok(652));
    let invalid = Command::Catalogue(CatalogueOperation::Drop { table: 0 });
    assert!(matches!(
        input_bytes(&invalid, None),
        Err(Error::Rejected(_))
    ));
}

#[test]
fn reservations_that_can_never_fit_are_refused() {
    assert_eq!(check_reservation(2, 10, 2, 10), Ok(()));
    assert_eq!(
        check_reservation(2, 10, 3, 10),
        Err(Error::OperationalLimit {
            resource: "submission_queue_count",
            required: 3,
            limit: 2,
        })
    );
    assert_eq!(
        check_reservation(2, 10, 2, 11),
        Err(Error::OperationalLimit {
            resource: "submission_queue_bytes",
            required: 11,
            limit: 10,
        })
    );
}

#[test]
fn default_options_are_those_that_are_documented() {
    let options = EngineOptions::default();
    assert_eq!(options.tail_recovery, TailRecovery::DiscardInvalid);
    assert_eq!(TailRecovery::default(), TailRecovery::DiscardInvalid);
    assert!((2..=4).contains(&options.workers));
    assert_eq!(options.execution_window, 64);
    assert_eq!(options.checkpoint_interval, 64);
    assert_eq!(options.submission_queue_count, 64);
    assert_eq!(options.assigned_backlog_count, 64);
    assert_eq!(options.submission_queue_bytes, 64 << 20);
    assert_eq!(options.assigned_backlog_bytes, 64 << 20);
    assert_eq!(options.execution_bytes, 512 << 20);
    assert_eq!(options.preparation_bytes, 512 << 20);
    assert_eq!(validate(&options), Ok(()));
}

#[test]
fn damaged_tails_are_discarded_as_the_policy_says() {
    for (damage, discarded, strict) in [
        (Damage::Short, true, true),
        (Damage::Malformed, true, false),
        (Damage::Selected, false, false),
        (Damage::Format, false, false),
        (Damage::Link, false, false),
        (Damage::Fork, false, false),
    ] {
        assert_eq!(TailRecovery::DiscardInvalid.discards(damage), discarded);
        assert_eq!(TailRecovery::Strict.discards(damage), strict);
    }
}
