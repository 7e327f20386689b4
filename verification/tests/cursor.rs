//! Durable cursors, retention and feeds.

use blop_db::database::cursor::{
    acknowledge, check_history, checkout, cursor_key, decode, encode, handle, list, release, reopen,
    retention_floors, Change, CursorInfo, Cursors, LogWalk, Operation, Response, RetentionFloors,
};
use blop_db::database::engine::{
    envelope, extend_segment, publish_checkpoint, start_segment, take_segment_id,
};
use blop_db::database::exchange::batch::FeedRecords;
use blop_db::database::exchange::{CursorKind, CursorToken, Watermark};
use blop_db::database::feed::{check_table, check_version, protected, Feed, Visit};
use blop_db::database::record;
use blop_db::database::record::Command;
use blop_db::database::segments::read_segment;
use blop_db::database::{BatchLimits, Error};
use blop_db::storage;
use blop_db::storage::Manifest;
use blop_db::vm::{CatalogueOperation, Outcome, OutcomeRecord};

/// A database with `count` logged records, all of them in the checkpoint, and
/// the file of its segment.
fn database(count: u64) -> (Manifest, Vec<u8>) {
    let mut manifest = Manifest {
        generation: 1,
        database_id: [1; 16],
        cursor_namespace: [2; 16],
        next_cursor_id: 1,
        checkpoint_sequence: 0,
        checkpoint_digest: [7; 32],
        durable_sequence: 0,
        durable_digest: [7; 32],
        history_floor: 0,
        log_floor: 1,
        page_file_id: 1,
        page_count: 3,
        next_segment_id: 1,
        segments: vec![],
    };
    let mut file = vec![];
    for sequence in 1..count + 1 {
        let command = Command::Catalogue(CatalogueOperation::Drop { table: sequence });
        let (kind, body) = record::encode(&command).unwrap();
        let bytes = envelope(sequence, manifest.durable_digest, kind, &body).unwrap();
        if sequence == 1 {
            let id = take_segment_id(&mut manifest).unwrap();
            let (next, header) = start_segment(&manifest, id, sequence, &bytes);
            manifest = next;
            file.extend_from_slice(&header);
        } else {
            manifest = extend_segment(&manifest, sequence, &bytes, file.len() as u64).unwrap();
        }
        file.extend_from_slice(&bytes);
    }
    manifest.checkpoint_sequence = manifest.durable_sequence;
    manifest.checkpoint_digest = manifest.durable_digest;
    (manifest, file)
}

fn at(sequence: u64) -> Watermark {
    Watermark::new([1; 16], sequence).unwrap()
}

/// Publish a change.
fn apply(manifest: &mut Manifest, cursors: &mut Cursors, change: Change) {
    manifest.next_cursor_id = change.next_id;
    cursors.entries.retain(|entry| entry.0 != change.id);
    if let Some(value) = change.value {
        cursors.entries.push((change.id, value));
        cursors.entries.sort();
    }
}

fn register(
    manifest: &mut Manifest,
    cursors: &mut Cursors,
    sequence: u64,
    kind: CursorKind,
) -> CursorToken {
    let (token, change) =
        checkout(manifest, &at(sequence), kind, "reader".to_string(), Ok(())).unwrap();
    apply(manifest, cursors, change);
    token
}

#[test]
fn cursors_are_checked_out_acknowledged_and_released() {
    let (mut manifest, _) = database(5);
    let mut cursors = Cursors { entries: vec![] };
    let token = register(&mut manifest, &mut cursors, 2, CursorKind::Logical);
    assert_eq!(token.cursor_id(), 1);
    assert_eq!(manifest.next_cursor_id, 2);
    let info = reopen(&manifest, &cursors, &token).unwrap();
    assert_eq!(info.token, token);
    assert_eq!(info.baseline, 2);
    assert_eq!(info.label, "reader");

    assert_eq!(
        acknowledge(&manifest, &cursors, &token, &at(2), 5),
        Ok(None)
    );
    for sequence in [1, 6] {
        assert_eq!(
            acknowledge(&manifest, &cursors, &token, &at(sequence), 5),
            Err(Error::InvalidInput(
                "cursor acknowledgement is backwards or above frontier"
            ))
        );
    }
    let change = acknowledge(&manifest, &cursors, &token, &at(4), 5)
        .unwrap()
        .unwrap();
    apply(&mut manifest, &mut cursors, change);
    assert_eq!(reopen(&manifest, &cursors, &token).unwrap().baseline, 4);

    let second = register(&mut manifest, &mut cursors, 5, CursorKind::Resolved);
    assert_eq!(second.cursor_id(), 2);
    let all = list(&manifest, &cursors).unwrap();
    assert_eq!(all.len(), 2);
    assert_eq!(all[1].token, second);

    let change = release(&manifest, &cursors, &token).unwrap().unwrap();
    apply(&mut manifest, &mut cursors, change);
    // Released numbers are not given out again.
    assert_eq!(release(&manifest, &cursors, &token), Ok(None));
    assert_eq!(
        reopen(&manifest, &cursors, &token),
        Err(Error::CursorReleased)
    );
    let third = register(&mut manifest, &mut cursors, 5, CursorKind::Resolved);
    assert_eq!(third.cursor_id(), 3);
    assert_eq!(
        acknowledge(&manifest, &cursors, &token, &at(5), 5),
        Err(Error::CursorReleased)
    );
}

#[test]
fn tokens_of_other_databases_and_kinds_are_refused() {
    let (mut manifest, _) = database(5);
    let mut cursors = Cursors { entries: vec![] };
    register(&mut manifest, &mut cursors, 2, CursorKind::Logical);
    let token = |database: u8, namespace: u8, id, kind| {
        let token = CursorToken::new([database; 16], [namespace; 16], id, kind);
        reopen(&manifest, &cursors, &token).unwrap_err()
    };
    let mismatch = Error::InvalidToken("cursor database or namespace mismatch");
    assert_eq!(token(3, 2, 1, CursorKind::Logical), mismatch);
    assert_eq!(token(1, 3, 1, CursorKind::Logical), mismatch);
    assert_eq!(
        token(1, 2, 2, CursorKind::Logical),
        Error::InvalidToken("cursor ID was not issued")
    );
    assert_eq!(
        token(1, 2, 1, CursorKind::Resolved),
        Error::InvalidToken("cursor kind mismatch")
    );
}

#[test]
fn checkouts_are_checked() {
    let (mut manifest, _) = database(2);
    let other = Watermark::new([4; 16], 1).unwrap();
    let kind = CursorKind::Resolved;
    assert_eq!(
        checkout(&manifest, &other, kind, String::new(), Ok(())).err(),
        Some(Error::InvalidToken("watermark database identity mismatch"))
    );
    let long = "x".repeat(256);
    for label in [long.as_str(), "a\0b"] {
        assert_eq!(
            checkout(&manifest, &at(1), kind, label.to_string(), Ok(())).err(),
            Some(Error::InvalidInput(
                "cursor label exceeds 255 UTF-8 bytes or contains NUL"
            ))
        );
    }
    assert!(checkout(&manifest, &at(1), kind, "x".repeat(255), Ok(())).is_ok());
    assert_eq!(
        checkout(
            &manifest,
            &at(1),
            kind,
            String::new(),
            Err(Error::HistoryUnavailable)
        )
        .err(),
        Some(Error::HistoryUnavailable)
    );
    manifest.next_cursor_id = u64::MAX;
    assert_eq!(
        checkout(&manifest, &at(1), kind, String::new(), Ok(())).err(),
        Some(Error::CursorIdExhausted)
    );
}

#[test]
fn registrations_are_stored_and_read_back() {
    let (mut manifest, _) = database(5);
    manifest.next_cursor_id = 9;
    let info = CursorInfo {
        token: CursorToken::new([1; 16], [2; 16], 8, CursorKind::LogReplica),
        baseline: 3,
        label: "münchen".to_string(),
    };
    let stored = encode(&info);
    assert_eq!(&stored[..4], &[1, 0, 3, 0]);
    assert_eq!(stored.len(), 16 + 8);
    assert_eq!(decode(&manifest, 8, &stored).as_ref(), Ok(&info));
    let corrupt = Err(Error::Storage(storage::Error::Corrupt(
        "invalid durable cursor value",
    )));
    assert_eq!(decode(&manifest, 9, &stored), corrupt);
    assert_eq!(decode(&manifest, 0, &stored), corrupt);
    assert_eq!(decode(&manifest, 8, &stored[..15]), corrupt);
    for index in [0, 2, 3, 12] {
        let mut damaged = stored.clone();
        damaged[index] = 7;
        assert_eq!(decode(&manifest, 8, &damaged), corrupt);
    }
    let mut unreadable = stored.clone();
    unreadable[17] = 0xff;
    assert_eq!(decode(&manifest, 8, &unreadable), corrupt);
    manifest.log_floor = 5;
    assert_eq!(decode(&manifest, 8, &stored), corrupt);
    assert_eq!(cursor_key(&[0, 0, 0, 0, 0, 0, 1, 2]), Ok(0x0102));
    assert_eq!(
        cursor_key(&[0; 7]),
        Err(Error::Storage(storage::Error::Corrupt("invalid cursor key")))
    );
}

#[test]
fn floors_follow_the_lowest_claim() {
    let (mut manifest, _) = database(9);
    let mut cursors = Cursors { entries: vec![] };
    let floors = |history, log| Ok(RetentionFloors { history, log });
    assert_eq!(retention_floors(&manifest, &cursors, 9), floors(9, 10));
    register(&mut manifest, &mut cursors, 6, CursorKind::Resolved);
    assert_eq!(retention_floors(&manifest, &cursors, 9), floors(6, 10));
    register(&mut manifest, &mut cursors, 7, CursorKind::LogReplica);
    assert_eq!(retention_floors(&manifest, &cursors, 9), floors(6, 8));
    assert_eq!(retention_floors(&manifest, &cursors, 4), floors(4, 8));
    cursors.entries[0].1.truncate(3);
    assert!(matches!(
        retention_floors(&manifest, &cursors, 4),
        Err(Error::Storage(storage::Error::Corrupt(_)))
    ));
}

#[test]
fn requests_are_answered_with_the_change_they_need() {
    let (mut manifest, _) = database(5);
    let mut cursors = Cursors { entries: vec![] };
    let tail = Operation::SnapshotTail {
        kind: CursorKind::Resolved,
        label: "tail".to_string(),
    };
    let (response, change) = handle(&manifest, &cursors, tail, 4, 4, Ok(())).unwrap();
    let Response::SnapshotTail(watermark, token) = response else {
        panic!("another response");
    };
    assert_eq!(watermark, at(4));
    apply(&mut manifest, &mut cursors, change.unwrap());
    let (response, change) =
        handle(&manifest, &cursors, Operation::List, 4, 4, Ok(())).unwrap();
    assert_eq!(change, None);
    let Response::List(all) = response else {
        panic!("another response");
    };
    assert_eq!(all.len(), 1);
    assert_eq!(all[0].baseline, 4);
    let (response, change) =
        handle(&manifest, &cursors, Operation::Floors, 4, 4, Ok(())).unwrap();
    assert_eq!(change, None);
    assert_eq!(
        response,
        Response::Floors(RetentionFloors { history: 4, log: 6 })
    );
    let (response, change) =
        handle(&manifest, &cursors, Operation::Release(token), 4, 4, Ok(())).unwrap();
    assert_eq!(response, Response::Unit);
    assert_eq!(change.unwrap().value, None);
}

#[test]
fn availability_is_checked_against_history_and_log() {
    let (mut manifest, file) = database(4);
    assert_eq!(check_history(&manifest, 0, 4), Ok(()));
    assert_eq!(
        check_history(&manifest, 5, 4),
        Err(Error::HistoryUnavailable)
    );
    let mut walk = LogWalk::start(&manifest, 1).unwrap();
    assert_eq!(walk.finish(4), Err(Error::HistoryUnavailable));
    walk.segment([1; 16], &manifest.segments[0], Some(&file))
        .unwrap();
    assert_eq!(walk.finish(4), Ok(()));
    let mut missing = LogWalk::start(&manifest, 1).unwrap();
    assert_eq!(
        missing.segment([1; 16], &manifest.segments[0], None),
        Err(Error::HistoryUnavailable)
    );
    let mut damaged = file.clone();
    damaged[0] ^= 1;
    let mut other = LogWalk::start(&manifest, 1).unwrap();
    assert_eq!(
        other.segment([1; 16], &manifest.segments[0], Some(&damaged)),
        Err(Error::Storage(storage::Error::Corrupt(
            "cursor log header mismatch"
        )))
    );
    manifest.log_floor = 3;
    assert_eq!(
        LogWalk::start(&manifest, 1).err(),
        Some(Error::HistoryUnavailable)
    );
    manifest.history_floor = 3;
    assert_eq!(
        check_history(&manifest, 2, 4),
        Err(Error::HistoryUnavailable)
    );
}

fn outcome(sequence: u64, record_digest: [u8; 32]) -> OutcomeRecord {
    OutcomeRecord {
        sequence,
        record_digest,
        record_kind: 2,
        outcome: Outcome {
            aborted: true,
            payload: vec![sequence as u8; 40],
        },
    }
}

fn limits(max_records: usize, max_bytes: usize) -> BatchLimits {
    BatchLimits {
        max_records,
        max_bytes,
    }
}

#[test]
fn resolved_feeds_fill_their_batches() {
    let (mut manifest, _) = database(5);
    let mut cursors = Cursors { entries: vec![] };
    let token = register(&mut manifest, &mut cursors, 1, CursorKind::Resolved);
    let open = |limits| Feed::open(&manifest, &cursors, &token, &at(2), limits, 4, false);
    let fill = |limits| {
        let mut feed = open(limits).unwrap();
        while let Some(sequence) = feed.wants() {
            feed.collect_outcome(outcome(sequence, [3; 32])).unwrap();
        }
        feed.finish([1; 16]).unwrap()
    };
    // Each outcome takes 88 bytes in the batch.
    let batch = fill(limits(9, 1000));
    assert_eq!((batch.start_exclusive, batch.end_inclusive), (2, 4));
    assert_eq!(batch.encode().unwrap().len(), 60 + 2 * 88);
    assert_eq!(fill(limits(1, 1000)).end_inclusive, 3);
    assert_eq!(fill(limits(9, 60 + 88)).end_inclusive, 3);
    assert_eq!(fill(limits(9, 60 + 2 * 88)).end_inclusive, 4);
    assert_eq!(fill(limits(0, 1000)).end_inclusive, 2);
    let mut small = open(limits(9, 147)).unwrap();
    assert_eq!(
        small.collect_outcome(outcome(3, [3; 32])),
        Err(Error::BatchTooSmall { required: 148 })
    );
    for bytes in [59, 256 * 1024 * 1024 + 1] {
        assert_eq!(
            open(limits(9, bytes)).err(),
            Some(Error::InvalidInput(
                "batch byte limit must be 60 through 256 MiB"
            ))
        );
    }
}

#[test]
fn feeds_are_bound_to_their_cursor() {
    let (mut manifest, _) = database(5);
    let mut cursors = Cursors { entries: vec![] };
    let token = register(&mut manifest, &mut cursors, 2, CursorKind::Resolved);
    let open = |after: Watermark, logical| {
        Feed::open(
            &manifest,
            &cursors,
            &token,
            &after,
            BatchLimits::default(),
            4,
            logical,
        )
        .err()
    };
    assert_eq!(open(at(2), false), None);
    assert_eq!(open(at(1), false), Some(Error::HistoryUnavailable));
    assert_eq!(open(at(5), false), Some(Error::HistoryUnavailable));
    assert_eq!(
        open(at(2), true),
        Some(Error::InvalidToken("logical feed requires kind 2 or 3"))
    );
    assert_eq!(
        open(Watermark::new([5; 16], 2).unwrap(), false),
        Some(Error::InvalidToken("watermark database identity mismatch"))
    );
}

#[test]
fn logical_feeds_carry_the_logged_records() {
    let (mut manifest, file) = database(5);
    let mut cursors = Cursors { entries: vec![] };
    let token = register(&mut manifest, &mut cursors, 1, CursorKind::Logical);
    let open = || {
        Feed::open(
            &manifest,
            &cursors,
            &token,
            &at(1),
            BatchLimits::default(),
            4,
            true,
        )
        .unwrap()
    };
    let segment = &manifest.segments[0];
    let mut feed = open();
    assert_eq!(feed.segment(segment), Ok(Visit::Read));
    for place in read_segment([1; 16], segment, &file, "header", "end").unwrap() {
        if !feed.reads(place.sequence) {
            break;
        }
        if feed.source(&manifest, place.sequence, &place.digest).unwrap() {
            let log = file[place.at..place.at + place.length].to_vec();
            let outcome = outcome(place.sequence, place.digest);
            feed.collect_log(log, &place.digest, outcome).unwrap();
        }
    }
    assert_eq!(feed.segment(segment), Ok(Visit::Stop));
    let batch = feed.finish([1; 16]).unwrap();
    assert_eq!((batch.start_exclusive, batch.end_inclusive), (1, 4));
    let FeedRecords::Logical(records) = &batch.records else {
        panic!("another feed");
    };
    assert_eq!(records.len(), 3);
    assert!(batch.encode().is_ok());

    let corrupt = |reason| Error::Storage(storage::Error::Corrupt(reason));
    assert_eq!(
        open().finish([1; 16]).err(),
        Some(corrupt("missing cursor-protected log"))
    );
    assert_eq!(
        open().source(&manifest, 5, &[0; 32]),
        Err(corrupt("logical feed checkpoint anchor mismatch"))
    );
    let log = records[0].log_record.clone();
    assert_eq!(
        open().collect_log(log, &[0; 32], outcome(2, [4; 32])),
        Err(corrupt("logical feed outcome differs from source record"))
    );
}

#[test]
fn protected_history_must_be_there() {
    let corrupt = |reason| Error::Storage(storage::Error::Corrupt(reason));
    assert_eq!(
        protected(Error::HistoryUnavailable, "missing"),
        corrupt("missing")
    );
    assert_eq!(protected(Error::Closed, "missing"), Error::Closed);
    assert_eq!(check_version(Some(&[1, 2]), &[1, 2]), Ok(()));
    assert_eq!(
        check_version(Some(&[1, 2]), &[1, 3]),
        Err(corrupt("feed outcome differs from exact version"))
    );
    assert_eq!(
        check_version(None, &[1, 3]),
        Err(Error::HistoryUnavailable)
    );
    assert_eq!(check_table(Some(true)), Ok(()));
    for live in [Some(false), None] {
        assert_eq!(check_table(live), Err(Error::HistoryUnavailable));
    }
}

#[test]
fn cursor_publication_at_c_less_than_f_filters_roots_and_preserves_replay_metadata() {
    let (mut manifest, _) = database(4);
    let (first, _) = database(1);
    manifest.checkpoint_sequence = 1;
    manifest.checkpoint_digest = first.durable_digest;
    let mut cursors = Cursors { entries: vec![] };
    let (response, change) = handle(
        &manifest,
        &cursors,
        Operation::SnapshotTail {
            kind: CursorKind::Logical,
            label: "post-checkpoint".into(),
        },
        2,
        2,
        Ok(()),
    )
    .unwrap();
    let Response::SnapshotTail(snapshot, token) = response else {
        unreachable!()
    };
    apply(&mut manifest, &mut cursors, change.unwrap());
    assert_eq!(
        (manifest.checkpoint_sequence, manifest.durable_sequence),
        (1, 4)
    );
    assert_eq!(snapshot.sequence(), 2);
    assert_eq!(reopen(&manifest, &cursors, &token).unwrap().baseline, 2);
    assert_eq!(
        retention_floors(&manifest, &cursors, 2).unwrap(),
        RetentionFloors { history: 2, log: 2 }
    );
    let (resolved, change) = handle(
        &manifest,
        &cursors,
        Operation::Checkout {
            baseline: Watermark::new([1; 16], 1).unwrap(),
            kind: CursorKind::Resolved,
            label: "feed".into(),
        },
        2,
        2,
        Ok(()),
    )
    .unwrap();
    let Response::Token(resolved) = resolved else {
        unreachable!()
    };
    apply(&mut manifest, &mut cursors, change.unwrap());
    let mut feed = Feed::open(
        &manifest,
        &cursors,
        &resolved,
        &Watermark::new([1; 16], 1).unwrap(),
        BatchLimits::default(),
        2,
        false,
    )
    .unwrap();
    while let Some(sequence) = feed.wants() {
        feed.collect_outcome(outcome(sequence, [3; 32])).unwrap();
    }
    let batch = feed.finish([1; 16]).unwrap();
    assert_eq!(batch.end_inclusive, 2);
    let (_, change) = handle(
        &manifest,
        &cursors,
        Operation::Ack {
            token: resolved,
            watermark: Watermark::new([1; 16], 2).unwrap(),
        },
        2,
        2,
        Ok(()),
    )
    .unwrap();
    apply(&mut manifest, &mut cursors, change.unwrap());
    assert_eq!(manifest.checkpoint_sequence, 1);
    assert_eq!(reopen(&manifest, &cursors, &token).unwrap().baseline, 2);
    let recovered = publish_checkpoint(&manifest);
    assert_eq!(recovered.checkpoint_sequence, 4);
    assert_eq!(reopen(&recovered, &cursors, &resolved).unwrap().baseline, 2);
}
