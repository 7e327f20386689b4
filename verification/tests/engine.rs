//! Log records, log segments and recovery.

use blop_db::bind::Transaction;
use blop_db::database::engine::{
    authoritative_io, envelope, extend_segment, next_sequence, plan_commit, publish_checkpoint,
    publish_prefix, read_record, rejection, replay_error, segment_header, start_segment,
    take_segment_id, uncertain, RECORD_HEADER_LENGTH,
};
use blop_db::database::maintenance::{begin, report, Audit, Reclaimed};
use blop_db::database::record::{encode, Command, MAX_RECORD_LENGTH, RECORD_OVERHEAD};
use blop_db::database::recovery::{check_retained, Action, Recovery};
use blop_db::database::segments::{read_segment, Reader};
use blop_db::database::Error;
use blop_db::storage;
use blop_db::storage::{LimitPolicy, Manifest, SegmentDescriptor};
use blop_db::vm;
use blop_db::vm::{CatalogueOperation, Outcome, OutcomeRecord, Type};
use sha2::{Digest, Sha256};

fn digest(bytes: &[u8]) -> [u8; 32] {
    <[u8; 32]>::from(Sha256::digest(bytes))
}

/// A database that holds no record yet.
fn empty() -> Manifest {
    Manifest {
        generation: 1,
        database_id: [1; 16],
        cursor_namespace: [2; 16],
        next_cursor_id: 1,
        checkpoint_sequence: 0,
        checkpoint_digest: [7; 32],
        durable_sequence: 0,
        durable_digest: [7; 32],
        history_floor: 0,
        log_floor: 1,
        page_file_id: 1,
        page_count: 3,
        next_segment_id: 1,
        segments: vec![],
    }
}

fn drop_table(table: u64) -> Command {
    Command::Catalogue(CatalogueOperation::Drop { table })
}

/// The record of a command at the durable end of the log.
fn next_record(manifest: &Manifest, command: &Command) -> (u64, Vec<u8>) {
    let sequence = next_sequence(manifest.durable_sequence).unwrap();
    let (kind, body) = encode(command).unwrap();
    let bytes = envelope(sequence, manifest.durable_digest, kind, &body).unwrap();
    (sequence, bytes)
}

/// Append records to the log, each in the segment before it, but for those that
/// `rotates` names.
fn append(manifest: Manifest, commands: &[Command], rotates: &[u64]) -> (Manifest, Vec<Vec<u8>>) {
    let mut manifest = manifest;
    let mut files: Vec<Vec<u8>> = vec![];
    for command in commands {
        let (sequence, bytes) = next_record(&manifest, command);
        if manifest.segments.is_empty() || rotates.contains(&sequence) {
            let id = take_segment_id(&mut manifest).unwrap();
            let (next, header) = start_segment(&manifest, id, sequence, &bytes);
            files.push([header.as_slice(), &bytes].concat());
            manifest = next;
        } else {
            let length = files.last().unwrap().len() as u64;
            manifest = extend_segment(&manifest, sequence, &bytes, length).unwrap();
            files.last_mut().unwrap().extend_from_slice(&bytes);
        }
    }
    (manifest, files)
}

/// Read a log back: the records to replay, and whether a checkpoint is owed.
fn recover(
    manifest: &Manifest,
    files: &[Vec<u8>],
) -> Result<(Vec<(u64, Command, bool)>, bool), storage::Error> {
    let mut found = vec![];
    let mut recovery = Recovery::start(manifest);
    let mut position = 0;
    loop {
        match recovery.action(manifest) {
            Action::Open { segment } => {
                let index = manifest
                    .segments
                    .iter()
                    .position(|s| s.segment_id == segment)
                    .unwrap();
                recovery.open_segment(manifest, &files[index])?;
                position = 96;
            }
            Action::Read { segment, position: at } => {
                assert_eq!(at, position as u64);
                let index = manifest
                    .segments
                    .iter()
                    .position(|s| s.segment_id == segment)
                    .unwrap();
                let step = recovery.record(manifest, &files[index][position..])?;
                position += step.length;
                found.push((step.sequence, step.command, step.replay));
            }
            Action::Close => recovery.close_segment(manifest)?,
            Action::Finish => return Ok((found, recovery.finish(manifest)?)),
        }
    }
}

/// A transaction that returns 42.
fn answer() -> Command {
    let bytes = "42 4c 4f 50 56 4d 30 31 01 00 00 00 4f 00 00 00
            01 00 00 00 00 00 01 00 02 00 00 00 00 00 00 00
            03 00 00 00 01 00 03
            03 00 00 00 01 00 03
            03 00 00 00 01 00 03 08 00 00 00 2a 00 00 00 00 00 00 00
            01 00 04 00 00 00 00 00
            64 00 02 00 00 00"
        .split_ascii_whitespace()
        .map(|byte| u8::from_str_radix(byte, 16).unwrap())
        .collect::<Vec<_>>();
    assert_eq!(bytes.len(), 79);
    Command::Transaction {
        transaction: Transaction::from_parts(bytes, vec![0; 4]),
        claims: LimitPolicy::new([79, 2, 1, 0, 4, 0, 0, 0, 0, 0, 8, 8, 0, 0, 0, 0, 8]).unwrap(),
    }
}

#[test]
fn framing_rejects_truncation_bad_lengths_and_checksums() {
    let original = envelope(1, [7; 32], 1, &[1, 2, 3]).unwrap();
    let (length, found) = read_record(&original, original.len() as u64, 1, [7; 32]).unwrap();
    assert_eq!(&original[..length], original);
    assert_eq!(found, digest(&original));
    for length in 0..original.len() {
        assert!(matches!(
            read_record(&original[..length], original.len() as u64, 1, [7; 32]),
            Err(storage::Error::Corrupt(_))
        ));
    }
    for index in [8, 12, 24, 28, 64, original.len() - 8, original.len() - 1] {
        let mut bytes = original.clone();
        bytes[index] ^= 1;
        assert!(matches!(
            read_record(&bytes, bytes.len() as u64, 1, [7; 32]),
            Err(storage::Error::Corrupt(_))
        ));
    }
    let mut header = [0; RECORD_HEADER_LENGTH];
    header[8..12].copy_from_slice(&((MAX_RECORD_LENGTH + 1) as u32).to_le_bytes());
    header[12..16]
        .copy_from_slice(&((MAX_RECORD_LENGTH + 1 - RECORD_OVERHEAD) as u32).to_le_bytes());
    assert!(matches!(
        read_record(&header, u64::MAX, 1, [7; 32]),
        Err(storage::Error::Corrupt(_))
    ));
}

#[test]
fn appendix_h3_program_body_record_and_minimal_claims() {
    let command = answer();
    let manifest = empty();
    let (kind, body) = encode(&command).unwrap();
    assert_eq!(body.len(), 239);
    let record = envelope(1, manifest.durable_digest, kind, &body).unwrap();
    assert_eq!(record.len(), 311);
    assert_eq!(&record[8..12], &[0x37, 1, 0, 0]);
    assert_eq!(&record[307..], &[0x37, 1, 0, 0]);
    let append = plan_commit(&manifest, &command, Ok(())).unwrap();
    assert_eq!(append.sequence, 1);
    assert_eq!(append.bytes, record);
}

#[test]
fn envelopes_refuse_reserved_sequences_unknown_kinds_and_long_bodies() {
    for (sequence, kind) in [(0, 1), (u64::MAX, 1), (1, 0), (1, 4)] {
        assert_eq!(
            envelope(sequence, [7; 32], kind, &[]),
            Err(vm::Error::Invalid("invalid log record sequence or kind"))
        );
    }
    let longest = vec![0; MAX_RECORD_LENGTH - RECORD_OVERHEAD + 1];
    assert_eq!(
        envelope(1, [7; 32], 1, &longest),
        Err(vm::Error::Invalid("log record exceeds 64 MiB"))
    );
    assert_eq!(
        envelope(1, [7; 32], 1, &longest[1..]).unwrap().len(),
        MAX_RECORD_LENGTH
    );
}

#[test]
fn records_are_chained_and_bound_to_their_position() {
    let record = envelope(5, [7; 32], 2, &[9]).unwrap();
    let length = record.len() as u64;
    assert_eq!(
        read_record(&record, length - 1, 5, [7; 32]),
        Err(storage::Error::Corrupt("invalid log record length"))
    );
    assert_eq!(
        read_record(&record, 63, 5, [7; 32]),
        Err(storage::Error::Corrupt("record crosses committed log prefix"))
    );
    for (sequence, predecessor) in [(6, [7; 32]), (5, [8; 32])] {
        assert_eq!(
            read_record(&record, length, sequence, predecessor),
            Err(storage::Error::Corrupt(
                "invalid log record fields or hash chain"
            ))
        );
    }
    // What follows a record is not read.
    let longer = [record.as_slice(), &[1, 2, 3]].concat();
    assert_eq!(
        read_record(&longer, length + 3, 5, [7; 32]),
        Ok((record.len(), digest(&record)))
    );
}

#[test]
fn segments_start_grow_and_are_read_back() {
    let commands = [drop_table(1), drop_table(2), drop_table(3)];
    let (manifest, files) = append(empty(), &commands, &[3]);
    assert_eq!(manifest.durable_sequence, 3);
    assert_eq!(manifest.next_segment_id, 3);
    assert_eq!(manifest.segments.len(), 2);
    let (first, second) = (&manifest.segments[0], &manifest.segments[1]);
    assert_eq!((first.first_sequence, first.last_sequence), (1, 2));
    assert_eq!((second.first_sequence, second.last_sequence), (3, 3));
    assert_eq!(first.predecessor_digest, [7; 32]);
    assert_eq!(first.last_digest, second.predecessor_digest);
    assert_eq!(second.last_digest, manifest.durable_digest);
    assert_eq!(first.committed_bytes, files[0].len() as u64);
    assert_eq!(&files[0][..96], &segment_header([1; 16], first));
    assert_eq!(&files[0][..8], b"BLOPLG01");

    let records = read_segment([1; 16], first, &files[0], "header", "end").unwrap();
    assert_eq!(records.len(), 2);
    assert_eq!(records[0].sequence, 1);
    assert_eq!(records[0].at, 96);
    assert_eq!(records[1].at, 96 + records[0].length);
    assert_eq!(records[1].digest, first.last_digest);
    assert_eq!(
        read_segment([3; 16], first, &files[0], "header", "end").unwrap_err(),
        storage::Error::Corrupt("header")
    );
    let other = SegmentDescriptor {
        last_digest: [0; 32],
        ..*first
    };
    assert_eq!(
        read_segment([1; 16], &other, &files[0], "header", "end").unwrap_err(),
        storage::Error::Corrupt("end")
    );
    // Bytes behind the committed prefix are no part of the segment.
    let longer = [files[0].as_slice(), &[0xff; 5]].concat();
    let again = read_segment([1; 16], first, &longer, "header", "end").unwrap();
    assert_eq!(again.len(), 2);
}

#[test]
fn segments_are_read_up_to_a_damaged_record() {
    let (manifest, files) = append(empty(), &[drop_table(1), drop_table(2)], &[]);
    let segment = &manifest.segments[0];
    let whole = read_segment([1; 16], segment, &files[0], "header", "end").unwrap();

    // Read on, the records are those of the whole segment.
    let mut reader = Reader::open([1; 16], segment, &files[0], "header").unwrap();
    assert_eq!(reader.next, Some(1));
    assert_eq!(reader.finish(segment, "end"), Err(storage::Error::Corrupt("end")));
    for expected in &whole {
        let found = reader.record(segment, &files[0]).unwrap();
        assert_eq!(
            (found.sequence, found.at, found.length, found.digest),
            (expected.sequence, expected.at, expected.length, expected.digest),
        );
    }
    assert_eq!(reader.next, None);
    assert_eq!(reader.finish(segment, "end"), Ok(()));

    // Damage in the second record is met after the first one.
    let mut damaged = files[0].clone();
    *damaged.last_mut().unwrap() ^= 1;
    assert!(read_segment([1; 16], segment, &damaged, "header", "end").is_err());
    let mut reader = Reader::open([1; 16], segment, &damaged, "header").unwrap();
    assert_eq!(reader.record(segment, &damaged).unwrap().sequence, 1);
    assert_eq!(
        reader.record(segment, &damaged).err(),
        read_segment([1; 16], segment, &damaged, "header", "end").err(),
    );
    assert_eq!(
        Reader::open([3; 16], segment, &damaged, "header").err(),
        Some(storage::Error::Corrupt("header")),
    );
}

#[test]
fn a_shorter_active_segment_cannot_be_extended() {
    let (manifest, files) = append(empty(), &[drop_table(1)], &[]);
    let (sequence, bytes) = next_record(&manifest, &drop_table(2));
    assert_eq!(
        extend_segment(&manifest, sequence, &bytes, files[0].len() as u64 - 1),
        Err(storage::Error::Corrupt("truncated active log segment"))
    );
}

#[test]
fn sequences_and_segments_can_be_exhausted() {
    assert_eq!(next_sequence(0), Ok(1));
    assert_eq!(next_sequence(u64::MAX - 2), Ok(u64::MAX - 1));
    for durable in [u64::MAX - 1, u64::MAX] {
        assert_eq!(
            next_sequence(durable),
            Err(Error::Storage(storage::Error::Exhausted))
        );
    }
    let mut manifest = empty();
    manifest.next_segment_id = u64::MAX - 1;
    assert_eq!(take_segment_id(&mut manifest), Ok(u64::MAX - 1));
    assert_eq!(
        take_segment_id(&mut manifest),
        Err(storage::Error::Exhausted)
    );
}

#[test]
fn appended_commands_are_recovered_in_order() {
    let commands = [drop_table(1), drop_table(2), drop_table(3), drop_table(4)];
    let (manifest, files) = append(empty(), &commands, &[2, 4]);
    assert_eq!(files.len(), 3);
    let (found, publish) = recover(&manifest, &files).unwrap();
    assert!(publish);
    assert_eq!(found.len(), 4);
    for (index, (sequence, command, replay)) in found.iter().enumerate() {
        assert_eq!(*sequence, index as u64 + 1);
        assert!(*replay);
        assert_eq!(encode(command), encode(&commands[index]));
    }

    // A checkpoint takes the records behind it out of the replay.
    let (middle, _) = append(empty(), &commands[..2], &[2]);
    let checkpointed = publish_prefix(&manifest, 2, middle.durable_digest);
    assert_eq!(checkpointed.checkpoint_sequence, 2);
    let (found, publish) = recover(&checkpointed, &files).unwrap();
    assert!(publish);
    let replayed: Vec<u64> = found.iter().filter(|f| f.2).map(|f| f.0).collect();
    assert_eq!(replayed, vec![3, 4]);

    let done = publish_checkpoint(&manifest);
    assert_eq!(done.checkpoint_sequence, 4);
    assert_eq!(done.checkpoint_digest, manifest.durable_digest);
    let (found, publish) = recover(&done, &files).unwrap();
    assert!(!publish);
    assert!(found.iter().all(|f| !f.2));
}

#[test]
fn recovery_refuses_a_damaged_or_incomplete_log() {
    let corrupt = |reason| Some(storage::Error::Corrupt(reason));
    let commands = [drop_table(1), drop_table(2)];
    let (manifest, files) = append(empty(), &commands, &[]);
    for index in [0, 20, 95] {
        let mut damaged = files.clone();
        damaged[0][index] ^= 1;
        assert_eq!(
            recover(&manifest, &damaged).err(),
            corrupt("log segment header disagrees with manifest")
        );
    }
    let mut damaged = files.clone();
    damaged[0][96 + 70] ^= 1;
    assert!(matches!(
        recover(&manifest, &damaged),
        Err(storage::Error::Corrupt(_))
    ));
    let short = vec![files[0][..files[0].len() - 1].to_vec()];
    assert!(matches!(
        recover(&manifest, &short),
        Err(storage::Error::Corrupt(_))
    ));
    let mut missing = manifest.duplicate();
    missing.segments.clear();
    assert_eq!(
        recover(&missing, &[]).err(),
        corrupt("incomplete recovery suffix")
    );
    let mut other = publish_checkpoint(&manifest);
    other.checkpoint_digest = [0; 32];
    assert_eq!(
        recover(&other, &files).err(),
        corrupt("log checkpoint digest mismatch")
    );
    let mut gap = manifest.duplicate();
    gap.checkpoint_sequence = 0;
    gap.segments[0].first_sequence = 2;
    let header = segment_header([1; 16], &gap.segments[0]);
    let mut renumbered = files.clone();
    renumbered[0][..96].copy_from_slice(&header);
    assert!(matches!(
        recover(&gap, &renumbered),
        Err(storage::Error::Corrupt(_))
    ));
}

#[test]
fn retained_outcomes_agree_with_their_records() {
    let other = Err(vm::Error::Invalid(
        "retained history disagrees with source record kind or digest",
    ));
    let outcome = OutcomeRecord {
        sequence: 3,
        record_digest: [5; 32],
        record_kind: 1,
        outcome: Outcome {
            aborted: false,
            payload: vec![0; 32],
        },
    };
    assert_eq!(check_retained(1, &[5; 32], Some(&outcome), Some(1)), Ok(()));
    assert_eq!(check_retained(1, &[5; 32], None, None), Ok(()));
    assert_eq!(check_retained(2, &[5; 32], Some(&outcome), Some(2)), other);
    assert_eq!(check_retained(1, &[6; 32], Some(&outcome), None), other);
    assert_eq!(check_retained(2, &[5; 32], None, Some(1)), other);
}

#[test]
fn refused_records_are_not_planned() {
    let manifest = empty();
    assert_eq!(
        plan_commit(&manifest, &drop_table(0), Ok(())).err(),
        Some(Error::Rejected(vm::Error::Invalid("reserved table ID")))
    );
    assert_eq!(
        plan_commit(&manifest, &answer(), Err(vm::Error::Invalid("machine"))).err(),
        Some(Error::Rejected(vm::Error::Invalid("machine")))
    );
    let mut behind = empty();
    behind.durable_sequence = 1;
    assert_eq!(
        plan_commit(&behind, &drop_table(1), Ok(())).err(),
        Some(Error::Storage(storage::Error::NeedsRecovery))
    );
    let mut exhausted = empty();
    exhausted.checkpoint_sequence = u64::MAX - 1;
    exhausted.durable_sequence = u64::MAX - 1;
    assert_eq!(
        plan_commit(&exhausted, &drop_table(1), Ok(())).err(),
        Some(Error::Storage(storage::Error::Exhausted))
    );
}

#[test]
fn faults_are_told_apart() {
    assert_eq!(
        rejection(vm::Error::Storage(storage::Error::Locked)),
        Error::Storage(storage::Error::Locked)
    );
    assert_eq!(
        rejection(vm::Error::Invalid("x")),
        Error::Rejected(vm::Error::Invalid("x"))
    );
    assert_eq!(
        replay_error(vm::Error::Invalid("x")),
        storage::Error::Corrupt("x")
    );
    assert_eq!(
        replay_error(vm::Error::Unsupported {
            format: "record",
            version: 2
        }),
        storage::Error::Unsupported {
            format: "record",
            version: 2
        }
    );
    assert_eq!(
        replay_error(vm::Error::Storage(storage::Error::Locked)),
        storage::Error::Locked
    );
    assert_eq!(
        authoritative_io(true, "end of file".to_string()),
        storage::Error::Corrupt("missing bytes in authoritative log")
    );
    assert_eq!(
        authoritative_io(false, "denied".to_string()),
        storage::Error::Io("denied".to_string())
    );
    assert_eq!(
        uncertain(4, vm::Error::Invalid("x")),
        Error::Uncertain {
            sequence: Some(4),
            source: Some(vm::Error::Invalid("x"))
        }
    );
}

#[test]
fn audits_read_a_segment_record_by_record() {
    let commands = [drop_table(1), drop_table(2)];
    let (manifest, files) = append(empty(), &commands, &[]);
    let segment = &manifest.segments[0];
    let mut audit = Audit::start([1; 16], segment, &files[0][..96]).unwrap();
    let mut at = 96;
    for (index, command) in commands.iter().enumerate() {
        let found = audit.record(segment, &files[0][at..]).unwrap();
        assert_eq!(found.sequence, index as u64 + 1);
        assert_eq!(encode(&found.command), encode(command));
        assert_eq!(found.kind, 2);
        at += found.length;
        assert_eq!(found.digest, digest(&files[0][at - found.length..at]));
    }
    assert_eq!(audit.finish(segment), Ok(()));
    let early = Audit::start([1; 16], segment, &files[0][..96]).unwrap();
    assert_eq!(
        early.finish(segment),
        Err(Error::Storage(storage::Error::Corrupt(
            "maintenance log endpoint mismatch"
        )))
    );
    assert_eq!(
        Audit::start([2; 16], segment, &files[0][..96]).err(),
        Some(Error::Storage(storage::Error::Corrupt(
            "maintenance log header mismatch"
        )))
    );
}

#[test]
fn maintenance_builds_checkpoint_when_c_is_below_the_drained_frontier() {
    let command = Command::Catalogue(CatalogueOperation::Create {
        name: "data".into(),
        key: Type::U64,
        value: Type::U64,
    });
    let (store, files) = append(empty(), &[command], &[]);
    assert_eq!(store.checkpoint_sequence, 0);
    let candidate = begin(&store, 1).unwrap();
    assert_eq!(candidate.checkpoint_sequence, 1);
    let reclaimed = Reclaimed {
        files: 0,
        deferred_files: 0,
    };
    let found = report(&store, &candidate, 2, 1, 0, 0, true, reclaimed);
    assert_eq!(found.frontier, 1);
    let (records, publish) = recover(&candidate, &files).unwrap();
    assert_eq!(records.len(), 1);
    assert!(!publish);
}

#[test]
fn a_second_recovery_replays_nothing() {
    let commands = [drop_table(1), drop_table(2), drop_table(3)];
    let (manifest, files) = append(empty(), &commands, &[3]);
    let mut manifest = manifest;
    let mut executed = vec![];
    for _ in 0..2 {
        let (found, publish) = recover(&manifest, &files).unwrap();
        executed.extend(found.iter().filter(|step| step.2).map(|step| step.0));
        if publish {
            manifest = publish_checkpoint(&manifest);
        }
        assert_eq!(manifest.checkpoint_sequence, 3);
        assert_eq!(manifest.durable_sequence, 3);
    }
    assert_eq!(executed, vec![1, 2, 3]);
}
