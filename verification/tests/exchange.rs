//! Tokens, watermarks and feed batches.

use blop_db::database::engine::envelope;
use blop_db::database::exchange::batch::{
    codec_error, encode_outcome, FeedBatch, FeedRecords, LogicalRecord,
};
use blop_db::database::exchange::{CursorKind, CursorToken, Watermark};
use blop_db::database::record::{encode, Command};
use blop_db::database::Error;
use blop_db::vm;
use blop_db::vm::{CatalogueOperation, Outcome, OutcomeRecord};
use sha2::{Digest, Sha256};

fn digest(bytes: &[u8]) -> [u8; 32] {
    <[u8; 32]>::from(Sha256::digest(bytes))
}

/// Restore the checksum at the end of some bytes.
fn sealed(mut bytes: Vec<u8>) -> Vec<u8> {
    let end = bytes.len() - 4;
    let crc = crc32c::crc32c(&bytes[..end]);
    bytes[end..].copy_from_slice(&crc.to_le_bytes());
    bytes
}

fn format<T>(reason: &'static str) -> Result<T, Error> {
    Err(Error::InvalidFormat(reason))
}

fn token<T>(reason: &'static str) -> Result<T, Error> {
    Err(Error::InvalidToken(reason))
}

fn outcome(sequence: u64, record_digest: [u8; 32], record_kind: u8) -> OutcomeRecord {
    OutcomeRecord {
        sequence,
        record_digest,
        record_kind,
        outcome: Outcome {
            aborted: false,
            payload: vec![sequence as u8; 32],
        },
    }
}

/// Consecutive logged records behind `start`, with their outcomes.
fn logged(start: u64, count: u64) -> Vec<LogicalRecord> {
    let mut predecessor = [9; 32];
    let mut records = vec![];
    for sequence in start + 1..start + count + 1 {
        let command = Command::Catalogue(CatalogueOperation::Drop { table: sequence });
        let (kind, body) = encode(&command).unwrap();
        let log_record = envelope(sequence, predecessor, kind, &body).unwrap();
        predecessor = digest(&log_record);
        records.push(LogicalRecord {
            log_record,
            outcome: outcome(sequence, predecessor, kind),
        });
    }
    records
}

fn logical(start: u64, count: u64) -> FeedBatch {
    FeedBatch {
        database_id: [1; 16],
        start_exclusive: start,
        end_inclusive: start + count,
        records: FeedRecords::Logical(logged(start, count)),
    }
}

fn resolved(start: u64, count: u64) -> FeedBatch {
    FeedBatch {
        records: FeedRecords::Resolved(logged(start, count).into_iter().map(|r| r.outcome).collect()),
        ..logical(start, count)
    }
}

#[test]
fn tokens_are_read_back() {
    let kinds = [
        (CursorKind::Resolved, 1),
        (CursorKind::Logical, 2),
        (CursorKind::LogReplica, 3),
    ];
    for (kind, byte) in kinds {
        assert_eq!(kind.byte(), byte);
        assert_eq!(CursorKind::decode(byte), Ok(kind));
        let token = CursorToken::new([1; 16], [2; 16], 0x0102, kind);
        let bytes = token.encode();
        assert_eq!(&bytes[..8], b"BLOPCT01");
        let again = CursorToken::decode(&bytes).unwrap();
        assert_eq!(again, token);
        assert_eq!(again.database_id(), [1; 16]);
        assert_eq!(again.cursor_namespace(), [2; 16]);
        assert_eq!(again.cursor_id(), 0x0102);
        assert_eq!(again.kind(), kind);
    }
    for byte in [0, 4] {
        assert_eq!(CursorKind::decode(byte), format("invalid cursor kind"));
    }
}

#[test]
fn damaged_tokens_are_refused() {
    let bytes = CursorToken::new([1; 16], [2; 16], 7, CursorKind::Logical)
        .encode()
        .to_vec();
    for length in 0..bytes.len() {
        assert_eq!(
            CursorToken::decode(&bytes[..length]),
            token("invalid exchange length")
        );
    }
    for index in 0..bytes.len() {
        let mut damaged = bytes.clone();
        damaged[index] ^= 1;
        assert_eq!(CursorToken::decode(&damaged), token("exchange CRC mismatch"));
    }
    for index in [0, 8] {
        let mut other = bytes.clone();
        other[index] ^= 1;
        assert_eq!(
            CursorToken::decode(&sealed(other)),
            token("invalid exchange magic or unsupported version")
        );
    }
    let nobody = CursorToken::new([0; 16], [2; 16], 7, CursorKind::Logical).encode();
    assert_eq!(
        CursorToken::decode(&nobody),
        token("invalid cursor token fields")
    );
    let unnumbered = CursorToken::new([1; 16], [2; 16], 0, CursorKind::Logical).encode();
    assert_eq!(
        CursorToken::decode(&unnumbered),
        token("invalid cursor token fields")
    );
}

#[test]
fn watermarks_are_read_back_from_bytes_and_text() {
    let watermark = Watermark::new([0xab; 16], 0x1234).unwrap();
    assert_eq!(watermark.sequence(), 0x1234);
    assert_eq!(watermark.database_id(), [0xab; 16]);
    let bytes = watermark.encode();
    assert_eq!(&bytes[..8], b"BLOPWM01");
    assert_eq!(Watermark::decode(&bytes).as_ref(), Ok(&watermark));
    let text = watermark.to_hex();
    assert_eq!(text.len(), 80);
    assert!(text.starts_with("424c4f50574d3031"));
    assert_eq!(Watermark::from_hex(&text).as_ref(), Ok(&watermark));
    assert_eq!(
        Watermark::from_hex(&text[1..]),
        format("watermark text must be 80 lowercase hex bytes")
    );
    assert_eq!(
        Watermark::from_hex(&text.to_uppercase()),
        format("noncanonical watermark hex")
    );
    assert_eq!(
        Watermark::new([0; 16], 1),
        format("invalid watermark identity or sequence")
    );
    assert_eq!(
        Watermark::new([1; 16], u64::MAX),
        format("invalid watermark identity or sequence")
    );
    let mut damaged = bytes.to_vec();
    damaged[20] ^= 1;
    assert_eq!(Watermark::decode(&damaged), format("exchange CRC mismatch"));
}

#[test]
fn batches_are_read_back() {
    for batch in [resolved(4, 3), logical(4, 3), resolved(4, 0), logical(4, 0)] {
        let bytes = batch.encode().unwrap();
        assert_eq!(&bytes[..8], b"BLOPFE01");
        assert_eq!(FeedBatch::decode(&bytes).as_ref(), Ok(&batch));
        let watermark = batch.watermark().unwrap();
        assert_eq!(watermark.sequence(), batch.end_inclusive);
        assert_eq!(watermark.database_id(), [1; 16]);
    }
    assert_eq!(resolved(4, 0).encode().unwrap().len(), 60);
    assert_eq!(resolved(4, 3).encode().unwrap().len(), 60 + 3 * 80);
}

#[test]
fn batches_are_checked_before_they_are_sent() {
    let interval = "invalid feed identity, endpoints or count";
    let short = FeedBatch {
        end_inclusive: 8,
        ..logical(4, 3)
    };
    assert_eq!(short.encode(), format(interval));
    let nobody = FeedBatch {
        database_id: [0; 16],
        ..logical(4, 3)
    };
    assert_eq!(nobody.encode(), format(interval));
    let last = FeedBatch {
        start_exclusive: u64::MAX,
        end_inclusive: u64::MAX,
        ..logical(4, 0)
    };
    assert_eq!(last.encode(), format(interval));

    let mut records = logged(4, 3);
    records.swap(0, 1);
    let swapped = FeedBatch {
        records: FeedRecords::Logical(records),
        ..logical(4, 3)
    };
    assert_eq!(swapped.encode(), format("nonconsecutive feed outcome"));

    let mut records = logged(4, 3);
    records[1].outcome.record_digest = [0; 32];
    let other = FeedBatch {
        records: FeedRecords::Logical(records),
        ..logical(4, 3)
    };
    assert_eq!(
        other.encode(),
        format("logical record outcome digest mismatch")
    );

    let mut records = logged(4, 3);
    records[2].log_record.truncate(71);
    let truncated = FeedBatch {
        records: FeedRecords::Logical(records),
        ..logical(4, 3)
    };
    assert_eq!(truncated.encode(), format("invalid logical record length"));

    let mut records = logged(4, 3);
    records[2].log_record[64] ^= 1;
    let damaged = FeedBatch {
        records: FeedRecords::Logical(records),
        ..logical(4, 3)
    };
    assert_eq!(damaged.encode(), format("logical record CRC mismatch"));

    // Records of different chains do not follow each other.
    let mut records = logged(4, 2);
    let (kind, body) = encode(&Command::Catalogue(CatalogueOperation::Drop { table: 6 })).unwrap();
    let unchained = envelope(6, [8; 32], kind, &body).unwrap();
    records[1] = LogicalRecord {
        outcome: outcome(6, digest(&unchained), kind),
        log_record: unchained,
    };
    let broken = FeedBatch {
        records: FeedRecords::Logical(records),
        ..logical(4, 2)
    };
    assert_eq!(
        broken.encode(),
        format("invalid logical envelope or hash chain")
    );
}

#[test]
fn damaged_batches_are_refused() {
    let bytes = logical(4, 2).encode().unwrap();
    for length in 0..60 {
        assert_eq!(
            FeedBatch::decode(&bytes[..length]),
            format("invalid exchange length")
        );
    }
    for index in [0, 30, bytes.len() - 1] {
        let mut damaged = bytes.clone();
        damaged[index] ^= 1;
        assert_eq!(FeedBatch::decode(&damaged), format("exchange CRC mismatch"));
    }
    let changed = |index: usize, byte: u8| {
        let mut other = bytes.clone();
        other[index] = byte;
        FeedBatch::decode(&sealed(other))
    };
    assert_eq!(
        changed(0, 0),
        format("invalid exchange magic or unsupported version")
    );
    assert_eq!(changed(10, 3), format("invalid feed header"));
    assert_eq!(changed(11, 1), format("invalid feed header"));
    assert_eq!(changed(52, 1), format("invalid feed header"));
    assert_eq!(
        changed(48, 3),
        format("invalid feed identity, endpoints or count")
    );
    // The count and the last sequence agree, but the records are not there.
    let mut many = bytes.clone();
    many[40] = 4 + 9;
    many[48] = 9;
    assert_eq!(
        FeedBatch::decode(&sealed(many)),
        format("feed count exceeds available records")
    );
    let mut longer = bytes.clone();
    longer.push(0);
    let length = longer.len() as u32;
    longer[12..16].copy_from_slice(&length.to_le_bytes());
    assert_eq!(
        FeedBatch::decode(&sealed(longer)),
        format("trailing feed bytes")
    );
}

#[test]
fn outcomes_are_encoded_for_exchange() {
    let record = outcome(5, [3; 32], 2);
    let stored = encode_outcome(&record).unwrap();
    assert_eq!(stored.len(), 76);
    assert_eq!(vm::decode_outcome(&stored), Ok(record));
    let other = outcome(0, [3; 32], 2);
    assert_eq!(encode_outcome(&other), format("invalid outcome fields"));
    assert_eq!(
        codec_error(vm::Error::Invalid("x")),
        Error::InvalidFormat("x")
    );
}
