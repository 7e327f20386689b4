//! Feed batches: complete, consecutive source records.

use super::super::Error;
use super::{check_frame, Watermark, EMPTY_BATCH_BYTES, MAX_BATCH_BYTES};
use crate::bytes;
use crate::bytes::{
    is_zero, push_bytes, push_u16, push_u32, push_u64, push_zeros, read_u16, read_u32, read_u64,
    same_bytes, sixteen_at, to_vec, write_at, zero_between,
};
use crate::external;
use crate::external::{crc32c, sha256};
use crate::vm;
use crate::vm::outcome;
use crate::vm::outcome::OutcomeModel;
use crate::vm::{decode_outcome, OutcomeRecord};
use vstd::prelude::*;

verus! {

pub const BAD_INTERVAL: &'static str = "invalid feed identity, endpoints or count";

pub const BAD_HEADER: &'static str = "invalid feed header";

pub const BAD_COUNT: &'static str = "feed count exceeds available records";

pub const NOT_CONSECUTIVE: &'static str = "nonconsecutive feed outcome";

pub const TRAILING: &'static str = "trailing feed bytes";

pub const SHORT_LENGTH: &'static str = "truncated blob length";

pub const SHORT_BLOB: &'static str = "truncated blob";

pub const BATCH_TOO_LONG: &'static str = "feed batch exceeds 256 MiB";

pub const LOG_LENGTH: &'static str = "invalid logical record length";

pub const LOG_CRC: &'static str = "logical record CRC mismatch";

pub const LOG_ENVELOPE: &'static str = "invalid logical envelope or hash chain";

pub const LOG_DIGEST: &'static str = "logical record outcome digest mismatch";

/// A logged record with its outcome.
#[derive(Debug, PartialEq, Eq)]
pub struct LogicalRecord {
    pub log_record: Vec<u8>,
    pub outcome: OutcomeRecord,
}

#[derive(Debug, PartialEq, Eq)]
pub enum FeedRecords {
    Resolved(Vec<OutcomeRecord>),
    Logical(Vec<LogicalRecord>),
}

/// Complete, consecutive source records. Construction is checked by `encode`;
/// `decode` validates framing, checksums, counts, sequences and hash chains.
#[derive(Debug, PartialEq, Eq)]
pub struct FeedBatch {
    pub database_id: [u8; 16],
    pub start_exclusive: u64,
    pub end_inclusive: u64,
    pub records: FeedRecords,
}

/// A record of a batch: the logged bytes, which are empty in a resolved feed,
/// and the outcome.
#[verifier::ext_equal]
pub struct FeedRecord {
    pub log: Seq<u8>,
    pub outcome: OutcomeModel,
}

/// The model of a [`FeedBatch`].
#[verifier::ext_equal]
pub struct BatchModel {
    pub database_id: Seq<u8>,
    pub start: u64,
    pub end: u64,
    pub logical: bool,
    pub records: Seq<FeedRecord>,
}

impl LogicalRecord {
    pub open spec fn view(self) -> FeedRecord {
        FeedRecord { log: self.log_record@, outcome: self.outcome@ }
    }

    /// A copy of this record.
    pub fn duplicate(&self) -> (copy: LogicalRecord)
        ensures
            copy@ == self@,
    {
        LogicalRecord {
            log_record: to_vec(self.log_record.as_slice()),
            outcome: self.outcome.duplicate(),
        }
    }
}

/// The records of a resolved feed.
pub open spec fn resolved_records(list: Seq<OutcomeRecord>) -> Seq<FeedRecord> {
    list.map_values(|o: OutcomeRecord| FeedRecord { log: Seq::empty(), outcome: o@ })
}

/// The records of a logical feed.
pub open spec fn logical_records(list: Seq<LogicalRecord>) -> Seq<FeedRecord> {
    list.map_values(|r: LogicalRecord| r@)
}

impl FeedRecords {
    pub open spec fn view(self) -> Seq<FeedRecord> {
        match self {
            FeedRecords::Resolved(list) => resolved_records(list@),
            FeedRecords::Logical(list) => logical_records(list@),
        }
    }
}

impl FeedBatch {
    pub open spec fn view(self) -> BatchModel {
        BatchModel {
            database_id: self.database_id@,
            start: self.start_exclusive,
            end: self.end_inclusive,
            logical: self.records is Logical,
            records: self.records@,
        }
    }
}

pub open spec fn batch_magic() -> Seq<u8> {
    seq![0x42u8, 0x4cu8, 0x4fu8, 0x50u8, 0x46u8, 0x45u8, 0x30u8, 0x31u8]
}

/// The length of the longest logged record.
pub const MAX_LOG_RECORD: usize = 67108864;

/// Whether a batch of `count` records can span these sequences.
pub open spec fn interval(id: Seq<u8>, start: u64, end: u64, count: nat) -> bool {
    &&& id != bytes::zeros(16)
    &&& end != u64::MAX
    &&& start + count == end
    &&& count <= (MAX_BATCH_BYTES - EMPTY_BATCH_BYTES) / 80
}

/// Check what a batch spans.
fn validate_interval(id: &[u8; 16], start: u64, end: u64, count: usize) -> (valid: Result<(), Error>)
    ensures
        match valid {
            Ok(()) => interval(id@, start, end, count as nat),
            Err(e) => !interval(id@, start, end, count as nat) && e == Error::InvalidFormat(
                BAD_INTERVAL,
            ),
        },
{
    if is_zero(id) || end == u64::MAX || end < start || end - start != count as u64 || count > (
    MAX_BATCH_BYTES - EMPTY_BATCH_BYTES) / 80 {
        return Err(Error::InvalidFormat(BAD_INTERVAL));
    }
    Ok(())
}

// ---- Logged records ------------------------------------------------------

/// Whether the fields of a logged record agree with its length, its outcome and
/// the digest of the record before it.
pub open spec fn log_fields(s: Seq<u8>, o: OutcomeModel, predecessor: Option<Seq<u8>>) -> bool {
    &&& bytes::part(s, 0, 4) == seq![0x42u8, 0x4cu8, 0x52u8, 0x31u8]
    &&& bytes::un16(bytes::part(s, 4, 2)) == 64
    &&& bytes::un16(bytes::part(s, 6, 2)) == 1
    &&& bytes::un32(bytes::part(s, 8, 4)) == s.len()
    &&& bytes::un32(bytes::part(s, s.len() - 4, 4)) == s.len()
    &&& bytes::un32(bytes::part(s, 12, 4)) == s.len() - 72
    &&& bytes::un64(bytes::part(s, 16, 8)) == o.sequence
    &&& s[24] == o.kind
    &&& 1 <= s[24] <= 3
    &&& bytes::part(s, 25, 3) == bytes::zeros(3)
    &&& bytes::part(s, 60, 4) == bytes::zeros(4)
    &&& (predecessor matches Some(digest) ==> bytes::part(s, 28, 32) == digest)
}

/// The first rule of a logged record that `s` breaks.
pub open spec fn log_fault(s: Seq<u8>, o: OutcomeModel, predecessor: Option<Seq<u8>>) -> Option<
    &'static str,
> {
    if !(72 <= s.len() <= MAX_LOG_RECORD) {
        Some(LOG_LENGTH)
    } else if external::crc32c_of(s.subrange(0, s.len() - 8)) != bytes::un32(
        bytes::part(s, s.len() - 8, 4),
    ) {
        Some(LOG_CRC)
    } else if !log_fields(s, o, predecessor) {
        Some(LOG_ENVELOPE)
    } else if external::sha256_of(s) != o.digest {
        Some(LOG_DIGEST)
    } else {
        None
    }
}

/// The model of an optional digest.
pub open spec fn digest_model(digest: Option<[u8; 32]>) -> Option<Seq<u8>> {
    match digest {
        Some(digest) => Some(digest@),
        None => None,
    }
}

/// Check a logged record against its outcome and its predecessor; gives its
/// digest.
fn validate_log(s: &[u8], o: &OutcomeRecord, predecessor: Option<[u8; 32]>) -> (digest: Result<
    [u8; 32],
    Error,
>)
    ensures
        match digest {
            Ok(digest) => log_fault(s@, o@, digest_model(predecessor)) is None && digest@
                == external::sha256_of(s@),
            Err(e) => log_fault(s@, o@, digest_model(predecessor)) matches Some(reason) && e
                == Error::InvalidFormat(reason),
        },
{
    if s.len() < 72 || s.len() > MAX_LOG_RECORD {
        return Err(Error::InvalidFormat(LOG_LENGTH));
    }
    let length: usize = s.len();
    if crc32c(&s[0..length - 8]) != read_u32(s, length - 8) {
        return Err(Error::InvalidFormat(LOG_CRC));
    }
    let magic: [u8; 4] = [0x42, 0x4c, 0x52, 0x31];
    assert(magic@ =~= seq![0x42u8, 0x4cu8, 0x52u8, 0x31u8]);
    let chained = match &predecessor {
        Some(digest) => same_bytes(&s[28..60], digest.as_slice()),
        None => true,
    };
    if !same_bytes(&s[0..4], magic.as_slice()) || read_u16(s, 4) != 64 || read_u16(s, 6) != 1
        || read_u32(s, 8) as usize != length || read_u32(s, length - 4) as usize != length
        || read_u32(s, 12) as usize != length - 72 || read_u64(s, 16) != o.sequence || s[24]
        != o.record_kind || s[24] < 1 || s[24] > 3 || !zero_between(s, 25, 28) || !zero_between(
        s,
        60,
        64,
    ) || !chained {
        return Err(Error::InvalidFormat(LOG_ENVELOPE));
    }
    let digest: [u8; 32] = sha256(s);
    if !same_bytes(digest.as_slice(), o.record_digest.as_slice()) {
        return Err(Error::InvalidFormat(LOG_DIGEST));
    }
    Ok(digest)
}

// ---- Encoding ------------------------------------------------------------

/// The bytes in front of the records of a batch of `length` bytes.
pub open spec fn batch_header(b: BatchModel, length: u32) -> Seq<u8> {
    batch_magic() + bytes::le16(1) + seq![
        if b.logical {
            2u8
        } else {
            1u8
        },
        0u8,
    ] + bytes::le32(length) + b.database_id + bytes::le64(b.start) + bytes::le64(b.end)
        + bytes::le32(b.records.len() as u32) + bytes::zeros(4)
}

/// `out` with a blob behind it, where the batch then still has room for its
/// checksum.
pub open spec fn with_blob(out: Seq<u8>, value: Seq<u8>) -> Result<Seq<u8>, Error> {
    if 56 + out.len() + value.len() + 8 > MAX_BATCH_BYTES {
        Err(Error::InvalidFormat(BATCH_TOO_LONG))
    } else {
        Ok(out + bytes::blob(value))
    }
}

/// `out` with an outcome behind it, which must be the `i`-th of the batch.
pub open spec fn with_outcome(out: Seq<u8>, b: BatchModel, i: int) -> Result<Seq<u8>, Error> {
    let o = b.records[i].outcome;
    if o.sequence != b.start + i + 1 {
        Err(Error::InvalidFormat(NOT_CONSECUTIVE))
    } else if !outcome::storable(o) {
        Err(Error::InvalidFormat(outcome::BAD_OUTCOME))
    } else {
        with_blob(out, outcome::outcome_bytes(o))
    }
}

/// `out` with a record behind it.
#[verifier::opaque]
pub open spec fn with_record(
    out: Seq<u8>,
    b: BatchModel,
    i: int,
    predecessor: Option<Seq<u8>>,
) -> Result<Seq<u8>, Error> {
    if b.logical {
        match log_fault(b.records[i].log, b.records[i].outcome, predecessor) {
            Some(reason) => Err(Error::InvalidFormat(reason)),
            None => match with_blob(out, b.records[i].log) {
                Err(e) => Err(e),
                Ok(next) => with_outcome(next, b, i),
            },
        }
    } else {
        with_outcome(out, b, i)
    }
}

/// The digest that the record after the `i`-th must name.
pub open spec fn successor(b: BatchModel, i: int) -> Option<Seq<u8>> {
    if b.logical {
        Some(external::sha256_of(b.records[i].log))
    } else {
        None
    }
}

/// `out` with the records from the `i`-th on behind it.
pub open spec fn with_records(
    out: Seq<u8>,
    b: BatchModel,
    i: int,
    predecessor: Option<Seq<u8>>,
) -> Result<Seq<u8>, Error>
    decreases b.records.len() - i,
{
    if !(0 <= i < b.records.len()) {
        Ok(out)
    } else {
        match with_record(out, b, i, predecessor) {
            Err(e) => Err(e),
            Ok(next) => with_records(next, b, i + 1, successor(b, i)),
        }
    }
}

/// The bytes of a batch, or the first rule that it breaks.
pub open spec fn batch_bytes(b: BatchModel) -> Result<Seq<u8>, Error> {
    if !interval(b.database_id, b.start, b.end, b.records.len()) {
        Err(Error::InvalidFormat(BAD_INTERVAL))
    } else {
        match with_records(Seq::empty(), b, 0, None) {
            Err(e) => Err(e),
            Ok(records) => Ok(
                super::sealed(batch_header(b, (records.len() + EMPTY_BATCH_BYTES) as u32) + records),
            ),
        }
    }
}

/// Append a blob to a batch.
fn append_blob(out: &mut Vec<u8>, value: &[u8]) -> (done: Result<(), Error>)
    requires
        56 <= old(out)@.len() <= MAX_BATCH_BYTES,
    ensures
        ({
            let n = old(out)@.len() as int;
            let head = old(out)@.subrange(0, 56);
            let records = old(out)@.subrange(56, n);
            match done {
                Ok(()) => with_blob(records, value@) == Ok::<Seq<u8>, Error>(
                    final(out)@.subrange(56, final(out)@.len() as int),
                ) && final(out)@.subrange(0, 56) == head && 56 <= final(out)@.len()
                    <= MAX_BATCH_BYTES - 4,
                Err(e) => with_blob(records, value@) == Err::<Seq<u8>, Error>(e),
            }
        }),
{
    broadcast use bytes::group_le;

    if value.len() > MAX_BATCH_BYTES - 8 || out.len() > MAX_BATCH_BYTES - 8 - value.len() {
        return Err(Error::InvalidFormat(BATCH_TOO_LONG));
    }
    push_u32(out, value.len() as u32);
    push_bytes(out, value);
    assert(out@.subrange(0, 56) =~= old(out)@.subrange(0, 56));
    assert(out@.subrange(56, out@.len() as int) =~= old(out)@.subrange(56, old(out)@.len() as int)
        + bytes::blob(value@));
    Ok(())
}

/// The stored form of an outcome.
pub fn encode_outcome(record: &OutcomeRecord) -> (stored: Result<Vec<u8>, Error>)
    ensures
        match stored {
            Ok(stored) => outcome::storable(record@) && stored@ == outcome::outcome_bytes(record@),
            Err(e) => !outcome::storable(record@) && e == Error::InvalidFormat(
                outcome::BAD_OUTCOME,
            ),
        },
{
    match vm::encode_outcome(
        record.sequence,
        record.record_digest,
        record.record_kind,
        &record.outcome,
    ) {
        Ok(stored) => Ok(stored),
        Err(_) => Err(Error::InvalidFormat(outcome::BAD_OUTCOME)),
    }
}

/// What a failure of the codec means for an exchange.
pub open spec fn codec_fault(error: vm::Error) -> Error {
    match error {
        vm::Error::Invalid(reason) => Error::InvalidFormat(reason),
        other => Error::Read(other),
    }
}

/// What a failure of the codec means for an exchange.
pub fn codec_error(error: vm::Error) -> (fault: Error)
    ensures
        fault == codec_fault(error),
{
    match error {
        vm::Error::Invalid(reason) => Error::InvalidFormat(reason),
        other => Error::Read(other),
    }
}

impl FeedBatch {
    /// The watermark at the end of this batch.
    pub fn watermark(&self) -> (watermark: Result<Watermark, Error>)
        ensures
            ({
                let w = super::WatermarkModel {
                    database_id: self@.database_id,
                    sequence: self@.end,
                };
                match watermark {
                    Ok(watermark) => super::watermark_allowed(w) && watermark@ == w,
                    Err(e) => !super::watermark_allowed(w) && e == Error::InvalidFormat(
                        super::BAD_WATERMARK,
                    ),
                }
            }),
    {
        Watermark::new(self.database_id, self.end_inclusive)
    }

    /// Append the `i`-th record.
    fn append_record(
        &self,
        out: &mut Vec<u8>,
        i: usize,
        predecessor: Option<[u8; 32]>,
    ) -> (next: Result<Option<[u8; 32]>, Error>)
        requires
            i < self@.records.len(),
            interval(self@.database_id, self@.start, self@.end, self@.records.len()),
            56 <= old(out)@.len() <= MAX_BATCH_BYTES - 4,
        ensures
            ({
                let records = old(out)@.subrange(56, old(out)@.len() as int);
                let spec = with_record(records, self@, i as int, digest_model(predecessor));
                match next {
                    Ok(digest) => spec == Ok::<Seq<u8>, Error>(
                        final(out)@.subrange(56, final(out)@.len() as int),
                    ) && digest_model(digest) == successor(self@, i as int) && final(out)@.subrange(0, 56) == old(out)@.subrange(0, 56) && 56 <= final(out)@.len()
                        <= MAX_BATCH_BYTES - 4,
                    Err(e) => spec == Err::<Seq<u8>, Error>(e),
                }
            }),
    {
        proof {
            reveal(with_record);
        }
        let mut next: Option<[u8; 32]> = None;
        let outcome = match &self.records {
            FeedRecords::Resolved(list) => {
                assert(self@.records[i as int].outcome == list@[i as int]@);
                &list[i]
            },
            FeedRecords::Logical(list) => {
                let record = &list[i];
                assert(self@.records[i as int] == record@);
                let digest = validate_log(
                    record.log_record.as_slice(),
                    &record.outcome,
                    predecessor,
                )?;
                next = Some(digest);
                append_blob(out, record.log_record.as_slice())?;
                &record.outcome
            },
        };
        if outcome.sequence != self.start_exclusive + i as u64 + 1 {
            return Err(Error::InvalidFormat(NOT_CONSECUTIVE));
        }
        let stored = encode_outcome(outcome)?;
        append_blob(out, stored.as_slice())?;
        Ok(next)
    }

    /// The bytes of this batch.
    pub fn encode(&self) -> (bytes: Result<Vec<u8>, Error>)
        ensures
            match bytes {
                Ok(bytes) => batch_bytes(self@) == Ok::<Seq<u8>, Error>(bytes@),
                Err(e) => batch_bytes(self@) == Err::<Seq<u8>, Error>(e),
            },
    {
        broadcast use bytes::group_le;

        let (kind, count): (u8, usize) = match &self.records {
            FeedRecords::Resolved(list) => (1, list.len()),
            FeedRecords::Logical(list) => (2, list.len()),
        };
        assert(self@.records.len() == count);
        validate_interval(&self.database_id, self.start_exclusive, self.end_inclusive, count)?;
        let mut out: Vec<u8> = Vec::new();
        let magic: [u8; 8] = [0x42, 0x4c, 0x4f, 0x50, 0x46, 0x45, 0x30, 0x31];
        push_bytes(&mut out, magic.as_slice());
        push_u16(&mut out, 1);
        out.push(kind);
        out.push(0);
        push_u32(&mut out, 0);
        push_bytes(&mut out, self.database_id.as_slice());
        push_u64(&mut out, self.start_exclusive);
        push_u64(&mut out, self.end_inclusive);
        push_u32(&mut out, count as u32);
        push_zeros(&mut out, 4);
        let ghost open = batch_header(self@, 0);
        assert(out@ =~= open);
        assert(out@.subrange(0, 56) =~= open);
        assert(out@.subrange(56, 56) =~= Seq::empty());
        let mut predecessor: Option<[u8; 32]> = None;
        let mut i: usize = 0;
        while i < count
            invariant
                i <= count,
                count == self@.records.len(),
                interval(self@.database_id, self@.start, self@.end, self@.records.len()),
                56 <= out@.len() <= MAX_BATCH_BYTES - 4,
                out@.subrange(0, 56) == open,
                with_records(Seq::empty(), self@, 0, None) == with_records(
                    out@.subrange(56, out@.len() as int),
                    self@,
                    i as int,
                    digest_model(predecessor),
                ),
            decreases count - i,
        {
            predecessor = self.append_record(&mut out, i, predecessor)?;
            i += 1;
        }
        let ghost records = out@.subrange(56, out@.len() as int);
        assert(out@ =~= open + records);
        let length: u32 = (out.len() + 4) as u32;
        let mut field: Vec<u8> = Vec::new();
        push_u32(&mut field, length);
        assert(field@ =~= bytes::le32(length));
        write_at(&mut out, 12, field.as_slice());
        assert(out@ =~= batch_header(self@, length) + records);
        let crc: u32 = crc32c(out.as_slice());
        push_u32(&mut out, crc);
        Ok(out)
    }
}

// ---- Decoding ------------------------------------------------------------

/// The blob of `s` at `at`, which must end by `end`, and where it ends.
pub open spec fn blob_at(s: Seq<u8>, at: int, end: int) -> Result<(Seq<u8>, int), Error> {
    if at + 4 > end {
        Err(Error::InvalidFormat(SHORT_LENGTH))
    } else {
        let n = bytes::un32(bytes::part(s, at, 4));
        if at + 4 + n > end {
            Err(Error::InvalidFormat(SHORT_BLOB))
        } else {
            Ok((bytes::part(s, at + 4, n as int), at + 4 + n))
        }
    }
}

/// The `i`-th record of a batch at `at`, and where it ends.
#[verifier::opaque]
pub open spec fn record_at(
    s: Seq<u8>,
    at: int,
    end: int,
    logical: bool,
    sequence: int,
    predecessor: Option<Seq<u8>>,
) -> Result<(FeedRecord, int), Error> {
    let logged = if logical {
        blob_at(s, at, end)
    } else {
        Ok((Seq::empty(), at))
    };
    match logged {
        Err(e) => Err(e),
        Ok((log, middle)) => match blob_at(s, middle, end) {
            Err(e) => Err(e),
            Ok((stored, next)) => match outcome::outcome_of(stored) {
                Err(e) => Err(codec_fault(e)),
                Ok(o) => if o.sequence != sequence {
                    Err(Error::InvalidFormat(NOT_CONSECUTIVE))
                } else if logical && log_fault(log, o, predecessor) is Some {
                    Err(Error::InvalidFormat(log_fault(log, o, predecessor).unwrap()))
                } else {
                    Ok((FeedRecord { log, outcome: o }, next))
                },
            },
        },
    }
}

/// The last `count` records of a batch, which stand from `at` to `end`; the
/// first of them has the sequence `sequence`.
pub open spec fn records_at(
    s: Seq<u8>,
    at: int,
    end: int,
    logical: bool,
    sequence: int,
    count: nat,
    predecessor: Option<Seq<u8>>,
) -> Result<Seq<FeedRecord>, Error>
    decreases count,
{
    if count == 0 {
        if at != end {
            Err(Error::InvalidFormat(TRAILING))
        } else {
            Ok(Seq::empty())
        }
    } else {
        match record_at(s, at, end, logical, sequence, predecessor) {
            Err(e) => Err(e),
            Ok((record, next)) => {
                let digest = if logical {
                    Some(external::sha256_of(record.log))
                } else {
                    None
                };
                match records_at(
                    s,
                    next,
                    end,
                    logical,
                    sequence + 1,
                    (count - 1) as nat,
                    digest,
                ) {
                    Err(e) => Err(e),
                    Ok(rest) => Ok(seq![record] + rest),
                }
            },
        }
    }
}

/// What some bytes say of a batch, or the first rule that they break.
pub open spec fn batch_of(s: Seq<u8>) -> Result<BatchModel, Error> {
    match super::frame_fault(s, EMPTY_BATCH_BYTES as int, MAX_BATCH_BYTES as int, batch_magic()) {
        Some(reason) => Err(Error::InvalidFormat(reason)),
        None => {
            let id = bytes::part(s, 16, 16);
            let start = bytes::un64(bytes::part(s, 32, 8));
            let end = bytes::un64(bytes::part(s, 40, 8));
            let count = bytes::un32(bytes::part(s, 48, 4)) as nat;
            let minimum = if s[10] == 1 {
                80
            } else {
                156
            };
            if !(1 <= s[10] <= 2) || s[11] != 0 || bytes::part(s, 52, 4) != bytes::zeros(4)
                || bytes::un32(bytes::part(s, 12, 4)) != s.len() {
                Err(Error::InvalidFormat(BAD_HEADER))
            } else if !interval(id, start, end, count) {
                Err(Error::InvalidFormat(BAD_INTERVAL))
            } else if count > (s.len() - 60) / minimum {
                Err(Error::InvalidFormat(BAD_COUNT))
            } else {
                match records_at(s, 56, s.len() - 4, s[10] == 2, start + 1, count, None) {
                    Err(e) => Err(e),
                    Ok(records) => Ok(
                        BatchModel { database_id: id, start, end, logical: s[10] == 2, records },
                    ),
                }
            }
        },
    }
}

/// Where the blob at `at` starts and ends.
fn read_blob(s: &[u8], at: usize, end: usize) -> (range: Result<(usize, usize), Error>)
    requires
        at <= end <= s@.len(),
    ensures
        match range {
            Ok((start, next)) => at + 4 == start && start <= next <= end && blob_at(
                s@,
                at as int,
                end as int,
            ) == Ok::<(Seq<u8>, int), Error>(
                (s@.subrange(start as int, next as int), next as int),
            ),
            Err(e) => blob_at(s@, at as int, end as int) == Err::<(Seq<u8>, int), Error>(e),
        },
{
    if end - at < 4 {
        return Err(Error::InvalidFormat(SHORT_LENGTH));
    }
    let length: u64 = read_u32(s, at) as u64;
    if length > (end - at - 4) as u64 {
        return Err(Error::InvalidFormat(SHORT_BLOB));
    }
    Ok((at + 4, at + 4 + length as usize))
}

/// Read the record at `at`.
fn read_record(
    s: &[u8],
    at: usize,
    end: usize,
    logical: bool,
    sequence: u64,
    predecessor: Option<[u8; 32]>,
) -> (record: Result<(LogicalRecord, usize, Option<[u8; 32]>), Error>)
    requires
        at <= end <= s@.len(),
    ensures
        ({
            let spec = record_at(
                s@,
                at as int,
                end as int,
                logical,
                sequence as int,
                digest_model(predecessor),
            );
            match record {
                Ok((record, next, digest)) => spec == Ok::<(FeedRecord, int), Error>(
                    (record@, next as int),
                ) && at <= next <= end && (!logical ==> record@.log == Seq::<u8>::empty())
                    && digest_model(digest) == if logical {
                    Some(external::sha256_of(record@.log))
                } else {
                    None
                },
                Err(e) => spec == Err::<(FeedRecord, int), Error>(e),
            }
        }),
{
    proof {
        reveal(record_at);
    }
    let (start, middle): (usize, usize) = if logical {
        read_blob(s, at, end)?
    } else {
        assert(s@.subrange(at as int, at as int) =~= Seq::empty());
        (at, at)
    };
    let (first, next) = read_blob(s, middle, end)?;
    let outcome = match decode_outcome(&s[first..next]) {
        Ok(outcome) => outcome,
        Err(e) => {
            return Err(codec_error(e));
        },
    };
    if outcome.sequence != sequence {
        return Err(Error::InvalidFormat(NOT_CONSECUTIVE));
    }
    let log = &s[start..middle];
    let digest: Option<[u8; 32]> = if logical {
        Some(validate_log(log, &outcome, predecessor)?)
    } else {
        None
    };
    Ok((LogicalRecord { log_record: to_vec(log), outcome }, next, digest))
}

impl FeedBatch {
    /// Read a batch.
    pub fn decode(bytes: &[u8]) -> (batch: Result<FeedBatch, Error>)
        ensures
            match batch {
                Ok(batch) => batch_of(bytes@) == Ok::<BatchModel, Error>(batch@),
                Err(e) => batch_of(bytes@) == Err::<BatchModel, Error>(e),
            },
    {
        let magic: [u8; 8] = [0x42, 0x4c, 0x4f, 0x50, 0x46, 0x45, 0x30, 0x31];
        assert(magic@ =~= batch_magic());
        if let Err(reason) = check_frame(bytes, EMPTY_BATCH_BYTES, MAX_BATCH_BYTES, &magic) {
            return Err(Error::InvalidFormat(reason));
        }
        let kind: u8 = bytes[10];
        if kind < 1 || kind > 2 || bytes[11] != 0 || !zero_between(bytes, 52, 56) || read_u32(
            bytes,
            12,
        ) as usize != bytes.len() {
            return Err(Error::InvalidFormat(BAD_HEADER));
        }
        let database_id: [u8; 16] = sixteen_at(bytes, 16);
        let start_exclusive: u64 = read_u64(bytes, 32);
        let end_inclusive: u64 = read_u64(bytes, 40);
        let count: usize = read_u32(bytes, 48) as usize;
        validate_interval(&database_id, start_exclusive, end_inclusive, count)?;
        let minimum: usize = if kind == 1 {
            80
        } else {
            156
        };
        if count > (bytes.len() - 60) / minimum {
            return Err(Error::InvalidFormat(BAD_COUNT));
        }
        let end: usize = bytes.len() - 4;
        let logical = kind == 2;
        let mut resolved: Vec<OutcomeRecord> = Vec::new();
        let mut logged: Vec<LogicalRecord> = Vec::new();
        let mut predecessor: Option<[u8; 32]> = None;
        let mut at: usize = 56;
        let mut i: usize = 0;
        let ghost whole = records_at(
            bytes@,
            56,
            end as int,
            logical,
            start_exclusive + 1,
            count as nat,
            None,
        );
        let ghost mut done: Seq<FeedRecord> = Seq::empty();
        assert(resolved_records(resolved@) =~= done);
        assert(logical_records(logged@) =~= done);
        proof {
            if let Ok(rest) = whole {
                assert(done + rest =~= rest);
            }
        }
        while i < count
            invariant
                i <= count,
                start_exclusive + count == end_inclusive,
                end_inclusive < u64::MAX,
                whole matches Err(e) ==> batch_of(bytes@) == Err::<BatchModel, Error>(e),
                56 <= at <= end <= bytes@.len(),
                done.len() == i,
                logical ==> logical_records(logged@) == done,
                !logical ==> resolved_records(resolved@) == done,
                match records_at(
                    bytes@,
                    at as int,
                    end as int,
                    logical,
                    start_exclusive + i + 1,
                    (count - i) as nat,
                    digest_model(predecessor),
                ) {
                    Ok(rest) => whole == Ok::<Seq<FeedRecord>, Error>(done + rest),
                    Err(e) => whole == Err::<Seq<FeedRecord>, Error>(e),
                },
            decreases count - i,
        {
            let (record, next, digest) = read_record(
                bytes,
                at,
                end,
                logical,
                start_exclusive + i as u64 + 1,
                predecessor,
            )?;
            let ghost model = record@;
            let ghost before = done;
            proof {
                done = done.push(model);
                if let Ok(rest) = records_at(
                    bytes@,
                    next as int,
                    end as int,
                    logical,
                    start_exclusive + i + 2,
                    (count - i - 1) as nat,
                    digest_model(digest),
                ) {
                    assert(before + (seq![model] + rest) =~= done + rest);
                }
            }
            if logical {
                logged.push(record);
                assert(logical_records(logged@) =~= done);
            } else {
                assert(model.log =~= Seq::empty());
                resolved.push(record.outcome);
                assert(resolved_records(resolved@) =~= done);
            }
            at = next;
            predecessor = digest;
            i += 1;
        }
        if at != end {
            return Err(Error::InvalidFormat(TRAILING));
        }
        assert(done + Seq::<FeedRecord>::empty() =~= done);
        let records = if kind == 1 {
            FeedRecords::Resolved(resolved)
        } else {
            FeedRecords::Logical(logged)
        };
        assert(records@ =~= done);
        Ok(FeedBatch { database_id, start_exclusive, end_inclusive, records })
    }
}

// ---- Batches are canonical -----------------------------------------------

/// Whether the parts of a batch are well-formed by themselves: identities have
/// 16 bytes, and only logical feeds carry logged records.
pub open spec fn well_formed(b: BatchModel) -> bool {
    &&& b.database_id.len() == 16
    &&& forall|i: int|
        0 <= i < b.records.len() && !b.logical ==> (#[trigger] b.records[i]).log == Seq::<u8>::empty()
}

/// A blob is read back, whatever stands around it.
proof fn lemma_blob_read(before: Seq<u8>, value: Seq<u8>, after: Seq<u8>, end: int)
    requires
        value.len() <= u32::MAX,
        before.len() + 4 + value.len() <= end,
    ensures
        blob_at(before + bytes::blob(value) + after, before.len() as int, end) == Ok::<
            (Seq<u8>, int),
            Error,
        >((value, (before.len() + 4 + value.len()) as int)),
{
    broadcast use bytes::group_le;

    let s = before + bytes::blob(value) + after;
    let at = before.len() as int;
    assert(bytes::part(s, at, 4) =~= bytes::le32(value.len() as u32));
    assert(bytes::part(s, at + 4, value.len() as int) =~= value);
}

/// Records that were appended are appended to what was there.
proof fn lemma_records_extend(out: Seq<u8>, b: BatchModel, i: int, predecessor: Option<Seq<u8>>)
    requires
        0 <= i,
    ensures
        with_records(out, b, i, predecessor) matches Ok(data) ==> data.len() >= out.len()
            && data.subrange(0, out.len() as int) == out && (i < b.records.len() ==> 56
            + data.len() + 4 <= MAX_BATCH_BYTES),
    decreases b.records.len() - i,
{
    reveal(with_record);
    broadcast use bytes::group_le;

    if i < b.records.len() {
        if let Ok(next) = with_record(out, b, i, predecessor) {
            lemma_records_extend(next, b, i + 1, successor(b, i));
            assert(next.subrange(0, out.len() as int) =~= out);
            if let Ok(data) = with_records(out, b, i, predecessor) {
                assert(data.subrange(0, out.len() as int) =~= data.subrange(
                    0,
                    next.len() as int,
                ).subrange(0, out.len() as int));
            }
        }
    } else {
        assert(out.subrange(0, out.len() as int) =~= out);
    }
}

/// A record of a batch is read back from where it was appended.
proof fn lemma_record_read(
    out: Seq<u8>,
    b: BatchModel,
    i: int,
    predecessor: Option<Seq<u8>>,
    head: Seq<u8>,
    after: Seq<u8>,
    end: int,
)
    requires
        well_formed(b),
        head.len() == 56,
        0 <= i < b.records.len(),
        with_record(out, b, i, predecessor) matches Ok(next) && 56 + next.len() <= end,
    ensures
        ({
            let next = with_record(out, b, i, predecessor)->Ok_0;
            record_at(
                head + next + after,
                (56 + out.len()) as int,
                end,
                b.logical,
                b.start + i + 1,
                predecessor,
            ) == Ok::<(FeedRecord, int), Error>((b.records[i], (56 + next.len()) as int))
        }),
{
    reveal(with_record);
    reveal(record_at);
    broadcast use bytes::group_le;

    let next = with_record(out, b, i, predecessor)->Ok_0;
    let s = head + next + after;
    let record = b.records[i];
    let stored = outcome::outcome_bytes(record.outcome);
    outcome::stored_outcomes_are_read_back(record.outcome);
    if b.logical {
        let logged = out + bytes::blob(record.log);
        assert(next == logged + bytes::blob(stored));
        lemma_blob_read(head + out, record.log, bytes::blob(stored) + after, end);
        assert(head + out + bytes::blob(record.log) + (bytes::blob(stored) + after) =~= s);
        lemma_blob_read(head + logged, stored, after, end);
        assert(head + logged + bytes::blob(stored) + after =~= s);
    } else {
        assert(next == out + bytes::blob(stored));
        lemma_blob_read(head + out, stored, after, end);
        assert(head + out + bytes::blob(stored) + after =~= s);
        assert(record.log == Seq::<u8>::empty());
    }
}

/// The records of a batch are read back from where they were appended.
proof fn lemma_records_read(
    out: Seq<u8>,
    b: BatchModel,
    i: int,
    predecessor: Option<Seq<u8>>,
    head: Seq<u8>,
    tail: Seq<u8>,
)
    requires
        well_formed(b),
        head.len() == 56,
        0 <= i <= b.records.len(),
        with_records(out, b, i, predecessor) is Ok,
    ensures
        ({
            let data = with_records(out, b, i, predecessor)->Ok_0;
            records_at(
                head + data + tail,
                (56 + out.len()) as int,
                (56 + data.len()) as int,
                b.logical,
                b.start + i + 1,
                (b.records.len() - i) as nat,
                predecessor,
            ) == Ok::<Seq<FeedRecord>, Error>(b.records.subrange(i, b.records.len() as int))
        }),
    decreases b.records.len() - i,
{
    let data = with_records(out, b, i, predecessor)->Ok_0;
    let s = head + data + tail;
    let end = (56 + data.len()) as int;
    if i == b.records.len() {
        assert(b.records.subrange(i, i) =~= Seq::empty());
    } else {
        let next = with_record(out, b, i, predecessor)->Ok_0;
        lemma_records_extend(next, b, i + 1, successor(b, i));
        lemma_records_read(next, b, i + 1, successor(b, i), head, tail);
        let rest = data.subrange(next.len() as int, data.len() as int);
        assert(data =~= next + rest);
        lemma_record_read(out, b, i, predecessor, head, rest + tail, end);
        assert(head + next + (rest + tail) =~= s);
        assert(b.records.subrange(i, b.records.len() as int) =~= seq![b.records[i]]
            + b.records.subrange(i + 1, b.records.len() as int));
    }
}

/// Every record of a batch takes at least the room of the shortest outcome.
proof fn lemma_records_length(out: Seq<u8>, b: BatchModel, i: int, predecessor: Option<Seq<u8>>)
    requires
        0 <= i <= b.records.len(),
    ensures
        with_records(out, b, i, predecessor) matches Ok(data) ==> data.len() >= out.len() + (if b.logical {
            156int
        } else {
            80int
        }) * (b.records.len() - i),
    decreases b.records.len() - i,
{
    reveal(with_record);
    broadcast use bytes::group_le;

    if i < b.records.len() {
        if let Ok(next) = with_record(out, b, i, predecessor) {
            lemma_records_length(next, b, i + 1, successor(b, i));
            if outcome::storable(b.records[i].outcome) {
                outcome::stored_outcomes_are_read_back(b.records[i].outcome);
            }
        }
    }
}

/// The bytes of a batch are read back as that batch.
pub proof fn batches_are_read_back(b: BatchModel, s: Seq<u8>)
    requires
        well_formed(b),
        batch_bytes(b) == Ok::<Seq<u8>, Error>(s),
    ensures
        batch_of(s) == Ok::<BatchModel, Error>(b),
{
    broadcast use bytes::group_le;

    let records = with_records(Seq::empty(), b, 0, None)->Ok_0;
    let length = (records.len() + EMPTY_BATCH_BYTES) as u32;
    let head = batch_header(b, length);
    let whole = head + records;
    lemma_records_extend(Seq::empty(), b, 0, None);
    lemma_records_length(Seq::empty(), b, 0, None);
    assert(head.len() == 56);
    assert(records.len() + 60 <= MAX_BATCH_BYTES);
    assert(bytes::part(whole, 0, 8) =~= batch_magic());
    assert(bytes::part(whole, 8, 2) =~= bytes::le16(1));
    super::lemma_sealed(
        whole,
        EMPTY_BATCH_BYTES as int,
        MAX_BATCH_BYTES as int,
        batch_magic(),
    );
    assert(bytes::part(s, 12, 4) =~= bytes::le32(length));
    assert(bytes::part(s, 16, 16) =~= b.database_id);
    assert(bytes::part(s, 32, 8) =~= bytes::le64(b.start));
    assert(bytes::part(s, 40, 8) =~= bytes::le64(b.end));
    assert(bytes::part(s, 48, 4) =~= bytes::le32(b.records.len() as u32));
    assert(bytes::part(s, 52, 4) =~= bytes::zeros(4));
    let crc = bytes::le32(external::crc32c_of(whole));
    lemma_records_read(Seq::empty(), b, 0, None, head, crc);
    assert(head + records + crc =~= s);
    assert(b.records.subrange(0, b.records.len() as int) =~= b.records);
    assert(batch_of(s)->Ok_0 =~= b);
}

/// What is read as a blob is one.
proof fn lemma_blob_bytes(s: Seq<u8>, at: int, end: int)
    requires
        0 <= at,
        end <= s.len(),
    ensures
        blob_at(s, at, end) matches Ok((value, next)) ==> {
            &&& at + 4 <= next <= end
            &&& value.len() == next - at - 4
            &&& s.subrange(at, next) == bytes::blob(value)
        },
{
    broadcast use bytes::group_le;

    if let Ok((value, next)) = blob_at(s, at, end) {
        let n = bytes::un32(bytes::part(s, at, 4));
        assert(bytes::le32(n) == bytes::part(s, at, 4));
        assert(s.subrange(at, next) =~= bytes::part(s, at, 4) + value);
    }
}

/// A record that is read from a batch is appended where it was read.
proof fn lemma_record_bytes(
    s: Seq<u8>,
    at: int,
    end: int,
    b: BatchModel,
    i: int,
    predecessor: Option<Seq<u8>>,
)
    requires
        56 <= at <= end,
        end + 4 <= s.len() <= MAX_BATCH_BYTES,
        0 <= i < b.records.len(),
        record_at(s, at, end, b.logical, b.start + i + 1, predecessor) matches Ok((record, next))
            && b.records[i] == record,
    ensures
        ({
            let (record, next) = record_at(
                s,
                at,
                end,
                b.logical,
                b.start + i + 1,
                predecessor,
            )->Ok_0;
            &&& at <= next <= end
            &&& with_record(s.subrange(56, at), b, i, predecessor) == Ok::<Seq<u8>, Error>(
                s.subrange(56, next),
            )
            &&& !b.logical ==> record.log == Seq::<u8>::empty()
        }),
{
    reveal(with_record);
    reveal(record_at);
    let (record, next) = record_at(s, at, end, b.logical, b.start + i + 1, predecessor)->Ok_0;
    let middle = if b.logical {
        blob_at(s, at, end)->Ok_0.1
    } else {
        at
    };
    if b.logical {
        lemma_blob_bytes(s, at, end);
        assert(s.subrange(56, at) + s.subrange(at, middle) =~= s.subrange(56, middle));
    }
    lemma_blob_bytes(s, middle, end);
    let (stored, _) = blob_at(s, middle, end)->Ok_0;
    outcome::read_outcomes_are_canonical(stored, record.outcome);
    assert(s.subrange(56, middle) + s.subrange(middle, next) =~= s.subrange(56, next));
}

/// Records that are read from a batch are appended where they were read.
proof fn lemma_records_bytes(
    s: Seq<u8>,
    at: int,
    end: int,
    b: BatchModel,
    i: int,
    predecessor: Option<Seq<u8>>,
)
    requires
        56 <= at <= end,
        end + 4 <= s.len() <= MAX_BATCH_BYTES,
        0 <= i <= b.records.len(),
        records_at(
            s,
            at,
            end,
            b.logical,
            b.start + i + 1,
            (b.records.len() - i) as nat,
            predecessor,
        ) == Ok::<Seq<FeedRecord>, Error>(b.records.subrange(i, b.records.len() as int)),
    ensures
        with_records(s.subrange(56, at), b, i, predecessor) == Ok::<Seq<u8>, Error>(
            s.subrange(56, end),
        ),
        forall|k: int|
            i <= k < b.records.len() && !b.logical ==> (#[trigger] b.records[k]).log == Seq::<
                u8,
            >::empty(),
    decreases b.records.len() - i,
{
    if i < b.records.len() {
        let rest = b.records.subrange(i, b.records.len() as int);
        let (record, next) = record_at(s, at, end, b.logical, b.start + i + 1, predecessor)->Ok_0;
        let tail = records_at(
            s,
            next,
            end,
            b.logical,
            b.start + i + 2,
            (b.records.len() - i - 1) as nat,
            successor_of(b.logical, record),
        )->Ok_0;
        assert(rest == seq![record] + tail);
        assert(rest[0] == record);
        assert(b.records[i] == record);
        assert(tail =~= b.records.subrange(i + 1, b.records.len() as int)) by {
            assert(tail =~= rest.subrange(1, rest.len() as int));
        }
        lemma_record_bytes(s, at, end, b, i, predecessor);
        lemma_records_bytes(s, next, end, b, i + 1, successor(b, i));
    }
}

/// The digest that the record after `record` must name.
spec fn successor_of(logical: bool, record: FeedRecord) -> Option<Seq<u8>> {
    if logical {
        Some(external::sha256_of(record.log))
    } else {
        None
    }
}

proof fn lemma_records_count(
    s: Seq<u8>,
    at: int,
    end: int,
    logical: bool,
    sequence: int,
    count: nat,
    predecessor: Option<Seq<u8>>,
)
    ensures
        records_at(s, at, end, logical, sequence, count, predecessor) matches Ok(records)
            ==> records.len() == count,
    decreases count,
{
    if count > 0 {
        if let Ok((record, next)) = record_at(s, at, end, logical, sequence, predecessor) {
            lemma_records_count(
                s,
                next,
                end,
                logical,
                sequence + 1,
                (count - 1) as nat,
                successor_of(logical, record),
            );
        }
    }
}

/// Only the bytes of a batch are read as that batch.
pub proof fn read_batches_are_canonical(s: Seq<u8>, b: BatchModel)
    requires
        batch_of(s) == Ok::<BatchModel, Error>(b),
    ensures
        well_formed(b),
        batch_bytes(b) == Ok::<Seq<u8>, Error>(s),
{
    broadcast use bytes::group_le;

    super::lemma_unsealed(s, EMPTY_BATCH_BYTES as int, MAX_BATCH_BYTES as int, batch_magic());
    let end = s.len() - 4;
    let count = bytes::un32(bytes::part(s, 48, 4)) as nat;
    lemma_records_count(s, 56, end, b.logical, b.start + 1, count, None);
    assert(b.records.subrange(0, b.records.len() as int) =~= b.records);
    lemma_records_bytes(s, 56, end, b, 0, None);
    assert(s.subrange(56, 56) =~= Seq::empty());
    let length = s.len() as u32;
    assert(bytes::le32(length) == bytes::part(s, 12, 4));
    assert(bytes::le64(b.start) == bytes::part(s, 32, 8));
    assert(bytes::le64(b.end) == bytes::part(s, 40, 8));
    assert(bytes::le32(b.records.len() as u32) == bytes::part(s, 48, 4));
    assert(s.subrange(0, end) =~= batch_header(b, length) + s.subrange(56, end)) by {
        assert(s.subrange(0, end) =~= bytes::part(s, 0, 8) + bytes::part(s, 8, 2) + seq![
            s[10],
            s[11],
        ] + bytes::part(s, 12, 4) + bytes::part(s, 16, 16) + bytes::part(s, 32, 8)
            + bytes::part(s, 40, 8) + bytes::part(s, 48, 4) + bytes::part(s, 52, 4) + s.subrange(
            56,
            end,
        ));
    }
}

/// Encoded records are valid, each chained to the one before it.
proof fn lemma_records_valid(
    out: Seq<u8>,
    b: BatchModel,
    i: int,
    predecessor: Option<Seq<u8>>,
    k: int,
)
    requires
        with_records(out, b, i, predecessor) is Ok,
        0 <= i <= k < b.records.len(),
    ensures
        b.records[k].outcome.sequence == b.start + k + 1,
        outcome::storable(b.records[k].outcome),
        b.logical ==> log_fault(
            b.records[k].log,
            b.records[k].outcome,
            if k == i {
                predecessor
            } else {
                successor(b, k - 1)
            },
        ) is None,
    decreases k - i,
{
    reveal(with_record);
    let next = with_record(out, b, i, predecessor);
    if i < k {
        lemma_records_valid(next->Ok_0, b, i + 1, successor(b, i), k);
    }
}

/// What is read as a batch holds valid records of consecutive sequences; those
/// of a logical batch are chained by their digests.
pub proof fn read_batches_are_chained(s: Seq<u8>, b: BatchModel, k: int)
    requires
        batch_of(s) == Ok::<BatchModel, Error>(b),
        0 <= k < b.records.len(),
    ensures
        b.records[k].outcome.sequence == b.start + k + 1,
        outcome::storable(b.records[k].outcome),
        b.logical ==> log_fault(
            b.records[k].log,
            b.records[k].outcome,
            if k == 0 {
                None
            } else {
                Some(external::sha256_of(b.records[k - 1].log))
            },
        ) is None,
{
    read_batches_are_canonical(s, b);
    lemma_records_valid(Seq::empty(), b, 0, None, k);
}

} // verus!
