//! The durable log: record envelopes and segments, how records are appended
//! and checkpointed, and how the log is replayed from the checkpoint.

use super::exchange::batch;
use super::record;
use super::record::{
    encode, Command, CommandModel, MAX_RECORD_LENGTH, RECORD_OVERHEAD, RECORD_TOO_LONG,
};
use super::Error;
use crate::bytes;
use crate::bytes::{
    push_bytes, push_u16, push_u32, push_u64, push_zeros, read_u16, read_u32, read_u64, same_bytes,
    write_at, zero_between,
};
use crate::external;
use crate::external::{crc32c, sha256};
use crate::storage;
use crate::storage::{Manifest, ManifestModel, SegmentDescriptor, SegmentModel};
use crate::vm;
use crate::vm::outcome::OutcomeModel;
use vstd::prelude::*;

verus! {

pub const SEGMENT_HEADER_LENGTH: usize = 96;

pub const RECORD_HEADER_LENGTH: usize = 64;

pub const BAD_RECORD: &'static str = "invalid log record sequence or kind";

pub const CROSSES: &'static str = "record crosses committed log prefix";

pub const MISSING: &'static str = "missing bytes in authoritative log";

pub const BAD_LENGTH: &'static str = "invalid log record length";

pub const BAD_TRAILER: &'static str = "invalid log record trailer";

pub const BAD_HEADER: &'static str = "invalid log record header";

pub const BAD_FIELDS: &'static str = "invalid log record fields or hash chain";

pub const OTHER_SEGMENT: &'static str = "log segment header disagrees with manifest";

pub const OTHER_CHECKPOINT: &'static str = "log checkpoint digest mismatch";

pub const GAP: &'static str = "noncontiguous recovery suffix";

pub const OTHER_END: &'static str = "committed log prefix endpoint mismatch";

pub const INCOMPLETE: &'static str = "incomplete recovery suffix";

pub const SHORT_SEGMENT: &'static str = "truncated active log segment";

pub const OTHER_HISTORY: &'static str =
    "retained history disagrees with source record kind or digest";

// ---- Errors --------------------------------------------------------------

/// How a failure before sequencing is reported.
pub open spec fn rejected(error: vm::Error) -> Error {
    match error {
        vm::Error::Storage(error) => Error::Storage(error),
        error => Error::Rejected(error),
    }
}

/// How a failure before sequencing is reported.
pub fn rejection(error: vm::Error) -> (fault: Error)
    ensures
        fault == rejected(error),
{
    match error {
        vm::Error::Storage(error) => Error::Storage(error),
        error => Error::Rejected(error),
    }
}

/// What a failure means while the log is replayed: an invalid record is
/// corruption there.
pub open spec fn replayed(error: vm::Error) -> storage::Error {
    match error {
        vm::Error::Invalid(reason) => storage::Error::Corrupt(reason),
        vm::Error::Unsupported { format, version } => storage::Error::Unsupported {
            format,
            version,
        },
        vm::Error::Storage(storage::Error::InvalidInput(reason)) => storage::Error::Corrupt(reason),
        vm::Error::Storage(error) => error,
    }
}

/// What a failure means while the log is replayed.
pub fn replay_error(error: vm::Error) -> (fault: storage::Error)
    ensures
        fault == replayed(error),
{
    match error {
        vm::Error::Invalid(reason) => storage::Error::Corrupt(reason),
        vm::Error::Unsupported { format, version } => storage::Error::Unsupported {
            format,
            version,
        },
        vm::Error::Storage(error) => match error {
            storage::Error::InvalidInput(reason) => storage::Error::Corrupt(reason),
            error => error,
        },
    }
}

/// What a failed read of a committed log means; `missing` says that the file or
/// some of its bytes are not there.
pub fn authoritative_io(missing: bool, message: String) -> (fault: storage::Error)
    ensures
        fault == if missing {
            storage::Error::Corrupt(MISSING)
        } else {
            storage::Error::Io(message)
        },
{
    if missing {
        storage::Error::Corrupt(MISSING)
    } else {
        storage::Error::Io(message)
    }
}

// ---- Envelopes and segment headers ---------------------------------------

/// The bytes of a log record in front of its body.
pub open spec fn record_header(
    length: u32,
    body: u32,
    sequence: u64,
    kind: u8,
    predecessor: Seq<u8>,
) -> Seq<u8> {
    seq![0x42u8, 0x4cu8, 0x52u8, 0x31u8] + bytes::le16(64) + bytes::le16(1) + bytes::le32(length)
        + bytes::le32(body) + bytes::le64(sequence) + seq![kind] + bytes::zeros(3) + predecessor
        + bytes::zeros(4)
}

/// A log record: a header that names the record before it, the body, a checksum
/// and the length once more.
#[verifier::opaque]
pub open spec fn record_bytes(sequence: u64, predecessor: Seq<u8>, kind: u8, body: Seq<u8>) -> Seq<
    u8,
> {
    let length = (body.len() + RECORD_OVERHEAD) as u32;
    let whole = record_header(length, body.len() as u32, sequence, kind, predecessor) + body;
    whole + bytes::le32(external::crc32c_of(whole)) + bytes::le32(length)
}

/// Why a body cannot be logged.
pub open spec fn envelope_fault(sequence: u64, kind: u8, body: nat) -> Option<&'static str> {
    if body + RECORD_OVERHEAD > MAX_RECORD_LENGTH {
        Some(RECORD_TOO_LONG)
    } else if sequence == 0 || sequence == u64::MAX || !(1 <= kind <= 3) {
        Some(BAD_RECORD)
    } else {
        None
    }
}

/// The log record of a body.
pub fn envelope(sequence: u64, predecessor: [u8; 32], kind: u8, body: &[u8]) -> (bytes: Result<
    Vec<u8>,
    vm::Error,
>)
    ensures
        match bytes {
            Ok(bytes) => envelope_fault(sequence, kind, body@.len()) is None && bytes@
                == record_bytes(sequence, predecessor@, kind, body@) && bytes@.len() == body@.len()
                + RECORD_OVERHEAD,
            Err(e) => envelope_fault(sequence, kind, body@.len()) matches Some(reason) && e
                == vm::Error::Invalid(reason),
        },
{
    proof {
        reveal(record_bytes);
    }
    broadcast use bytes::group_le;

    if body.len() > MAX_RECORD_LENGTH - RECORD_OVERHEAD {
        return Err(vm::Error::Invalid(RECORD_TOO_LONG));
    }
    if sequence == 0 || sequence == u64::MAX || kind < 1 || kind > 3 {
        return Err(vm::Error::Invalid(BAD_RECORD));
    }
    let length: u32 = (body.len() + RECORD_OVERHEAD) as u32;
    let mut bytes: Vec<u8> = Vec::new();
    let magic: [u8; 4] = [0x42, 0x4c, 0x52, 0x31];
    push_bytes(&mut bytes, magic.as_slice());
    push_u16(&mut bytes, 64);
    push_u16(&mut bytes, 1);
    push_u32(&mut bytes, length);
    push_u32(&mut bytes, body.len() as u32);
    push_u64(&mut bytes, sequence);
    bytes.push(kind);
    push_zeros(&mut bytes, 3);
    push_bytes(&mut bytes, predecessor.as_slice());
    push_zeros(&mut bytes, 4);
    assert(bytes@ =~= record_header(
        length,
        body@.len() as u32,
        sequence,
        kind,
        predecessor@,
    ));
    push_bytes(&mut bytes, body);
    let crc: u32 = crc32c(bytes.as_slice());
    push_u32(&mut bytes, crc);
    push_u32(&mut bytes, length);
    Ok(bytes)
}

/// The header of a segment but for its checksum, which is zero here.
pub open spec fn open_segment_header(id: Seq<u8>, segment: SegmentModel) -> Seq<u8> {
    seq![0x42u8, 0x4cu8, 0x4fu8, 0x50u8, 0x4cu8, 0x47u8, 0x30u8, 0x31u8] + bytes::le16(1)
        + bytes::le16(96) + bytes::zeros(4) + id + bytes::le64(segment.segment_id) + bytes::le64(
        segment.first_sequence,
    ) + segment.predecessor_digest + bytes::zeros(16)
}

/// The 96 bytes at the front of a segment.
pub open spec fn segment_bytes(id: Seq<u8>, segment: SegmentModel) -> Seq<u8> {
    let header = open_segment_header(id, segment);
    bytes::overwritten(header, 92, bytes::le32(external::crc32c_of(header)))
}

/// The 96 bytes at the front of a segment.
pub fn segment_header(database_id: [u8; 16], segment: &SegmentDescriptor) -> (header: [u8; 96])
    ensures
        header@ == segment_bytes(database_id@, segment@),
{
    broadcast use bytes::group_le;

    let mut out: Vec<u8> = Vec::new();
    let magic: [u8; 8] = [0x42, 0x4c, 0x4f, 0x50, 0x4c, 0x47, 0x30, 0x31];
    push_bytes(&mut out, magic.as_slice());
    push_u16(&mut out, 1);
    push_u16(&mut out, 96);
    push_zeros(&mut out, 4);
    push_bytes(&mut out, database_id.as_slice());
    push_u64(&mut out, segment.segment_id);
    push_u64(&mut out, segment.first_sequence);
    push_bytes(&mut out, segment.predecessor_digest.as_slice());
    push_zeros(&mut out, 16);
    assert(out@ =~= open_segment_header(database_id@, segment@));
    let crc: u32 = crc32c(out.as_slice());
    let mut field: Vec<u8> = Vec::new();
    push_u32(&mut field, crc);
    assert(field@ =~= bytes::le32(crc));
    write_at(&mut out, 92, field.as_slice());
    let mut header: [u8; 96] = [0; 96];
    let mut i: usize = 0;
    while i < 96
        invariant
            i <= 96,
            out@.len() == 96,
            forall|k: int| 0 <= k < i ==> header@[k] == out@[k],
        decreases 96 - i,
    {
        header[i] = out[i];
        i += 1;
    }
    assert(header@ =~= out@);
    header
}

// ---- Reading records -----------------------------------------------------

/// The first rule that the next record of a segment breaks. `s` holds the bytes
/// of the segment that are left in its file, of which `remaining` are
/// committed.
#[verifier::opaque]
pub open spec fn record_fault(s: Seq<u8>, remaining: u64, sequence: u64, predecessor: Seq<u8>) -> Option<
    storage::Error,
> {
    let length = bytes::un32(bytes::part(s, 8, 4));
    if remaining < RECORD_OVERHEAD {
        Some(storage::Error::Corrupt(CROSSES))
    } else if s.len() < RECORD_HEADER_LENGTH {
        Some(storage::Error::Corrupt(MISSING))
    } else if !(RECORD_OVERHEAD <= length <= MAX_RECORD_LENGTH) || length > remaining
        || bytes::un32(bytes::part(s, 12, 4)) != length - RECORD_OVERHEAD {
        Some(storage::Error::Corrupt(BAD_LENGTH))
    } else if s.len() < length {
        Some(storage::Error::Corrupt(MISSING))
    } else if external::crc32c_of(s.subrange(0, length - 8)) != bytes::un32(
        bytes::part(s, length - 8, 4),
    ) || bytes::un32(bytes::part(s, length - 4, 4)) != length {
        Some(storage::Error::Corrupt(BAD_TRAILER))
    } else if bytes::part(s, 0, 4) != seq![0x42u8, 0x4cu8, 0x52u8, 0x31u8] || bytes::un16(
        bytes::part(s, 4, 2),
    ) != 64 {
        Some(storage::Error::Corrupt(BAD_HEADER))
    } else if bytes::un16(bytes::part(s, 6, 2)) != 1 {
        Some(
            storage::Error::Unsupported {
                format: "log record",
                version: bytes::un16(bytes::part(s, 6, 2)),
            },
        )
    } else if !(1 <= s[24] <= 3) || bytes::part(s, 25, 3) != bytes::zeros(3) || bytes::part(
        s,
        60,
        4,
    ) != bytes::zeros(4) || bytes::un64(bytes::part(s, 16, 8)) != sequence || bytes::part(
        s,
        28,
        32,
    ) != predecessor {
        Some(storage::Error::Corrupt(BAD_FIELDS))
    } else {
        None
    }
}

/// Check the next record of a segment; gives its length and its digest.
pub fn read_record(s: &[u8], remaining: u64, sequence: u64, predecessor: [u8; 32]) -> (read: Result<
    (usize, [u8; 32]),
    storage::Error,
>)
    ensures
        match read {
            Ok((length, digest)) => {
                &&& record_fault(s@, remaining, sequence, predecessor@) is None
                &&& length == bytes::un32(bytes::part(s@, 8, 4))
                &&& RECORD_OVERHEAD <= length <= s@.len()
                &&& length <= remaining
                &&& digest@ == external::sha256_of(s@.subrange(0, length as int))
            },
            Err(e) => record_fault(s@, remaining, sequence, predecessor@) == Some(e),
        },
{
    proof {
        reveal(record_fault);
    }
    if remaining < RECORD_OVERHEAD as u64 {
        return Err(storage::Error::Corrupt(CROSSES));
    }
    if s.len() < RECORD_HEADER_LENGTH {
        return Err(storage::Error::Corrupt(MISSING));
    }
    let length: usize = read_u32(s, 8) as usize;
    let body: usize = read_u32(s, 12) as usize;
    if length < RECORD_OVERHEAD || length > MAX_RECORD_LENGTH || length as u64 > remaining || body
        != length - RECORD_OVERHEAD {
        return Err(storage::Error::Corrupt(BAD_LENGTH));
    }
    if s.len() < length {
        return Err(storage::Error::Corrupt(MISSING));
    }
    if crc32c(&s[0..length - 8]) != read_u32(s, length - 8) || read_u32(s, length - 4) as usize
        != length {
        return Err(storage::Error::Corrupt(BAD_TRAILER));
    }
    let magic: [u8; 4] = [0x42, 0x4c, 0x52, 0x31];
    assert(magic@ =~= seq![0x42u8, 0x4cu8, 0x52u8, 0x31u8]);
    if !same_bytes(&s[0..4], magic.as_slice()) || read_u16(s, 4) != 64 {
        return Err(storage::Error::Corrupt(BAD_HEADER));
    }
    let version: u16 = read_u16(s, 6);
    if version != 1 {
        return Err(storage::Error::Unsupported { format: "log record", version });
    }
    if s[24] < 1 || s[24] > 3 || !zero_between(s, 25, 28) || !zero_between(s, 60, 64) || read_u64(
        s,
        16,
    ) != sequence || !same_bytes(&s[28..60], predecessor.as_slice()) {
        return Err(storage::Error::Corrupt(BAD_FIELDS));
    }
    let digest: [u8; 32] = sha256(&s[0..length]);
    Ok((length, digest))
}

/// The parts of a log record stand where readers look for them.
proof fn lemma_record_parts(
    sequence: u64,
    predecessor: Seq<u8>,
    kind: u8,
    body: Seq<u8>,
    after: Seq<u8>,
)
    requires
        predecessor.len() == 32,
        envelope_fault(sequence, kind, body.len()) is None,
    ensures
        ({
            let length = body.len() + RECORD_OVERHEAD;
            let s = record_bytes(sequence, predecessor, kind, body) + after;
            &&& record_bytes(sequence, predecessor, kind, body).len() == length
            &&& s.subrange(0, length) == record_bytes(sequence, predecessor, kind, body)
            &&& bytes::part(s, 0, 4) == seq![0x42u8, 0x4cu8, 0x52u8, 0x31u8]
            &&& bytes::un16(bytes::part(s, 4, 2)) == 64
            &&& bytes::un16(bytes::part(s, 6, 2)) == 1
            &&& bytes::un32(bytes::part(s, 8, 4)) == length
            &&& bytes::un32(bytes::part(s, 12, 4)) == body.len()
            &&& bytes::un64(bytes::part(s, 16, 8)) == sequence
            &&& s[24] == kind
            &&& bytes::part(s, 25, 3) == bytes::zeros(3)
            &&& bytes::part(s, 28, 32) == predecessor
            &&& bytes::part(s, 60, 4) == bytes::zeros(4)
            &&& s.subrange(64, length - 8) == body
            &&& external::crc32c_of(s.subrange(0, length - 8)) == bytes::un32(
                bytes::part(s, length - 8, 4),
            )
            &&& bytes::un32(bytes::part(s, length - 4, 4)) == length
        }),
{
    reveal(record_bytes);
    broadcast use bytes::group_le;

    let length = (body.len() + RECORD_OVERHEAD) as int;
    let header = record_header(length as u32, body.len() as u32, sequence, kind, predecessor);
    let whole = header + body;
    let record = record_bytes(sequence, predecessor, kind, body);
    let s = record + after;
    assert(header.len() == 64);
    assert(s.subrange(0, length) =~= record);
    assert(bytes::part(s, 0, 4) =~= seq![0x42u8, 0x4cu8, 0x52u8, 0x31u8]);
    assert(bytes::part(s, 4, 2) =~= bytes::le16(64));
    assert(bytes::part(s, 6, 2) =~= bytes::le16(1));
    assert(bytes::part(s, 8, 4) =~= bytes::le32(length as u32));
    assert(bytes::part(s, 12, 4) =~= bytes::le32(body.len() as u32));
    assert(bytes::part(s, 16, 8) =~= bytes::le64(sequence));
    assert(bytes::part(s, 25, 3) =~= bytes::zeros(3));
    assert(bytes::part(s, 28, 32) =~= predecessor);
    assert(bytes::part(s, 60, 4) =~= bytes::zeros(4));
    assert(s.subrange(64, length - 8) =~= body);
    assert(s.subrange(0, length - 8) =~= whole);
    assert(bytes::part(s, length - 8, 4) =~= bytes::le32(external::crc32c_of(whole)));
    assert(bytes::part(s, length - 4, 4) =~= bytes::le32(length as u32));
}

/// A log record is as long as its body and what stands around it.
pub proof fn lemma_record_length(sequence: u64, predecessor: Seq<u8>, kind: u8, body: Seq<u8>)
    requires
        predecessor.len() == 32,
    ensures
        record_bytes(sequence, predecessor, kind, body).len() == body.len() + RECORD_OVERHEAD,
{
    reveal(record_bytes);
    broadcast use bytes::group_le;

}

/// A logged record is read back: the reader accepts it at its place in the log,
/// whatever follows it, and finds its kind and its body.
pub proof fn logged_records_are_read_back(
    sequence: u64,
    predecessor: Seq<u8>,
    kind: u8,
    body: Seq<u8>,
    after: Seq<u8>,
    remaining: u64,
)
    requires
        predecessor.len() == 32,
        envelope_fault(sequence, kind, body.len()) is None,
        body.len() + RECORD_OVERHEAD <= remaining,
    ensures
        ({
            let record = record_bytes(sequence, predecessor, kind, body);
            let s = record + after;
            &&& record.len() == body.len() + RECORD_OVERHEAD
            &&& bytes::un32(bytes::part(s, 8, 4)) == record.len()
            &&& record_fault(s, remaining, sequence, predecessor) is None
            &&& s.subrange(0, bytes::un32(bytes::part(s, 8, 4)) as int) == record
            &&& s[24] == kind
            &&& s.subrange(64, record.len() - 8) == body
        }),
{
    reveal(record_fault);
    lemma_record_parts(sequence, predecessor, kind, body, after);
}

/// A logged record is a valid part of a logical feed: with the outcome that
/// names its sequence, kind and digest, and after the record that it names.
pub proof fn logged_records_can_be_fed(
    sequence: u64,
    predecessor: Seq<u8>,
    kind: u8,
    body: Seq<u8>,
    o: OutcomeModel,
)
    requires
        predecessor.len() == 32,
        envelope_fault(sequence, kind, body.len()) is None,
        o.sequence == sequence,
        o.kind == kind,
        o.digest == external::sha256_of(record_bytes(sequence, predecessor, kind, body)),
    ensures
        batch::log_fault(
            record_bytes(sequence, predecessor, kind, body),
            o,
            Some(predecessor),
        ) is None,
        batch::log_fault(record_bytes(sequence, predecessor, kind, body), o, None) is None,
{
    lemma_record_parts(sequence, predecessor, kind, body, Seq::empty());
    let record = record_bytes(sequence, predecessor, kind, body);
    assert(record + Seq::<u8>::empty() =~= record);
}

// ---- Appending -----------------------------------------------------------

/// The sequence after `durable`; the last one is reserved.
pub open spec fn following(durable: u64) -> Option<u64> {
    if durable >= u64::MAX - 1 {
        None
    } else {
        Some((durable + 1) as u64)
    }
}

/// The sequence after `durable`.
pub fn next_sequence(durable: u64) -> (sequence: Result<u64, Error>)
    ensures
        match sequence {
            Ok(sequence) => following(durable) == Some(sequence),
            Err(e) => following(durable) is None && e == Error::Storage(storage::Error::Exhausted),
        },
{
    if durable >= u64::MAX - 1 {
        Err(Error::Storage(storage::Error::Exhausted))
    } else {
        Ok(durable + 1)
    }
}

/// `m` with its durable end at a record.
pub open spec fn ended(m: ManifestModel, sequence: u64, digest: Seq<u8>) -> ManifestModel {
    ManifestModel { durable_sequence: sequence, durable_digest: digest, ..m }
}

/// `m` after a record was written to its last segment, whose file has
/// `file_length` bytes before that.
pub open spec fn extended(m: ManifestModel, sequence: u64, record: Seq<u8>, file_length: u64) -> Result<
    ManifestModel,
    storage::Error,
> {
    let segment = m.segments.last();
    if segment.committed_bytes + record.len() > u64::MAX {
        Err(storage::Error::Exhausted)
    } else if file_length < segment.committed_bytes {
        Err(storage::Error::Corrupt(SHORT_SEGMENT))
    } else if file_length > segment.committed_bytes {
        Err(storage::Error::NeedsRecovery)
    } else {
        let longer = SegmentModel {
            last_sequence: sequence,
            last_digest: external::sha256_of(record),
            committed_bytes: (segment.committed_bytes + record.len()) as u64,
            ..segment
        };
        Ok(
            ended(
                ManifestModel { segments: m.segments.update(m.segments.len() - 1, longer), ..m },
                sequence,
                external::sha256_of(record),
            ),
        )
    }
}

/// Account for a record that is written to the last segment.
pub fn extend_segment(
    manifest: &Manifest,
    sequence: u64,
    record: &[u8],
    file_length: u64,
) -> (extended_manifest: Result<Manifest, storage::Error>)
    requires
        manifest@.segments.len() > 0,
    ensures
        match extended_manifest {
            Ok(next) => extended(manifest@, sequence, record@, file_length) == Ok::<
                ManifestModel,
                storage::Error,
            >(next@),
            Err(e) => extended(manifest@, sequence, record@, file_length) == Err::<
                ManifestModel,
                storage::Error,
            >(e),
        },
{
    let last: usize = manifest.segments.len() - 1;
    let mut segment: SegmentDescriptor = manifest.segments[last];
    assert(manifest@.segments.last() == segment@);
    let digest: [u8; 32] = sha256(record);
    let committed: u64 = match segment.committed_bytes.checked_add(record.len() as u64) {
        Some(committed) => committed,
        None => {
            return Err(storage::Error::Exhausted);
        },
    };
    if file_length < segment.committed_bytes {
        return Err(storage::Error::Corrupt(SHORT_SEGMENT));
    }
    if file_length > segment.committed_bytes {
        return Err(storage::Error::NeedsRecovery);
    }
    segment.last_sequence = sequence;
    segment.last_digest = digest;
    segment.committed_bytes = committed;
    let mut next = manifest.duplicate();
    next.segments.set(last, segment);
    next.durable_sequence = sequence;
    next.durable_digest = digest;
    assert(next@.segments =~= extended(manifest@, sequence, record@, file_length)->Ok_0.segments);
    assert(next@ =~= extended(manifest@, sequence, record@, file_length)->Ok_0);
    Ok(next)
}

/// Take the next segment number. The caller takes another while a file of that
/// name exists.
pub fn take_segment_id(manifest: &mut Manifest) -> (id: Result<u64, storage::Error>)
    ensures
        match id {
            Ok(id) => id == old(manifest)@.next_segment_id && id < u64::MAX && final(manifest)@
                == (ManifestModel { next_segment_id: (id + 1) as u64, ..old(manifest)@ }),
            Err(e) => old(manifest)@.next_segment_id == u64::MAX && e == storage::Error::Exhausted
                && final(manifest)@ == old(manifest)@,
        },
{
    let id: u64 = manifest.next_segment_id;
    match id.checked_add(1) {
        Some(next) => {
            manifest.next_segment_id = next;
            Ok(id)
        },
        None => Err(storage::Error::Exhausted),
    }
}

/// A segment that starts with a record.
pub open spec fn first_segment(m: ManifestModel, id: u64, sequence: u64, record: Seq<u8>) -> SegmentModel {
    SegmentModel {
        segment_id: id,
        first_sequence: sequence,
        last_sequence: sequence,
        committed_bytes: (SEGMENT_HEADER_LENGTH + record.len()) as u64,
        predecessor_digest: m.durable_digest,
        last_digest: external::sha256_of(record),
    }
}

/// `m` after a record was written to a new segment.
pub open spec fn started(m: ManifestModel, id: u64, sequence: u64, record: Seq<u8>) -> ManifestModel {
    ended(
        ManifestModel {
            segments: m.segments.push(first_segment(m, id, sequence, record)),
            ..m
        },
        sequence,
        external::sha256_of(record),
    )
}

/// Account for a record that is written to a new segment; also gives the header
/// of the segment.
pub fn start_segment(manifest: &Manifest, id: u64, sequence: u64, record: &[u8]) -> (result: (
    Manifest,
    [u8; 96],
))
    requires
        record@.len() <= MAX_RECORD_LENGTH,
    ensures
        result.0@ == started(manifest@, id, sequence, record@),
        result.1@ == segment_bytes(
            manifest@.database_id,
            first_segment(manifest@, id, sequence, record@),
        ),
{
    let digest: [u8; 32] = sha256(record);
    let segment = SegmentDescriptor {
        segment_id: id,
        first_sequence: sequence,
        last_sequence: sequence,
        committed_bytes: (SEGMENT_HEADER_LENGTH + record.len()) as u64,
        predecessor_digest: manifest.durable_digest,
        last_digest: digest,
    };
    let header: [u8; 96] = segment_header(manifest.database_id, &segment);
    let mut next = manifest.duplicate();
    next.segments.push(segment);
    next.durable_sequence = sequence;
    next.durable_digest = digest;
    let ghost expected = started(manifest@, id, sequence, record@);
    assert(segment@ =~= first_segment(manifest@, id, sequence, record@));
    assert(next@.segments =~= expected.segments);
    assert(next@ =~= expected);
    (next, header)
}

/// `m` with its checkpoint at its durable end.
pub open spec fn checkpointed(m: ManifestModel) -> ManifestModel {
    ManifestModel {
        checkpoint_sequence: m.durable_sequence,
        checkpoint_digest: m.durable_digest,
        ..m
    }
}

/// The manifest that publishes a checkpoint of everything durable.
pub fn publish_checkpoint(manifest: &Manifest) -> (next: Manifest)
    ensures
        next@ == checkpointed(manifest@),
{
    let mut next = manifest.duplicate();
    next.checkpoint_sequence = manifest.durable_sequence;
    next.checkpoint_digest = manifest.durable_digest;
    assert(next@ =~= checkpointed(manifest@));
    next
}

/// `m` with its checkpoint at a visible sequence.
pub open spec fn checkpointed_at(m: ManifestModel, sequence: u64, digest: Seq<u8>) -> ManifestModel {
    ManifestModel { checkpoint_sequence: sequence, checkpoint_digest: digest, ..m }
}

/// The manifest that publishes a checkpoint of the visible prefix.
pub fn publish_prefix(manifest: &Manifest, sequence: u64, digest: [u8; 32]) -> (next: Manifest)
    ensures
        next@ == checkpointed_at(manifest@, sequence, digest@),
{
    let mut next = manifest.duplicate();
    next.checkpoint_sequence = sequence;
    next.checkpoint_digest = digest;
    assert(next@ =~= checkpointed_at(manifest@, sequence, digest@));
    next
}

/// A record that is about to be appended.
#[derive(Debug, PartialEq, Eq)]
pub struct Append {
    pub sequence: u64,
    pub kind: u8,
    pub bytes: Vec<u8>,
}

/// The record of a command at the durable end of the log, given what the
/// transaction machine says of it, or why nothing is appended.
pub open spec fn planned(m: ManifestModel, command: CommandModel, machine: Result<(), vm::Error>) -> Result<
    (u64, u8, Seq<u8>),
    Error,
> {
    if m.checkpoint_sequence != m.durable_sequence {
        Err(Error::Storage(storage::Error::NeedsRecovery))
    } else {
        match following(m.durable_sequence) {
            None => Err(Error::Storage(storage::Error::Exhausted)),
            Some(sequence) => match record::admitted(sequence, command, machine) {
                Err(e) => Err(rejected(e)),
                Ok(()) => match record::body_of(command) {
                    Err(e) => Err(rejected(e)),
                    Ok((kind, body)) => match envelope_fault(sequence, kind, body.len()) {
                        Some(reason) => Err(rejected(vm::Error::Invalid(reason))),
                        None => Ok(
                            (sequence, kind, record_bytes(sequence, m.durable_digest, kind, body)),
                        ),
                    },
                },
            },
        }
    }
}

/// Check and frame a command for the serial writer. Nothing is written where
/// this fails.
pub fn plan_commit(manifest: &Manifest, command: &Command, machine: Result<(), vm::Error>) -> (plan:
    Result<Append, Error>)
    ensures
        match plan {
            Ok(append) => planned(manifest@, command@, machine) == Ok::<
                (u64, u8, Seq<u8>),
                Error,
            >((append.sequence, append.kind, append.bytes@)),
            Err(e) => planned(manifest@, command@, machine) == Err::<(u64, u8, Seq<u8>), Error>(e),
        },
{
    if manifest.checkpoint_sequence != manifest.durable_sequence {
        return Err(Error::Storage(storage::Error::NeedsRecovery));
    }
    let sequence: u64 = next_sequence(manifest.durable_sequence)?;
    match record::validate(sequence, command, machine) {
        Ok(()) => {},
        Err(e) => {
            return Err(rejection(e));
        },
    }
    let (kind, body) = match encode(command) {
        Ok(record) => record,
        Err(e) => {
            return Err(rejection(e));
        },
    };
    match envelope(sequence, manifest.durable_digest, kind, body.as_slice()) {
        Ok(bytes) => Ok(Append { sequence, kind, bytes }),
        Err(e) => Err(rejection(e)),
    }
}

/// How a failure after a record may have been appended is reported.
pub fn uncertain(sequence: u64, error: vm::Error) -> (fault: Error)
    ensures
        fault == (Error::Uncertain { sequence: Some(sequence), source: Some(error) }),
{
    Error::Uncertain { sequence: Some(sequence), source: Some(error) }
}

/// What is planned follows the durable end of a settled log, and is read back
/// there as the command that was submitted.
pub proof fn planned_records_hold_their_commands(
    m: ManifestModel,
    command: CommandModel,
    machine: Result<(), vm::Error>,
    sequence: u64,
    kind: u8,
    s: Seq<u8>,
)
    requires
        record::well_formed(command),
        m.durable_digest.len() == 32,
        planned(m, command, machine) == Ok::<(u64, u8, Seq<u8>), Error>((sequence, kind, s)),
    ensures
        m.checkpoint_sequence == m.durable_sequence,
        sequence == m.durable_sequence + 1,
        record_fault(s, s.len() as u64, sequence, m.durable_digest) is None,
        s[24] == kind,
        record::command_of(kind, s.subrange(64, s.len() - 8)) == Ok::<CommandModel, vm::Error>(
            command,
        ),
{
    let body = record::body_of(command)->Ok_0.1;
    record::records_are_read_back(command, kind, body);
    logged_records_are_read_back(
        sequence,
        m.durable_digest,
        kind,
        body,
        Seq::empty(),
        (body.len() + RECORD_OVERHEAD) as u64,
    );
    assert(s + Seq::<u8>::empty() =~= s);
}

/// Every command that the machine and the catalogue rules admit is planned while
/// the log is settled and a sequence is left.
pub proof fn admitted_commands_are_planned(
    m: ManifestModel,
    command: CommandModel,
    machine: Result<(), vm::Error>,
    kind: u8,
    body: Seq<u8>,
)
    requires
        m.checkpoint_sequence == m.durable_sequence,
        m.durable_sequence < u64::MAX - 1,
        record::admitted((m.durable_sequence + 1) as u64, command, machine) is Ok,
        record::body_of(command) == Ok::<(u8, Seq<u8>), vm::Error>((kind, body)),
        1 <= kind <= 3,
        body.len() + RECORD_OVERHEAD <= MAX_RECORD_LENGTH,
    ensures
        planned(m, command, machine) is Ok,
{
}

} // verus!
