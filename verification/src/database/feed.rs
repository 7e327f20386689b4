//! Feeds: complete records after a watermark, as many as the limits allow.
//!
//! A [`Feed`] says which record it wants next. Its caller reads the outcome of
//! that record, and for a logical feed the logged bytes, and hands them over.

use super::cursor;
use super::cursor::{check_watermark, lookup, Cursors, World};
use super::exchange;
use super::exchange::batch;
use super::exchange::batch::{
    encode_outcome, BatchModel, FeedBatch, FeedRecord, FeedRecords, LogicalRecord,
};
use super::exchange::{
    CursorKind, CursorToken, TokenModel, Watermark, WatermarkModel, EMPTY_BATCH_BYTES,
    MAX_BATCH_BYTES,
};
use super::{BatchLimits, Error};
use crate::bytes;
use crate::bytes::{same_bytes, same_digest};
use crate::external;
use crate::storage;
use crate::storage::{Manifest, ManifestModel, SegmentDescriptor, SegmentModel};
use crate::vm::outcome;
use crate::vm::OutcomeRecord;
use vstd::prelude::*;

verus! {

pub const RESOLVED_KIND: &'static str = "resolved feed requires kind 1";

pub const LOGICAL_KIND: &'static str = "logical feed requires kind 2 or 3";

pub const BYTE_LIMIT: &'static str = "batch byte limit must be 60 through 256 MiB";

pub const MISSING_HISTORY: &'static str = "missing history protected by a registered cursor";

pub const MISSING_OUTCOME: &'static str = "missing cursor-protected outcome";

pub const MISSING_LOG: &'static str = "missing cursor-protected log";

pub const LOG_GAP: &'static str = "gap in cursor-protected log";

pub const OTHER_ANCHOR: &'static str = "logical feed checkpoint anchor mismatch";

pub const OTHER_OUTCOME: &'static str = "logical feed outcome differs from source record";

pub const OTHER_VERSION: &'static str = "feed outcome differs from exact version";

/// A batch that is being put together.
#[derive(Debug, PartialEq, Eq)]
pub struct Feed {
    pub logical: bool,
    pub start: u64,
    pub end: u64,
    pub frontier: u64,
    pub limits: BatchLimits,
    /// The length of the encoded batch so far.
    pub size: usize,
    /// The records so far; their logged bytes are empty in a resolved feed.
    pub records: Vec<LogicalRecord>,
    /// Whether the next record did not fit.
    pub byte_limited: bool,
}

/// The model of a [`Feed`].
#[verifier::ext_equal]
pub struct FeedModel {
    pub logical: bool,
    pub start: u64,
    pub end: u64,
    pub frontier: u64,
    pub limits: BatchLimits,
    pub size: int,
    pub records: Seq<FeedRecord>,
    pub byte_limited: bool,
}

impl Feed {
    pub open spec fn view(&self) -> FeedModel {
        FeedModel {
            logical: self.logical,
            start: self.start,
            end: self.end,
            frontier: self.frontier,
            limits: self.limits,
            size: self.size as int,
            records: batch::logical_records(self.records@),
            byte_limited: self.byte_limited,
        }
    }
}

/// How much a record adds to a batch.
pub open spec fn needed(logical: bool, r: FeedRecord) -> nat {
    outcome::outcome_bytes(r.outcome).len() + 4 + if logical {
        r.log.len() + 4
    } else {
        0
    }
}

/// How much some records add to a batch.
pub open spec fn needed_for(logical: bool, records: Seq<FeedRecord>) -> nat
    decreases records.len(),
{
    if records.len() == 0 {
        0
    } else {
        needed_for(logical, records.drop_last()) + needed(logical, records.last())
    }
}

impl FeedModel {
    /// What every step keeps.
    pub open spec fn wf(self) -> bool {
        &&& self.start + self.records.len() == self.end
        &&& self.end <= self.frontier < u64::MAX
        &&& self.size == EMPTY_BATCH_BYTES + needed_for(self.logical, self.records)
        &&& self.size <= self.limits.max_bytes <= MAX_BATCH_BYTES
        &&& self.records.len() <= self.limits.max_records
        &&& forall|i: int|
            0 <= i < self.records.len() ==> outcome::storable((#[trigger] self.records[i]).outcome)
    }
}

// ---- Opening -------------------------------------------------------------

/// Whether a cursor of this kind reads such a feed.
pub open spec fn kind_fits(kind: CursorKind, logical: bool) -> bool {
    if logical {
        kind == CursorKind::Logical || kind == CursorKind::LogReplica
    } else {
        kind == CursorKind::Resolved
    }
}

/// Why a feed cannot be read.
pub open spec fn feed_fault(
    w: World,
    t: TokenModel,
    after: WatermarkModel,
    limits: BatchLimits,
    frontier: u64,
    logical: bool,
) -> Option<Error> {
    match cursor::found(w, t) {
        Err(e) => Some(e),
        Ok(None) => Some(Error::CursorReleased),
        Ok(Some(info)) => if !kind_fits(t.kind, logical) {
            Some(
                Error::InvalidToken(
                    if logical {
                        LOGICAL_KIND
                    } else {
                        RESOLVED_KIND
                    },
                ),
            )
        } else if !cursor::belongs(w.manifest, after) {
            Some(Error::InvalidToken(cursor::OTHER_DATABASE))
        } else if !(info.baseline <= after.sequence <= frontier) {
            Some(Error::HistoryUnavailable)
        } else if !(EMPTY_BATCH_BYTES <= limits.max_bytes <= MAX_BATCH_BYTES) {
            Some(Error::InvalidInput(BYTE_LIMIT))
        } else {
            None
        },
    }
}

/// An empty batch after a watermark.
pub open spec fn opened(after: u64, limits: BatchLimits, frontier: u64, logical: bool) -> FeedModel {
    FeedModel {
        logical,
        start: after,
        end: after,
        frontier,
        limits,
        size: EMPTY_BATCH_BYTES as int,
        records: Seq::empty(),
        byte_limited: false,
    }
}

impl Feed {
    /// Start to read records after a watermark, which must lie within what the
    /// cursor protects and at or below the visible frontier.
    pub fn open(
        manifest: &Manifest,
        cursors: &Cursors,
        token: &CursorToken,
        after: &Watermark,
        limits: BatchLimits,
        frontier: u64,
        logical: bool,
    ) -> (feed: Result<Feed, Error>)
        requires
            cursors.wf(),
            frontier < u64::MAX,
        ensures
            ({
                let fault = feed_fault(
                    cursor::world(manifest, cursors),
                    token@,
                    after@,
                    limits,
                    frontier,
                    logical,
                );
                match feed {
                    Ok(feed) => fault is None && feed@ == opened(
                        after@.sequence,
                        limits,
                        frontier,
                        logical,
                    ) && feed@.wf(),
                    Err(e) => fault == Some(e),
                }
            }),
    {
        let info = match lookup(manifest, cursors, token)? {
            Some(info) => info,
            None => {
                return Err(Error::CursorReleased);
            },
        };
        let kind = token.kind();
        if logical {
            if kind != CursorKind::Logical && kind != CursorKind::LogReplica {
                return Err(Error::InvalidToken(LOGICAL_KIND));
            }
        } else if kind != CursorKind::Resolved {
            return Err(Error::InvalidToken(RESOLVED_KIND));
        }
        check_watermark(manifest, after)?;
        let start: u64 = after.sequence();
        if start < info.baseline || start > frontier {
            return Err(Error::HistoryUnavailable);
        }
        if limits.max_bytes < EMPTY_BATCH_BYTES || limits.max_bytes > MAX_BATCH_BYTES {
            return Err(Error::InvalidInput(BYTE_LIMIT));
        }
        let feed = Feed {
            logical,
            start,
            end: start,
            frontier,
            limits,
            size: EMPTY_BATCH_BYTES,
            records: Vec::new(),
            byte_limited: false,
        };
        assert(feed@.records =~= Seq::empty());
        Ok(feed)
    }
}

// ---- Collecting ----------------------------------------------------------

/// The record that a feed wants next.
pub open spec fn wanted(f: FeedModel) -> Option<u64> {
    if f.records.len() >= f.limits.max_records || f.byte_limited || f.end >= f.frontier {
        None
    } else {
        Some((f.end + 1) as u64)
    }
}

/// The number nearest to `n` that a length can be.
pub open spec fn clamped(n: int) -> usize {
    if n > usize::MAX {
        usize::MAX
    } else {
        n as usize
    }
}

/// A feed after it was given the next record.
pub open spec fn collected(f: FeedModel, r: FeedRecord) -> Result<FeedModel, Error> {
    if !outcome::storable(r.outcome) {
        Err(Error::InvalidFormat(outcome::BAD_OUTCOME))
    } else if f.size + needed(f.logical, r) > f.limits.max_bytes {
        if f.records.len() == 0 {
            Err(
                Error::BatchTooSmall {
                    required: clamped(EMPTY_BATCH_BYTES + needed(f.logical, r)),
                },
            )
        } else {
            Ok(FeedModel { byte_limited: true, ..f })
        }
    } else {
        Ok(
            FeedModel {
                records: f.records.push(r),
                size: f.size + needed(f.logical, r),
                end: (f.end + 1) as u64,
                ..f
            },
        )
    }
}

/// The record of a resolved feed.
pub open spec fn resolved_record(o: OutcomeRecord) -> FeedRecord {
    FeedRecord { log: Seq::empty(), outcome: o@ }
}

impl Feed {
    /// The record that is wanted next; none if the batch is complete.
    pub fn wants(&self) -> (sequence: Option<u64>)
        requires
            self@.wf(),
        ensures
            sequence == wanted(self@),
    {
        if self.records.len() >= self.limits.max_records || self.byte_limited || self.end
            >= self.frontier {
            return None;
        }
        Some(self.end + 1)
    }

    /// Add the next record if it fits. Records are never split: if not even the
    /// first one fits, the error says what limit would do.
    fn collect(&mut self, record: LogicalRecord) -> (done: Result<(), Error>)
        requires
            old(self)@.wf(),
            wanted(old(self)@) is Some,
        ensures
            match done {
                Ok(()) => collected(old(self)@, record@) == Ok::<FeedModel, Error>(final(self)@),
                Err(e) => collected(old(self)@, record@) == Err::<FeedModel, Error>(e)
                    && final(self)@ == old(self)@,
            },
            final(self)@.wf(),
    {
        let ghost before = self@;
        let stored = encode_outcome(&record.outcome)?;
        let room: usize = self.limits.max_bytes - self.size;
        let extra: usize = if self.logical {
            record.log_record.len().saturating_add(8)
        } else {
            4
        };
        if stored.len() > room || extra > room - stored.len() {
            if self.records.len() == 0 {
                return Err(
                    Error::BatchTooSmall {
                        required: EMPTY_BATCH_BYTES.saturating_add(stored.len()).saturating_add(
                            extra,
                        ),
                    },
                );
            }
            self.byte_limited = true;
            return Ok(());
        }
        self.size = self.size + stored.len() + extra;
        self.end = self.end + 1;
        let ghost added = record@;
        self.records.push(record);
        proof {
            assert(self@.records =~= before.records.push(added));
            assert(self@.records.drop_last() =~= before.records);
        }
        Ok(())
    }

    /// Give a resolved feed the outcome that it wants.
    pub fn collect_outcome(&mut self, outcome: OutcomeRecord) -> (done: Result<(), Error>)
        requires
            old(self)@.wf(),
            wanted(old(self)@) is Some,
            !old(self)@.logical,
        ensures
            match done {
                Ok(()) => collected(old(self)@, resolved_record(outcome)) == Ok::<
                    FeedModel,
                    Error,
                >(final(self)@),
                Err(e) => collected(old(self)@, resolved_record(outcome)) == Err::<
                    FeedModel,
                    Error,
                >(e) && final(self)@ == old(self)@,
            },
            final(self)@.wf(),
    {
        let record = LogicalRecord { log_record: Vec::new(), outcome };
        assert(record@.log =~= Seq::empty());
        self.collect(record)
    }
}

// ---- Logical feeds -------------------------------------------------------

/// What a logical feed does with a segment or a record of the log.
#[derive(Clone, Copy, Debug, PartialEq, Eq, Structural)]
pub enum Visit {
    Skip,
    Read,
    /// The batch is complete.
    Stop,
}

/// Whether a feed can take no more records.
pub open spec fn complete(f: FeedModel) -> bool {
    f.records.len() == f.limits.max_records || f.byte_limited
}

/// Whether a feed reads the logged record of a sequence.
pub open spec fn due(f: FeedModel, sequence: u64) -> bool {
    !(sequence > f.frontier || complete(f))
}

/// Whether a logged record belongs into the batch of a feed.
pub open spec fn behind_start(f: FeedModel, sequence: u64) -> bool {
    sequence > f.start
}

/// What a logical feed does with a segment.
pub open spec fn visited(f: FeedModel, segment: SegmentModel) -> Result<Visit, Error> {
    if segment.last_sequence <= f.start {
        Ok(Visit::Skip)
    } else if f.end == f.frontier || complete(f) {
        Ok(Visit::Stop)
    } else if segment.first_sequence > f.end + 1 {
        Err(Error::Storage(storage::Error::Corrupt(LOG_GAP)))
    } else {
        Ok(Visit::Read)
    }
}

/// Whether the logged record at the checkpoint is the one that the manifest
/// names.
pub open spec fn anchored(m: ManifestModel, sequence: u64, digest: Seq<u8>) -> bool {
    sequence == m.checkpoint_sequence ==> digest == m.checkpoint_digest
}

/// A logical feed after it was given the next logged record and its outcome.
pub open spec fn collected_log(f: FeedModel, log: Seq<u8>, digest: Seq<u8>, o: OutcomeRecord) -> Result<
    FeedModel,
    Error,
> {
    if o@.digest != digest || o@.kind != log[24] {
        Err(Error::Storage(storage::Error::Corrupt(OTHER_OUTCOME)))
    } else {
        collected(f, FeedRecord { log, outcome: o@ })
    }
}

impl Feed {
    /// What to do with the next segment of the log.
    pub fn segment(&self, segment: &SegmentDescriptor) -> (visit: Result<Visit, Error>)
        requires
            self@.wf(),
        ensures
            visit == visited(self@, segment@),
    {
        if segment.last_sequence <= self.start {
            return Ok(Visit::Skip);
        }
        if self.end == self.frontier || self.records.len() == self.limits.max_records
            || self.byte_limited {
            return Ok(Visit::Stop);
        }
        if segment.first_sequence > self.end + 1 {
            return Err(Error::Storage(storage::Error::Corrupt(LOG_GAP)));
        }
        Ok(Visit::Read)
    }

    /// Whether to read the logged record of a sequence.
    pub fn reads(&self, sequence: u64) -> (read: bool)
        ensures
            read == !(sequence > self@.frontier || complete(self@)),
            read == due(self@, sequence),
    {
        !(sequence > self.frontier || self.records.len() == self.limits.max_records
            || self.byte_limited)
    }

    /// Check a logged record that was read against the checkpoint; whether it
    /// belongs into the batch.
    pub fn source(&self, manifest: &Manifest, sequence: u64, digest: &[u8; 32]) -> (wanted: Result<
        bool,
        Error,
    >)
        ensures
            wanted == if !anchored(manifest@, sequence, digest@) {
                Err::<bool, Error>(Error::Storage(storage::Error::Corrupt(OTHER_ANCHOR)))
            } else {
                Ok(sequence > self@.start)
            },
            wanted matches Ok(wanted) ==> wanted == behind_start(self@, sequence),
    {
        if sequence == manifest.checkpoint_sequence && !same_digest(
            digest,
            &manifest.checkpoint_digest,
        ) {
            return Err(Error::Storage(storage::Error::Corrupt(OTHER_ANCHOR)));
        }
        Ok(sequence > self.start)
    }

    /// Give a logical feed the logged record that it wants, its digest and its
    /// outcome.
    pub fn collect_log(&mut self, log_record: Vec<u8>, digest: &[u8; 32], outcome: OutcomeRecord) -> (done:
        Result<(), Error>)
        requires
            old(self)@.wf(),
            wanted(old(self)@) is Some,
            old(self)@.logical,
            log_record@.len() > 24,
        ensures
            match done {
                Ok(()) => collected_log(old(self)@, log_record@, digest@, outcome) == Ok::<
                    FeedModel,
                    Error,
                >(final(self)@),
                Err(e) => collected_log(old(self)@, log_record@, digest@, outcome) == Err::<
                    FeedModel,
                    Error,
                >(e) && final(self)@ == old(self)@,
            },
            final(self)@.wf(),
    {
        if !same_digest(&outcome.record_digest, digest) || outcome.record_kind != log_record[24] {
            return Err(Error::Storage(storage::Error::Corrupt(OTHER_OUTCOME)));
        }
        let record = LogicalRecord { log_record, outcome };
        assert(record@ =~= FeedRecord { log: log_record@, outcome: outcome@ });
        self.collect(record)
    }
}

// ---- The batch -----------------------------------------------------------

/// The batch that a feed has put together.
pub open spec fn batch_model(f: FeedModel, id: Seq<u8>) -> BatchModel {
    BatchModel {
        database_id: id,
        start: f.start,
        end: f.end,
        logical: f.logical,
        records: if f.logical {
            f.records
        } else {
            f.records.map_values(|r: FeedRecord| FeedRecord { log: Seq::empty(), ..r })
        },
    }
}

/// Whether a logical feed ended before its frontier though it had room.
pub open spec fn incomplete(f: FeedModel) -> bool {
    f.logical && f.end < f.frontier && f.records.len() < f.limits.max_records && !f.byte_limited
}

impl Feed {
    /// The batch, once nothing more is wanted or the log is exhausted.
    pub fn finish(self, database_id: [u8; 16]) -> (batch: Result<FeedBatch, Error>)
        requires
            self@.wf(),
        ensures
            match batch {
                Ok(batch) => !incomplete(self@) && batch@ == batch_model(self@, database_id@),
                Err(e) => incomplete(self@) && e == Error::Storage(
                    storage::Error::Corrupt(MISSING_LOG),
                ),
            },
    {
        let ghost model = self@;
        if self.logical && self.end < self.frontier && self.records.len()
            < self.limits.max_records && !self.byte_limited {
            return Err(Error::Storage(storage::Error::Corrupt(MISSING_LOG)));
        }
        let Feed { logical, start, end, records, .. } = self;
        if logical {
            let batch = FeedBatch {
                database_id,
                start_exclusive: start,
                end_inclusive: end,
                records: FeedRecords::Logical(records),
            };
            assert(batch@ =~= batch_model(model, database_id@));
            return Ok(batch);
        }
        let mut outcomes: Vec<OutcomeRecord> = Vec::new();
        let mut i: usize = 0;
        while i < records.len()
            invariant
                i <= records@.len(),
                outcomes@.len() == i,
                forall|k: int| 0 <= k < i ==> (#[trigger] outcomes@[k])@ == records@[k].outcome@,
            decreases records@.len() - i,
        {
            outcomes.push(records[i].outcome.duplicate());
            i += 1;
        }
        let batch = FeedBatch {
            database_id,
            start_exclusive: start,
            end_inclusive: end,
            records: FeedRecords::Resolved(outcomes),
        };
        assert(batch@.records =~= batch_model(model, database_id@).records);
        assert(batch@ =~= batch_model(model, database_id@));
        Ok(batch)
    }
}

// ---- Exact versions ------------------------------------------------------

/// How missing history that a registered cursor protects is reported.
pub fn protected(error: Error, reason: &'static str) -> (fault: Error)
    ensures
        fault == if error == Error::HistoryUnavailable {
            Error::Storage(storage::Error::Corrupt(reason))
        } else {
            error
        },
{
    match error {
        Error::HistoryUnavailable => Error::Storage(storage::Error::Corrupt(reason)),
        other => other,
    }
}

/// Compare an effect of an outcome with the version that is stored under its
/// exact sequence. The latest value cannot stand for a historical effect.
pub fn check_version(actual: Option<&[u8]>, expected: &[u8]) -> (checked: Result<(), Error>)
    ensures
        checked == match actual {
            None => Err::<(), Error>(Error::HistoryUnavailable),
            Some(actual) => if actual@ == expected@ {
                Ok(())
            } else {
                Err(Error::Storage(storage::Error::Corrupt(OTHER_VERSION)))
            },
        },
{
    match actual {
        None => Err(Error::HistoryUnavailable),
        Some(actual) => {
            if !same_bytes(actual, expected) {
                return Err(Error::Storage(storage::Error::Corrupt(OTHER_VERSION)));
            }
            Ok(())
        },
    }
}

/// Check that the table of an effect was live at the sequence of the effect;
/// `live` is none where the catalogue has no version of the table.
pub fn check_table(live: Option<bool>) -> (checked: Result<(), Error>)
    ensures
        checked == if live == Some(true) {
            Ok::<(), Error>(())
        } else {
            Err(Error::HistoryUnavailable)
        },
{
    match live {
        Some(true) => Ok(()),
        _ => Err(Error::HistoryUnavailable),
    }
}

// ---- Laws ----------------------------------------------------------------

/// Whether the records of a feed are those of its sequences, and those of a
/// logical feed are valid logged records, each chained to the one before it.
pub open spec fn sourced(f: FeedModel) -> bool {
    &&& forall|i: int|
        0 <= i < f.records.len() ==> (#[trigger] f.records[i]).outcome.sequence == f.start + i + 1
    &&& f.logical ==> forall|i: int|
        0 <= i < f.records.len() ==> batch::log_fault(
            (#[trigger] f.records[i]).log,
            f.records[i].outcome,
            if i == 0 {
                None
            } else {
                Some(external::sha256_of(f.records[i - 1].log))
            },
        ) is None
}

proof fn lemma_needed_prefix(logical: bool, records: Seq<FeedRecord>, n: int)
    requires
        0 <= n <= records.len(),
    ensures
        needed_for(logical, records.subrange(0, n)) <= needed_for(logical, records),
    decreases records.len(),
{
    if n < records.len() {
        lemma_needed_prefix(logical, records.drop_last(), n);
        assert(records.drop_last().subrange(0, n) =~= records.subrange(0, n));
    } else {
        assert(records.subrange(0, n) =~= records);
    }
}

proof fn lemma_needed_least(logical: bool, records: Seq<FeedRecord>)
    requires
        forall|i: int|
            0 <= i < records.len() ==> outcome::storable((#[trigger] records[i]).outcome),
    ensures
        needed_for(logical, records) >= 80 * records.len(),
    decreases records.len(),
{
    broadcast use bytes::group_le;

    if records.len() > 0 {
        assert(records.last() == records[records.len() - 1]);
        assert(outcome::storable(records.last().outcome));
        lemma_needed_least(logical, records.drop_last());
    }
}

proof fn lemma_needed_step(logical: bool, records: Seq<FeedRecord>, i: int)
    requires
        0 <= i < records.len(),
    ensures
        needed_for(logical, records.subrange(0, i + 1)) == needed_for(
            logical,
            records.subrange(0, i),
        ) + needed(logical, records[i]),
{
    assert(records.subrange(0, i + 1).drop_last() =~= records.subrange(0, i));
    assert(records.subrange(0, i + 1).last() == records[i]);
}

/// An outcome that is due adds its bytes and their length.
proof fn lemma_outcome_added(out: Seq<u8>, b: BatchModel, i: int)
    requires
        b.records[i].outcome.sequence == b.start + i + 1,
        outcome::storable(b.records[i].outcome),
        EMPTY_BATCH_BYTES + out.len() + outcome::outcome_bytes(b.records[i].outcome).len() + 4
            <= MAX_BATCH_BYTES,
    ensures
        batch::with_outcome(out, b, i) matches Ok(next) && next.len() == out.len()
            + outcome::outcome_bytes(b.records[i].outcome).len() + 4,
{
    broadcast use bytes::group_le;

}

/// A record that is due adds what it needs.
proof fn lemma_record_added(out: Seq<u8>, b: BatchModel, i: int, predecessor: Option<Seq<u8>>)
    requires
        b.records[i].outcome.sequence == b.start + i + 1,
        outcome::storable(b.records[i].outcome),
        b.logical ==> batch::log_fault(b.records[i].log, b.records[i].outcome, predecessor) is None,
        EMPTY_BATCH_BYTES + out.len() + needed(b.logical, b.records[i]) <= MAX_BATCH_BYTES,
    ensures
        batch::with_record(out, b, i, predecessor) matches Ok(next) && next.len() == out.len()
            + needed(b.logical, b.records[i]),
{
    reveal(batch::with_record);
    if b.logical {
        let log = b.records[i].log;
        assert(bytes::blob(log).len() == log.len() + 4) by {
            broadcast use bytes::group_le;

        }
        lemma_outcome_added(out + bytes::blob(log), b, i);
    } else {
        lemma_outcome_added(out, b, i);
    }
}

/// What the `i`-th record of a feed must name.
spec fn named_by(f: FeedModel, i: int) -> Option<Seq<u8>> {
    if i == 0 || !f.logical {
        None
    } else {
        Some(external::sha256_of(f.records[i - 1].log))
    }
}

/// The records from the `i`-th on are encoded, behind those before them.
proof fn lemma_encoded(f: FeedModel, id: Seq<u8>, out: Seq<u8>, i: int)
    requires
        f.wf(),
        sourced(f),
        0 <= i <= f.records.len(),
        out.len() == needed_for(f.logical, f.records.subrange(0, i)),
    ensures
        batch::with_records(out, batch_model(f, id), i, named_by(f, i)) matches Ok(data)
            && data.len() == needed_for(f.logical, f.records),
    decreases f.records.len() - i,
{
    let b = batch_model(f, id);
    if i < f.records.len() {
        let r = f.records[i];
        assert(b.records[i].outcome == r.outcome);
        assert(outcome::storable(r.outcome));
        assert(needed(f.logical, b.records[i]) == needed(f.logical, r));
        lemma_needed_step(f.logical, f.records, i);
        lemma_needed_prefix(f.logical, f.records, i + 1);
        lemma_record_added(out, b, i, named_by(f, i));
        assert(batch::successor(b, i) == named_by(f, i + 1));
        lemma_encoded(f, id, batch::with_record(out, b, i, named_by(f, i))->Ok_0, i + 1);
    } else {
        assert(f.records.subrange(0, i) =~= f.records);
    }
}

/// A batch that a feed puts together can be sent: it is encoded in exactly the
/// bytes that the feed counted, and these keep the limit of the request.
pub proof fn collected_batches_can_be_sent(f: FeedModel, id: Seq<u8>)
    requires
        f.wf(),
        sourced(f),
        id.len() == 16,
        id != bytes::zeros(16),
    ensures
        batch::batch_bytes(batch_model(f, id)) matches Ok(s) && s.len() == f.size && s.len()
            <= f.limits.max_bytes,
{
    let b = batch_model(f, id);
    lemma_needed_least(f.logical, f.records);
    assert(f.records.subrange(0, 0) =~= Seq::empty());
    lemma_encoded(f, id, Seq::empty(), 0);
    lemma_sealed(b);
}

/// A batch is longer than its records by the length of an empty one.
proof fn lemma_sealed(b: BatchModel)
    requires
        batch::interval(b.database_id, b.start, b.end, b.records.len()),
        b.database_id.len() == 16,
        batch::with_records(Seq::empty(), b, 0, None) is Ok,
    ensures
        batch::batch_bytes(b) matches Ok(s) && s.len() == EMPTY_BATCH_BYTES + batch::with_records(
            Seq::empty(),
            b,
            0,
            None,
        )->Ok_0.len(),
{
    broadcast use bytes::group_le;

    let records = batch::with_records(Seq::empty(), b, 0, None)->Ok_0;
    let head = batch::batch_header(b, (records.len() + EMPTY_BATCH_BYTES) as u32);
    assert(head.len() == 56);
    assert(exchange::sealed(head + records).len() == head.len() + records.len() + 4);
}

/// A complete batch stops at the frontier, at the record limit, or before a
/// record that does not fit.
pub proof fn batches_are_filled(f: FeedModel)
    requires
        f.wf(),
        wanted(f) is None,
    ensures
        f.end == f.frontier || f.records.len() == f.limits.max_records || f.byte_limited,
        !incomplete(f),
{
}

// ---- Whole walks ---------------------------------------------------------

/// A segment that holds the next record of a feed is read while the feed has
/// room and has not reached its frontier, wherever else the segment reaches.
pub proof fn segments_with_the_next_record_are_read(f: FeedModel, segment: SegmentModel)
    requires
        f.wf(),
        segment.first_sequence <= f.end + 1 <= segment.last_sequence,
        f.end < f.frontier,
        f.records.len() < f.limits.max_records,
        !f.byte_limited,
    ensures
        visited(f, segment) == Ok::<Visit, Error>(Visit::Read),
        wanted(f) == Some((f.end + 1) as u64),
{
}

/// A feed after the records of a segment from `sequence` to `last`: those up to
/// its start are passed over, and it stops where it reads no further. `log` has
/// the logged bytes, the digest and the outcome of each record.
pub open spec fn through_segment(
    f: FeedModel,
    log: spec_fn(u64) -> (Seq<u8>, Seq<u8>, OutcomeRecord),
    sequence: int,
    last: u64,
) -> Result<FeedModel, Error>
    decreases last - sequence + 1,
{
    if sequence > last || !due(f, sequence as u64) {
        Ok(f)
    } else if !behind_start(f, sequence as u64) {
        through_segment(f, log, sequence + 1, last)
    } else {
        let (bytes, digest, outcome) = log(sequence as u64);
        match collected_log(f, bytes, digest, outcome) {
            Err(e) => Err(e),
            Ok(next) => through_segment(next, log, sequence + 1, last),
        }
    }
}

/// A feed after the segments of a log from the `i`-th on.
pub open spec fn through_log(
    f: FeedModel,
    log: spec_fn(u64) -> (Seq<u8>, Seq<u8>, OutcomeRecord),
    segments: Seq<SegmentModel>,
    i: int,
) -> Result<FeedModel, Error>
    decreases segments.len() - i,
{
    if !(0 <= i < segments.len()) {
        Ok(f)
    } else {
        match visited(f, segments[i]) {
            Err(e) => Err(e),
            Ok(Visit::Stop) => Ok(f),
            Ok(Visit::Skip) => through_log(f, log, segments, i + 1),
            Ok(Visit::Read) => match through_segment(
                f,
                log,
                segments[i].first_sequence as int,
                segments[i].last_sequence,
            ) {
                Err(e) => Err(e),
                Ok(next) => through_log(next, log, segments, i + 1),
            },
        }
    }
}

/// Whether the segments of a log follow each other without a gap.
pub open spec fn contiguous(segments: Seq<SegmentModel>) -> bool {
    &&& forall|i: int|
        0 <= i < segments.len() ==> (#[trigger] segments[i]).first_sequence
            <= segments[i].last_sequence
    &&& forall|i: int, j: int|
        0 <= i && j == i + 1 && j < segments.len() ==> (#[trigger] segments[j]).first_sequence == (
        #[trigger] segments[i]).last_sequence + 1
}

/// Whether the log of a feed is intact: each outcome is the one of its logged
/// record and can be stored.
pub open spec fn intact(
    log: spec_fn(u64) -> (Seq<u8>, Seq<u8>, OutcomeRecord),
    start: u64,
    frontier: u64,
) -> bool {
    forall|n: u64|
        start < n <= frontier ==> {
            let (bytes, digest, outcome) = #[trigger] log(n);
            outcome@.digest == digest && outcome@.kind == bytes[24] && outcome::storable(outcome@)
        }
}

/// The `n`-th record of a log.
pub open spec fn logged(log: spec_fn(u64) -> (Seq<u8>, Seq<u8>, OutcomeRecord), n: int) -> FeedRecord {
    FeedRecord { log: log(n as u64).0, outcome: log(n as u64).2@ }
}

/// Whether a feed holds the records of a log behind its start, without a gap,
/// and is full only where the record behind them does not fit.
pub open spec fn filled(
    f: FeedModel,
    log: spec_fn(u64) -> (Seq<u8>, Seq<u8>, OutcomeRecord),
) -> bool {
    &&& f.wf()
    &&& forall|k: int|
        0 <= k < f.records.len() ==> #[trigger] f.records[k] == logged(log, f.start + 1 + k)
    &&& f.byte_limited ==> f.end < f.frontier && f.size + needed(
        f.logical,
        logged(log, f.end + 1),
    ) > f.limits.max_bytes && f.records.len() > 0
}

/// Whether two feeds are steps of one walk.
pub open spec fn same_request(a: FeedModel, b: FeedModel) -> bool {
    a.start == b.start && a.frontier == b.frontier && a.limits == b.limits && a.logical == b.logical
}

/// A record that is wanted is collected, or the batch is full before it, or not
/// even it fits an empty batch.
proof fn lemma_collected(
    f: FeedModel,
    log: spec_fn(u64) -> (Seq<u8>, Seq<u8>, OutcomeRecord),
    sequence: u64,
)
    requires
        filled(f, log),
        intact(log, f.start, f.frontier),
        wanted(f) == Some(sequence),
    ensures
        match collected(f, logged(log, sequence as int)) {
            Ok(next) => filled(next, log) && same_request(f, next) && (next.byte_limited
                || next.end == f.end + 1),
            Err(e) => e == Error::BatchTooSmall {
                required: clamped(
                    EMPTY_BATCH_BYTES + needed(f.logical, logged(log, f.start + 1)),
                ),
            } && EMPTY_BATCH_BYTES + needed(f.logical, logged(log, f.start + 1))
                > f.limits.max_bytes,
        },
{
    let r = logged(log, sequence as int);
    let (bytes, digest, outcome) = log(sequence);
    assert(outcome::storable(r.outcome));
    if let Ok(next) = collected(f, r) {
        if !next.byte_limited {
            assert(next.records.drop_last() =~= f.records);
            assert forall|k: int| 0 <= k < next.records.len() implies #[trigger] next.records[k]
                == logged(log, next.start + 1 + k) by {
                if k < f.records.len() {
                    assert(next.records[k] == f.records[k]);
                }
            }
            assert forall|k: int| 0 <= k < next.records.len() implies outcome::storable(
                (#[trigger] next.records[k]).outcome,
            ) by {
                if k < f.records.len() {
                    assert(next.records[k] == f.records[k]);
                }
            }
        }
    }
}

proof fn lemma_through_segment(
    f: FeedModel,
    log: spec_fn(u64) -> (Seq<u8>, Seq<u8>, OutcomeRecord),
    sequence: int,
    last: u64,
)
    requires
        filled(f, log),
        intact(log, f.start, f.frontier),
        0 <= sequence,
        sequence <= last + 1,
        sequence <= f.start + 1 && f.end == f.start || sequence == f.end + 1 || complete(f),
        f.start < last,
    ensures
        match through_segment(f, log, sequence, last) {
            Ok(next) => filled(next, log) && same_request(f, next) && (complete(next) || next.end
                == next.frontier || next.end == last),
            Err(e) => e == Error::BatchTooSmall {
                required: clamped(
                    EMPTY_BATCH_BYTES + needed(f.logical, logged(log, f.start + 1)),
                ),
            } && EMPTY_BATCH_BYTES + needed(f.logical, logged(log, f.start + 1))
                > f.limits.max_bytes,
        },
    decreases last - sequence + 1,
{
    if sequence > last || !due(f, sequence as u64) {
    } else if sequence <= f.start {
        lemma_through_segment(f, log, sequence + 1, last);
    } else {
        assert(wanted(f) == Some(sequence as u64));
        lemma_collected(f, log, sequence as u64);
        let (bytes, digest, outcome) = log(sequence as u64);
        assert(collected_log(f, bytes, digest, outcome) == collected(f, logged(log, sequence)));
        if let Ok(next) = collected_log(f, bytes, digest, outcome) {
            lemma_through_segment(next, log, sequence + 1, last);
        }
    }
}

proof fn lemma_through_log(
    f: FeedModel,
    log: spec_fn(u64) -> (Seq<u8>, Seq<u8>, OutcomeRecord),
    segments: Seq<SegmentModel>,
    i: int,
)
    requires
        filled(f, log),
        intact(log, f.start, f.frontier),
        contiguous(segments),
        0 <= i <= segments.len(),
        i < segments.len() ==> segments[i].first_sequence <= f.start + 1 && f.end == f.start
            || segments[i].first_sequence == f.end + 1 || complete(f) || f.end == f.frontier,
        i == segments.len() ==> complete(f) || f.end == f.frontier,
        segments.len() > 0,
        segments.last().last_sequence >= f.frontier,
    ensures
        match through_log(f, log, segments, i) {
            Ok(next) => filled(next, log) && same_request(f, next) && (complete(next) || next.end
                == next.frontier),
            Err(e) => e == Error::BatchTooSmall {
                required: clamped(
                    EMPTY_BATCH_BYTES + needed(f.logical, logged(log, f.start + 1)),
                ),
            } && EMPTY_BATCH_BYTES + needed(f.logical, logged(log, f.start + 1))
                > f.limits.max_bytes,
        },
    decreases segments.len() - i,
{
    if i < segments.len() {
        let segment = segments[i];
        assert(segment.first_sequence <= segment.last_sequence);
        if i + 1 < segments.len() {
            assert(segments[i + 1].first_sequence == segment.last_sequence + 1);
        } else {
            assert(segment == segments.last());
        }
        match visited(f, segment) {
            Ok(Visit::Skip) => {
                lemma_through_log(f, log, segments, i + 1);
            },
            Ok(Visit::Read) => {
                lemma_through_segment(
                    f,
                    log,
                    segment.first_sequence as int,
                    segment.last_sequence,
                );
                if let Ok(next) = through_segment(
                    f,
                    log,
                    segment.first_sequence as int,
                    segment.last_sequence,
                ) {
                    lemma_through_log(next, log, segments, i + 1);
                }
            },
            _ => {},
        }
    }
}

/// A logical feed misses nothing of an intact log: a walk over segments without
/// a gap, from the record behind the watermark or an earlier one up to the
/// frontier, gives exactly the records behind the watermark, in order, up to the
/// frontier, to the record limit or to a record that does not fit. It fails only
/// where not even the first record fits an empty batch, and is never incomplete.
pub proof fn logical_feeds_collect_every_record(
    after: u64,
    limits: BatchLimits,
    frontier: u64,
    log: spec_fn(u64) -> (Seq<u8>, Seq<u8>, OutcomeRecord),
    segments: Seq<SegmentModel>,
)
    requires
        after <= frontier < u64::MAX,
        EMPTY_BATCH_BYTES <= limits.max_bytes <= MAX_BATCH_BYTES,
        intact(log, after, frontier),
        contiguous(segments),
        segments.len() > 0,
        segments[0].first_sequence <= after + 1,
        segments.last().last_sequence >= frontier,
    ensures
        match through_log(opened(after, limits, frontier, true), log, segments, 0) {
            Ok(f) => {
                &&& f.start == after
                &&& f.end == after + f.records.len()
                &&& forall|k: int|
                    0 <= k < f.records.len() ==> (#[trigger] f.records[k]).log == log(
                        (after + 1 + k) as u64,
                    ).0 && f.records[k].outcome == log((after + 1 + k) as u64).2@
                &&& f.end == frontier || f.records.len() == limits.max_records || f.size + needed(
                    true,
                    logged(log, f.end + 1),
                ) > limits.max_bytes
                &&& !incomplete(f)
            },
            Err(e) => e is BatchTooSmall && EMPTY_BATCH_BYTES + needed(
                true,
                logged(log, after + 1),
            ) > limits.max_bytes,
        },
{
    let f = opened(after, limits, frontier, true);
    lemma_through_log(f, log, segments, 0);
}

/// A resolved feed after all the outcomes that it wants.
pub open spec fn through_outcomes(
    f: FeedModel,
    outcomes: spec_fn(u64) -> OutcomeRecord,
    steps: nat,
) -> Result<FeedModel, Error>
    decreases steps,
{
    match wanted(f) {
        None => Ok(f),
        Some(sequence) => if steps == 0 {
            Ok(f)
        } else {
            match collected(f, resolved_record(outcomes(sequence))) {
                Err(e) => Err(e),
                Ok(next) => through_outcomes(next, outcomes, (steps - 1) as nat),
            }
        },
    }
}

/// The log of a resolved feed: outcomes alone.
spec fn outcome_log(outcomes: spec_fn(u64) -> OutcomeRecord) -> spec_fn(u64) -> (
    Seq<u8>,
    Seq<u8>,
    OutcomeRecord,
) {
    |n: u64|
        (
            Seq::<u8>::empty(),
            outcomes(n)@.digest,
            outcomes(n),
        )
}

proof fn lemma_through_outcomes(
    f: FeedModel,
    outcomes: spec_fn(u64) -> OutcomeRecord,
    steps: nat,
)
    requires
        filled(f, outcome_log(outcomes)),
        forall|n: u64|
            f.start < n <= f.frontier ==> outcome::storable((#[trigger] outcomes(n))@),
        steps > f.frontier - f.end,
    ensures
        match through_outcomes(f, outcomes, steps) {
            Ok(next) => filled(next, outcome_log(outcomes)) && same_request(f, next) && wanted(
                next,
            ) is None,
            Err(e) => e is BatchTooSmall && EMPTY_BATCH_BYTES + needed(
                f.logical,
                resolved_record(outcomes((f.start + 1) as u64)),
            ) > f.limits.max_bytes,
        },
    decreases steps,
{
    let log = outcome_log(outcomes);
    if let Some(sequence) = wanted(f) {
        let r = resolved_record(outcomes(sequence));
        assert(logged(log, sequence as int) == r);
        assert(outcome::storable(r.outcome));
        if let Ok(next) = collected(f, r) {
            if next.byte_limited {
                assert(through_outcomes(next, outcomes, (steps - 1) as nat) == Ok::<
                    FeedModel,
                    Error,
                >(next));
            } else {
                assert(next.records.drop_last() =~= f.records);
                assert forall|k: int| 0 <= k < next.records.len() implies #[trigger] next.records[k]
                    == logged(log, next.start + 1 + k) && outcome::storable(
                    next.records[k].outcome,
                ) by {
                    if k < f.records.len() {
                        assert(next.records[k] == f.records[k]);
                    }
                }
                lemma_through_outcomes(next, outcomes, (steps - 1) as nat);
            }
        }
    }
}

/// A resolved feed misses nothing: given each outcome that it wants, it gives
/// exactly those behind the watermark, in order, up to the frontier, to the
/// record limit or to one that does not fit. It fails only where not even the
/// first one fits an empty batch.
pub proof fn resolved_feeds_collect_every_outcome(
    after: u64,
    limits: BatchLimits,
    frontier: u64,
    outcomes: spec_fn(u64) -> OutcomeRecord,
)
    requires
        after <= frontier < u64::MAX,
        EMPTY_BATCH_BYTES <= limits.max_bytes <= MAX_BATCH_BYTES,
        forall|n: u64| after < n <= frontier ==> outcome::storable((#[trigger] outcomes(n))@),
    ensures
        match through_outcomes(
            opened(after, limits, frontier, false),
            outcomes,
            (frontier - after + 1) as nat,
        ) {
            Ok(f) => {
                &&& f.start == after
                &&& f.end == after + f.records.len()
                &&& forall|k: int|
                    0 <= k < f.records.len() ==> (#[trigger] f.records[k]).outcome == outcomes(
                        (after + 1 + k) as u64,
                    )@
                &&& f.end == frontier || f.records.len() == limits.max_records || f.size + needed(
                    false,
                    resolved_record(outcomes((f.end + 1) as u64)),
                ) > limits.max_bytes
            },
            Err(e) => e is BatchTooSmall && EMPTY_BATCH_BYTES + needed(
                false,
                resolved_record(outcomes((after + 1) as u64)),
            ) > limits.max_bytes,
        },
{
    let f = opened(after, limits, frontier, false);
    lemma_through_outcomes(f, outcomes, (frontier - after + 1) as nat);
    if let Ok(next) = through_outcomes(f, outcomes, (frontier - after + 1) as nat) {
        assert(logged(outcome_log(outcomes), next.end + 1) == resolved_record(
            outcomes((next.end + 1) as u64),
        ));
        assert forall|k: int| 0 <= k < next.records.len() implies (
        #[trigger] next.records[k]).outcome == outcomes((after + 1 + k) as u64)@ by {
            assert(next.records[k] == logged(outcome_log(outcomes), next.start + 1 + k));
        }
    }
}

/// A registered cursor reads its feeds from its baseline on: a feed of its kind
/// opens at every watermark of the database from the baseline to the frontier,
/// and at no other, with any limit that holds an empty batch and is not too
/// large. Both cursors for logical feeds and for log replicas read logical
/// feeds.
pub proof fn cursors_read_their_feeds(
    w: World,
    t: TokenModel,
    info: cursor::InfoModel,
    after: WatermarkModel,
    limits: BatchLimits,
    frontier: u64,
    logical: bool,
)
    requires
        cursor::reopened(w, t) == Ok::<cursor::InfoModel, Error>(info),
    ensures
        feed_fault(w, t, after, limits, frontier, logical) is None <==> {
            &&& logical == (info.token.kind == CursorKind::Logical || info.token.kind
                == CursorKind::LogReplica)
            &&& after.database_id == w.manifest.database_id
            &&& info.baseline <= after.sequence <= frontier
            &&& 60 <= limits.max_bytes <= 268435456
        },
{
}

} // verus!
