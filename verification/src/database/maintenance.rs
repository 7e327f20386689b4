//! Local maintenance controls, separate from canonical sequence assignment.

use super::cursor::RetentionFloors;
use super::engine;
use super::engine::{publish_checkpoint, read_record, segment_header, RECORD_HEADER_LENGTH};
use super::persisted_read;
use super::record;
use super::record::{decode, Command, CommandModel};
use super::segments;
use super::segments::Entry;
use super::Error;
use crate::bytes;
use crate::bytes::{same_bytes, same_digest};
use crate::database;
use crate::external;
use crate::storage;
use crate::storage::{Manifest, ManifestModel, SegmentDescriptor, SegmentModel};
use vstd::prelude::*;

verus! {

pub const NOT_DRAINED: &'static str = "maintenance sequencer is not drained";

pub const OTHER_HEADER: &'static str = "maintenance log header mismatch";

pub const OTHER_END: &'static str = "maintenance log endpoint mismatch";

/// How many backups may run at a time.
pub const MAX_BACKUPS: usize = 4;

/// Attachment does not create a new canonical history. A writable restore is
/// permitted only when the caller has retired the source primary. This local
/// library cannot fence a primary running on another machine.
#[derive(Clone, Copy, Debug, PartialEq, Eq, Structural)]
pub enum AttachMode {
    RestorePrimarySourceRetired,
    /// Reject canonical submissions, not local storage writes. Cursor changes,
    /// collection and compaction may apply this replica's own retention policy.
    ReadOnlyReplica,
}

impl AttachMode {
    /// Whether the attached copy rejects canonical submissions.
    pub fn is_read_only(&self) -> (read_only: bool)
        ensures
            read_only == (*self == AttachMode::ReadOnlyReplica),
    {
        match self {
            AttachMode::RestorePrimarySourceRetired => false,
            AttachMode::ReadOnlyReplica => true,
        }
    }
}

/// Manual maintenance. Default collects eligible history, compacts all five
/// trees and seals the current log. All-false only validates and reclaims
/// files.
#[derive(Clone, Copy, Debug, PartialEq, Eq, Structural)]
pub struct MaintenanceOptions {
    pub collect_history: bool,
    pub compact: bool,
    /// The next canonical record starts a fresh nonempty segment. Reopening
    /// also starts a fresh segment, so crashes cannot undo this boundary.
    pub rotate_log: bool,
}

impl Default for MaintenanceOptions {
    fn default() -> (options: MaintenanceOptions)
        ensures
            options.collect_history,
            options.compact,
            options.rotate_log,
    {
        MaintenanceOptions { collect_history: true, compact: true, rotate_log: true }
    }
}

/// What was freed, and what must wait for its last reader.
#[derive(Clone, Copy, Debug, PartialEq, Eq, Structural)]
pub struct Reclaimed {
    pub files: u64,
    pub deferred_files: u64,
}

#[derive(Clone, Copy, Debug, PartialEq, Eq, Structural)]
pub struct MaintenanceReport {
    pub frontier: u64,
    pub generation: u64,
    pub previous_floors: RetentionFloors,
    pub floors: RetentionFloors,
    pub versions_removed: u64,
    pub outcomes_removed: u64,
    pub segments_retired: u64,
    pub previous_page_file: u64,
    pub page_file: u64,
    pub previous_pages: u64,
    pub pages: u64,
    pub rotation_pending: bool,
    pub reclaimed: Reclaimed,
}

// ---- Start ---------------------------------------------------------------

/// Whether the sequencer has no unfinished record.
pub open spec fn drained(m: ManifestModel, frontier: u64) -> bool {
    frontier == m.durable_sequence && m.checkpoint_sequence <= frontier
}

/// The manifest that maintenance publishes first: a checkpoint of everything
/// durable, which normal operation may not have made yet.
pub fn begin(manifest: &Manifest, frontier: u64) -> (next: Result<Manifest, Error>)
    ensures
        match next {
            Ok(next) => drained(manifest@, frontier) && next@ == engine::checkpointed(manifest@),
            Err(e) => !drained(manifest@, frontier) && e == Error::Storage(
                storage::Error::InvalidInput(NOT_DRAINED),
            ),
        },
{
    if frontier != manifest.durable_sequence || manifest.checkpoint_sequence > frontier {
        return Err(Error::Storage(storage::Error::InvalidInput(NOT_DRAINED)));
    }
    Ok(publish_checkpoint(manifest))
}

// ---- Audit ---------------------------------------------------------------

/// How far the audit of a segment has come.
#[derive(Debug, PartialEq, Eq)]
pub struct Audit {
    /// The next record; none after the last.
    pub next: Option<u64>,
    /// The committed bytes that have not been read.
    pub remaining: u64,
    /// The digest of the record before the next one.
    pub predecessor: [u8; 32],
}

/// The model of an [`Audit`].
#[verifier::ext_equal]
pub struct AuditModel {
    pub next: Option<u64>,
    pub remaining: u64,
    pub predecessor: Seq<u8>,
}

impl Audit {
    pub open spec fn view(&self) -> AuditModel {
        AuditModel {
            next: self.next,
            remaining: self.remaining,
            predecessor: self.predecessor@,
        }
    }
}

/// A record of an audited segment.
#[derive(Debug, PartialEq, Eq)]
pub struct Audited {
    pub sequence: u64,
    pub digest: [u8; 32],
    pub kind: u8,
    pub command: Command,
    /// How many bytes of the segment the record takes.
    pub length: usize,
}

/// The model of an [`Audited`].
#[verifier::ext_equal]
pub struct AuditedModel {
    pub sequence: u64,
    pub digest: Seq<u8>,
    pub kind: u8,
    pub command: CommandModel,
    pub length: int,
}

impl Audited {
    pub open spec fn view(&self) -> AuditedModel {
        AuditedModel {
            sequence: self.sequence,
            digest: self.digest@,
            kind: self.kind,
            command: self.command@,
            length: self.length as int,
        }
    }
}

/// The audit of a segment behind its header.
pub open spec fn audit_start(segment: SegmentModel) -> AuditModel {
    AuditModel {
        next: if segment.first_sequence <= segment.last_sequence {
            Some(segment.first_sequence)
        } else {
            None
        },
        remaining: (segment.committed_bytes - 96) as u64,
        predecessor: segment.predecessor_digest,
    }
}

/// The next record of an audited segment and the audit behind it, or what is
/// wrong with the record. `rest` holds the bytes that have not been read.
pub open spec fn audited(segment: SegmentModel, a: AuditModel, rest: Seq<u8>) -> Result<
    (AuditModel, AuditedModel),
    Error,
> {
    let sequence = a.next->0;
    match engine::record_fault(rest, a.remaining, sequence, a.predecessor) {
        Some(e) => Err(Error::Storage(e)),
        None => {
            let length = bytes::un32(bytes::part(rest, 8, 4)) as int;
            let kind = rest[24];
            let digest = external::sha256_of(rest.subrange(0, length));
            match record::command_of(kind, rest.subrange(64, length - 8)) {
                Err(e) => Err(database::unreadable(e)),
                Ok(command) => Ok(
                    (
                        AuditModel {
                            next: if sequence < segment.last_sequence {
                                Some((sequence + 1) as u64)
                            } else {
                                None
                            },
                            remaining: (a.remaining - length) as u64,
                            predecessor: digest,
                        },
                        AuditedModel { sequence, digest, kind, command, length },
                    ),
                ),
            }
        },
    }
}

impl Audit {
    /// Check the header of a segment against the manifest.
    pub fn start(database_id: [u8; 16], segment: &SegmentDescriptor, header: &[u8]) -> (audit:
        Result<Audit, Error>)
        requires
            header@.len() == 96,
            segment.committed_bytes >= 96,
        ensures
            match audit {
                Ok(audit) => header@ == engine::segment_bytes(database_id@, segment@) && audit@
                    == audit_start(segment@),
                Err(e) => header@ != engine::segment_bytes(database_id@, segment@) && e
                    == Error::Storage(storage::Error::Corrupt(OTHER_HEADER)),
            },
    {
        let expected: [u8; 96] = segment_header(database_id, segment);
        if !same_bytes(header, expected.as_slice()) {
            return Err(Error::Storage(storage::Error::Corrupt(OTHER_HEADER)));
        }
        let next = if segment.first_sequence <= segment.last_sequence {
            Some(segment.first_sequence)
        } else {
            None
        };
        Ok(
            Audit {
                next,
                remaining: segment.committed_bytes - 96,
                predecessor: segment.predecessor_digest,
            },
        )
    }

    /// Read the next record. `rest` holds the bytes of the segment that have not
    /// been read. The caller then compares the command with the retained history.
    pub fn record(&mut self, segment: &SegmentDescriptor, rest: &[u8]) -> (read: Result<
        Audited,
        Error,
    >)
        requires
            old(self).next is Some,
        ensures
            match read {
                Ok(read) => audited(segment@, old(self)@, rest@) == Ok::<
                    (AuditModel, AuditedModel),
                    Error,
                >((final(self)@, read@)),
                Err(e) => audited(segment@, old(self)@, rest@) == Err::<
                    (AuditModel, AuditedModel),
                    Error,
                >(e) && *final(self) == *old(self),
            },
    {
        let sequence: u64 = match self.next {
            Some(sequence) => sequence,
            None => 0,
        };
        let (length, digest) = match read_record(
            rest,
            self.remaining,
            sequence,
            self.predecessor,
        ) {
            Ok(read) => read,
            Err(e) => {
                return Err(Error::Storage(e));
            },
        };
        let kind: u8 = rest[24];
        let command = match decode(kind, &rest[RECORD_HEADER_LENGTH..length - 8]) {
            Ok(command) => command,
            Err(e) => {
                return Err(persisted_read(e));
            },
        };
        self.next = if sequence < segment.last_sequence {
            Some(sequence + 1)
        } else {
            None
        };
        self.remaining = self.remaining - length as u64;
        self.predecessor = digest;
        Ok(Audited { sequence, digest, kind, command, length })
    }

    /// Check the end of a segment.
    pub fn finish(&self, segment: &SegmentDescriptor) -> (done: Result<(), Error>)
        ensures
            done == if self@.remaining != 0 || self@.predecessor != segment@.last_digest {
                Err::<(), Error>(Error::Storage(storage::Error::Corrupt(OTHER_END)))
            } else {
                Ok(())
            },
    {
        if self.remaining != 0 || !same_digest(&self.predecessor, &segment.last_digest) {
            return Err(Error::Storage(storage::Error::Corrupt(OTHER_END)));
        }
        Ok(())
    }
}

/// All records that an audit still has to read in `rest`, and the audit behind
/// them.
pub open spec fn audited_all(segment: SegmentModel, a: AuditModel, rest: Seq<u8>) -> Result<
    (AuditModel, Seq<AuditedModel>),
    Error,
>
    decreases
            match a.next {
                Some(next) => if next < segment.last_sequence {
                    segment.last_sequence - next + 1
                } else {
                    1
                },
                None => 0,
            },
{
    if a.next is None {
        Ok((a, Seq::empty()))
    } else {
        match audited(segment, a, rest) {
            Err(e) => Err(e),
            Ok((next, read)) => match audited_all(
                segment,
                next,
                rest.subrange(read.length, rest.len() as int),
            ) {
                Err(e) => Err(e),
                Ok((end, list)) => Ok((end, seq![read] + list)),
            },
        }
    }
}

/// The record of an entry is audited at its place.
proof fn lemma_audited(
    segment: SegmentModel,
    sequence: u64,
    predecessor: Seq<u8>,
    entry: Entry,
    command: CommandModel,
    rest: Seq<u8>,
    a: AuditModel,
)
    requires
        predecessor.len() == 32,
        engine::envelope_fault(sequence, entry.kind, entry.body.len()) is None,
        record::command_of(entry.kind, entry.body) == Ok::<CommandModel, crate::vm::Error>(command),
        a.next == Some(sequence),
        a.predecessor == predecessor,
        entry.body.len() + record::RECORD_OVERHEAD <= a.remaining,
    ensures
        ({
            let record = engine::record_bytes(sequence, predecessor, entry.kind, entry.body);
            let digest = external::sha256_of(record);
            audited(segment, a, record + rest) == Ok::<(AuditModel, AuditedModel), Error>(
                (
                    AuditModel {
                        next: if sequence < segment.last_sequence {
                            Some((sequence + 1) as u64)
                        } else {
                            None
                        },
                        remaining: (a.remaining - record.len()) as u64,
                        predecessor: digest,
                    },
                    AuditedModel {
                        sequence,
                        digest,
                        kind: entry.kind,
                        command,
                        length: record.len() as int,
                    },
                ),
            )
        }),
{
    engine::logged_records_are_read_back(
        sequence,
        predecessor,
        entry.kind,
        entry.body,
        rest,
        a.remaining,
    );
}

/// Whether the audited records are those of some entries, in order and under
/// consecutive sequences.
pub open spec fn records_of(
    list: Seq<AuditedModel>,
    first: int,
    entries: Seq<Entry>,
    commands: Seq<CommandModel>,
) -> bool {
    &&& list.len() == entries.len()
    &&& forall|i: int|
        #![trigger list[i]]
        0 <= i < list.len() ==> list[i].sequence == first + i && list[i].kind == entries[i].kind
            && list[i].command == commands[i]
}

/// Whether each entry holds a command.
pub open spec fn holds_commands(entries: Seq<Entry>, commands: Seq<CommandModel>) -> bool {
    &&& commands.len() == entries.len()
    &&& forall|i: int|
        #![trigger entries[i]]
        0 <= i < entries.len() ==> record::command_of(entries[i].kind, entries[i].body) == Ok::<
            CommandModel,
            crate::vm::Error,
        >(commands[i])
}

proof fn lemma_audited_all(
    segment: SegmentModel,
    first: int,
    entries: Seq<Entry>,
    commands: Seq<CommandModel>,
    a: AuditModel,
    rest: Seq<u8>,
)
    requires
        segments::loggable(first, entries),
        a.predecessor.len() == 32,
        rest == segments::written(first, a.predecessor, entries).0,
        rest.len() == a.remaining,
        segment.last_sequence == first + entries.len() - 1,
        holds_commands(entries, commands),
        a.next == if entries.len() > 0 {
            Some(first as u64)
        } else {
            None
        },
    ensures
        audited_all(segment, a, rest) is Ok,
        audited_all(segment, a, rest)->Ok_0.0.remaining == 0,
        audited_all(segment, a, rest)->Ok_0.0.predecessor == segments::written(
            first,
            a.predecessor,
            entries,
        ).1,
        records_of(audited_all(segment, a, rest)->Ok_0.1, first, entries, commands),
    decreases entries.len(),
{
    if entries.len() > 0 {
        let entry = entries[0];
        let record = engine::record_bytes(first as u64, a.predecessor, entry.kind, entry.body);
        let digest = external::sha256_of(record);
        let tail = entries.drop_first();
        let later = commands.drop_first();
        let behind = segments::written(first + 1, digest, tail).0;
        assert(rest == record + behind);
        assert(engine::envelope_fault((first + 0) as u64, entry.kind, entry.body.len()) is None);
        assert(segments::loggable(first + 1, tail)) by {
            assert forall|i: int| 0 <= i < tail.len() implies engine::envelope_fault(
                (first + 1 + i) as u64,
                (#[trigger] tail[i]).kind,
                tail[i].body.len(),
            ) is None by {
                assert(tail[i] == entries[i + 1]);
            }
        }
        assert(holds_commands(tail, later)) by {
            assert forall|i: int|
                #![trigger tail[i]]
                0 <= i < tail.len() implies record::command_of(tail[i].kind, tail[i].body) == Ok::<
                CommandModel,
                crate::vm::Error,
            >(later[i]) by {
                assert(tail[i] == entries[i + 1]);
            }
        }
        engine::lemma_record_length(first as u64, a.predecessor, entry.kind, entry.body);
        lemma_audited(segment, first as u64, a.predecessor, entry, commands[0], behind, a);
        let (next, read) = audited(segment, a, rest)->Ok_0;
        assert(rest.subrange(read.length, rest.len() as int) =~= behind);
        lemma_audited_all(segment, first + 1, tail, later, next, behind);
        let list = audited_all(segment, next, behind)->Ok_0.1;
        let all = seq![read] + list;
        assert(audited_all(segment, a, rest)->Ok_0.1 == all);
        assert forall|i: int|
            #![trigger all[i]]
            0 <= i < all.len() implies all[i].sequence == first + i && all[i].kind
            == entries[i].kind && all[i].command == commands[i] by {
            if i > 0 {
                assert(all[i] == list[i - 1]);
                assert(tail[i - 1] == entries[i]);
                assert(later[i - 1] == commands[i]);
            }
        }
    }
}

/// A segment that is as it was written passes the audit: every logged command is
/// handed out once, in order and under its sequence, and the end fits.
pub proof fn written_segments_pass_the_audit(
    id: Seq<u8>,
    segment: SegmentModel,
    file: Seq<u8>,
    entries: Seq<Entry>,
    commands: Seq<CommandModel>,
)
    requires
        id.len() == 16,
        segments::holds(id, segment, file, entries),
        holds_commands(entries, commands),
    ensures
        file.subrange(0, 96) == engine::segment_bytes(id, segment),
        audited_all(
            segment,
            audit_start(segment),
            file.subrange(96, file.len() as int),
        ) matches Ok((end, list)) && end.remaining == 0 && end.predecessor == segment.last_digest
            && records_of(list, segment.first_sequence as int, entries, commands),
{
    broadcast use bytes::group_le;

    let (records, _) = segments::written(
        segment.first_sequence as int,
        segment.predecessor_digest,
        entries,
    );
    let header = engine::segment_bytes(id, segment);
    assert(header.len() == 96);
    assert(file.subrange(0, 96) =~= header);
    assert(file.subrange(96, file.len() as int) =~= records);
    lemma_audited_all(
        segment,
        segment.first_sequence as int,
        entries,
        commands,
        audit_start(segment),
        records,
    );
}

// ---- Report --------------------------------------------------------------

/// What a maintenance run did: the manifest before it, the candidate that it
/// installed, and what was removed.
pub fn report(
    previous: &Manifest,
    candidate: &Manifest,
    generation: u64,
    frontier: u64,
    versions_removed: u64,
    outcomes_removed: u64,
    rotation_pending: bool,
    reclaimed: Reclaimed,
) -> (report: MaintenanceReport)
    requires
        candidate.segments@.len() <= previous.segments@.len(),
    ensures
        report == (MaintenanceReport {
            frontier,
            generation,
            previous_floors: RetentionFloors {
                history: previous.history_floor,
                log: previous.log_floor,
            },
            floors: RetentionFloors {
                history: candidate.history_floor,
                log: candidate.log_floor,
            },
            versions_removed,
            outcomes_removed,
            segments_retired: (previous.segments@.len() - candidate.segments@.len()) as u64,
            previous_page_file: previous.page_file_id,
            page_file: candidate.page_file_id,
            previous_pages: previous.page_count,
            pages: candidate.page_count,
            rotation_pending,
            reclaimed,
        }),
{
    MaintenanceReport {
        frontier,
        generation,
        previous_floors: RetentionFloors {
            history: previous.history_floor,
            log: previous.log_floor,
        },
        floors: RetentionFloors { history: candidate.history_floor, log: candidate.log_floor },
        versions_removed,
        outcomes_removed,
        segments_retired: (previous.segments.len() - candidate.segments.len()) as u64,
        previous_page_file: previous.page_file_id,
        page_file: candidate.page_file_id,
        previous_pages: previous.page_count,
        pages: candidate.page_count,
        rotation_pending,
        reclaimed,
    }
}

/// Whether the next record starts a fresh segment after maintenance.
pub fn rotation(pending: bool, options: &MaintenanceOptions) -> (rotates: bool)
    ensures
        rotates == (pending || options.rotate_log),
{
    pending || options.rotate_log
}

// ---- Backups -------------------------------------------------------------

/// Whether one more backup may start beside the active ones.
pub fn check_backup(active: usize) -> (checked: Result<(), Error>)
    ensures
        checked == if active >= MAX_BACKUPS {
            Err::<(), Error>(
                Error::OperationalLimit { resource: "backup_jobs", required: 5, limit: 4 },
            )
        } else {
            Ok(())
        },
{
    if active >= MAX_BACKUPS {
        return Err(Error::OperationalLimit { resource: "backup_jobs", required: 5, limit: 4 });
    }
    Ok(())
}

} // verus!
