//! Replay of the log from the published checkpoint.
//!
//! A [`Recovery`] walks the segments that the manifest lists. Its caller reads
//! the files, hands the bytes over, and executes each record that is to be
//! replayed before it goes on.

use super::engine;
use super::engine::{read_record, replay_error, segment_header, RECORD_HEADER_LENGTH};
use super::record;
use super::record::{decode, Command, CommandModel};
use crate::bytes;
use crate::bytes::{same_bytes, same_digest};
use crate::external;
use crate::storage::{Error, Manifest, ManifestModel};
use crate::vm;
use crate::vm::OutcomeRecord;
use vstd::prelude::*;

verus! {

/// How far the replay of a log has come.
#[derive(Debug, PartialEq, Eq)]
pub struct Recovery {
    /// The segment that is read, or is read next.
    pub segment: usize,
    /// Whether the header of that segment has been checked.
    pub opened: bool,
    /// The next record of the opened segment.
    pub next: Option<u64>,
    /// The committed bytes of the opened segment that have not been read.
    pub remaining: u64,
    /// The digest of the record before the next one.
    pub predecessor: [u8; 32],
    /// The last sequence whose record is in the replayed state.
    pub resolved: u64,
}

/// The model of a [`Recovery`].
#[verifier::ext_equal]
pub struct Progress {
    pub segment: int,
    pub opened: bool,
    pub next: Option<u64>,
    pub remaining: u64,
    pub predecessor: Seq<u8>,
    pub resolved: u64,
}

impl Recovery {
    pub open spec fn view(&self) -> Progress {
        Progress {
            segment: self.segment as int,
            opened: self.opened,
            next: self.next,
            remaining: self.remaining,
            predecessor: self.predecessor@,
            resolved: self.resolved,
        }
    }
}

/// A record of the log.
#[derive(Debug, PartialEq, Eq)]
pub struct Step {
    pub sequence: u64,
    pub digest: [u8; 32],
    pub kind: u8,
    pub command: Command,
    /// Whether the record is to be executed; an older one is only compared with
    /// the retained history.
    pub replay: bool,
    /// How many bytes of the segment the record takes.
    pub length: usize,
}

/// The model of a [`Step`].
#[verifier::ext_equal]
pub struct StepModel {
    pub sequence: u64,
    pub digest: Seq<u8>,
    pub kind: u8,
    pub command: CommandModel,
    pub replay: bool,
    pub length: int,
}

impl Step {
    pub open spec fn view(&self) -> StepModel {
        StepModel {
            sequence: self.sequence,
            digest: self.digest@,
            kind: self.kind,
            command: self.command@,
            replay: self.replay,
            length: self.length as int,
        }
    }
}

/// Where a replay starts.
pub open spec fn start_of(m: ManifestModel) -> Progress {
    Progress {
        segment: 0,
        opened: false,
        next: None,
        remaining: 0,
        predecessor: m.checkpoint_digest,
        resolved: m.checkpoint_sequence,
    }
}

/// A replay after the header of its segment was checked against the file.
pub open spec fn opened(m: ManifestModel, p: Progress, file: Seq<u8>) -> Result<Progress, Error> {
    let segment = m.segments[p.segment];
    if file.len() < engine::SEGMENT_HEADER_LENGTH || segment.committed_bytes
        < engine::SEGMENT_HEADER_LENGTH {
        Err(Error::Corrupt(engine::MISSING))
    } else if bytes::part(file, 0, 96) != engine::segment_bytes(m.database_id, segment) {
        Err(Error::Corrupt(engine::OTHER_SEGMENT))
    } else {
        Ok(
            Progress {
                opened: true,
                next: if segment.first_sequence <= segment.last_sequence {
                    Some(segment.first_sequence)
                } else {
                    None
                },
                remaining: (segment.committed_bytes - engine::SEGMENT_HEADER_LENGTH) as u64,
                predecessor: segment.predecessor_digest,
                ..p
            },
        )
    }
}

/// Whether the record `sequence` continues what has been replayed.
pub open spec fn continues(m: ManifestModel, p: Progress, sequence: u64) -> bool {
    &&& sequence == p.resolved + 1
    &&& p.resolved == m.checkpoint_sequence ==> p.predecessor == m.checkpoint_digest
}

/// A replay after its next record, and that record. `rest` holds the unread
/// bytes of the segment.
pub open spec fn stepped(m: ManifestModel, p: Progress, rest: Seq<u8>) -> Result<
    (Progress, StepModel),
    Error,
> {
    let sequence = p.next.unwrap();
    let segment = m.segments[p.segment];
    match engine::record_fault(rest, p.remaining, sequence, p.predecessor) {
        Some(e) => Err(e),
        None => {
            let length = bytes::un32(bytes::part(rest, 8, 4)) as int;
            let digest = external::sha256_of(rest.subrange(0, length));
            if sequence == m.checkpoint_sequence && digest != m.checkpoint_digest {
                Err(Error::Corrupt(engine::OTHER_CHECKPOINT))
            } else {
                match record::command_of(rest[24], rest.subrange(64, length - 8)) {
                    Err(e) => Err(engine::replayed(e)),
                    Ok(command) => {
                        let replay = sequence > m.checkpoint_sequence;
                        if replay && !continues(m, p, sequence) {
                            Err(Error::Corrupt(engine::GAP))
                        } else {
                            Ok(
                                (
                                    Progress {
                                        next: if sequence < segment.last_sequence {
                                            Some((sequence + 1) as u64)
                                        } else {
                                            None
                                        },
                                        remaining: (p.remaining - length) as u64,
                                        predecessor: digest,
                                        resolved: if replay {
                                            sequence
                                        } else {
                                            p.resolved
                                        },
                                        ..p
                                    },
                                    StepModel {
                                        sequence,
                                        digest,
                                        kind: rest[24],
                                        command,
                                        replay,
                                        length,
                                    },
                                ),
                            )
                        }
                    },
                }
            }
        },
    }
}

/// A replay after the end of its segment.
pub open spec fn closed(m: ManifestModel, p: Progress) -> Result<Progress, Error> {
    let segment = m.segments[p.segment];
    if p.remaining != 0 || p.predecessor != segment.last_digest {
        Err(Error::Corrupt(engine::OTHER_END))
    } else {
        Ok(Progress { segment: p.segment + 1, opened: false, ..p })
    }
}

/// Whether a replay that has read all segments is complete, and whether its
/// state is then still to be published.
pub open spec fn finished(m: ManifestModel, p: Progress) -> Result<bool, Error> {
    if p.resolved != m.durable_sequence {
        Err(Error::Corrupt(engine::INCOMPLETE))
    } else {
        Ok(m.checkpoint_sequence != m.durable_sequence)
    }
}

/// What the caller of a replay does next.
#[derive(Clone, Copy, Debug, PartialEq, Eq, Structural)]
pub enum Action {
    /// Read the front of a segment and hand it to `open_segment`.
    Open { segment: u64 },
    /// Hand the segment from a position on to `record`.
    Read { segment: u64, position: u64 },
    /// Call `close_segment`.
    Close,
    /// Call `finish`.
    Finish,
}

impl Recovery {
    /// A replay of the log of a manifest.
    pub fn start(manifest: &Manifest) -> (recovery: Recovery)
        ensures
            recovery@ == start_of(manifest@),
    {
        Recovery {
            segment: 0,
            opened: false,
            next: None,
            remaining: 0,
            predecessor: manifest.checkpoint_digest,
            resolved: manifest.checkpoint_sequence,
        }
    }

    /// What is to be done next.
    pub fn action(&self, manifest: &Manifest) -> (action: Action)
        ensures
            action == if self@.segment >= manifest@.segments.len() {
                Action::Finish
            } else if !self@.opened {
                Action::Open { segment: manifest@.segments[self@.segment].segment_id }
            } else if self@.next is Some {
                Action::Read {
                    segment: manifest@.segments[self@.segment].segment_id,
                    position: if self@.remaining
                        <= manifest@.segments[self@.segment].committed_bytes {
                        (manifest@.segments[self@.segment].committed_bytes
                            - self@.remaining) as u64
                    } else {
                        0
                    },
                }
            } else {
                Action::Close
            },
    {
        if self.segment >= manifest.segments.len() {
            return Action::Finish;
        }
        let segment = &manifest.segments[self.segment];
        assert(manifest@.segments[self.segment as int] == segment@);
        if !self.opened {
            Action::Open { segment: segment.segment_id }
        } else if self.next.is_some() {
            let position: u64 = if self.remaining <= segment.committed_bytes {
                segment.committed_bytes - self.remaining
            } else {
                0
            };
            Action::Read { segment: segment.segment_id, position }
        } else {
            Action::Close
        }
    }

    /// Check the header of the next segment.
    pub fn open_segment(&mut self, manifest: &Manifest, file: &[u8]) -> (done: Result<(), Error>)
        requires
            old(self)@.segment < manifest@.segments.len(),
        ensures
            match done {
                Ok(()) => opened(manifest@, old(self)@, file@) == Ok::<Progress, Error>(
                    final(self)@,
                ),
                Err(e) => opened(manifest@, old(self)@, file@) == Err::<Progress, Error>(e)
                    && final(self)@ == old(self)@,
            },
    {
        let segment = &manifest.segments[self.segment];
        assert(manifest@.segments[self.segment as int] == segment@);
        if file.len() < 96 || segment.committed_bytes < 96 {
            return Err(Error::Corrupt(engine::MISSING));
        }
        let header: [u8; 96] = segment_header(manifest.database_id, segment);
        if !same_bytes(&file[0..96], header.as_slice()) {
            return Err(Error::Corrupt(engine::OTHER_SEGMENT));
        }
        self.opened = true;
        self.next = if segment.first_sequence <= segment.last_sequence {
            Some(segment.first_sequence)
        } else {
            None
        };
        self.remaining = segment.committed_bytes - 96;
        self.predecessor = segment.predecessor_digest;
        Ok(())
    }

    /// Check the next record of the segment. The caller executes it, if it is
    /// to be replayed, before it goes on.
    pub fn record(&mut self, manifest: &Manifest, rest: &[u8]) -> (step: Result<Step, Error>)
        requires
            old(self)@.segment < manifest@.segments.len(),
            old(self)@.next is Some,
        ensures
            match step {
                Ok(step) => stepped(manifest@, old(self)@, rest@) == Ok::<
                    (Progress, StepModel),
                    Error,
                >((final(self)@, step@)),
                Err(e) => stepped(manifest@, old(self)@, rest@) == Err::<
                    (Progress, StepModel),
                    Error,
                >(e) && final(self)@ == old(self)@,
            },
    {
        let sequence: u64 = self.next.unwrap();
        let segment = &manifest.segments[self.segment];
        assert(manifest@.segments[self.segment as int] == segment@);
        let (length, digest) = read_record(rest, self.remaining, sequence, self.predecessor)?;
        if sequence == manifest.checkpoint_sequence && !same_digest(
            &digest,
            &manifest.checkpoint_digest,
        ) {
            return Err(Error::Corrupt(engine::OTHER_CHECKPOINT));
        }
        let kind: u8 = rest[24];
        let command = match decode(kind, &rest[RECORD_HEADER_LENGTH..length - 8]) {
            Ok(command) => command,
            Err(e) => {
                return Err(replay_error(e));
            },
        };
        let replay = sequence > manifest.checkpoint_sequence;
        if replay {
            let chained = self.resolved != manifest.checkpoint_sequence || same_digest(
                &self.predecessor,
                &manifest.checkpoint_digest,
            );
            if self.resolved == u64::MAX || sequence != self.resolved + 1 || !chained {
                return Err(Error::Corrupt(engine::GAP));
            }
            self.resolved = sequence;
        }
        self.next = if sequence < segment.last_sequence {
            Some(sequence + 1)
        } else {
            None
        };
        self.remaining = self.remaining - length as u64;
        self.predecessor = digest;
        Ok(Step { sequence, digest, kind, command, replay, length })
    }

    /// Check the end of the segment.
    pub fn close_segment(&mut self, manifest: &Manifest) -> (done: Result<(), Error>)
        requires
            old(self)@.segment < manifest@.segments.len(),
        ensures
            match done {
                Ok(()) => closed(manifest@, old(self)@) == Ok::<Progress, Error>(final(self)@),
                Err(e) => closed(manifest@, old(self)@) == Err::<Progress, Error>(e) && final(
                    self)@ == old(self)@,
            },
    {
        let segment = &manifest.segments[self.segment];
        assert(manifest@.segments[self.segment as int] == segment@);
        if self.remaining != 0 || !same_digest(&self.predecessor, &segment.last_digest) {
            return Err(Error::Corrupt(engine::OTHER_END));
        }
        let count: usize = manifest.segments.len();
        assert(self.segment < count);
        self.segment = self.segment + 1;
        self.opened = false;
        Ok(())
    }

    /// Check that the replay is complete; says whether its state is still to be
    /// published.
    pub fn finish(&self, manifest: &Manifest) -> (publish: Result<bool, Error>)
        ensures
            publish == finished(manifest@, self@),
    {
        if self.resolved != manifest.durable_sequence {
            return Err(Error::Corrupt(engine::INCOMPLETE));
        }
        Ok(manifest.checkpoint_sequence != manifest.durable_sequence)
    }
}

/// Whether the retained history agrees with an older record.
pub open spec fn agrees(
    kind: u8,
    digest: Seq<u8>,
    outcome: Option<(u8, Seq<u8>)>,
    version: Option<u8>,
) -> bool {
    &&& outcome matches Some((k, d)) ==> k == kind && d == digest
    &&& version matches Some(k) ==> k == kind
}

/// The record that a retained outcome names.
pub open spec fn named(outcome: Option<&OutcomeRecord>) -> Option<(u8, Seq<u8>)> {
    match outcome {
        Some(o) => Some((o.record_kind, o.record_digest@)),
        None => None,
    }
}

/// Compare an older record with the outcome and the version that are retained
/// at its sequence.
pub fn check_retained(
    kind: u8,
    digest: &[u8; 32],
    outcome: Option<&OutcomeRecord>,
    version: Option<u8>,
) -> (agreed: Result<(), vm::Error>)
    ensures
        agreed == if agrees(kind, digest@, named(outcome), version) {
            Ok::<(), vm::Error>(())
        } else {
            Err(vm::Error::Invalid(engine::OTHER_HISTORY))
        },
{
    let other_outcome = match outcome {
        Some(o) => o.record_kind != kind || !same_digest(&o.record_digest, digest),
        None => false,
    };
    let other_version = match version {
        Some(k) => k != kind,
        None => false,
    };
    if other_outcome || other_version {
        return Err(vm::Error::Invalid(engine::OTHER_HISTORY));
    }
    Ok(())
}

// ---- Every durable record is replayed once, in order ---------------------

/// What a caller hands to a replay.
pub enum Input {
    Open(Seq<u8>),
    Record(Seq<u8>),
    Close,
}

/// A replay after some inputs, and the sequences that were replayed.
pub open spec fn run(m: ManifestModel, inputs: Seq<Input>) -> Result<(Progress, Seq<u64>), Error>
    decreases inputs.len(),
{
    if inputs.len() == 0 {
        Ok((start_of(m), Seq::empty()))
    } else {
        match run(m, inputs.drop_last()) {
            Err(e) => Err(e),
            Ok((p, done)) => match inputs.last() {
                Input::Open(file) => match opened(m, p, file) {
                    Err(e) => Err(e),
                    Ok(next) => Ok((next, done)),
                },
                Input::Record(rest) => match stepped(m, p, rest) {
                    Err(e) => Err(e),
                    Ok((next, step)) => Ok(
                        (
                            next,
                            if step.replay {
                                done.push(step.sequence)
                            } else {
                                done
                            },
                        ),
                    ),
                },
                Input::Close => match closed(m, p) {
                    Err(e) => Err(e),
                    Ok(next) => Ok((next, done)),
                },
            },
        }
    }
}

/// Whatever the files hold, the records that a replay executes are those right
/// after the checkpoint, each once and in order; and where it finishes, they
/// are all durable ones.
pub proof fn replay_is_consecutive(m: ManifestModel, inputs: Seq<Input>)
    ensures
        run(m, inputs) matches Ok((p, done)) ==> {
            &&& p.resolved == m.checkpoint_sequence + done.len()
            &&& forall|i: int|
                0 <= i < done.len() ==> #[trigger] done[i] == m.checkpoint_sequence + i + 1
            &&& finished(m, p) is Ok ==> done.len() == m.durable_sequence - m.checkpoint_sequence
        },
    decreases inputs.len(),
{
    if inputs.len() > 0 {
        replay_is_consecutive(m, inputs.drop_last());
    }
}

} // verus!
