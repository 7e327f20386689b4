//! Stored outcomes: what a record resolved to.

use super::Error;
use crate::bytes;
use crate::bytes::{push_bytes, push_u64, read_u16, read_u64, thirty_two_at, to_vec};
use vstd::prelude::*;

verus! {

/// The length of an outcome in front of its payload.
pub const OUTCOME_HEADER: usize = 44;

/// The length of the shortest stored outcome.
pub const SHORTEST_OUTCOME: usize = 76;

pub const SHORT_OUTCOME: &'static str = "truncated outcome";

pub const BAD_OUTCOME: &'static str = "invalid outcome fields";

/// What a transaction or an administrative record resolved to: its result and
/// effects, or the abort, in their stored form.
#[derive(Debug, PartialEq, Eq)]
pub struct Outcome {
    pub aborted: bool,
    pub payload: Vec<u8>,
}

/// The model of an [`Outcome`].
#[verifier::ext_equal]
pub struct Resolution {
    pub aborted: bool,
    pub payload: Seq<u8>,
}

/// The outcome of a record, with the record that it belongs to.
#[derive(Debug, PartialEq, Eq)]
pub struct OutcomeRecord {
    pub sequence: u64,
    pub record_digest: [u8; 32],
    pub record_kind: u8,
    pub outcome: Outcome,
}

/// The model of an [`OutcomeRecord`].
#[verifier::ext_equal]
pub struct OutcomeModel {
    pub sequence: u64,
    pub digest: Seq<u8>,
    pub kind: u8,
    pub aborted: bool,
    pub payload: Seq<u8>,
}

impl Outcome {
    pub open spec fn view(self) -> Resolution {
        Resolution { aborted: self.aborted, payload: self.payload@ }
    }

    /// A copy of this outcome.
    pub fn duplicate(&self) -> (copy: Outcome)
        ensures
            copy.aborted == self.aborted,
            copy.payload@ == self.payload@,
    {
        Outcome { aborted: self.aborted, payload: to_vec(self.payload.as_slice()) }
    }
}

impl Clone for Outcome {
    fn clone(&self) -> (copy: Outcome)
        ensures
            copy.aborted == self.aborted,
            copy.payload@ == self.payload@,
    {
        self.duplicate()
    }
}

impl OutcomeRecord {
    pub open spec fn view(self) -> OutcomeModel {
        OutcomeModel {
            sequence: self.sequence,
            digest: self.record_digest@,
            kind: self.record_kind,
            aborted: self.outcome.aborted,
            payload: self.outcome.payload@,
        }
    }

    /// A copy of this record.
    pub fn duplicate(&self) -> (copy: OutcomeRecord)
        ensures
            copy@ == self@,
    {
        OutcomeRecord {
            sequence: self.sequence,
            record_digest: self.record_digest,
            record_kind: self.record_kind,
            outcome: self.outcome.duplicate(),
        }
    }
}

impl Clone for OutcomeRecord {
    fn clone(&self) -> (copy: OutcomeRecord)
        ensures
            copy@ == self@,
    {
        self.duplicate()
    }
}

/// Whether a record can have this sequence and kind.
pub open spec fn record_of(sequence: u64, kind: u8) -> bool {
    sequence != 0 && sequence != u64::MAX && 1 <= kind <= 3
}

/// Whether an outcome can be stored.
pub open spec fn storable(o: OutcomeModel) -> bool {
    record_of(o.sequence, o.kind) && o.digest.len() == 32 && o.payload.len() >= 32
}

/// The stored form of an outcome.
pub open spec fn outcome_bytes(o: OutcomeModel) -> Seq<u8> {
    seq![
        1u8,
        0u8,
        o.kind,
        if o.aborted {
            1u8
        } else {
            0u8
        },
    ] + bytes::le64(o.sequence) + o.digest + o.payload
}

/// What a stored outcome holds, or the first rule that it breaks.
pub open spec fn outcome_of(s: Seq<u8>) -> Result<OutcomeModel, Error> {
    if s.len() < SHORTEST_OUTCOME {
        Err(Error::Invalid(SHORT_OUTCOME))
    } else if bytes::un16(bytes::part(s, 0, 2)) != 1 {
        Err(
            Error::Unsupported { format: "outcome", version: bytes::un16(bytes::part(s, 0, 2)) },
        )
    } else if !record_of(bytes::un64(bytes::part(s, 4, 8)), s[2]) || s[3] > 1 {
        Err(Error::Invalid(BAD_OUTCOME))
    } else {
        Ok(
            OutcomeModel {
                sequence: bytes::un64(bytes::part(s, 4, 8)),
                digest: bytes::part(s, 12, 32),
                kind: s[2],
                aborted: s[3] == 1,
                payload: s.subrange(44, s.len() as int),
            },
        )
    }
}

/// The stored form of the outcome of a record.
pub fn encode_outcome(sequence: u64, digest: [u8; 32], kind: u8, outcome: &Outcome) -> (stored:
    Result<Vec<u8>, Error>)
    ensures
        ({
            let model = OutcomeModel {
                sequence,
                digest: digest@,
                kind,
                aborted: outcome.aborted,
                payload: outcome.payload@,
            };
            match stored {
                Ok(stored) => storable(model) && stored@ == outcome_bytes(model),
                Err(e) => !storable(model) && e == Error::Invalid(BAD_OUTCOME),
            }
        }),
{
    if sequence == 0 || sequence == u64::MAX || kind < 1 || kind > 3 || outcome.payload.len() < 32 {
        return Err(Error::Invalid(BAD_OUTCOME));
    }
    let mut out: Vec<u8> = Vec::new();
    out.push(1);
    out.push(0);
    out.push(kind);
    if outcome.aborted {
        out.push(1);
    } else {
        out.push(0);
    }
    push_u64(&mut out, sequence);
    push_bytes(&mut out, digest.as_slice());
    push_bytes(&mut out, outcome.payload.as_slice());
    assert(out@ =~= outcome_bytes(
        OutcomeModel {
            sequence,
            digest: digest@,
            kind,
            aborted: outcome.aborted,
            payload: outcome.payload@,
        },
    ));
    Ok(out)
}

/// Read a stored outcome.
pub fn decode_outcome(stored: &[u8]) -> (record: Result<OutcomeRecord, Error>)
    ensures
        match record {
            Ok(record) => outcome_of(stored@) == Ok::<OutcomeModel, Error>(record@),
            Err(e) => outcome_of(stored@) == Err::<OutcomeModel, Error>(e),
        },
{
    if stored.len() < SHORTEST_OUTCOME {
        return Err(Error::Invalid(SHORT_OUTCOME));
    }
    let version: u16 = read_u16(stored, 0);
    if version != 1 {
        return Err(Error::Unsupported { format: "outcome", version });
    }
    let sequence: u64 = read_u64(stored, 4);
    let kind: u8 = stored[2];
    if sequence == 0 || sequence == u64::MAX || kind < 1 || kind > 3 || stored[3] > 1 {
        return Err(Error::Invalid(BAD_OUTCOME));
    }
    let payload = to_vec(&stored[OUTCOME_HEADER..stored.len()]);
    let record = OutcomeRecord {
        sequence,
        record_digest: thirty_two_at(stored, 12),
        record_kind: kind,
        outcome: Outcome { aborted: stored[3] == 1, payload },
    };
    assert(record@ =~= outcome_of(stored@)->Ok_0);
    Ok(record)
}

/// A stored outcome is read back unchanged.
pub proof fn stored_outcomes_are_read_back(o: OutcomeModel)
    requires
        storable(o),
    ensures
        outcome_of(outcome_bytes(o)) == Ok::<OutcomeModel, Error>(o),
        outcome_bytes(o).len() == OUTCOME_HEADER + o.payload.len(),
{
    broadcast use bytes::group_le;

    let s = outcome_bytes(o);
    assert(bytes::un16(bytes::part(s, 0, 2)) == 1) by {
        reveal(bytes::un16);
    }
    assert(bytes::part(s, 4, 8) =~= bytes::le64(o.sequence));
    assert(bytes::part(s, 12, 32) =~= o.digest);
    assert(s.subrange(44, s.len() as int) =~= o.payload);
    assert(outcome_of(s)->Ok_0 =~= o);
}

/// Only the stored form of an outcome is read as that outcome.
pub proof fn read_outcomes_are_canonical(s: Seq<u8>, o: OutcomeModel)
    requires
        outcome_of(s) == Ok::<OutcomeModel, Error>(o),
    ensures
        storable(o),
        s == outcome_bytes(o),
{
    broadcast use bytes::group_le;

    assert(s[0] == 1 && s[1] == 0) by {
        reveal(bytes::un16);
    }
    assert(bytes::le64(o.sequence) == bytes::part(s, 4, 8));
    assert(s =~= outcome_bytes(o));
}

} // verus!
