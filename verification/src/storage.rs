//! What the database knows of its storage: errors, the stored resource policy,
//! and the manifest that selects a checkpoint and the durable log.

use crate::bytes;
use crate::bytes::{push_u64, read_u16, read_u64};
use vstd::prelude::*;

verus! {

/// A failure of the storage layer.
#[derive(Clone, Debug, PartialEq, Eq)]
pub enum Error {
    InvalidInput(&'static str),
    Corrupt(&'static str),
    Unsupported { format: &'static str, version: u16 },
    Io(String),
    /// The writer must stop, and the directory be reopened.
    NeedsRecovery,
    /// A sequence, a segment number or a file position has no successor.
    Exhausted,
    Locked,
    AttachRequired,
}

// ---- Damaged log tails ---------------------------------------------------

/// What opening a database does about a damaged end of its log, behind what the
/// manifest selects. A store applies it before the log is replayed.
#[derive(Clone, Copy, Debug, PartialEq, Eq, Structural)]
pub enum TailRecovery {
    /// Keep what is whole, and discard the log from the first malformed part on.
    DiscardInvalid,
    /// Refuse malformed parts of full size, and leave the log as it is.
    Strict,
}

impl Default for TailRecovery {
    fn default() -> (policy: TailRecovery)
        ensures
            policy == TailRecovery::DiscardInvalid,
    {
        TailRecovery::DiscardInvalid
    }
}

/// What is wrong with a part of the log.
#[derive(Clone, Copy, Debug, PartialEq, Eq, Structural)]
pub enum Damage {
    /// The last append is physically short.
    Short,
    /// A part of full size behind the selected end is malformed.
    Malformed,
    /// What the manifest selects is damaged.
    Selected,
    /// The format is not supported.
    Format,
    /// A sequence or a predecessor does not continue the log.
    Link,
    /// Complete segments fork or leave a gap, or a complete one follows a
    /// damaged one.
    Fork,
}

impl TailRecovery {
    /// Whether the log is discarded from some damage on; otherwise the database
    /// is not opened, and the log not modified.
    pub fn discards(&self, damage: Damage) -> (discards: bool)
        ensures
            discards == match damage {
                Damage::Short => true,
                Damage::Malformed => *self == TailRecovery::DiscardInvalid,
                Damage::Selected | Damage::Format | Damage::Link | Damage::Fork => false,
            },
    {
        match damage {
            Damage::Short => true,
            Damage::Malformed => match self {
                TailRecovery::DiscardInvalid => true,
                TailRecovery::Strict => false,
            },
            _ => false,
        }
    }
}

// ---- The resource policy -------------------------------------------------

pub const ABOVE_CEILING: &'static str = "resource limit exceeds format ceiling";

pub const POLICY_LENGTH: &'static str = "invalid limit policy length";

pub const POLICY_RESERVED: &'static str = "nonzero limit policy reserved field";

/// The largest value of each resource, in the order of the resource numbers.
pub const CEILINGS: [u64; 17] = [
    16777216,
    65535,
    65535,
    65535,
    16777216,
    65535,
    16384,
    65535,
    65535,
    1024,
    16777216,
    67108864,
    65535,
    67108864,
    65535,
    67108864,
    16777216,
];

/// Whether every value is at most its ceiling.
pub open spec fn allowed(values: Seq<u64>) -> bool {
    &&& values.len() == 17
    &&& forall|i: int| 0 <= i < 17 ==> #[trigger] values[i] <= CEILINGS@[i]
}

/// The stored form of a policy: a version, two zero bytes and the values.
pub open spec fn policy_bytes(values: Seq<u64>) -> Seq<u8> {
    seq![1u8, 0u8, 0u8, 0u8] + bytes::le64s(values)
}

/// Bounds on 17 resources, each at most its ceiling.
#[derive(Debug, PartialEq, Eq)]
pub struct LimitPolicy {
    values: [u64; 17],
}

impl Clone for LimitPolicy {
    fn clone(&self) -> (copy: LimitPolicy)
        ensures
            copy@ == self@,
    {
        self.duplicate()
    }
}

impl LimitPolicy {
    pub closed spec fn view(&self) -> Seq<u64> {
        self.values@
    }

    #[verifier::type_invariant]
    spec fn well_formed(self) -> bool {
        allowed(self.values@)
    }

    /// The policy with these values; each must be at most its ceiling.
    pub fn new(values: [u64; 17]) -> (policy: Result<LimitPolicy, Error>)
        ensures
            match policy {
                Ok(policy) => allowed(values@) && policy@ == values@,
                Err(e) => !allowed(values@) && e == Error::InvalidInput(ABOVE_CEILING),
            },
    {
        let mut i: usize = 0;
        while i < 17
            invariant
                i <= 17,
                forall|k: int| 0 <= k < i ==> #[trigger] values@[k] <= CEILINGS@[k],
            decreases 17 - i,
        {
            if values[i] > CEILINGS[i] {
                assert(!(values@[i as int] <= CEILINGS@[i as int]));
                return Err(Error::InvalidInput(ABOVE_CEILING));
            }
            i += 1;
        }
        Ok(LimitPolicy { values })
    }

    /// The values in the order of the resource numbers.
    pub fn values(&self) -> (values: &[u64; 17])
        ensures
            values@ == self@,
            allowed(self@),
    {
        proof {
            use_type_invariant(self);
        }
        &self.values
    }

    /// A copy of this policy.
    pub fn duplicate(&self) -> (copy: LimitPolicy)
        ensures
            copy@ == self@,
    {
        proof {
            use_type_invariant(self);
        }
        LimitPolicy { values: self.values }
    }

    /// The stored form.
    pub fn encode(&self) -> (bytes: Vec<u8>)
        ensures
            bytes@ == policy_bytes(self@),
            bytes@.len() == 140,
            allowed(self@),
    {
        proof {
            use_type_invariant(self);
        }
        let mut out: Vec<u8> = Vec::new();
        out.push(1);
        out.push(0);
        out.push(0);
        out.push(0);
        push_values(&mut out, &self.values);
        proof {
            bytes::lemma_le64s(Seq::empty(), self@, Seq::empty());
        }
        assert(out@ =~= policy_bytes(self@));
        out
    }

    /// Read a stored policy.
    pub fn decode(bytes: &[u8]) -> (policy: Result<LimitPolicy, Error>)
        ensures
            match policy {
                Ok(policy) => policy_of(bytes@) == Ok::<Seq<u64>, Error>(policy@),
                Err(e) => policy_of(bytes@) == Err::<Seq<u64>, Error>(e),
            },
    {
        if bytes.len() != 140 {
            return Err(Error::InvalidInput(POLICY_LENGTH));
        }
        let version: u16 = read_u16(bytes, 0);
        if version != 1 {
            return Err(Error::Unsupported { format: "limit policy", version });
        }
        if bytes[2] != 0 || bytes[3] != 0 {
            return Err(Error::InvalidInput(POLICY_RESERVED));
        }
        LimitPolicy::new(read_values(bytes, 4))
    }
}

/// Policies with the same values are the same.
pub proof fn lemma_same_policy(a: LimitPolicy, b: LimitPolicy)
    requires
        a@ == b@,
    ensures
        a == b,
{
    assert(a.values =~= b.values);
}

/// What a stored policy holds, or the first rule that it breaks.
pub open spec fn policy_of(stored: Seq<u8>) -> Result<Seq<u64>, Error> {
    if stored.len() != 140 {
        Err(Error::InvalidInput(POLICY_LENGTH))
    } else if bytes::un16(bytes::part(stored, 0, 2)) != 1 {
        Err(
            Error::Unsupported {
                format: "limit policy",
                version: bytes::un16(bytes::part(stored, 0, 2)),
            },
        )
    } else if stored[2] != 0 || stored[3] != 0 {
        Err(Error::InvalidInput(POLICY_RESERVED))
    } else if !allowed(bytes::un64s(stored, 4, 17)) {
        Err(Error::InvalidInput(ABOVE_CEILING))
    } else {
        Ok(bytes::un64s(stored, 4, 17))
    }
}

/// Append the values of a policy.
pub fn push_values(out: &mut Vec<u8>, values: &[u64; 17])
    ensures
        final(out)@ == old(out)@ + bytes::le64s(values@),
{
    let mut i: usize = 0;
    assert(values@.subrange(0, 0) =~= Seq::empty());
    assert(out@ =~= old(out)@ + bytes::le64s(values@.subrange(0, 0)));
    while i < 17
        invariant
            i <= 17,
            out@ == old(out)@ + bytes::le64s(values@.subrange(0, i as int)),
        decreases 17 - i,
    {
        push_u64(out, values[i]);
        i += 1;
        assert(values@.subrange(0, i as int).drop_last() =~= values@.subrange(0, i - 1));
        assert(out@ =~= old(out)@ + bytes::le64s(values@.subrange(0, i as int)));
    }
    assert(values@.subrange(0, 17) =~= values@);
}

/// Read 17 values from `at`.
pub fn read_values(bytes: &[u8], at: usize) -> (values: [u64; 17])
    requires
        at + 136 <= bytes@.len(),
    ensures
        values@ == bytes::un64s(bytes@, at as int, 17),
{
    let mut values: [u64; 17] = [0; 17];
    let length: usize = bytes.len();
    let mut i: usize = 0;
    while i < 17
        invariant
            i <= 17,
            at + 136 <= bytes@.len() == length,
            forall|k: int|
                0 <= k < i ==> #[trigger] values@[k] == bytes::un64(
                    bytes::part(bytes@, at + 8 * k, 8),
                ),
        decreases 17 - i,
    {
        values[i] = read_u64(bytes, at + 8 * i);
        i += 1;
    }
    assert(values@ =~= bytes::un64s(bytes@, at as int, 17));
    values
}

/// Reading the stored form of a policy gives the policy back.
pub proof fn stored_policies_are_read_back(values: Seq<u64>)
    requires
        allowed(values),
    ensures
        policy_of(policy_bytes(values)) == Ok::<Seq<u64>, Error>(values),
{
    let stored = policy_bytes(values);
    let front = seq![1u8, 0u8, 0u8, 0u8];
    bytes::lemma_le64s(front, values, Seq::empty());
    assert(front + bytes::le64s(values) + Seq::<u8>::empty() =~= stored);
    assert(bytes::un16(bytes::part(stored, 0, 2)) == 1) by {
        reveal(bytes::un16);
    }
}

/// Only the stored form of a policy is read as that policy.
pub proof fn read_policies_are_canonical(stored: Seq<u8>, values: Seq<u64>)
    requires
        policy_of(stored) == Ok::<Seq<u64>, Error>(values),
    ensures
        allowed(values),
        stored == policy_bytes(values),
{
    bytes::lemma_un64s(stored, 4, 17);
    assert(stored[0] == 1 && stored[1] == 0) by {
        reveal(bytes::un16);
    }
    assert(stored =~= policy_bytes(values));
}

// ---- The manifest --------------------------------------------------------

/// A log segment: the records that it holds, how many of its bytes are
/// committed, and the digests before its first and of its last record.
#[derive(Clone, Copy, Debug, PartialEq, Eq)]
pub struct SegmentDescriptor {
    pub segment_id: u64,
    pub first_sequence: u64,
    pub last_sequence: u64,
    pub committed_bytes: u64,
    pub predecessor_digest: [u8; 32],
    pub last_digest: [u8; 32],
}

/// The published state of a database directory: the checkpoint and the durable
/// end of the log, the segments of the log, and what is retained.
#[derive(Debug, PartialEq, Eq)]
pub struct Manifest {
    pub generation: u64,
    pub database_id: [u8; 16],
    pub cursor_namespace: [u8; 16],
    pub next_cursor_id: u64,
    pub checkpoint_sequence: u64,
    pub checkpoint_digest: [u8; 32],
    pub durable_sequence: u64,
    pub durable_digest: [u8; 32],
    pub history_floor: u64,
    pub log_floor: u64,
    pub page_file_id: u64,
    pub page_count: u64,
    pub next_segment_id: u64,
    pub segments: Vec<SegmentDescriptor>,
}

/// The model of a [`Manifest`].
#[verifier::ext_equal]
pub struct ManifestModel {
    pub generation: u64,
    pub database_id: Seq<u8>,
    pub cursor_namespace: Seq<u8>,
    pub next_cursor_id: u64,
    pub checkpoint_sequence: u64,
    pub checkpoint_digest: Seq<u8>,
    pub durable_sequence: u64,
    pub durable_digest: Seq<u8>,
    pub history_floor: u64,
    pub log_floor: u64,
    pub page_file_id: u64,
    pub page_count: u64,
    pub next_segment_id: u64,
    pub segments: Seq<SegmentModel>,
}

/// The model of a [`SegmentDescriptor`].
#[verifier::ext_equal]
pub struct SegmentModel {
    pub segment_id: u64,
    pub first_sequence: u64,
    pub last_sequence: u64,
    pub committed_bytes: u64,
    pub predecessor_digest: Seq<u8>,
    pub last_digest: Seq<u8>,
}

impl SegmentDescriptor {
    pub open spec fn view(self) -> SegmentModel {
        SegmentModel {
            segment_id: self.segment_id,
            first_sequence: self.first_sequence,
            last_sequence: self.last_sequence,
            committed_bytes: self.committed_bytes,
            predecessor_digest: self.predecessor_digest@,
            last_digest: self.last_digest@,
        }
    }
}

/// The models of some segments.
pub open spec fn segment_models(list: Seq<SegmentDescriptor>) -> Seq<SegmentModel> {
    list.map_values(|s: SegmentDescriptor| s@)
}

impl Manifest {
    pub open spec fn view(&self) -> ManifestModel {
        ManifestModel {
            generation: self.generation,
            database_id: self.database_id@,
            cursor_namespace: self.cursor_namespace@,
            next_cursor_id: self.next_cursor_id,
            checkpoint_sequence: self.checkpoint_sequence,
            checkpoint_digest: self.checkpoint_digest@,
            durable_sequence: self.durable_sequence,
            durable_digest: self.durable_digest@,
            history_floor: self.history_floor,
            log_floor: self.log_floor,
            page_file_id: self.page_file_id,
            page_count: self.page_count,
            next_segment_id: self.next_segment_id,
            segments: segment_models(self.segments@),
        }
    }

    /// A copy of this manifest.
    pub fn duplicate(&self) -> (copy: Manifest)
        ensures
            copy@ == self@,
            copy.segments@ == self.segments@,
    {
        let mut segments: Vec<SegmentDescriptor> = Vec::new();
        let mut i: usize = 0;
        while i < self.segments.len()
            invariant
                i <= self.segments@.len(),
                segments@ == self.segments@.subrange(0, i as int),
            decreases self.segments@.len() - i,
        {
            segments.push(self.segments[i]);
            i += 1;
            assert(segments@ =~= self.segments@.subrange(0, i as int));
        }
        assert(segments@ =~= self.segments@);
        Manifest {
            generation: self.generation,
            database_id: self.database_id,
            cursor_namespace: self.cursor_namespace,
            next_cursor_id: self.next_cursor_id,
            checkpoint_sequence: self.checkpoint_sequence,
            checkpoint_digest: self.checkpoint_digest,
            durable_sequence: self.durable_sequence,
            durable_digest: self.durable_digest,
            history_floor: self.history_floor,
            log_floor: self.log_floor,
            page_file_id: self.page_file_id,
            page_count: self.page_count,
            next_segment_id: self.next_segment_id,
            segments,
        }
    }
}

impl Clone for Manifest {
    fn clone(&self) -> (copy: Manifest)
        ensures
            copy@ == self@,
    {
        self.duplicate()
    }
}

} // verus!
