//! Whole log segments: their header, the chain of their records and their end.

use super::engine;
use super::engine::{read_record, segment_header};
use crate::bytes;
use crate::bytes::{same_bytes, same_digest};
use crate::external;
use crate::storage::{Error, ManifestModel, SegmentDescriptor, SegmentModel};
use vstd::prelude::*;

verus! {

/// A record of a segment: where it stands in the file, and its digest.
#[derive(Clone, Copy, Debug, PartialEq, Eq)]
pub struct Located {
    pub sequence: u64,
    pub at: usize,
    pub length: usize,
    pub digest: [u8; 32],
}

/// The model of a [`Located`].
#[verifier::ext_equal]
pub struct Place {
    pub sequence: u64,
    pub at: int,
    pub length: int,
    pub digest: Seq<u8>,
}

impl Located {
    pub open spec fn view(&self) -> Place {
        Place {
            sequence: self.sequence,
            at: self.at as int,
            length: self.length as int,
            digest: self.digest@,
        }
    }
}

/// The models of some records.
pub open spec fn places(list: Seq<Located>) -> Seq<Place> {
    list.map_values(|l: Located| l@)
}

/// The records of a segment from `at` on, of which `remaining` bytes are
/// committed; the first is `sequence` and names `predecessor`.
pub open spec fn chain(
    file: Seq<u8>,
    at: int,
    remaining: int,
    sequence: int,
    last: int,
    predecessor: Seq<u8>,
) -> Result<(Seq<Place>, int, Seq<u8>), Error>
    decreases last + 1 - sequence,
{
    if sequence > last {
        Ok((Seq::empty(), remaining, predecessor))
    } else {
        let rest = file.subrange(at, file.len() as int);
        match engine::record_fault(rest, remaining as u64, sequence as u64, predecessor) {
            Some(e) => Err(e),
            None => {
                let length = bytes::un32(bytes::part(rest, 8, 4)) as int;
                let digest = external::sha256_of(rest.subrange(0, length));
                let place = Place { sequence: sequence as u64, at, length, digest };
                match chain(file, at + length, remaining - length, sequence + 1, last, digest) {
                    Err(e) => Err(e),
                    Ok((places, left, end)) => Ok((seq![place] + places, left, end)),
                }
            },
        }
    }
}

/// The records of a segment whose file holds at least its committed bytes, or
/// the first rule that it breaks.
pub open spec fn segment_records(
    id: Seq<u8>,
    segment: SegmentModel,
    file: Seq<u8>,
    other_header: &'static str,
    other_end: &'static str,
) -> Result<Seq<Place>, Error> {
    if bytes::part(file, 0, 96) != engine::segment_bytes(id, segment) {
        Err(Error::Corrupt(other_header))
    } else {
        match chain(
            file,
            96,
            segment.committed_bytes - 96,
            segment.first_sequence as int,
            segment.last_sequence as int,
            segment.predecessor_digest,
        ) {
            Err(e) => Err(e),
            Ok((places, left, end)) => if left != 0 || end != segment.last_digest {
                Err(Error::Corrupt(other_end))
            } else {
                Ok(places)
            },
        }
    }
}

// ---- Record by record ----------------------------------------------------

/// How far a segment has been read.
#[derive(Clone, Copy, Debug, PartialEq, Eq)]
pub struct Reader {
    /// Where the next record stands in the file.
    pub at: usize,
    /// The committed bytes that have not been read.
    pub remaining: u64,
    /// The next record.
    pub next: Option<u64>,
    /// The digest of the record before the next one.
    pub predecessor: [u8; 32],
}

/// The model of a [`Reader`].
#[verifier::ext_equal]
pub struct ReaderModel {
    pub at: int,
    pub remaining: int,
    pub next: Option<u64>,
    pub predecessor: Seq<u8>,
}

impl Reader {
    pub open spec fn view(&self) -> ReaderModel {
        ReaderModel {
            at: self.at as int,
            remaining: self.remaining as int,
            next: self.next,
            predecessor: self.predecessor@,
        }
    }
}

impl ReaderModel {
    /// Whether a reader stands inside the committed bytes of a segment, and its
    /// next record belongs to that segment.
    pub open spec fn wf(self, segment: SegmentModel, file: Seq<u8>) -> bool {
        &&& 0 <= self.at
        &&& 0 <= self.remaining
        &&& self.at <= file.len()
        &&& self.at + self.remaining == segment.committed_bytes
        &&& self.next matches Some(n) ==> n <= segment.last_sequence
    }

    /// The records that are left.
    pub open spec fn left(self, segment: SegmentModel, file: Seq<u8>) -> Result<
        (Seq<Place>, int, Seq<u8>),
        Error,
    > {
        chain(
            file,
            self.at,
            self.remaining,
            match self.next {
                Some(n) => n as int,
                None => segment.last_sequence + 1,
            },
            segment.last_sequence as int,
            self.predecessor,
        )
    }
}

/// A reader in front of the first record of a segment.
pub open spec fn reader_at_start(segment: SegmentModel) -> ReaderModel {
    ReaderModel {
        at: 96,
        remaining: segment.committed_bytes - 96,
        next: if segment.first_sequence <= segment.last_sequence {
            Some(segment.first_sequence)
        } else {
            None
        },
        predecessor: segment.predecessor_digest,
    }
}

/// A reader after its next record, and that record.
pub open spec fn read_on(segment: SegmentModel, file: Seq<u8>, r: ReaderModel) -> Result<
    (ReaderModel, Place),
    Error,
> {
    let sequence = r.next->0;
    let rest = file.subrange(r.at, file.len() as int);
    match engine::record_fault(rest, r.remaining as u64, sequence, r.predecessor) {
        Some(e) => Err(e),
        None => {
            let length = bytes::un32(bytes::part(rest, 8, 4)) as int;
            let digest = external::sha256_of(rest.subrange(0, length));
            Ok(
                (
                    ReaderModel {
                        at: r.at + length,
                        remaining: r.remaining - length,
                        next: if sequence < segment.last_sequence {
                            Some((sequence + 1) as u64)
                        } else {
                            None
                        },
                        predecessor: digest,
                    },
                    Place { sequence, at: r.at, length, digest },
                ),
            )
        },
    }
}

impl Reader {
    /// Check the header of a segment, and stand in front of its first record.
    /// The text names what is wrong with the header.
    pub fn open(
        database_id: [u8; 16],
        segment: &SegmentDescriptor,
        file: &[u8],
        other_header: &'static str,
    ) -> (reader: Result<Reader, Error>)
        requires
            96 <= segment.committed_bytes,
            96 <= file@.len(),
        ensures
            match reader {
                Ok(reader) => {
                    &&& bytes::part(file@, 0, 96) == engine::segment_bytes(database_id@, segment@)
                    &&& reader@ == reader_at_start(segment@)
                    &&& reader@.wf(segment@, file@)
                },
                Err(e) => {
                    &&& bytes::part(file@, 0, 96) != engine::segment_bytes(database_id@, segment@)
                    &&& e == Error::Corrupt(other_header)
                },
            },
    {
        let header: [u8; 96] = segment_header(database_id, segment);
        if !same_bytes(&file[0..96], header.as_slice()) {
            return Err(Error::Corrupt(other_header));
        }
        let next = if segment.first_sequence <= segment.last_sequence {
            Some(segment.first_sequence)
        } else {
            None
        };
        Ok(
            Reader {
                at: 96,
                remaining: segment.committed_bytes - 96,
                next,
                predecessor: segment.predecessor_digest,
            },
        )
    }

    /// Check the next record. What stands behind it is not looked at.
    pub fn record(&mut self, segment: &SegmentDescriptor, file: &[u8]) -> (record: Result<
        Located,
        Error,
    >)
        requires
            old(self)@.wf(segment@, file@),
            old(self)@.next is Some,
        ensures
            match record {
                Ok(record) => read_on(segment@, file@, old(self)@) == Ok::<
                    (ReaderModel, Place),
                    Error,
                >((final(self)@, record@)) && record.at + record.length <= file@.len()
                    && record.length > 24,
                Err(e) => read_on(segment@, file@, old(self)@) == Err::<(ReaderModel, Place), Error>(
                    e,
                ) && final(self)@ == old(self)@,
            },
            final(self)@.wf(segment@, file@),
    {
        let sequence: u64 = self.next.unwrap();
        let at: usize = self.at;
        let size: usize = file.len();
        let (length, digest) = read_record(
            &file[at..size],
            self.remaining,
            sequence,
            self.predecessor,
        )?;
        self.at = at + length;
        self.remaining = self.remaining - length as u64;
        self.next = if sequence < segment.last_sequence {
            Some(sequence + 1)
        } else {
            None
        };
        self.predecessor = digest;
        Ok(Located { sequence, at, length, digest })
    }

    /// Check the end of a segment whose records have all been read. The text
    /// names what is wrong with it.
    pub fn finish(&self, segment: &SegmentDescriptor, other_end: &'static str) -> (done: Result<
        (),
        Error,
    >)
        requires
            self@.next is None,
        ensures
            done == if self@.remaining != 0 || self@.predecessor != segment@.last_digest {
                Err::<(), Error>(Error::Corrupt(other_end))
            } else {
                Ok(())
            },
    {
        if self.remaining != 0 || !same_digest(&self.predecessor, &segment.last_digest) {
            return Err(Error::Corrupt(other_end));
        }
        Ok(())
    }
}

/// Reading one record leaves the records behind it: what a whole segment holds
/// is what its records give one after another.
pub proof fn segments_are_read_record_by_record(
    segment: SegmentModel,
    file: Seq<u8>,
    r: ReaderModel,
)
    requires
        r.wf(segment, file),
    ensures
        r.next is None ==> r.left(segment, file) == Ok::<(Seq<Place>, int, Seq<u8>), Error>(
            (Seq::empty(), r.remaining, r.predecessor),
        ),
        r.next is Some ==> r.left(segment, file) == (match read_on(segment, file, r) {
            Err(e) => Err(e),
            Ok((next, place)) => match next.left(segment, file) {
                Err(e) => Err(e),
                Ok((list, remaining, end)) => Ok((seq![place] + list, remaining, end)),
            },
        }),
{
}

/// Check a whole segment; gives its records. The two texts name what is wrong
/// with its header or its end.
pub fn read_segment(
    database_id: [u8; 16],
    segment: &SegmentDescriptor,
    file: &[u8],
    other_header: &'static str,
    other_end: &'static str,
) -> (records: Result<Vec<Located>, Error>)
    requires
        96 <= segment.committed_bytes <= file@.len(),
    ensures
        ({
            let spec = segment_records(database_id@, segment@, file@, other_header, other_end);
            match records {
                Ok(records) => spec == Ok::<Seq<Place>, Error>(places(records@)),
                Err(e) => spec == Err::<Seq<Place>, Error>(e),
            }
        }),
{
    let mut reader = Reader::open(database_id, segment, file, other_header)?;
    let mut records: Vec<Located> = Vec::new();
    let ghost whole = chain(
        file@,
        96,
        segment.committed_bytes - 96,
        segment.first_sequence as int,
        segment.last_sequence as int,
        segment.predecessor_digest@,
    );
    proof {
        assert(reader@.left(segment@, file@) == whole);
        assert(places(records@) =~= Seq::empty());
        if let Ok((rest, left, end)) = whole {
            assert(places(records@) + rest =~= rest);
        }
    }
    while reader.next.is_some()
        invariant
            reader@.wf(segment@, file@),
            whole matches Err(e) ==> segment_records(
                database_id@,
                segment@,
                file@,
                other_header,
                other_end,
            ) == Err::<Seq<Place>, Error>(e),
            match reader@.left(segment@, file@) {
                Ok((list, left, end)) => whole == Ok::<(Seq<Place>, int, Seq<u8>), Error>(
                    (places(records@) + list, left, end),
                ),
                Err(e) => whole == Err::<(Seq<Place>, int, Seq<u8>), Error>(e),
            },
        decreases
                match reader.next {
                    Some(n) => segment.last_sequence - n + 1,
                    None => 0,
                },
    {
        let ghost before = places(records@);
        proof {
            segments_are_read_record_by_record(segment@, file@, reader@);
        }
        let record = reader.record(segment, file)?;
        records.push(record);
        proof {
            assert(places(records@) =~= before.push(record@));
            if let Ok((list, left, end)) = reader@.left(segment@, file@) {
                assert(before + (seq![record@] + list) =~= places(records@) + list);
            }
        }
    }
    proof {
        segments_are_read_record_by_record(segment@, file@, reader@);
    }
    reader.finish(segment, other_end)?;
    assert(places(records@) + Seq::<Place>::empty() =~= places(records@));
    Ok(records)
}

// ---- What is appended is read back ---------------------------------------

/// The kind and the body of a record.
pub struct Entry {
    pub kind: u8,
    pub body: Seq<u8>,
}

/// The log records of some entries from the sequence `first` on, each chained
/// to the one before it, and the digest of the last.
pub open spec fn written(first: int, predecessor: Seq<u8>, entries: Seq<Entry>) -> (
    Seq<u8>,
    Seq<u8>,
)
    decreases entries.len(),
{
    if entries.len() == 0 {
        (Seq::empty(), predecessor)
    } else {
        let record = engine::record_bytes(
            first as u64,
            predecessor,
            entries[0].kind,
            entries[0].body,
        );
        let (rest, end) = written(first + 1, external::sha256_of(record), entries.drop_first());
        (record + rest, end)
    }
}

/// Whether all entries can be logged from the sequence `first` on.
pub open spec fn loggable(first: int, entries: Seq<Entry>) -> bool {
    &&& 0 < first
    &&& first + entries.len() <= u64::MAX
    &&& forall|i: int|
        0 <= i < entries.len() ==> engine::envelope_fault(
            (first + i) as u64,
            (#[trigger] entries[i]).kind,
            entries[i].body.len(),
        ) is None
}

/// Whether `file` is the segment that holds exactly the log records of some
/// entries.
pub open spec fn holds(id: Seq<u8>, segment: SegmentModel, file: Seq<u8>, entries: Seq<Entry>) -> bool {
    let (records, end) = written(
        segment.first_sequence as int,
        segment.predecessor_digest,
        entries,
    );
    &&& entries.len() > 0
    &&& loggable(segment.first_sequence as int, entries)
    &&& segment.last_sequence == segment.first_sequence + entries.len() - 1
    &&& segment.predecessor_digest.len() == 32
    &&& segment.last_digest == end
    &&& segment.committed_bytes == 96 + records.len()
    &&& file == engine::segment_bytes(id, segment) + records
}

/// A chain of log records is read as the entries that were written.
proof fn lemma_chain(
    before: Seq<u8>,
    first: int,
    predecessor: Seq<u8>,
    entries: Seq<Entry>,
    after: Seq<u8>,
)
    requires
        loggable(first, entries),
        predecessor.len() == 32,
        written(first, predecessor, entries).0.len() <= u64::MAX,
    ensures
        ({
            let (records, end) = written(first, predecessor, entries);
            let file = before + records + after;
            let read = chain(
                file,
                before.len() as int,
                records.len() as int,
                first,
                first + entries.len() - 1,
                predecessor,
            );
            read matches Ok((places, left, digest)) && left == 0 && digest == end && places.len()
                == entries.len() && forall|i: int|
                0 <= i < entries.len() ==> {
                    let place = #[trigger] places[i];
                    &&& place.sequence == first + i
                    &&& file[place.at + 24] == entries[i].kind
                    &&& file.subrange(place.at + 64, place.at + place.length - 8)
                        == entries[i].body
                }
        }),
    decreases entries.len(),
{
    let (records, end) = written(first, predecessor, entries);
    let file = before + records + after;
    if entries.len() > 0 {
        let entry = entries[0];
        let record = engine::record_bytes(first as u64, predecessor, entry.kind, entry.body);
        let digest = external::sha256_of(record);
        let tail = entries.drop_first();
        let (rest, _) = written(first + 1, digest, tail);
        assert(engine::envelope_fault((first + 0) as u64, entry.kind, entry.body.len()) is None);
        assert forall|i: int| 0 <= i < tail.len() implies engine::envelope_fault(
            (first + 1 + i) as u64,
            (#[trigger] tail[i]).kind,
            tail[i].body.len(),
        ) is None by {
            assert(tail[i] == entries[i + 1]);
        }
        engine::lemma_record_length(first as u64, predecessor, entry.kind, entry.body);
        lemma_chain(before + record, first + 1, digest, tail, after);
        assert(before + record + rest + after =~= file);
        engine::logged_records_are_read_back(
            first as u64,
            predecessor,
            entry.kind,
            entry.body,
            rest + after,
            records.len() as u64,
        );
        let s = file.subrange(before.len() as int, file.len() as int);
        assert(s =~= record + (rest + after));
        let length = bytes::un32(bytes::part(s, 8, 4)) as int;
        let (places, left, found) = chain(
            file,
            before.len() + length,
            records.len() - length,
            first + 1,
            first + entries.len() - 1,
            digest,
        )->Ok_0;
        let place = Place { sequence: first as u64, at: before.len() as int, length, digest };
        let all = seq![place] + places;
        let at = before.len() as int;
        assert(file[at + 24] == s[24]);
        assert(file.subrange(at + 64, at + length - 8) =~= s.subrange(64, length - 8));
        assert forall|i: int| 0 <= i < entries.len() implies {
            let place = #[trigger] all[i];
            &&& place.sequence == first + i
            &&& file[place.at + 24] == entries[i].kind
            &&& file.subrange(place.at + 64, place.at + place.length - 8) == entries[i].body
        } by {
            if i > 0 {
                assert(all[i] == places[i - 1]);
                assert(tail[i - 1] == entries[i]);
            }
        }
    }
}

/// One more entry is one more log record behind the others.
proof fn lemma_written_push(first: int, predecessor: Seq<u8>, entries: Seq<Entry>, entry: Entry)
    ensures
        ({
            let (records, end) = written(first, predecessor, entries);
            let record = engine::record_bytes(
                (first + entries.len()) as u64,
                end,
                entry.kind,
                entry.body,
            );
            written(first, predecessor, entries.push(entry)) == (
                records + record,
                external::sha256_of(record),
            )
        }),
    decreases entries.len(),
{
    reveal_with_fuel(written, 2);
    let longer = entries.push(entry);
    if entries.len() == 0 {
        assert(longer.drop_first() =~= entries);
        let record = engine::record_bytes(first as u64, predecessor, entry.kind, entry.body);
        assert(record + Seq::<u8>::empty() =~= Seq::<u8>::empty() + record);
    } else {
        let head = engine::record_bytes(first as u64, predecessor, entries[0].kind, entries[0].body);
        let digest = external::sha256_of(head);
        lemma_written_push(first + 1, digest, entries.drop_first(), entry);
        assert(longer.drop_first() =~= entries.drop_first().push(entry));
        let (rest, end) = written(first + 1, digest, entries.drop_first());
        let record = engine::record_bytes(
            (first + entries.len()) as u64,
            end,
            entry.kind,
            entry.body,
        );
        assert(head + (rest + record) =~= head + rest + record);
    }
}

/// Every log segment is read back as it was written: it has no fault, and its
/// records have the kinds and bodies that were logged, in order.
pub proof fn segments_are_read_back(
    id: Seq<u8>,
    segment: SegmentModel,
    file: Seq<u8>,
    entries: Seq<Entry>,
    other_header: &'static str,
    other_end: &'static str,
)
    requires
        id.len() == 16,
        holds(id, segment, file, entries),
    ensures
        segment_records(id, segment, file, other_header, other_end) matches Ok(places)
            && places.len() == entries.len() && forall|i: int|
            0 <= i < entries.len() ==> {
                let place = #[trigger] places[i];
                &&& place.sequence == segment.first_sequence + i
                &&& file[place.at + 24] == entries[i].kind
                &&& file.subrange(place.at + 64, place.at + place.length - 8) == entries[i].body
            },
{
    broadcast use bytes::group_le;

    let header = engine::segment_bytes(id, segment);
    let (records, end) = written(
        segment.first_sequence as int,
        segment.predecessor_digest,
        entries,
    );
    assert(header.len() == 96);
    lemma_chain(
        header,
        segment.first_sequence as int,
        segment.predecessor_digest,
        entries,
        Seq::empty(),
    );
    assert(header + records + Seq::<u8>::empty() =~= file);
    assert(bytes::part(file, 0, 96) =~= header);
}

/// A segment that is started with a logged record holds that record.
pub proof fn started_segments_hold_their_record(
    m: ManifestModel,
    id: u64,
    sequence: u64,
    entry: Entry,
)
    requires
        m.durable_digest.len() == 32,
        loggable(sequence as int, seq![entry]),
    ensures
        ({
            let record = engine::record_bytes(sequence, m.durable_digest, entry.kind, entry.body);
            let segment = engine::first_segment(m, id, sequence, record);
            holds(
                m.database_id,
                segment,
                engine::segment_bytes(m.database_id, segment) + record,
                seq![entry],
            )
        }),
{
    let record = engine::record_bytes(sequence, m.durable_digest, entry.kind, entry.body);
    let entries = seq![entry];
    lemma_written_push(sequence as int, m.durable_digest, Seq::empty(), entry);
    assert(Seq::<Entry>::empty().push(entry) =~= entries);
    assert(Seq::<u8>::empty() + record =~= record);
    assert(engine::envelope_fault(
        (sequence + 0) as u64,
        entries[0].kind,
        entries[0].body.len(),
    ) is None);
    engine::lemma_record_length(sequence, m.durable_digest, entry.kind, entry.body);
}

/// A segment that is extended by the next logged record holds that record
/// behind the ones that it held.
pub proof fn extended_segments_hold_one_more(
    m: ManifestModel,
    file: Seq<u8>,
    entries: Seq<Entry>,
    entry: Entry,
    next: ManifestModel,
)
    requires
        m.segments.len() > 0,
        holds(m.database_id, m.segments.last(), file, entries),
        m.durable_sequence == m.segments.last().last_sequence,
        m.durable_digest == m.segments.last().last_digest,
        loggable(m.segments.last().first_sequence as int, entries.push(entry)),
        engine::extended(
            m,
            (m.durable_sequence + 1) as u64,
            engine::record_bytes(
                (m.durable_sequence + 1) as u64,
                m.durable_digest,
                entry.kind,
                entry.body,
            ),
            file.len() as u64,
        ) == Ok::<ManifestModel, Error>(next),
    ensures
        holds(
            next.database_id,
            next.segments.last(),
            file + engine::record_bytes(
                (m.durable_sequence + 1) as u64,
                m.durable_digest,
                entry.kind,
                entry.body,
            ),
            entries.push(entry),
        ),
        next.durable_sequence == next.segments.last().last_sequence,
        next.durable_digest == next.segments.last().last_digest,
{
    let segment = m.segments.last();
    let longer = next.segments.last();
    lemma_written_push(
        segment.first_sequence as int,
        segment.predecessor_digest,
        entries,
        entry,
    );
    let (records, end) = written(
        segment.first_sequence as int,
        segment.predecessor_digest,
        entries,
    );
    let record = engine::record_bytes(
        (m.durable_sequence + 1) as u64,
        m.durable_digest,
        entry.kind,
        entry.body,
    );
    assert(engine::segment_bytes(m.database_id, longer) == engine::segment_bytes(
        m.database_id,
        segment,
    ));
    assert(file + record =~= engine::segment_bytes(m.database_id, segment) + (records + record));
}

} // verus!
