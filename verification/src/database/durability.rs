//! What the log promises: whatever was appended is read back by a replay, in
//! order, and nothing else.

use super::engine;
use super::record;
use super::record::CommandModel;
use super::recovery;
use super::recovery::{Progress, StepModel};
use super::segments;
use super::segments::Entry;
use crate::bytes;
use crate::external;
use crate::storage::{Error, ManifestModel, SegmentModel};
use vstd::prelude::*;

verus! {

// ---- Whatever was logged is replayed -------------------------------------

/// The records that a replay reads from its opened segment, where `file` holds
/// the bytes of that segment.
pub open spec fn replayed_records(m: ManifestModel, p: Progress, file: Seq<u8>) -> Result<
    (Progress, Seq<StepModel>),
    Error,
>
    decreases
            match p.next {
                None => 0,
                Some(n) => if n <= m.segments[p.segment].last_sequence {
                    m.segments[p.segment].last_sequence - n + 1
                } else {
                    1
                },
            },
{
    match p.next {
        None => Ok((p, Seq::empty())),
        Some(_) => {
            let at = m.segments[p.segment].committed_bytes - p.remaining;
            match recovery::stepped(m, p, file.subrange(at, file.len() as int)) {
                Err(e) => Err(e),
                Ok((next, step)) => match replayed_records(m, next, file) {
                    Err(e) => Err(e),
                    Ok((last, steps)) => Ok((last, seq![step] + steps)),
                },
            }
        },
    }
}

/// The records that a replay reads from its next segment on.
pub open spec fn replayed_segments(m: ManifestModel, p: Progress, files: Seq<Seq<u8>>) -> Result<
    (Progress, Seq<StepModel>),
    Error,
>
    decreases m.segments.len() - p.segment,
{
    if !(0 <= p.segment < m.segments.len()) {
        Ok((p, Seq::empty()))
    } else {
        let file = files[p.segment];
        match recovery::opened(m, p, file) {
            Err(e) => Err(e),
            Ok(p1) => match replayed_records(m, p1, file) {
                Err(e) => Err(e),
                Ok((p2, steps)) => match recovery::closed(m, p2) {
                    Err(e) => Err(e),
                    Ok(p3) => if p3.segment != p.segment + 1 {
                        Ok((p3, steps))
                    } else {
                        match replayed_segments(m, p3, files) {
                            Err(e) => Err(e),
                            Ok((last, rest)) => Ok((last, steps + rest)),
                        }
                    },
                },
            },
        }
    }
}

/// The records that a whole replay reads, in order.
pub open spec fn recovered(m: ManifestModel, files: Seq<Seq<u8>>) -> Result<Seq<StepModel>, Error> {
    match replayed_segments(m, recovery::start_of(m), files) {
        Err(e) => Err(e),
        Ok((p, steps)) => match recovery::finished(m, p) {
            Err(e) => Err(e),
            Ok(_) => Ok(steps),
        },
    }
}

/// The log entry of a command.
pub open spec fn entry_of(command: CommandModel) -> Entry {
    let (kind, body) = record::body_of(command)->Ok_0;
    Entry { kind, body }
}

/// The log entries of some commands.
pub open spec fn entries_of(commands: Seq<CommandModel>) -> Seq<Entry> {
    commands.map_values(|c: CommandModel| entry_of(c))
}

/// Whether the chain of some entries passes the checkpoint `sequence` with this
/// digest, if it passes it.
pub open spec fn anchors(
    first: int,
    predecessor: Seq<u8>,
    entries: Seq<Entry>,
    sequence: u64,
    digest: Seq<u8>,
) -> bool
    decreases entries.len(),
{
    &&& first == sequence + 1 ==> predecessor == digest
    &&& entries.len() > 0 ==> anchors(
        first + 1,
        external::sha256_of(
            engine::record_bytes(first as u64, predecessor, entries[0].kind, entries[0].body),
        ),
        entries.drop_first(),
        sequence,
        digest,
    )
}

/// Whether `file` holds the log records of some commands, as a segment of the
/// manifest's chain.
pub open spec fn segment_intact(
    m: ManifestModel,
    segment: SegmentModel,
    file: Seq<u8>,
    commands: Seq<CommandModel>,
) -> bool {
    &&& segments::holds(m.database_id, segment, file, entries_of(commands))
    &&& forall|i: int|
        0 <= i < commands.len() ==> record::well_formed(#[trigger] commands[i]) && record::body_of(
            commands[i],
        ) is Ok
    &&& anchors(
        segment.first_sequence as int,
        segment.predecessor_digest,
        entries_of(commands),
        m.checkpoint_sequence,
        m.checkpoint_digest,
    )
}

/// Whether the files hold the log records of some commands, segment by segment,
/// from the checkpoint or before it up to the durable end.
pub open spec fn intact(
    m: ManifestModel,
    files: Seq<Seq<u8>>,
    commands: Seq<Seq<CommandModel>>,
) -> bool {
    &&& m.database_id.len() == 16
    &&& files.len() == m.segments.len()
    &&& commands.len() == m.segments.len()
    &&& m.checkpoint_sequence <= m.durable_sequence
    &&& forall|k: int|
        0 <= k < files.len() ==> segment_intact(m, m.segments[k], #[trigger] files[k], commands[k])
    &&& forall|k: int|
        0 < k < m.segments.len() ==> (#[trigger] m.segments[k]).first_sequence
            == m.segments[k - 1].last_sequence + 1
    &&& if m.segments.len() == 0 {
        m.checkpoint_sequence == m.durable_sequence && m.checkpoint_digest == m.durable_digest
    } else {
        m.segments[0].first_sequence <= m.checkpoint_sequence + 1
            && m.segments.last().last_sequence == m.durable_sequence
            && m.segments.last().last_digest == m.durable_digest
    }
}

/// Some commands with the sequences of their records.
pub open spec fn numbered(first: int, commands: Seq<CommandModel>) -> Seq<(u64, CommandModel)> {
    Seq::new(commands.len(), |i: int| ((first + i) as u64, commands[i]))
}

/// All commands of the segments from the `k`-th on, with their sequences.
pub open spec fn logged(m: ManifestModel, commands: Seq<Seq<CommandModel>>, k: int) -> Seq<
    (u64, CommandModel),
>
    decreases m.segments.len() - k,
{
    if !(0 <= k < m.segments.len()) {
        Seq::empty()
    } else {
        numbered(m.segments[k].first_sequence as int, commands[k]) + logged(m, commands, k + 1)
    }
}

/// What some steps of a replay read.
pub open spec fn read_by(steps: Seq<StepModel>) -> Seq<(u64, CommandModel)> {
    steps.map_values(|s: StepModel| (s.sequence, s.command))
}

/// The last replayed sequence when the next record is `first`.
pub open spec fn resolved_before(m: ManifestModel, first: int) -> int {
    if first - 1 >= m.checkpoint_sequence {
        first - 1
    } else {
        m.checkpoint_sequence as int
    }
}

/// A replay reads the record of a command as that command.
proof fn lemma_step(m: ManifestModel, p: Progress, command: CommandModel, rest: Seq<u8>)
    requires
        0 <= p.segment < m.segments.len(),
        p.next is Some,
        p.predecessor.len() == 32,
        record::well_formed(command),
        record::body_of(command) is Ok,
        ({
            let first = p.next->0;
            let entry = entry_of(command);
            let record = engine::record_bytes(first, p.predecessor, entry.kind, entry.body);
            &&& engine::envelope_fault(first, entry.kind, entry.body.len()) is None
            &&& record.len() + rest.len() <= p.remaining
            &&& first == m.checkpoint_sequence + 1 ==> p.predecessor == m.checkpoint_digest
            &&& first == m.checkpoint_sequence ==> external::sha256_of(record)
                == m.checkpoint_digest
            &&& p.resolved == resolved_before(m, first as int)
        }),
    ensures
        ({
            let first = p.next->0;
            let entry = entry_of(command);
            let record = engine::record_bytes(first, p.predecessor, entry.kind, entry.body);
            &&& recovery::stepped(m, p, record + rest) matches Ok((next, step))
            &&& step.sequence == first
            &&& step.command == command
            &&& next == (Progress {
                next: if first < m.segments[p.segment].last_sequence {
                    Some((first + 1) as u64)
                } else {
                    None
                },
                remaining: (p.remaining - record.len()) as u64,
                predecessor: external::sha256_of(record),
                resolved: resolved_before(m, first + 1) as u64,
                ..p
            })
        }),
{
    let first = p.next->0;
    let entry = entry_of(command);
    let record = engine::record_bytes(first, p.predecessor, entry.kind, entry.body);
    engine::lemma_record_length(first, p.predecessor, entry.kind, entry.body);
    engine::logged_records_are_read_back(
        first,
        p.predecessor,
        entry.kind,
        entry.body,
        rest,
        p.remaining,
    );
    record::records_are_read_back(command, entry.kind, entry.body);
}

proof fn lemma_replayed_records(
    m: ManifestModel,
    p: Progress,
    before: Seq<u8>,
    first: int,
    commands: Seq<CommandModel>,
)
    requires
        0 <= p.segment < m.segments.len(),
        p.next == if commands.len() > 0 {
            Some(first as u64)
        } else {
            None
        },
        p.predecessor.len() == 32,
        segments::loggable(first, entries_of(commands)),
        first + commands.len() - 1 == m.segments[p.segment].last_sequence,
        forall|i: int|
            0 <= i < commands.len() ==> record::well_formed(#[trigger] commands[i])
                && record::body_of(commands[i]) is Ok,
        anchors(
            first,
            p.predecessor,
            entries_of(commands),
            m.checkpoint_sequence,
            m.checkpoint_digest,
        ),
        p.remaining == segments::written(first, p.predecessor, entries_of(commands)).0.len(),
        m.segments[p.segment].committed_bytes == before.len() + p.remaining,
        p.resolved == resolved_before(m, first),
    ensures
        ({
            let (records, end) = segments::written(first, p.predecessor, entries_of(commands));
            &&& replayed_records(m, p, before + records) matches Ok((last, steps))
            &&& last == (Progress {
                next: None,
                remaining: 0,
                predecessor: end,
                resolved: resolved_before(m, first + commands.len()) as u64,
                ..p
            })
            &&& read_by(steps) == numbered(first, commands)
        }),
    decreases commands.len(),
{
    let entries = entries_of(commands);
    let (records, end) = segments::written(first, p.predecessor, entries);
    let file = before + records;
    if commands.len() == 0 {
        assert(records =~= Seq::empty());
        assert(read_by(Seq::empty()) =~= numbered(first, commands));
    } else {
        let command = commands[0];
        let entry = entries[0];
        let tail = commands.drop_first();
        let rest_entries = entries_of(tail);
        assert(entry == entry_of(command));
        assert(entries.drop_first() =~= rest_entries);
        let record = engine::record_bytes(first as u64, p.predecessor, entry.kind, entry.body);
        let digest = external::sha256_of(record);
        let (rest, _) = segments::written(first + 1, digest, rest_entries);
        assert(records == record + rest);
        assert(engine::envelope_fault((first + 0) as u64, entry.kind, entry.body.len()) is None);
        assert forall|i: int| 0 <= i < tail.len() implies engine::envelope_fault(
            (first + 1 + i) as u64,
            (#[trigger] rest_entries[i]).kind,
            rest_entries[i].body.len(),
        ) is None by {
            assert(rest_entries[i] == entries[i + 1]);
        }
        let s = file.subrange(before.len() as int, file.len() as int);
        assert(s =~= record + rest);
        assert(record::well_formed(commands[0]) && record::body_of(commands[0]) is Ok);
        assert(anchors(first + 1, digest, rest_entries, m.checkpoint_sequence, m.checkpoint_digest));
        lemma_step(m, p, command, rest);
        let (next, step) = recovery::stepped(m, p, s)->Ok_0;
        assert forall|i: int| 0 <= i < tail.len() implies record::well_formed(#[trigger] tail[i])
            && record::body_of(tail[i]) is Ok by {
            assert(tail[i] == commands[i + 1]);
        }
        lemma_replayed_records(m, next, before + record, first + 1, tail);
        assert(before + record + rest =~= file);
        let steps = replayed_records(m, next, file)->Ok_0.1;
        lemma_numbered(step, steps, first, commands);
    }
}

proof fn lemma_numbered(
    step: StepModel,
    steps: Seq<StepModel>,
    first: int,
    commands: Seq<CommandModel>,
)
    requires
        commands.len() > 0,
        step.sequence == first as u64,
        step.command == commands[0],
        read_by(steps) == numbered(first + 1, commands.drop_first()),
    ensures
        read_by(seq![step] + steps) == numbered(first, commands),
{
    let all = seq![step] + steps;
    assert(steps.len() == read_by(steps).len());
    assert forall|i: int| 0 <= i < commands.len() implies #[trigger] read_by(all)[i] == numbered(
        first,
        commands,
    )[i] by {
        if i > 0 {
            assert(read_by(steps)[i - 1] == numbered(first + 1, commands.drop_first())[i - 1]);
            assert(all[i] == steps[i - 1]);
        }
    }
    assert(read_by(all) =~= numbered(first, commands));
}

proof fn lemma_replayed_segments(
    m: ManifestModel,
    p: Progress,
    files: Seq<Seq<u8>>,
    commands: Seq<Seq<CommandModel>>,
)
    requires
        intact(m, files, commands),
        0 <= p.segment <= m.segments.len(),
        !p.opened,
        p.segment < m.segments.len() ==> p.resolved == resolved_before(
            m,
            m.segments[p.segment].first_sequence as int,
        ),
        p.segment == m.segments.len() ==> p.resolved == m.durable_sequence,
    ensures
        replayed_segments(m, p, files) matches Ok((last, steps)) && last.resolved
            == m.durable_sequence && read_by(steps) == logged(m, commands, p.segment),
    decreases m.segments.len() - p.segment,
{
    broadcast use bytes::group_le;

    if p.segment == m.segments.len() {
        assert(read_by(Seq::empty()) =~= logged(m, commands, p.segment));
    } else {
        let k = p.segment;
        let segment = m.segments[k];
        let file = files[k];
        let list = commands[k];
        assert(segment_intact(m, segment, file, list));
        let header = engine::segment_bytes(m.database_id, segment);
        let (records, end) = segments::written(
            segment.first_sequence as int,
            segment.predecessor_digest,
            entries_of(list),
        );
        assert(header.len() == 96);
        assert(bytes::part(file, 0, 96) =~= header);
        let p1 = recovery::opened(m, p, file)->Ok_0;
        lemma_replayed_records(m, p1, header, segment.first_sequence as int, list);
        let (p2, steps) = replayed_records(m, p1, file)->Ok_0;
        let p3 = recovery::closed(m, p2)->Ok_0;
        if k + 1 < m.segments.len() {
            assert(m.segments[k + 1].first_sequence == m.segments[k].last_sequence + 1);
        } else {
            assert(m.segments.last() == segment);
        }
        lemma_replayed_segments(m, p3, files, commands);
        let (last, rest) = replayed_segments(m, p3, files)->Ok_0;
        assert(read_by(steps + rest) =~= read_by(steps) + read_by(rest));
    }
}

/// Whatever was logged is replayed: where the files hold the records of some
/// commands up to the durable end, a replay reads exactly these commands, in
/// order and under their sequences, executes those behind the checkpoint, and
/// finishes.
pub proof fn logged_commands_are_replayed(
    m: ManifestModel,
    files: Seq<Seq<u8>>,
    commands: Seq<Seq<CommandModel>>,
)
    requires
        intact(m, files, commands),
    ensures
        recovered(m, files) matches Ok(steps) && read_by(steps) == logged(m, commands, 0),
{
    lemma_replayed_segments(m, recovery::start_of(m), files, commands);
}

// ---- Whatever is appended is recoverable ---------------------------------

/// Where a chain passes the checkpoint, or ends before it, one more entry does
/// not matter.
proof fn lemma_anchors_push(
    first: int,
    predecessor: Seq<u8>,
    entries: Seq<Entry>,
    entry: Entry,
    sequence: u64,
    digest: Seq<u8>,
)
    requires
        anchors(first, predecessor, entries, sequence, digest),
        first + entries.len() > sequence,
    ensures
        anchors(first, predecessor, entries.push(entry), sequence, digest),
    decreases entries.len(),
{
    reveal_with_fuel(anchors, 2);
    let longer = entries.push(entry);
    if entries.len() == 0 {
        assert(longer.drop_first() =~= entries);
    } else {
        let record = engine::record_bytes(
            first as u64,
            predecessor,
            entries[0].kind,
            entries[0].body,
        );
        lemma_anchors_push(
            first + 1,
            external::sha256_of(record),
            entries.drop_first(),
            entry,
            sequence,
            digest,
        );
        assert(longer.drop_first() =~= entries.drop_first().push(entry));
    }
}

/// What a chain passes at its end.
proof fn lemma_anchors_end(
    first: int,
    predecessor: Seq<u8>,
    entries: Seq<Entry>,
    sequence: u64,
    digest: Seq<u8>,
)
    requires
        anchors(first, predecessor, entries, sequence, digest),
        first + entries.len() == sequence + 1,
    ensures
        segments::written(first, predecessor, entries).1 == digest,
    decreases entries.len(),
{
    if entries.len() > 0 {
        let record = engine::record_bytes(
            first as u64,
            predecessor,
            entries[0].kind,
            entries[0].body,
        );
        lemma_anchors_end(
            first + 1,
            external::sha256_of(record),
            entries.drop_first(),
            sequence,
            digest,
        );
    }
}

/// A chain anchors its own end, and what comes later.
proof fn lemma_anchored_at_end(
    first: int,
    predecessor: Seq<u8>,
    entries: Seq<Entry>,
    sequence: u64,
    digest: Seq<u8>,
)
    requires
        first + entries.len() <= sequence + 1,
        first + entries.len() == sequence + 1 ==> segments::written(
            first,
            predecessor,
            entries,
        ).1 == digest,
    ensures
        anchors(first, predecessor, entries, sequence, digest),
    decreases entries.len(),
{
    if entries.len() > 0 {
        let record = engine::record_bytes(
            first as u64,
            predecessor,
            entries[0].kind,
            entries[0].body,
        );
        lemma_anchored_at_end(
            first + 1,
            external::sha256_of(record),
            entries.drop_first(),
            sequence,
            digest,
        );
    }
}

/// The segments of an intact log are in ascending order.
proof fn lemma_ascending(
    m: ManifestModel,
    files: Seq<Seq<u8>>,
    commands: Seq<Seq<CommandModel>>,
    k: int,
)
    requires
        intact(m, files, commands),
        0 <= k < m.segments.len(),
    ensures
        m.segments[k].last_sequence <= m.durable_sequence,
        k < m.segments.len() - 1 ==> m.segments[k].last_sequence < m.durable_sequence,
    decreases m.segments.len() - k,
{
    assert(segment_intact(m, m.segments[k], files[k], commands[k]));
    if k < m.segments.len() - 1 {
        lemma_ascending(m, files, commands, k + 1);
        assert(segment_intact(m, m.segments[k + 1], files[k + 1], commands[k + 1]));
        assert(m.segments[k + 1].first_sequence == m.segments[k].last_sequence + 1);
    } else {
        assert(m.segments[k] == m.segments.last());
    }
}

/// A log with one more command is read as before, and then that command.
proof fn lemma_logged_extended(
    m: ManifestModel,
    next: ManifestModel,
    commands: Seq<Seq<CommandModel>>,
    command: CommandModel,
    k: int,
)
    requires
        commands.len() == m.segments.len() == next.segments.len(),
        0 <= k < m.segments.len(),
        forall|j: int|
            0 <= j < m.segments.len() ==> (#[trigger] next.segments[j]).first_sequence
                == m.segments[j].first_sequence,
    ensures
        ({
            let last = m.segments.len() - 1;
            let longer = commands.update(last, commands[last].push(command));
            logged(next, longer, k) == logged(m, commands, k).push(
                ((m.segments[last].first_sequence + commands[last].len()) as u64, command),
            )
        }),
    decreases m.segments.len() - k,
{
    let last = m.segments.len() - 1;
    let longer = commands.update(last, commands[last].push(command));
    let new = ((m.segments[last].first_sequence + commands[last].len()) as u64, command);
    let first = m.segments[k].first_sequence as int;
    assert(next.segments[k].first_sequence == first);
    if k < last {
        lemma_logged_extended(m, next, commands, command, k + 1);
        assert(longer[k] == commands[k]);
        let rest = logged(m, commands, k + 1);
        assert(numbered(first, commands[k]) + rest.push(new) =~= (numbered(first, commands[k])
            + rest).push(new));
    } else {
        assert(logged(next, longer, k + 1) =~= Seq::empty());
        assert(logged(m, commands, k + 1) =~= Seq::empty());
        assert(numbered(first, longer[k]) =~= numbered(first, commands[k]).push(new));
        assert(numbered(first, longer[k]) + Seq::<(u64, CommandModel)>::empty() =~= numbered(
            first,
            longer[k],
        ));
        assert(numbered(first, commands[k]) + Seq::<(u64, CommandModel)>::empty() =~= numbered(
            first,
            commands[k],
        ));
    }
}

/// A command that is appended to the last segment is recoverable: the log is
/// intact afterwards, and a replay reads what it read before, and then the
/// command.
pub proof fn appended_commands_are_recoverable(
    m: ManifestModel,
    files: Seq<Seq<u8>>,
    commands: Seq<Seq<CommandModel>>,
    command: CommandModel,
    next: ManifestModel,
)
    requires
        intact(m, files, commands),
        m.segments.len() > 0,
        record::well_formed(command),
        record::body_of(command) is Ok,
        m.durable_sequence < u64::MAX - 1,
        ({
            let sequence = (m.durable_sequence + 1) as u64;
            let entry = entry_of(command);
            let record = engine::record_bytes(sequence, m.durable_digest, entry.kind, entry.body);
            &&& engine::envelope_fault(sequence, entry.kind, entry.body.len()) is None
            &&& engine::extended(m, sequence, record, files.last().len() as u64) == Ok::<
                ManifestModel,
                Error,
            >(next)
        }),
    ensures
        ({
            let last = m.segments.len() - 1;
            let sequence = (m.durable_sequence + 1) as u64;
            let entry = entry_of(command);
            let record = engine::record_bytes(sequence, m.durable_digest, entry.kind, entry.body);
            let longer = commands.update(last, commands[last].push(command));
            &&& intact(next, files.update(last, files[last] + record), longer)
            &&& logged(next, longer, 0) == logged(m, commands, 0).push((sequence, command))
        }),
{
    let last = m.segments.len() - 1;
    let sequence = (m.durable_sequence + 1) as u64;
    let entry = entry_of(command);
    let record = engine::record_bytes(sequence, m.durable_digest, entry.kind, entry.body);
    let list = commands[last].push(command);
    let longer = commands.update(last, list);
    let segment = m.segments[last];
    let entries = entries_of(commands[last]);
    assert(segment == m.segments.last());
    assert(files[last] == files.last());
    assert(segment_intact(m, segment, files[last], commands[last]));
    assert(entries_of(list) =~= entries.push(entry));
    assert(segments::loggable(segment.first_sequence as int, entries.push(entry))) by {
        assert forall|i: int| 0 <= i < entries.push(entry).len() implies engine::envelope_fault(
            (segment.first_sequence + i) as u64,
            (#[trigger] entries.push(entry)[i]).kind,
            entries.push(entry)[i].body.len(),
        ) is None by {
            if i < entries.len() {
                assert(entries.push(entry)[i] == entries[i]);
            }
        }
    }
    segments::extended_segments_hold_one_more(m, files[last], entries, entry, next);
    lemma_anchors_push(
        segment.first_sequence as int,
        segment.predecessor_digest,
        entries,
        entry,
        m.checkpoint_sequence,
        m.checkpoint_digest,
    );
    let all = files.update(last, files[last] + record);
    assert(next.segments[last] == next.segments.last());
    assert forall|k: int| 0 <= k < all.len() implies segment_intact(
        next,
        next.segments[k],
        #[trigger] all[k],
        longer[k],
    ) by {
        if k < last {
            assert(segment_intact(m, m.segments[k], files[k], commands[k]));
        } else {
            assert forall|i: int| 0 <= i < list.len() implies record::well_formed(
                #[trigger] list[i],
            ) && record::body_of(list[i]) is Ok by {
                if i < commands[last].len() {
                    assert(list[i] == commands[last][i]);
                }
            }
        }
    }
    assert forall|k: int| 0 < k < next.segments.len() implies (
    #[trigger] next.segments[k]).first_sequence == next.segments[k - 1].last_sequence + 1 by {
        assert(m.segments[k].first_sequence == m.segments[k - 1].last_sequence + 1);
    }
    lemma_logged_extended(m, next, commands, command, 0);
}

/// A log with one more segment is read as before, and then that segment.
proof fn lemma_logged_started(
    m: ManifestModel,
    next: ManifestModel,
    commands: Seq<Seq<CommandModel>>,
    command: CommandModel,
    k: int,
)
    requires
        commands.len() == m.segments.len(),
        next.segments.len() == m.segments.len() + 1,
        0 <= k <= m.segments.len(),
        forall|j: int|
            0 <= j < m.segments.len() ==> (#[trigger] next.segments[j]) == m.segments[j],
    ensures
        logged(next, commands.push(seq![command]), k) == logged(m, commands, k).push(
            (next.segments[m.segments.len() as int].first_sequence, command),
        ),
    decreases m.segments.len() - k,
{
    let longer = commands.push(seq![command]);
    let n = m.segments.len() as int;
    let new = (next.segments[n].first_sequence, command);
    if k < n {
        lemma_logged_started(m, next, commands, command, k + 1);
        assert(next.segments[k] == m.segments[k]);
        assert(longer[k] == commands[k]);
        let first = m.segments[k].first_sequence as int;
        let rest = logged(m, commands, k + 1);
        assert(numbered(first, commands[k]) + rest.push(new) =~= (numbered(first, commands[k])
            + rest).push(new));
    } else {
        assert(logged(next, longer, k + 1) =~= Seq::empty());
        assert(logged(m, commands, k) =~= Seq::empty());
        assert(numbered(next.segments[n].first_sequence as int, longer[n]) =~= seq![new]);
        assert(logged(next, longer, k) =~= seq![new]);
        assert(Seq::<(u64, CommandModel)>::empty().push(new) =~= seq![new]);
    }
}

/// A command that is appended as a new segment is recoverable: the log is intact
/// afterwards, and a replay reads what it read before, and then the command.
pub proof fn rotated_commands_are_recoverable(
    m: ManifestModel,
    files: Seq<Seq<u8>>,
    commands: Seq<Seq<CommandModel>>,
    command: CommandModel,
    id: u64,
)
    requires
        intact(m, files, commands),
        m.durable_digest.len() == 32,
        record::well_formed(command),
        record::body_of(command) is Ok,
        m.durable_sequence < u64::MAX - 1,
        engine::envelope_fault(
            (m.durable_sequence + 1) as u64,
            entry_of(command).kind,
            entry_of(command).body.len(),
        ) is None,
    ensures
        ({
            let sequence = (m.durable_sequence + 1) as u64;
            let entry = entry_of(command);
            let record = engine::record_bytes(sequence, m.durable_digest, entry.kind, entry.body);
            let next = engine::started(m, id, sequence, record);
            let header = engine::segment_bytes(m.database_id, next.segments.last());
            let longer = commands.push(seq![command]);
            &&& intact(next, files.push(header + record), longer)
            &&& logged(next, longer, 0) == logged(m, commands, 0).push((sequence, command))
        }),
{
    let n = m.segments.len() as int;
    let sequence = (m.durable_sequence + 1) as u64;
    let entry = entry_of(command);
    let record = engine::record_bytes(sequence, m.durable_digest, entry.kind, entry.body);
    let next = engine::started(m, id, sequence, record);
    let segment = next.segments.last();
    let header = engine::segment_bytes(m.database_id, segment);
    let longer = commands.push(seq![command]);
    let all = files.push(header + record);
    let entries = seq![entry];
    assert(next.segments[n] == segment);
    assert(entries_of(seq![command]) =~= entries);
    assert(segments::loggable(sequence as int, entries)) by {
        assert(entries[0] == entry);
    }
    segments::started_segments_hold_their_record(m, id, sequence, entry);
    if m.durable_sequence == m.checkpoint_sequence && n > 0 {
        let end = m.segments[n - 1];
        assert(segment_intact(m, end, files[n - 1], commands[n - 1]));
        lemma_anchors_end(
            end.first_sequence as int,
            end.predecessor_digest,
            entries_of(commands[n - 1]),
            m.checkpoint_sequence,
            m.checkpoint_digest,
        );
        assert(end == m.segments.last());
    }
    assert(anchors(
        sequence as int,
        m.durable_digest,
        Seq::empty(),
        m.checkpoint_sequence,
        m.checkpoint_digest,
    ));
    lemma_anchors_push(
        sequence as int,
        m.durable_digest,
        Seq::empty(),
        entry,
        m.checkpoint_sequence,
        m.checkpoint_digest,
    );
    assert(Seq::<Entry>::empty().push(entry) =~= entries);
    assert forall|k: int| 0 <= k < all.len() implies segment_intact(
        next,
        next.segments[k],
        #[trigger] all[k],
        longer[k],
    ) by {
        if k < n {
            assert(segment_intact(m, m.segments[k], files[k], commands[k]));
            assert(next.segments[k] == m.segments[k]);
        }
    }
    assert forall|k: int| 0 < k < next.segments.len() implies (
    #[trigger] next.segments[k]).first_sequence == next.segments[k - 1].last_sequence + 1 by {
        if k < n {
            assert(m.segments[k].first_sequence == m.segments[k - 1].last_sequence + 1);
        } else {
            assert(next.segments[k - 1] == m.segments.last());
        }
    }
    lemma_logged_started(m, next, commands, command, 0);
}

/// A checkpoint of everything durable keeps the log intact: nothing is left to be
/// executed, and a replay still reads the same commands.
pub proof fn checkpoints_keep_the_log_recoverable(
    m: ManifestModel,
    files: Seq<Seq<u8>>,
    commands: Seq<Seq<CommandModel>>,
)
    requires
        intact(m, files, commands),
    ensures
        intact(engine::checkpointed(m), files, commands),
        logged(engine::checkpointed(m), commands, 0) == logged(m, commands, 0),
{
    let next = engine::checkpointed(m);
    assert forall|k: int| 0 <= k < files.len() implies segment_intact(
        next,
        next.segments[k],
        #[trigger] files[k],
        commands[k],
    ) by {
        let segment = m.segments[k];
        assert(segment_intact(m, segment, files[k], commands[k]));
        lemma_ascending(m, files, commands, k);
        if k == m.segments.len() - 1 {
            assert(segment == m.segments.last());
        }
        lemma_anchored_at_end(
            segment.first_sequence as int,
            segment.predecessor_digest,
            entries_of(commands[k]),
            m.durable_sequence,
            m.durable_digest,
        );
    }
    if m.segments.len() > 0 {
        assert(segment_intact(m, m.segments[0], files[0], commands[0]));
        lemma_first(m, files, commands);
    }
    lemma_logged_same(m, next, commands, 0);
}

proof fn lemma_first(m: ManifestModel, files: Seq<Seq<u8>>, commands: Seq<Seq<CommandModel>>)
    requires
        intact(m, files, commands),
        m.segments.len() > 0,
    ensures
        m.segments[0].first_sequence <= m.durable_sequence,
{
    assert(segment_intact(m, m.segments[0], files[0], commands[0]));
    lemma_ascending(m, files, commands, 0);
}

proof fn lemma_logged_same(
    m: ManifestModel,
    next: ManifestModel,
    commands: Seq<Seq<CommandModel>>,
    k: int,
)
    requires
        m.segments == next.segments,
        0 <= k,
    ensures
        logged(next, commands, k) == logged(m, commands, k),
    decreases m.segments.len() - k,
{
    if k < m.segments.len() {
        lemma_logged_same(m, next, commands, k + 1);
    }
}

} // verus!
