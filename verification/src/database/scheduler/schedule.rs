//! Assigned records: which may run, which are resolved, and how far their
//! results are visible.

use crate::database::budget::EngineOptions;
use crate::database::Receipt;
use crate::vm::access;
use crate::vm::access::ScopeModel;
use crate::vm::outcome::Resolution;
use crate::vm::{overlap, AccessManifest, Outcome, Scope};
use vstd::prelude::*;

verus! {

/// A record that is durable and not yet visible.
#[derive(Debug, PartialEq, Eq)]
pub struct Entry {
    pub sequence: u64,
    pub digest: [u8; 32],
    /// What the transaction may read.
    pub reads: Vec<Scope>,
    /// What it may write; nothing once it is resolved.
    pub writes: Vec<Scope>,
    /// The unresolved earlier records that may write what it reads.
    pub dependencies: Vec<u64>,
    /// Whether it has not been handed to a worker.
    pub waiting: bool,
    pub outcome: Option<Outcome>,
    pub bytes: u64,
    pub reservation: u64,
}

/// The assigned records in log order, and the last visible sequence.
#[derive(Debug, PartialEq, Eq)]
pub struct Schedule {
    pub frontier: u64,
    pub entries: Vec<Entry>,
    pub assigned_bytes: u64,
    pub reserved_bytes: u64,
}

/// The model of an [`Entry`].
#[verifier::ext_equal]
pub struct Record {
    pub sequence: u64,
    pub digest: Seq<u8>,
    pub reads: Seq<ScopeModel>,
    pub writes: Seq<ScopeModel>,
    pub dependencies: Seq<u64>,
    pub waiting: bool,
    pub outcome: Option<Resolution>,
    pub bytes: u64,
    pub reservation: u64,
}

/// The model of a [`Schedule`].
#[verifier::ext_equal]
pub struct Plan {
    pub frontier: u64,
    pub records: Seq<Record>,
    pub assigned_bytes: u64,
    pub reserved_bytes: u64,
}

impl Record {
    /// Whether the outcome is known.
    pub open spec fn resolved(self) -> bool {
        self.outcome is Some
    }
}

/// The model of an optional outcome.
pub open spec fn outcome_model(outcome: Option<Outcome>) -> Option<Resolution> {
    match outcome {
        Some(outcome) => Some(outcome@),
        None => None,
    }
}

impl Entry {
    pub open spec fn view(&self) -> Record {
        Record {
            sequence: self.sequence,
            digest: self.digest@,
            reads: access::scopes(self.reads@),
            writes: access::scopes(self.writes@),
            dependencies: self.dependencies@,
            waiting: self.waiting,
            outcome: outcome_model(self.outcome),
            bytes: self.bytes,
            reservation: self.reservation,
        }
    }
}

/// The models of some entries.
pub open spec fn records(list: Seq<Entry>) -> Seq<Record> {
    list.map_values(|e: Entry| e@)
}

impl Schedule {
    pub open spec fn view(&self) -> Plan {
        Plan {
            frontier: self.frontier,
            records: records(self.entries@),
            assigned_bytes: self.assigned_bytes,
            reserved_bytes: self.reserved_bytes,
        }
    }
}

// ---- The invariant -------------------------------------------------------

/// Whether something that is written may be read.
pub open spec fn conflict(writes: Seq<ScopeModel>, reads: Seq<ScopeModel>) -> bool {
    exists|i: int, j: int|
        0 <= i < writes.len() && 0 <= j < reads.len() && access::share(
            #[trigger] writes[i],
            #[trigger] reads[j],
        )
}

/// Whether record `i` must wait for the earlier record `j`.
pub open spec fn awaits(list: Seq<Record>, i: int, j: int) -> bool {
    !list[j].resolved() && conflict(list[j].writes, list[i].reads)
}

/// Whether the sequences are consecutive.
pub open spec fn consecutive(list: Seq<Record>) -> bool {
    forall|i: int| 0 <= i < list.len() ==> (#[trigger] list[i]).sequence == list[0].sequence + i
}

/// Whether the dependencies of every record are exactly the unresolved earlier
/// records that may write what it reads.
pub open spec fn dependent(list: Seq<Record>) -> bool {
    &&& forall|i: int, j: int|
        0 <= j < i < list.len() ==> (#[trigger] list[i]).dependencies.contains(
            (#[trigger] list[j]).sequence,
        ) == awaits(list, i, j)
    &&& forall|i: int, d: u64|
        0 <= i < list.len() && #[trigger] list[i].dependencies.contains(d) ==> list[0].sequence <= d
            < list[i].sequence
}

/// Whether records that were handed to a worker wait for nothing, and resolved
/// ones were handed out and write nothing more.
pub open spec fn settled(list: Seq<Record>) -> bool {
    forall|i: int|
        0 <= i < list.len() ==> {
            &&& !(#[trigger] list[i]).waiting ==> list[i].dependencies.len() == 0
            &&& list[i].resolved() ==> !list[i].waiting && list[i].writes.len() == 0
        }
}

/// The bytes of all records.
pub open spec fn total_bytes(list: Seq<Record>) -> nat
    decreases list.len(),
{
    if list.len() == 0 {
        0
    } else {
        total_bytes(list.drop_last()) + list.last().bytes as nat
    }
}

/// The reservations of all records.
pub open spec fn total_reserved(list: Seq<Record>) -> nat
    decreases list.len(),
{
    if list.len() == 0 {
        0
    } else {
        total_reserved(list.drop_last()) + list.last().reservation as nat
    }
}

impl Plan {
    /// What every operation keeps.
    pub open spec fn wf(self) -> bool {
        &&& consecutive(self.records)
        &&& dependent(self.records)
        &&& settled(self.records)
        &&& self.assigned_bytes == total_bytes(self.records)
        &&& self.reserved_bytes == total_reserved(self.records)
        &&& self.records.len() > 0 ==> {
            &&& self.records[0].sequence <= self.frontier + 1
            &&& self.frontier <= self.records.last().sequence
            &&& self.records.last().sequence < u64::MAX
        }
        &&& forall|i: int|
            0 <= i < self.records.len() && (#[trigger] self.records[i]).sequence <= self.frontier
                ==> self.records[i].resolved()
    }

    /// Whether all visible records have been retired.
    pub open spec fn retired(self) -> bool {
        self.records.len() > 0 ==> self.records[0].sequence == self.frontier + 1
    }

    /// Whether all visible records have been retired, and the next one is
    /// unresolved.
    pub open spec fn current(self) -> bool {
        self.records.len() > 0 ==> self.records[0].sequence == self.frontier + 1
            && !self.records[0].resolved()
    }

    /// Whether the frontier stands before an unresolved record, or behind the
    /// last one.
    pub open spec fn settled_prefix(self) -> bool {
        forall|i: int|
            0 <= i < self.records.len() && (#[trigger] self.records[i]).sequence == self.frontier
                + 1 ==> !self.records[i].resolved()
    }

    /// Whether the records keep the capacity of the process.
    pub open spec fn within(self, options: EngineOptions) -> bool {
        &&& self.records.len() <= options.assigned_backlog_count
        &&& self.assigned_bytes <= options.assigned_backlog_bytes
        &&& self.reserved_bytes <= options.execution_bytes
    }
}

// ---- Overlap -------------------------------------------------------------

/// Whether something that is written may be read.
pub fn overlaps(writes: &Vec<Scope>, reads: &Vec<Scope>) -> (shared: bool)
    ensures
        shared == conflict(access::scopes(writes@), access::scopes(reads@)),
{
    let ghost w = access::scopes(writes@);
    let ghost r = access::scopes(reads@);
    let mut i: usize = 0;
    while i < writes.len()
        invariant
            i <= writes@.len(),
            w == access::scopes(writes@),
            r == access::scopes(reads@),
            forall|a: int, b: int|
                0 <= a < i && 0 <= b < r.len() ==> !access::share(#[trigger] w[a], #[trigger] r[b]),
        decreases writes@.len() - i,
    {
        let mut j: usize = 0;
        while j < reads.len()
            invariant
                i < writes@.len(),
                j <= reads@.len(),
                w == access::scopes(writes@),
                r == access::scopes(reads@),
                forall|b: int| 0 <= b < j ==> !access::share(w[i as int], #[trigger] r[b]),
            decreases reads@.len() - j,
        {
            if overlap(&writes[i], &reads[j]) {
                assert(access::share(w[i as int], r[j as int]));
                return true;
            }
            j += 1;
        }
        i += 1;
    }
    false
}

// ---- Assignment ----------------------------------------------------------

/// Whether there is room for one more record.
pub open spec fn room(p: Plan, options: EngineOptions, bytes: u64, reservation: u64) -> bool {
    &&& p.records.len() < options.assigned_backlog_count
    &&& p.assigned_bytes + bytes <= options.assigned_backlog_bytes
    &&& p.reserved_bytes + reservation <= options.execution_bytes
}

/// The sequences of the first `n` records that a reader must wait for.
pub open spec fn awaited(list: Seq<Record>, reads: Seq<ScopeModel>, n: int) -> Seq<u64>
    decreases n,
{
    if n <= 0 || n > list.len() {
        Seq::empty()
    } else {
        let front = awaited(list, reads, n - 1);
        let record = list[n - 1];
        if !record.resolved() && conflict(record.writes, reads) {
            front.push(record.sequence)
        } else {
            front
        }
    }
}

/// The record of a newly assigned transaction.
pub open spec fn assigned_record(
    p: Plan,
    sequence: u64,
    digest: Seq<u8>,
    reads: Seq<ScopeModel>,
    writes: Seq<ScopeModel>,
    bytes: u64,
    reservation: u64,
) -> Record {
    Record {
        sequence,
        digest,
        reads,
        writes,
        dependencies: awaited(p.records, reads, p.records.len() as int),
        waiting: true,
        outcome: None,
        bytes,
        reservation,
    }
}

/// `p` with one more record.
pub open spec fn with_record(p: Plan, record: Record) -> Plan {
    Plan {
        records: p.records.push(record),
        assigned_bytes: (p.assigned_bytes + record.bytes) as u64,
        reserved_bytes: (p.reserved_bytes + record.reservation) as u64,
        ..p
    }
}

/// What is awaited are the conflicting unresolved records.
proof fn lemma_awaited(list: Seq<Record>, reads: Seq<ScopeModel>, n: int, j: int)
    requires
        0 <= n <= list.len(),
        0 <= j < list.len(),
        consecutive(list),
    ensures
        awaited(list, reads, n).contains(list[j].sequence) == (j < n && !list[j].resolved()
            && conflict(list[j].writes, reads)),
    decreases n,
{
    if n > 0 {
        lemma_awaited(list, reads, n - 1, j);
        let front = awaited(list, reads, n - 1);
        let record = list[n - 1];
        if !record.resolved() && conflict(record.writes, reads) {
            let longer = front.push(record.sequence);
            assert(longer[longer.len() - 1] == record.sequence);
            assert(front.contains(list[j].sequence) ==> longer.contains(list[j].sequence)) by {
                if front.contains(list[j].sequence) {
                    let k = choose|k: int| 0 <= k < front.len() && front[k] == list[j].sequence;
                    assert(longer[k] == list[j].sequence);
                }
            }
            if longer.contains(list[j].sequence) && !front.contains(list[j].sequence) {
                let k = choose|k: int| 0 <= k < longer.len() && longer[k] == list[j].sequence;
                if k < front.len() {
                    assert(front[k] == list[j].sequence);
                }
                assert(list[j].sequence == record.sequence);
                assert(list[j].sequence == list[0].sequence + j);
                assert(record.sequence == list[0].sequence + n - 1);
            }
        }
    }
}

/// What is awaited are earlier records.
proof fn lemma_awaited_range(list: Seq<Record>, reads: Seq<ScopeModel>, n: int, d: u64)
    requires
        0 <= n <= list.len(),
        consecutive(list),
        awaited(list, reads, n).contains(d),
    ensures
        exists|j: int| 0 <= j < n && (#[trigger] list[j]).sequence == d,
    decreases n,
{
    if n > 0 {
        let longer = awaited(list, reads, n);
        let front = awaited(list, reads, n - 1);
        let k = choose|k: int| 0 <= k < longer.len() && longer[k] == d;
        if k < front.len() {
            assert(front[k] == d);
            lemma_awaited_range(list, reads, n - 1, d);
        } else {
            assert(list[n - 1].sequence == d);
        }
    }
}

/// One more record keeps the invariant.
pub proof fn lemma_assigned(
    p: Plan,
    sequence: u64,
    digest: Seq<u8>,
    reads: Seq<ScopeModel>,
    writes: Seq<ScopeModel>,
    bytes: u64,
    reservation: u64,
)
    requires
        p.wf(),
        sequence < u64::MAX,
        p.records.len() == 0 ==> sequence == p.frontier + 1,
        p.records.len() > 0 ==> sequence == p.records.last().sequence + 1,
        p.assigned_bytes + bytes <= u64::MAX,
        p.reserved_bytes + reservation <= u64::MAX,
    ensures
        with_record(
            p,
            assigned_record(p, sequence, digest, reads, writes, bytes, reservation),
        ).wf(),
{
    let record = assigned_record(p, sequence, digest, reads, writes, bytes, reservation);
    let next = with_record(p, record);
    let list = p.records;
    let longer = next.records;
    let n = list.len() as int;
    assert(longer.drop_last() =~= list);
    assert forall|i: int| 0 <= i < longer.len() implies (#[trigger] longer[i]).sequence
        == longer[0].sequence + i by {
        if i < n {
            assert(longer[i] == list[i]);
        }
    }
    assert forall|i: int, j: int| 0 <= j < i < longer.len() implies (
    #[trigger] longer[i]).dependencies.contains((#[trigger] longer[j]).sequence) == awaits(
        longer,
        i,
        j,
    ) by {
        assert(longer[j] == list[j]);
        if i < n {
            assert(longer[i] == list[i]);
            assert(awaits(longer, i, j) == awaits(list, i, j));
        } else {
            lemma_awaited(list, reads, n, j);
        }
    }
    assert forall|i: int, d: u64|
        0 <= i < longer.len() && #[trigger] longer[i].dependencies.contains(
            d,
        ) implies longer[0].sequence <= d < longer[i].sequence by {
        if i < n {
            assert(longer[i] == list[i]);
            assert(list[i].dependencies.contains(d));
        } else {
            lemma_awaited_range(list, reads, n, d);
            let j = choose|j: int| 0 <= j < n && (#[trigger] list[j]).sequence == d;
            assert(list[j].sequence == list[0].sequence + j);
            assert(list[n - 1].sequence == list[0].sequence + n - 1);
        }
    }
    assert forall|i: int| 0 <= i < longer.len() implies {
        &&& !(#[trigger] longer[i]).waiting ==> longer[i].dependencies.len() == 0
        &&& longer[i].resolved() ==> !longer[i].waiting && longer[i].writes.len() == 0
    } by {
        if i < n {
            assert(longer[i] == list[i]);
        }
    }
    assert forall|i: int|
        0 <= i < longer.len() && (#[trigger] longer[i]).sequence
            <= next.frontier implies longer[i].resolved() by {
        if i < n {
            assert(longer[i] == list[i]);
        } else if n > 0 {
            assert(list[n - 1].sequence >= p.frontier);
        }
    }
    assert(next.assigned_bytes == total_bytes(longer));
    assert(next.reserved_bytes == total_reserved(longer));
    assert(consecutive(longer));
    assert(dependent(longer));
    assert(settled(longer));
}

impl Schedule {
    /// An empty schedule behind a visible sequence.
    pub fn new(frontier: u64) -> (schedule: Schedule)
        ensures
            schedule@ == (Plan {
                frontier,
                records: Seq::empty(),
                assigned_bytes: 0,
                reserved_bytes: 0,
            }),
            schedule@.wf(),
            schedule@.retired(),
    {
        let schedule = Schedule {
            frontier,
            entries: Vec::new(),
            assigned_bytes: 0,
            reserved_bytes: 0,
        };
        assert(schedule@.records =~= Seq::empty());
        schedule
    }

    /// Whether there is room for one more record.
    pub fn fits(&self, options: &EngineOptions, bytes: u64, reservation: u64) -> (fits: bool)
        requires
            self@.within(*options),
        ensures
            fits == room(self@, *options, bytes, reservation),
    {
        self.entries.len() < options.assigned_backlog_count && bytes
            <= options.assigned_backlog_bytes - self.assigned_bytes && reservation
            <= options.execution_bytes - self.reserved_bytes
    }

    /// Add a durable transaction; it depends on every unresolved record that may
    /// write what it reads, since a newer writer can abort.
    pub fn assign(
        &mut self,
        options: &EngineOptions,
        sequence: u64,
        digest: [u8; 32],
        manifest: &AccessManifest,
        bytes: u64,
        reservation: u64,
    )
        requires
            old(self)@.wf(),
            old(self)@.within(*options),
            room(old(self)@, *options, bytes, reservation),
            sequence < u64::MAX,
            old(self)@.records.len() == 0 ==> sequence == old(self)@.frontier + 1,
            old(self)@.records.len() > 0 ==> sequence == old(self)@.records.last().sequence + 1,
        ensures
            final(self)@ == with_record(
                old(self)@,
                assigned_record(
                    old(self)@,
                    sequence,
                    digest@,
                    access::selected(manifest.entries@, true),
                    access::selected(manifest.entries@, false),
                    bytes,
                    reservation,
                ),
            ),
            final(self)@.wf(),
            final(self)@.within(*options),
            old(self)@.retired() ==> final(self)@.retired(),
    {
        let ghost before = self@;
        let reads = manifest.reads();
        let writes = manifest.writes();
        let ghost r = access::scopes(reads@);
        let mut dependencies: Vec<u64> = Vec::new();
        let mut i: usize = 0;
        while i < self.entries.len()
            invariant
                i <= self.entries@.len(),
                before == self@,
                r == access::scopes(reads@),
                dependencies@ == awaited(before.records, r, i as int),
            decreases self.entries@.len() - i,
        {
            let entry = &self.entries[i];
            assert(before.records[i as int] == entry@);
            if entry.outcome.is_none() && overlaps(&entry.writes, &reads) {
                dependencies.push(entry.sequence);
            }
            i += 1;
        }
        proof {
            lemma_assigned(
                before,
                sequence,
                digest@,
                r,
                access::scopes(writes@),
                bytes,
                reservation,
            );
        }
        self.assigned_bytes = self.assigned_bytes + bytes;
        self.reserved_bytes = self.reserved_bytes + reservation;
        let entry = Entry {
            sequence,
            digest,
            reads,
            writes,
            dependencies,
            waiting: true,
            outcome: None,
            bytes,
            reservation,
        };
        self.entries.push(entry);
        assert(self@.records =~= before.records.push(entry@));
        assert(entry@ =~= assigned_record(
            before,
            sequence,
            digest@,
            r,
            access::scopes(writes@),
            bytes,
            reservation,
        ));
    }
}

// ---- Dispatch ------------------------------------------------------------

/// Whether a durable record lies right behind the frontier, at most `window`
/// sequences away.
pub open spec fn windowed(sequence: u64, frontier: u64, durable: u64, window: u64) -> bool {
    frontier < sequence <= durable && sequence - frontier <= window
}

/// Whether a durable record lies right behind the frontier.
pub fn in_window(sequence: u64, frontier: u64, durable: u64, window: u64) -> (inside: bool)
    ensures
        inside == windowed(sequence, frontier, durable, window),
{
    sequence > frontier && sequence <= durable && sequence - frontier <= window
}

/// Whether a record can be handed to a worker.
pub open spec fn ready(p: Plan, i: int, durable: u64, window: u64) -> bool {
    &&& p.records[i].waiting
    &&& p.records[i].dependencies.len() == 0
    &&& windowed(p.records[i].sequence, p.frontier, durable, window)
}

/// The first record from the `i`-th on that can be handed to a worker.
pub open spec fn first_ready(p: Plan, i: int, durable: u64, window: u64) -> Option<int>
    decreases p.records.len() - i,
{
    if !(0 <= i < p.records.len()) {
        None
    } else if ready(p, i, durable, window) {
        Some(i)
    } else {
        first_ready(p, i + 1, durable, window)
    }
}

/// `p` after a record was handed to a worker.
pub open spec fn taken(p: Plan, i: int) -> Plan {
    Plan {
        records: p.records.update(i, Record { waiting: false, ..p.records[i] }),
        ..p
    }
}

/// What the idle workers from the `w`-th on are given: the plan and the busy
/// workers afterwards, and each worker's record.
pub open spec fn handed_out(p: Plan, busy: Seq<bool>, w: int, durable: u64, window: u64) -> (
    Plan,
    Seq<bool>,
    Seq<(int, u64)>,
)
    decreases busy.len() - w,
{
    if !(0 <= w < busy.len()) {
        (p, busy, Seq::empty())
    } else if busy[w] {
        handed_out(p, busy, w + 1, durable, window)
    } else {
        match first_ready(p, 0, durable, window) {
            None => (p, busy, Seq::empty()),
            Some(i) => {
                let (q, b, jobs) = handed_out(
                    taken(p, i),
                    busy.update(w, true),
                    w + 1,
                    durable,
                    window,
                );
                (q, b, seq![(w, p.records[i].sequence)] + jobs)
            },
        }
    }
}

/// A record and the worker that it is handed to.
#[derive(Clone, Copy, Debug, PartialEq, Eq, Structural)]
pub struct Job {
    pub worker: usize,
    pub sequence: u64,
}

/// The models of some jobs.
pub open spec fn jobs(list: Seq<Job>) -> Seq<(int, u64)> {
    list.map_values(|j: Job| (j.worker as int, j.sequence))
}

/// Handing a ready record to a worker keeps the invariant.
pub proof fn lemma_taken(p: Plan, i: int)
    requires
        p.wf(),
        0 <= i < p.records.len(),
        p.records[i].waiting,
        p.records[i].dependencies.len() == 0,
    ensures
        taken(p, i).wf(),
        taken(p, i).retired() == p.retired(),
{
    let q = taken(p, i);
    let list = p.records;
    let next = q.records;
    lemma_same_totals(list, next);
    assert forall|a: int, b: int| 0 <= b < a < next.len() implies (
    #[trigger] next[a]).dependencies.contains((#[trigger] next[b]).sequence) == awaits(
        next,
        a,
        b,
    ) by {
        assert(list[a].dependencies.contains(list[b].sequence) == awaits(list, a, b));
    }
    assert forall|a: int, d: u64|
        0 <= a < next.len() && #[trigger] next[a].dependencies.contains(
            d,
        ) implies next[0].sequence <= d < next[a].sequence by {
        assert(list[a].dependencies.contains(d));
    }
}

/// The totals depend on the bytes and the reservations alone.
proof fn lemma_same_totals(a: Seq<Record>, b: Seq<Record>)
    requires
        a.len() == b.len(),
        forall|i: int|
            0 <= i < a.len() ==> (#[trigger] a[i]).bytes == b[i].bytes && a[i].reservation
                == b[i].reservation,
    ensures
        total_bytes(a) == total_bytes(b),
        total_reserved(a) == total_reserved(b),
    decreases a.len(),
{
    if a.len() > 0 {
        assert(a[a.len() - 1] == a.last() && b[b.len() - 1] == b.last());
        lemma_same_totals(a.drop_last(), b.drop_last());
    }
}

/// The first ready record is ready.
pub proof fn lemma_first_ready(p: Plan, i: int, durable: u64, window: u64)
    requires
        0 <= i,
    ensures
        first_ready(p, i, durable, window) matches Some(k) ==> i <= k < p.records.len() && ready(
            p,
            k,
            durable,
            window,
        ),
    decreases p.records.len() - i,
{
    if i < p.records.len() && !ready(p, i, durable, window) {
        lemma_first_ready(p, i + 1, durable, window);
    }
}

impl Schedule {
    /// The first record that can be handed to a worker.
    fn next_ready(&self, durable: u64, window: u64) -> (index: Option<usize>)
        ensures
            match index {
                Some(i) => first_ready(self@, 0, durable, window) == Some(i as int) && i
                    < self@.records.len() && ready(self@, i as int, durable, window),
                None => first_ready(self@, 0, durable, window) is None,
            },
    {
        let mut i: usize = 0;
        while i < self.entries.len()
            invariant
                i <= self.entries@.len(),
                first_ready(self@, 0, durable, window) == first_ready(
                    self@,
                    i as int,
                    durable,
                    window,
                ),
            decreases self.entries@.len() - i,
        {
            let entry = &self.entries[i];
            assert(self@.records[i as int] == entry@);
            if entry.waiting && entry.dependencies.len() == 0 && in_window(
                entry.sequence,
                self.frontier,
                durable,
                window,
            ) {
                return Some(i);
            }
            i += 1;
        }
        None
    }

    /// Hand ready records to idle workers. The view that a worker reads is
    /// captured after this, so that it has every installed predecessor.
    pub fn dispatch(&mut self, busy: &mut Vec<bool>, durable: u64, window: u64) -> (list: Vec<Job>)
        requires
            old(self)@.wf(),
        ensures
            handed_out(old(self)@, old(busy)@, 0, durable, window) == (
                final(self)@,
                final(busy)@,
                jobs(list@),
            ),
            final(self)@.wf(),
            final(self)@.retired() == old(self)@.retired(),
    {
        let mut list: Vec<Job> = Vec::new();
        let mut worker: usize = 0;
        let ghost whole = handed_out(self@, busy@, 0, durable, window);
        assert(jobs(list@) =~= Seq::empty());
        assert(jobs(list@) + whole.2 =~= whole.2);
        while worker < busy.len()
            invariant
                worker <= busy@.len(),
                self@.wf(),
                self@.retired() == old(self)@.retired(),
                ({
                    let (q, b, rest) = handed_out(self@, busy@, worker as int, durable, window);
                    whole == (q, b, jobs(list@) + rest)
                }),
                whole == handed_out(old(self)@, old(busy)@, 0, durable, window),
            decreases busy@.len() - worker,
        {
            if !busy[worker] {
                match self.next_ready(durable, window) {
                    None => {
                        assert(jobs(list@) + Seq::<(int, u64)>::empty() =~= jobs(list@));
                        return list;
                    },
                    Some(i) => {
                        let ghost before = self@;
                        let ghost handed = jobs(list@);
                        proof {
                            lemma_taken(before, i as int);
                        }
                        let sequence: u64 = self.entries[i].sequence;
                        self.take(i);
                        busy.set(worker, true);
                        let job = Job { worker, sequence };
                        list.push(job);
                        proof {
                            assert(jobs(list@) =~= handed.push((worker as int, sequence)));
                            let (q, b, rest) = handed_out(
                                self@,
                                busy@,
                                worker + 1,
                                durable,
                                window,
                            );
                            assert(handed + (seq![(worker as int, sequence)] + rest) =~= jobs(
                                list@,
                            ) + rest);
                        }
                    },
                }
            }
            worker += 1;
        }
        assert(jobs(list@) + Seq::<(int, u64)>::empty() =~= jobs(list@));
        list
    }

    /// Mark a record as handed out.
    fn take(&mut self, i: usize)
        requires
            i < old(self)@.records.len(),
        ensures
            final(self)@ == taken(old(self)@, i as int),
    {
        let ghost before = self@;
        self.entries[i].waiting = false;
        assert(self@.records =~= taken(before, i as int).records);
    }
}

// ---- Resolution ----------------------------------------------------------

/// `list` without `d`.
pub open spec fn without(list: Seq<u64>, d: u64) -> Seq<u64>
    decreases list.len(),
{
    if list.len() == 0 {
        list
    } else if list.last() == d {
        without(list.drop_last(), d)
    } else {
        without(list.drop_last(), d).push(list.last())
    }
}

proof fn lemma_without(list: Seq<u64>, d: u64, e: u64)
    ensures
        without(list, d).contains(e) == (list.contains(e) && e != d),
        list.len() == 0 ==> without(list, d).len() == 0,
    decreases list.len(),
{
    if list.len() > 0 {
        let front = list.drop_last();
        lemma_without(front, d, e);
        assert(list.contains(e) == (front.contains(e) || list.last() == e)) by {
            if list.contains(e) {
                let k = choose|k: int| 0 <= k < list.len() && list[k] == e;
                if k < front.len() {
                    assert(front[k] == e);
                }
            }
            if front.contains(e) {
                let k = choose|k: int| 0 <= k < front.len() && front[k] == e;
                assert(list[k] == e);
            }
            if list.last() == e {
                assert(list[list.len() - 1] == e);
            }
        }
        if list.last() != d {
            let short = without(front, d);
            let long = short.push(list.last());
            assert(long.contains(e) == (short.contains(e) || list.last() == e)) by {
                if long.contains(e) {
                    let k = choose|k: int| 0 <= k < long.len() && long[k] == e;
                    if k < short.len() {
                        assert(short[k] == e);
                    }
                }
                if short.contains(e) {
                    let k = choose|k: int| 0 <= k < short.len() && short[k] == e;
                    assert(long[k] == e);
                }
                assert(long[long.len() - 1] == list.last());
            }
        }
    }
}

/// A record after one of the sequence `d` got an outcome; `chosen` says that it
/// is that record.
pub open spec fn after_resolution(
    record: Record,
    chosen: bool,
    d: u64,
    outcome: Resolution,
) -> Record {
    Record {
        dependencies: without(record.dependencies, d),
        outcome: if chosen {
            Some(outcome)
        } else {
            record.outcome
        },
        writes: if chosen {
            Seq::empty()
        } else {
            record.writes
        },
        ..record
    }
}

/// `p` after record `k` got its outcome: it writes nothing more, and nothing
/// waits for it.
pub open spec fn resolved(p: Plan, k: int, outcome: Resolution) -> Plan {
    Plan {
        records: Seq::new(
            p.records.len(),
            |i: int| after_resolution(p.records[i], i == k, p.records[k].sequence, outcome),
        ),
        ..p
    }
}

/// Resolving a record that was handed out keeps the invariant.
pub proof fn lemma_resolved(p: Plan, k: int, outcome: Resolution)
    requires
        p.wf(),
        0 <= k < p.records.len(),
        !p.records[k].waiting,
    ensures
        resolved(p, k, outcome).wf(),
        resolved(p, k, outcome).retired() == p.retired(),
{
    let q = resolved(p, k, outcome);
    let list = p.records;
    let next = q.records;
    let d = list[k].sequence;
    lemma_same_totals(list, next);
    assert forall|i: int| 0 <= i < next.len() implies (#[trigger] next[i]).sequence
        == next[0].sequence + i by {
        assert(list[i].sequence == list[0].sequence + i);
    }
    assert forall|i: int, j: int| 0 <= j < i < next.len() implies (
    #[trigger] next[i]).dependencies.contains((#[trigger] next[j]).sequence) == awaits(
        next,
        i,
        j,
    ) by {
        lemma_without(list[i].dependencies, d, list[j].sequence);
        assert(list[i].dependencies.contains(list[j].sequence) == awaits(list, i, j));
        assert(list[j].sequence == list[0].sequence + j && d == list[0].sequence + k);
        if j == k {
            assert(next[j].resolved());
        }
    }
    assert forall|i: int, e: u64|
        0 <= i < next.len() && #[trigger] next[i].dependencies.contains(
            e,
        ) implies next[0].sequence <= e < next[i].sequence by {
        lemma_without(list[i].dependencies, d, e);
        assert(list[i].dependencies.contains(e));
    }
    assert forall|i: int| 0 <= i < next.len() implies {
        &&& !(#[trigger] next[i]).waiting ==> next[i].dependencies.len() == 0
        &&& next[i].resolved() ==> !next[i].waiting && next[i].writes.len() == 0
    } by {
        lemma_without(list[i].dependencies, d, 0);
        assert(!list[i].waiting ==> list[i].dependencies.len() == 0);
    }
    assert forall|i: int|
        0 <= i < next.len() && (#[trigger] next[i]).sequence
            <= q.frontier implies next[i].resolved() by {
        assert(list[i].sequence <= p.frontier ==> list[i].resolved());
    }
}

/// Drop a sequence from a list.
fn remove_dependency(list: &Vec<u64>, d: u64) -> (rest: Vec<u64>)
    ensures
        rest@ == without(list@, d),
{
    let mut rest: Vec<u64> = Vec::new();
    let mut i: usize = 0;
    assert(list@.subrange(0, 0) =~= Seq::empty());
    while i < list.len()
        invariant
            i <= list@.len(),
            rest@ == without(list@.subrange(0, i as int), d),
        decreases list@.len() - i,
    {
        if list[i] != d {
            rest.push(list[i]);
        }
        i += 1;
        assert(list@.subrange(0, i as int).drop_last() =~= list@.subrange(0, i - 1));
    }
    assert(list@.subrange(0, list@.len() as int) =~= list@);
    rest
}

/// The index of a sequence.
pub open spec fn index_of(list: Seq<Record>, sequence: u64) -> int {
    sequence - list[0].sequence
}

impl Schedule {
    /// Whether a record with this sequence was handed out and has not been
    /// resolved.
    pub fn is_running(&self, sequence: u64) -> (running: bool)
        requires
            self@.wf(),
        ensures
            running == (exists|k: int|
                0 <= k < self@.records.len() && (#[trigger] self@.records[k]).sequence == sequence
                    && !self@.records[k].waiting && !self@.records[k].resolved()),
    {
        let mut i: usize = 0;
        while i < self.entries.len()
            invariant
                i <= self.entries@.len(),
                forall|k: int|
                    0 <= k < i ==> !((#[trigger] self@.records[k]).sequence == sequence
                        && !self@.records[k].waiting && !self@.records[k].resolved()),
            decreases self.entries@.len() - i,
        {
            let entry = &self.entries[i];
            assert(self@.records[i as int] == entry@);
            if entry.sequence == sequence && !entry.waiting && entry.outcome.is_none() {
                return true;
            }
            i += 1;
        }
        false
    }

    /// Record the outcome of a record that was handed out.
    pub fn resolve(&mut self, sequence: u64, outcome: Outcome)
        requires
            old(self)@.wf(),
            exists|k: int|
                0 <= k < old(self)@.records.len() && (#[trigger] old(self)@.records[k]).sequence
                    == sequence && !old(self)@.records[k].waiting
                    && !old(self)@.records[k].resolved(),
        ensures
            ({
                let k = index_of(old(self)@.records, sequence);
                &&& 0 <= k < old(self)@.records.len()
                &&& final(self)@ == resolved(old(self)@, k, outcome@)
            }),
            final(self)@.wf(),
            final(self)@.retired() == old(self)@.retired(),
    {
        let ghost before = self@;
        let ghost list = self.entries@;
        let ghost k = index_of(before.records, sequence);
        proof {
            let w = choose|w: int|
                0 <= w < before.records.len() && (#[trigger] before.records[w]).sequence
                    == sequence && !before.records[w].waiting && !before.records[w].resolved();
            assert(before.records[w].sequence == before.records[0].sequence + w);
            assert(w == k);
            lemma_resolved(before, k, outcome@);
        }
        let mut next: Vec<Entry> = Vec::new();
        let mut answer: Option<Outcome> = Some(outcome);
        let count: usize = self.entries.len();
        let mut i: usize = 0;
        while i < count
            invariant
                i <= count == list.len(),
                self.frontier == before.frontier,
                self.assigned_bytes == before.assigned_bytes,
                self.reserved_bytes == before.reserved_bytes,
                self.entries@ == list.subrange(i as int, count as int),
                before.records == records(list),
                consecutive(before.records),
                0 <= k < count,
                before.records[k].sequence == sequence,
                next@.len() == i,
                i <= k ==> answer == Some(outcome),
                forall|a: int|
                    0 <= a < i ==> (#[trigger] next@[a])@ == after_resolution(
                        before.records[a],
                        a == k,
                        sequence,
                        outcome@,
                    ),
            decreases count - i,
        {
            let mut entry = self.entries.remove(0);
            assert(entry == list[i as int]);
            assert(before.records[i as int] == entry@);
            assert(before.records[i as int].sequence == before.records[0].sequence + i);
            entry.dependencies = remove_dependency(&entry.dependencies, sequence);
            if entry.sequence == sequence {
                entry.outcome = answer;
                answer = None;
                entry.writes = Vec::new();
                assert(access::scopes(entry.writes@) =~= Seq::empty());
            }
            next.push(entry);
            i += 1;
            assert(self.entries@ =~= list.subrange(i as int, count as int));
        }
        self.entries = next;
        assert(self@.records =~= resolved(before, k, outcome@).records);
    }
}

// ---- Visibility ----------------------------------------------------------

/// How many records at the front are resolved.
pub open spec fn resolved_prefix(list: Seq<Record>) -> nat
    decreases list.len(),
{
    if list.len() == 0 || !list[0].resolved() {
        0
    } else {
        1 + resolved_prefix(list.drop_first())
    }
}

proof fn lemma_prefix(list: Seq<Record>)
    ensures
        resolved_prefix(list) <= list.len(),
        forall|i: int| 0 <= i < resolved_prefix(list) ==> (#[trigger] list[i]).resolved(),
        resolved_prefix(list) < list.len() ==> !list[resolved_prefix(list) as int].resolved(),
    decreases list.len(),
{
    if list.len() > 0 && list[0].resolved() {
        let rest = list.drop_first();
        lemma_prefix(rest);
        assert forall|i: int| 0 <= i < resolved_prefix(list) implies (#[trigger] list[i]).resolved()
            by {
            if i > 0 {
                assert(rest[i - 1] == list[i]);
            }
        }
    }
}

/// A prefix that ends before an unresolved record, or at the end, is the
/// resolved one.
proof fn lemma_prefix_is(list: Seq<Record>, n: int)
    requires
        0 <= n <= list.len(),
        forall|i: int| 0 <= i < n ==> (#[trigger] list[i]).resolved(),
        n < list.len() ==> !list[n].resolved(),
    ensures
        resolved_prefix(list) == n,
    decreases list.len(),
{
    if n > 0 {
        assert(list[0].resolved());
        let rest = list.drop_first();
        assert forall|i: int| 0 <= i < n - 1 implies (#[trigger] rest[i]).resolved() by {
            assert(rest[i] == list[i + 1]);
        }
        if n < list.len() {
            assert(rest[n - 1] == list[n]);
        }
        lemma_prefix_is(rest, n - 1);
    }
}

/// `p` with its frontier at the end of the resolved prefix, and the digest
/// there, where the frontier moves.
pub open spec fn advanced(p: Plan) -> (Plan, Option<Seq<u8>>) {
    let n = resolved_prefix(p.records) as int;
    if n > 0 && p.records[n - 1].sequence > p.frontier {
        (
            Plan { frontier: p.records[n - 1].sequence, ..p },
            Some(p.records[n - 1].digest),
        )
    } else {
        (p, None)
    }
}

/// The model of an optional digest.
pub open spec fn digest_model(digest: Option<[u8; 32]>) -> Option<Seq<u8>> {
    match digest {
        Some(digest) => Some(digest@),
        None => None,
    }
}

/// Moving the frontier over resolved records keeps the invariant.
pub proof fn lemma_advanced(p: Plan)
    requires
        p.wf(),
    ensures
        advanced(p).0.wf(),
{
    let n = resolved_prefix(p.records) as int;
    lemma_prefix(p.records);
    if n > 0 && p.records[n - 1].sequence > p.frontier {
        let q = advanced(p).0;
        assert(p.records[n - 1].sequence == p.records[0].sequence + n - 1);
        assert(p.records.last() == p.records[p.records.len() - 1]);
        assert forall|i: int|
            0 <= i < q.records.len() && (#[trigger] q.records[i]).sequence
                <= q.frontier implies q.records[i].resolved() by {
            assert(p.records[i].sequence == p.records[0].sequence + i);
        }
    }
}

impl Schedule {
    /// Move the frontier to the end of the resolved prefix; gives the digest of
    /// its last record where it moves.
    pub fn advance(&mut self) -> (digest: Option<[u8; 32]>)
        requires
            old(self)@.wf(),
        ensures
            advanced(old(self)@) == (final(self)@, digest_model(digest)),
            final(self)@.wf(),
    {
        let ghost before = self@;
        let mut n: usize = 0;
        while n < self.entries.len() && self.entries[n].outcome.is_some()
            invariant
                n <= self.entries@.len(),
                before == self@,
                forall|i: int| 0 <= i < n ==> (#[trigger] before.records[i]).resolved(),
            decreases self.entries@.len() - n,
        {
            assert(before.records[n as int] == self.entries@[n as int]@);
            n += 1;
        }
        proof {
            if n < self.entries@.len() {
                assert(before.records[n as int] == self.entries@[n as int]@);
            }
            lemma_prefix_is(before.records, n as int);
            lemma_advanced(before);
        }
        if n > 0 {
            assert(before.records[n - 1] == self.entries@[n - 1]@);
            let sequence: u64 = self.entries[n - 1].sequence;
            if sequence > self.frontier {
                self.frontier = sequence;
                return Some(self.entries[n - 1].digest);
            }
        }
        None
    }
}

/// `p` without its first record.
pub open spec fn popped(p: Plan) -> Plan {
    Plan {
        records: p.records.drop_first(),
        assigned_bytes: (p.assigned_bytes - p.records[0].bytes) as u64,
        reserved_bytes: (p.reserved_bytes - p.records[0].reservation) as u64,
        ..p
    }
}

/// How many records at the front are visible.
pub open spec fn visible(p: Plan) -> nat
    decreases p.records.len(),
{
    if p.records.len() == 0 || p.records[0].sequence > p.frontier {
        0
    } else {
        1 + visible(popped(p))
    }
}

/// The receipts of the visible records, in order.
pub open spec fn visible_answers(p: Plan) -> Seq<(u64, Resolution)> {
    Seq::new(visible(p), |i: int| (p.records[i].sequence, p.records[i].outcome->0))
}

/// The models of some receipts.
pub open spec fn answers(list: Seq<Receipt>) -> Seq<(u64, Resolution)> {
    list.map_values(|r: Receipt| (r.sequence, r.outcome@))
}

/// `p` without its visible records.
pub open spec fn retired_plan(p: Plan) -> Plan
    decreases p.records.len(),
{
    if p.records.len() == 0 || p.records[0].sequence > p.frontier {
        p
    } else {
        retired_plan(popped(p))
    }
}

proof fn lemma_visible_bound(p: Plan)
    ensures
        visible(p) <= p.records.len(),
    decreases p.records.len(),
{
    if p.records.len() > 0 && p.records[0].sequence <= p.frontier {
        lemma_visible_bound(popped(p));
    }
}

proof fn lemma_first_total(list: Seq<Record>)
    requires
        list.len() > 0,
    ensures
        total_bytes(list) == list[0].bytes + total_bytes(list.drop_first()),
        total_reserved(list) == list[0].reservation + total_reserved(list.drop_first()),
    decreases list.len(),
{
    if list.len() > 1 {
        lemma_first_total(list.drop_last());
        assert(list.drop_last().drop_first() =~= list.drop_first().drop_last());
    } else {
        assert(list.drop_first() =~= list.drop_last());
    }
}

/// Dropping the first visible record keeps the invariant.
pub proof fn lemma_popped(p: Plan)
    requires
        p.wf(),
        p.records.len() > 0,
        p.records[0].sequence <= p.frontier,
    ensures
        popped(p).wf(),
        p.records[0].resolved(),
        p.records[0].bytes <= p.assigned_bytes,
        p.records[0].reservation <= p.reserved_bytes,
{
    let q = popped(p);
    let list = p.records;
    let next = q.records;
    lemma_first_total(list);
    assert forall|i: int| 0 <= i < next.len() implies #[trigger] next[i] == list[i + 1] by {}
    assert forall|i: int| 0 <= i < next.len() implies (#[trigger] next[i]).sequence
        == next[0].sequence + i by {
        assert(list[i + 1].sequence == list[0].sequence + i + 1);
        assert(list[1].sequence == list[0].sequence + 1);
    }
    assert forall|i: int, j: int| 0 <= j < i < next.len() implies (
    #[trigger] next[i]).dependencies.contains((#[trigger] next[j]).sequence) == awaits(
        next,
        i,
        j,
    ) by {
        assert(list[i + 1].dependencies.contains(list[j + 1].sequence) == awaits(
            list,
            i + 1,
            j + 1,
        ));
    }
    assert forall|i: int, d: u64|
        0 <= i < next.len() && #[trigger] next[i].dependencies.contains(
            d,
        ) implies next[0].sequence <= d < next[i].sequence by {
        assert(list[i + 1].dependencies.contains(d));
        assert(list[i + 1].dependencies.contains(list[0].sequence) == awaits(list, i + 1, 0));
        assert(list[1].sequence == list[0].sequence + 1);
    }
    if next.len() > 0 {
        assert(list[1].sequence == list[0].sequence + 1);
        assert(next.last() == list.last());
    }
}

impl Schedule {
    /// Take out the visible records, in order, with their receipts.
    pub fn retire(&mut self) -> (receipts: Vec<Receipt>)
        requires
            old(self)@.wf(),
        ensures
            final(self)@ == retired_plan(old(self)@),
            final(self)@.wf(),
            final(self)@.retired(),
            answers(receipts@) == visible_answers(old(self)@),
    {
        let ghost whole = self@;
        let ghost list = self.entries@;
        let mut receipts: Vec<Receipt> = Vec::new();
        proof {
            lemma_visible_bound(whole);
        }
        assert(self.entries@ =~= list.subrange(0, list.len() as int));
        while self.entries.len() > 0 && self.entries[0].sequence <= self.frontier
            invariant
                self@.wf(),
                receipts@.len() <= list.len(),
                self.entries@ == list.subrange(receipts@.len() as int, list.len() as int),
                retired_plan(self@) == retired_plan(whole),
                visible(self@) + receipts@.len() == visible(whole),
                forall|i: int|
                    0 <= i < receipts@.len() ==> (#[trigger] receipts@[i]).sequence
                        == whole.records[i].sequence && whole.records[i].outcome == Some(
                        receipts@[i].outcome@,
                    ),
                whole.records == records(list),
            decreases self.entries@.len(),
        {
            let ghost before = self@;
            assert(before.records[0] == self.entries@[0]@);
            proof {
                lemma_popped(before);
            }
            let entry = self.entries.remove(0);
            assert(entry == list[receipts@.len() as int]);
            assert(whole.records[receipts@.len() as int] == entry@);
            self.assigned_bytes = self.assigned_bytes - entry.bytes;
            self.reserved_bytes = self.reserved_bytes - entry.reservation;
            assert(self@.records =~= popped(before).records);
            assert(self@ =~= popped(before));
            match entry.outcome {
                Some(outcome) => {
                    receipts.push(Receipt { sequence: entry.sequence, outcome });
                },
                None => {},
            }
            assert(self.entries@ =~= list.subrange(receipts@.len() as int, list.len() as int));
        }
        proof {
            if self.entries@.len() > 0 {
                assert(self@.records[0] == self.entries@[0]@);
            }
        }
        assert(answers(receipts@) =~= visible_answers(whole));
        receipts
    }
}

/// What handing out records keeps.
pub proof fn lemma_handed_out(p: Plan, busy: Seq<bool>, w: int, durable: u64, window: u64)
    ensures
        ({
            let (q, b, list) = handed_out(p, busy, w, durable, window);
            &&& b.len() == busy.len()
            &&& q.frontier == p.frontier
            &&& q.assigned_bytes == p.assigned_bytes
            &&& q.reserved_bytes == p.reserved_bytes
            &&& q.records.len() == p.records.len()
            &&& forall|i: int|
                0 <= i < p.records.len() ==> (#[trigger] q.records[i]).sequence
                    == p.records[i].sequence && q.records[i].outcome == p.records[i].outcome
        }),
    decreases busy.len() - w,
{
    if 0 <= w < busy.len() {
        if busy[w] {
            lemma_handed_out(p, busy, w + 1, durable, window);
        } else {
            lemma_first_ready(p, 0, durable, window);
            if let Some(i) = first_ready(p, 0, durable, window) {
                lemma_handed_out(taken(p, i), busy.update(w, true), w + 1, durable, window);
            }
        }
    }
}

/// The frontier is moved as far as it can be.
pub proof fn lemma_settled_prefix(p: Plan)
    requires
        p.wf(),
    ensures
        advanced(p).0.settled_prefix(),
        advanced(p).0.records == p.records,
{
    visibility_is_the_resolved_prefix(p);
}

/// Retiring visible records leaves the unresolved ones, within the capacity.
pub proof fn lemma_retired(p: Plan, options: EngineOptions)
    requires
        p.wf(),
        p.settled_prefix(),
        p.within(options),
    ensures
        ({
            let q = retired_plan(p);
            &&& q.current()
            &&& q.within(options)
            &&& q.frontier == p.frontier
            &&& q.records.len() > 0 ==> p.records.len() > 0 && q.records.last()
                == p.records.last()
            &&& q.records.len() == 0 && p.records.len() > 0 ==> p.records.last().sequence
                == p.frontier
        }),
    decreases p.records.len(),
{
    if p.records.len() > 0 {
        if p.records[0].sequence <= p.frontier {
            lemma_popped(p);
            let q = popped(p);
            assert forall|i: int|
                0 <= i < q.records.len() && (#[trigger] q.records[i]).sequence == q.frontier
                    + 1 implies !q.records[i].resolved() by {
                assert(q.records[i] == p.records[i + 1]);
            }
            lemma_retired(q, options);
            if q.records.len() > 0 {
                assert(q.records.last() == p.records.last());
            }
        } else {
            assert(p.records[0].sequence == p.frontier + 1);
        }
    }
}

// ---- Laws ----------------------------------------------------------------

/// A transaction that runs, or has run, reads nothing that an unresolved earlier
/// one may write.
pub proof fn running_records_miss_no_earlier_write(p: Plan, i: int, j: int)
    requires
        p.wf(),
        0 <= j < i < p.records.len(),
        !p.records[i].waiting,
        !p.records[j].resolved(),
    ensures
        !conflict(p.records[j].writes, p.records[i].reads),
{
    assert(!p.records[i].dependencies.contains(p.records[j].sequence));
    assert(p.records[i].dependencies.contains(p.records[j].sequence) == awaits(p.records, i, j));
}

/// Only a record that is durable and waits for nothing is handed out, and only
/// to an idle worker.
pub proof fn only_durable_records_run(
    p: Plan,
    busy: Seq<bool>,
    w: int,
    durable: u64,
    window: u64,
    k: int,
)
    requires
        0 <= w,
        0 <= k < handed_out(p, busy, w, durable, window).2.len(),
    ensures
        ({
            let (worker, sequence) = handed_out(p, busy, w, durable, window).2[k];
            &&& w <= worker < busy.len()
            &&& !busy[worker]
            &&& sequence <= durable
            &&& exists|i: int|
                0 <= i < p.records.len() && (#[trigger] p.records[i]).sequence == sequence
                    && ready(p, i, durable, window)
        }),
    decreases busy.len() - w,
{
    if busy[w] {
        only_durable_records_run(p, busy, w + 1, durable, window, k);
    } else {
        lemma_first_ready(p, 0, durable, window);
        let first = first_ready(p, 0, durable, window)->0;
        let q = taken(p, first);
        if k == 0 {
            assert(p.records[first].sequence == handed_out(p, busy, w, durable, window).2[0].1);
        } else {
            only_durable_records_run(q, busy.update(w, true), w + 1, durable, window, k - 1);
            let sequence = handed_out(p, busy, w, durable, window).2[k].1;
            let i = choose|i: int|
                0 <= i < q.records.len() && (#[trigger] q.records[i]).sequence == sequence && ready(
                    q,
                    i,
                    durable,
                    window,
                );
            assert(i != first);
            assert(p.records[i].sequence == sequence);
        }
    }
}

/// No worker stays idle while there is work for it: if one from the `w`-th on
/// does, then no durable record of the window waits for a worker alone.
pub proof fn idle_workers_are_given_work(
    p: Plan,
    busy: Seq<bool>,
    w: int,
    durable: u64,
    window: u64,
    worker: int,
    i: int,
)
    requires
        0 <= w <= worker < busy.len(),
        0 <= i < p.records.len(),
    ensures
        ({
            let (q, after, _) = handed_out(p, busy, w, durable, window);
            !after[worker] ==> !{
                &&& q.records[i].waiting
                &&& q.records[i].dependencies.len() == 0
                &&& q.frontier < q.records[i].sequence <= durable
                &&& q.records[i].sequence - q.frontier <= window
            }
        }),
        handed_out(p, busy, w, durable, window).0.records.len() == p.records.len(),
        busy[worker] ==> handed_out(p, busy, w, durable, window).1[worker],
    decreases busy.len() - w,
{
    lemma_kept(p, busy, w, durable, window, worker);
    lemma_first_ready(p, 0, durable, window);
    if busy[w] {
        if worker > w {
            idle_workers_are_given_work(p, busy, w + 1, durable, window, worker, i);
        } else {
            lemma_kept(p, busy, w + 1, durable, window, worker);
        }
    } else if let Some(first) = first_ready(p, 0, durable, window) {
        let given = busy.update(w, true);
        lemma_kept(taken(p, first), given, w + 1, durable, window, w);
        if worker > w {
            idle_workers_are_given_work(
                taken(p, first),
                given,
                w + 1,
                durable,
                window,
                worker,
                i,
            );
        }
    } else {
        lemma_none_ready(p, 0, durable, window, i);
    }
}

/// Where no record is found, none can be handed out.
proof fn lemma_none_ready(p: Plan, from: int, durable: u64, window: u64, i: int)
    requires
        0 <= from <= i < p.records.len(),
        first_ready(p, from, durable, window) is None,
    ensures
        !ready(p, i, durable, window),
    decreases i - from,
{
    if from < i {
        lemma_none_ready(p, from + 1, durable, window, i);
    }
}

/// A busy worker stays busy, and no record is lost.
proof fn lemma_kept(p: Plan, busy: Seq<bool>, w: int, durable: u64, window: u64, worker: int)
    requires
        0 <= w,
        0 <= worker < busy.len(),
    ensures
        handed_out(p, busy, w, durable, window).1.len() == busy.len(),
        busy[worker] ==> handed_out(p, busy, w, durable, window).1[worker],
        handed_out(p, busy, w, durable, window).0.records.len() == p.records.len(),
    decreases busy.len() - w,
{
    if w < busy.len() {
        if busy[w] {
            lemma_kept(p, busy, w + 1, durable, window, worker);
        } else if let Some(first) = first_ready(p, 0, durable, window) {
            lemma_first_ready(p, 0, durable, window);
            lemma_kept(
                taken(p, first),
                busy.update(w, true),
                w + 1,
                durable,
                window,
                worker,
            );
        }
    }
}

/// A record waits for no earlier one that cannot write what it reads: blind
/// writes and reads of other rows run side by side.
pub proof fn independent_records_do_not_wait(p: Plan, i: int)
    requires
        p.wf(),
        0 <= i < p.records.len(),
        forall|j: int|
            0 <= j < i ==> (#[trigger] p.records[j]).resolved() || !conflict(
                p.records[j].writes,
                p.records[i].reads,
            ),
    ensures
        p.records[i].dependencies.len() == 0,
{
    let list = p.records;
    if list[i].dependencies.len() > 0 {
        let d = list[i].dependencies[0];
        assert(list[i].dependencies.contains(d));
        let j = d - list[0].sequence;
        assert(list[i].sequence == list[0].sequence + i);
        assert(list[j].sequence == list[0].sequence + j);
        assert(list[i].dependencies.contains(list[j].sequence) == awaits(list, i, j));
    }
}

/// The oldest unresolved record waits for nothing, so that some record can
/// always run.
pub proof fn the_oldest_unresolved_record_waits_for_nothing(p: Plan, i: int)
    requires
        p.wf(),
        0 <= i < p.records.len(),
        forall|j: int| 0 <= j < i ==> (#[trigger] p.records[j]).resolved(),
    ensures
        p.records[i].dependencies.len() == 0,
{
    let list = p.records;
    if list[i].dependencies.len() > 0 {
        let d = list[i].dependencies[0];
        assert(list[i].dependencies.contains(d));
        let j = d - list[0].sequence;
        assert(list[i].sequence == list[0].sequence + i);
        assert(list[j].sequence == list[0].sequence + j);
        assert(list[i].dependencies.contains(list[j].sequence) == awaits(list, i, j));
    }
}

/// Visibility is a prefix: everything up to the frontier is resolved, the next
/// record is not, and the frontier never moves back.
pub proof fn visibility_is_the_resolved_prefix(p: Plan)
    requires
        p.wf(),
    ensures
        ({
            let q = advanced(p).0;
            &&& q.frontier >= p.frontier
            &&& q.records == p.records
            &&& forall|i: int|
                0 <= i < q.records.len() ==> ((#[trigger] q.records[i]).sequence <= q.frontier
                    ==> q.records[i].resolved())
            &&& forall|i: int|
                0 <= i < q.records.len() && (#[trigger] q.records[i]).sequence == q.frontier + 1
                    ==> !q.records[i].resolved()
        }),
{
    let n = resolved_prefix(p.records) as int;
    let q = advanced(p).0;
    lemma_prefix(p.records);
    lemma_advanced(p);
    assert forall|i: int|
        0 <= i < q.records.len() && (#[trigger] q.records[i]).sequence == q.frontier
            + 1 implies !q.records[i].resolved() by {
        assert(p.records[i].sequence == p.records[0].sequence + i);
        if n > 0 {
            assert(p.records[n - 1].sequence == p.records[0].sequence + n - 1);
        }
        if i < n {
            assert(p.records[n - 1].sequence > p.frontier);
            assert(false);
        }
        if i > n {
            assert(p.records[n].sequence == p.records[0].sequence + n);
            assert(p.records[n].sequence <= p.frontier);
            assert(p.records[n].resolved());
        }
    }
}

/// The visible records are the first ones up to the frontier.
proof fn lemma_visible(p: Plan, n: int)
    requires
        p.wf(),
        0 <= n <= p.records.len(),
        forall|i: int|
            0 <= i < p.records.len() ==> ((#[trigger] p.records[i]).sequence <= p.frontier) == (i
                < n),
    ensures
        visible(p) == n,
        retired_plan(p).records == p.records.subrange(n, p.records.len() as int),
    decreases p.records.len(),
{
    if n > 0 {
        assert(p.records[0].sequence <= p.frontier);
        lemma_popped(p);
        let q = popped(p);
        assert forall|i: int| 0 <= i < q.records.len() implies ((
        #[trigger] q.records[i]).sequence <= q.frontier) == (i < n - 1) by {
            assert(q.records[i] == p.records[i + 1]);
        }
        lemma_visible(q, n - 1);
        assert(q.records.subrange(n - 1, q.records.len() as int) =~= p.records.subrange(
            n,
            p.records.len() as int,
        ));
    } else {
        if p.records.len() > 0 {
            assert(!(p.records[0].sequence <= p.frontier));
        }
        assert(p.records.subrange(0, p.records.len() as int) =~= p.records);
    }
}

/// Receipts come in log order and for the resolved prefix: once the frontier has
/// moved, exactly the records before the first unresolved one are answered, and
/// the others are kept.
pub proof fn receipts_follow_the_log(p: Plan)
    requires
        p.wf(),
    ensures
        ({
            let n = resolved_prefix(p.records) as int;
            let q = advanced(p).0;
            &&& visible(q) == n
            &&& retired_plan(q).records == p.records.subrange(n, p.records.len() as int)
        }),
{
    let n = resolved_prefix(p.records) as int;
    let q = advanced(p).0;
    lemma_prefix(p.records);
    lemma_advanced(p);
    assert forall|i: int| 0 <= i < q.records.len() implies ((#[trigger] q.records[i]).sequence
        <= q.frontier) == (i < n) by {
        assert(p.records[i].sequence == p.records[0].sequence + i);
        if n > 0 {
            assert(p.records[n - 1].sequence == p.records[0].sequence + n - 1);
        }
        if i >= n && p.records[i].sequence <= p.frontier {
            assert(p.records[n].sequence == p.records[0].sequence + n);
            assert(p.records[n].resolved());
        }
    }
    lemma_visible(q, n);
}

} // verus!
