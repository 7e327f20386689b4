//! What concurrent execution computes: the outcomes and the rows of a serial
//! run.

use super::schedule;
use super::schedule::{Plan, Record};
use crate::vm::access;
use crate::vm::access::{AccessMode, Scope, ScopeModel};
use crate::vm::outcome::Resolution;
use vstd::prelude::*;

verus! {

// ---- The machine ---------------------------------------------------------

/// A row of a table.
pub struct Cell {
    pub table: u64,
    pub key: Seq<u8>,
}

/// What interpreting a record gives: its outcome, and the rows that it writes
/// and deletes.
pub struct Run {
    pub outcome: Resolution,
    pub puts: Map<Cell, Seq<u8>>,
    pub deletes: Set<Cell>,
}

/// The records of a log, by their sequences: what each reads and writes, and
/// what it gives on some rows. `rows` are those before the first record.
pub struct Machine {
    pub rows: Map<Cell, Seq<u8>>,
    pub reads: spec_fn(u64) -> Seq<ScopeModel>,
    pub writes: spec_fn(u64) -> Seq<ScopeModel>,
    pub run: spec_fn(u64, Map<Cell, Seq<u8>>) -> Run,
}

/// Whether a scope holds a row.
pub open spec fn holds(scope: ScopeModel, cell: Cell) -> bool {
    match scope {
        ScopeModel::Table(table) => table == cell.table,
        ScopeModel::Key(table, key) => table == cell.table && key == cell.key,
    }
}

/// Whether one of some scopes holds a row.
pub open spec fn within(scopes: Seq<ScopeModel>, cell: Cell) -> bool {
    exists|i: int| 0 <= i < scopes.len() && holds(#[trigger] scopes[i], cell)
}

/// Whether the same rows are found in some scopes.
pub open spec fn agree(a: Map<Cell, Seq<u8>>, b: Map<Cell, Seq<u8>>, scopes: Seq<ScopeModel>) -> bool {
    forall|cell: Cell| #[trigger]
        within(scopes, cell) ==> a.contains_key(cell) == b.contains_key(cell) && (a.contains_key(
            cell,
        ) ==> a[cell] == b[cell])
}

/// Whether a record changes a row.
pub open spec fn changes(run: Run, cell: Cell) -> bool {
    run.puts.contains_key(cell) || run.deletes.contains(cell)
}

/// Rows after the effects of a record.
pub open spec fn applied(rows: Map<Cell, Seq<u8>>, run: Run) -> Map<Cell, Seq<u8>> {
    rows.remove_keys(run.deletes).union_prefer_right(run.puts)
}

impl Machine {
    /// Whether every record depends on what it reads alone, and changes what it
    /// writes alone.
    pub open spec fn keeps_scopes(self) -> bool {
        &&& forall|n: u64, a: Map<Cell, Seq<u8>>, b: Map<Cell, Seq<u8>>|
            agree(a, b, (self.reads)(n)) ==> #[trigger] (self.run)(n, a) == #[trigger] (self.run)(
                n,
                b,
            )
        &&& forall|n: u64, a: Map<Cell, Seq<u8>>, cell: Cell| #[trigger]
            changes((self.run)(n, a), cell) ==> within((self.writes)(n), cell)
    }

    /// The rows after all records behind `start` up to `n`, one after another.
    pub open spec fn serial_rows(self, start: u64, n: int) -> Map<Cell, Seq<u8>>
        decreases n,
    {
        if n <= start {
            self.rows
        } else {
            let before = self.serial_rows(start, n - 1);
            applied(before, (self.run)(n as u64, before))
        }
    }

    /// What record `n` gives when all records run one after another.
    pub open spec fn serial_run(self, start: u64, n: u64) -> Run {
        (self.run)(n, self.serial_rows(start, n - 1))
    }

    /// The rows that a reader behind record `n` finds: those of the results that
    /// are installed, in log order.
    pub open spec fn shown_rows(self, start: u64, installed: Map<u64, Run>, n: int) -> Map<
        Cell,
        Seq<u8>,
    >
        decreases n,
    {
        if n <= start {
            self.rows
        } else {
            let before = self.shown_rows(start, installed, n - 1);
            if installed.contains_key(n as u64) {
                applied(before, installed[n as u64])
            } else {
                before
            }
        }
    }
}

// ---- Concurrent execution ------------------------------------------------

/// A schedule at work: the results that workers have computed, and those that
/// are installed.
pub struct Live {
    pub plan: Plan,
    pub computed: Map<u64, Run>,
    pub installed: Map<u64, Run>,
}

/// A step of the coordinator.
pub enum Move {
    /// Assign the next transaction.
    Assign { digest: Seq<u8>, bytes: u64, reservation: u64 },
    /// Hand the `i`-th record to a worker, which interprets it on the rows that
    /// are installed at that moment.
    Take(int),
    /// Install the result of the `i`-th record.
    Resolve(int),
    /// Move the frontier over the resolved prefix.
    Advance,
    /// Take out the first visible record.
    Retire,
    /// Run an administrative command alone.
    Commit,
}

impl Live {
    /// The sequence behind the last assigned one.
    pub open spec fn next(self) -> int {
        if self.plan.records.len() > 0 {
            self.plan.records.last().sequence + 1
        } else {
            self.plan.frontier + 1
        }
    }

    /// The first sequence that has not been retired.
    pub open spec fn first(self) -> int {
        if self.plan.records.len() > 0 {
            self.plan.records[0].sequence as int
        } else {
            self.plan.frontier + 1
        }
    }
}

/// A schedule behind a published checkpoint.
pub open spec fn started(start: u64) -> Live {
    Live {
        plan: Plan { frontier: start, records: Seq::empty(), assigned_bytes: 0, reserved_bytes: 0 },
        computed: Map::empty(),
        installed: Map::empty(),
    }
}

/// Whether the coordinator can take a step.
pub open spec fn possible(s: Live, step: Move) -> bool {
    match step {
        Move::Assign { bytes, reservation, .. } => s.next() < u64::MAX && s.plan.assigned_bytes
            + bytes <= u64::MAX && s.plan.reserved_bytes + reservation <= u64::MAX,
        Move::Take(i) => 0 <= i < s.plan.records.len() && s.plan.records[i].waiting
            && s.plan.records[i].dependencies.len() == 0,
        Move::Resolve(i) => 0 <= i < s.plan.records.len() && !s.plan.records[i].waiting
            && !s.plan.records[i].resolved(),
        Move::Advance => true,
        Move::Retire => s.plan.records.len() > 0 && s.plan.records[0].sequence <= s.plan.frontier,
        Move::Commit => s.plan.records.len() == 0 && s.next() < u64::MAX,
    }
}

/// What a worker computes for record `n` now.
pub open spec fn computation(m: Machine, start: u64, s: Live, n: u64) -> Run {
    (m.run)(n, m.shown_rows(start, s.installed, n - 1))
}

/// The schedule after a step.
pub open spec fn moved(m: Machine, start: u64, s: Live, step: Move) -> Live {
    match step {
        Move::Assign { digest, bytes, reservation } => {
            let n = s.next() as u64;
            Live {
                plan: schedule::with_record(
                    s.plan,
                    schedule::assigned_record(
                        s.plan,
                        n,
                        digest,
                        (m.reads)(n),
                        (m.writes)(n),
                        bytes,
                        reservation,
                    ),
                ),
                ..s
            }
        },
        Move::Take(i) => {
            let n = s.plan.records[i].sequence;
            Live {
                plan: schedule::taken(s.plan, i),
                computed: s.computed.insert(n, computation(m, start, s, n)),
                ..s
            }
        },
        Move::Resolve(i) => {
            let n = s.plan.records[i].sequence;
            Live {
                plan: schedule::resolved(s.plan, i, s.computed[n].outcome),
                installed: s.installed.insert(n, s.computed[n]),
                ..s
            }
        },
        Move::Advance => Live { plan: schedule::advanced(s.plan).0, ..s },
        Move::Retire => Live { plan: schedule::popped(s.plan), ..s },
        Move::Commit => {
            let n = s.next() as u64;
            Live {
                plan: Plan { frontier: n, ..s.plan },
                installed: s.installed.insert(n, computation(m, start, s, n)),
                ..s
            }
        },
    }
}

/// A schedule after some steps; none where one is not possible.
pub open spec fn continued(m: Machine, start: u64, s: Live, steps: Seq<Move>) -> Option<Live>
    decreases steps.len(),
{
    if steps.len() == 0 {
        Some(s)
    } else {
        match continued(m, start, s, steps.drop_last()) {
            Some(s) => if possible(s, steps.last()) {
                Some(moved(m, start, s, steps.last()))
            } else {
                None
            },
            None => None,
        }
    }
}

/// The schedule after some steps behind a published checkpoint; none where one
/// is not possible.
pub open spec fn executed(m: Machine, start: u64, steps: Seq<Move>) -> Option<Live> {
    continued(m, start, started(start), steps)
}

// ---- The invariant -------------------------------------------------------

/// Whether a record of the plan is one of the log, and its result is there once
/// it was handed out or resolved.
pub open spec fn tracked_record(m: Machine, s: Live, r: Record) -> bool {
    &&& r.reads == (m.reads)(r.sequence)
    &&& !r.resolved() ==> r.writes == (m.writes)(r.sequence)
    &&& r.outcome matches Some(outcome) ==> s.installed.contains_key(r.sequence)
        && s.installed[r.sequence].outcome == outcome
    &&& !r.waiting && !r.resolved() ==> s.computed.contains_key(r.sequence)
}

/// What every step keeps.
pub open spec fn sound(m: Machine, start: u64, s: Live) -> bool {
    &&& s.plan.wf()
    &&& start <= s.plan.frontier < u64::MAX
    &&& start < s.first()
    &&& forall|n: u64| start < n < s.first() ==> #[trigger] s.installed.contains_key(n)
    &&& forall|i: int|
        0 <= i < s.plan.records.len() ==> tracked_record(m, s, #[trigger] s.plan.records[i])
    &&& forall|n: u64| #[trigger]
        s.installed.contains_key(n) ==> start < n && s.installed[n] == m.serial_run(start, n)
    &&& forall|n: u64| #[trigger]
        s.computed.contains_key(n) ==> start < n && s.computed[n] == m.serial_run(start, n)
}

/// A row that is written and read makes a conflict.
proof fn lemma_conflict(writes: Seq<ScopeModel>, reads: Seq<ScopeModel>, cell: Cell)
    requires
        within(writes, cell),
        within(reads, cell),
    ensures
        schedule::conflict(writes, reads),
{
    let i = choose|i: int| 0 <= i < writes.len() && holds(#[trigger] writes[i], cell);
    let j = choose|j: int| 0 <= j < reads.len() && holds(#[trigger] reads[j], cell);
    assert(access::share(writes[i], reads[j]));
}

/// Applying one result to rows that agree leaves rows that agree.
proof fn lemma_applied(
    a: Map<Cell, Seq<u8>>,
    b: Map<Cell, Seq<u8>>,
    scopes: Seq<ScopeModel>,
    run: Run,
)
    requires
        agree(a, b, scopes),
    ensures
        agree(applied(a, run), applied(b, run), scopes),
{
    assert forall|cell: Cell| #[trigger] within(scopes, cell) implies applied(
        a,
        run,
    ).contains_key(cell) == applied(b, run).contains_key(cell) && (applied(a, run).contains_key(
        cell,
    ) ==> applied(a, run)[cell] == applied(b, run)[cell]) by {
        assert(a.contains_key(cell) == b.contains_key(cell));
    }
}

/// A result that changes nothing in some scopes leaves them as they were.
proof fn lemma_untouched(rows: Map<Cell, Seq<u8>>, scopes: Seq<ScopeModel>, run: Run)
    requires
        forall|cell: Cell| #[trigger] within(scopes, cell) ==> !changes(run, cell),
    ensures
        agree(rows, applied(rows, run), scopes),
{
    assert forall|cell: Cell| #[trigger] within(scopes, cell) implies rows.contains_key(cell)
        == applied(rows, run).contains_key(cell) && (rows.contains_key(cell) ==> rows[cell]
        == applied(rows, run)[cell]) by {
        assert(!changes(run, cell));
    }
}

/// A record that waits for nothing finds in what it reads the rows of a serial
/// run.
proof fn lemma_sees_serial(m: Machine, start: u64, s: Live, i: int, n: int)
    requires
        m.keeps_scopes(),
        sound(m, start, s),
        0 <= i < s.plan.records.len(),
        s.plan.records[i].dependencies.len() == 0,
        n < s.plan.records[i].sequence,
    ensures
        agree(
            m.shown_rows(start, s.installed, n),
            m.serial_rows(start, n),
            (m.reads)(s.plan.records[i].sequence),
        ),
    decreases n,
{
    let list = s.plan.records;
    let reads = (m.reads)(list[i].sequence);
    if n > start {
        lemma_sees_serial(m, start, s, i, n - 1);
        let shown = m.shown_rows(start, s.installed, n - 1);
        let serial = m.serial_rows(start, n - 1);
        let run = m.serial_run(start, n as u64);
        lemma_applied(shown, serial, reads, run);
        if s.installed.contains_key(n as u64) {
            assert(s.installed[n as u64] == run);
        } else {
            let j = n - list[0].sequence;
            assert(list[i].sequence == list[0].sequence + i);
            assert(0 <= j < i);
            assert(list[j].sequence == list[0].sequence + j);
            assert(tracked_record(m, s, list[j]));
            assert(tracked_record(m, s, list[i]));
            assert(!list[i].dependencies.contains(list[j].sequence));
            assert(list[i].dependencies.contains(list[j].sequence) == schedule::awaits(
                list,
                i,
                j,
            ));
            assert forall|cell: Cell| #[trigger] within(reads, cell) implies !changes(run, cell) by {
                if changes(run, cell) {
                    lemma_conflict(list[j].writes, list[i].reads, cell);
                }
            }
            lemma_untouched(shown, reads, run);
            let after = applied(shown, run);
            assert forall|cell: Cell| #[trigger] within(reads, cell) implies shown.contains_key(
                cell,
            ) == m.serial_rows(start, n).contains_key(cell) && (shown.contains_key(cell)
                ==> shown[cell] == m.serial_rows(start, n)[cell]) by {
                assert(shown.contains_key(cell) == after.contains_key(cell));
            }
        }
    }
}

/// Where everything up to `n` is installed, the rows are those of a serial run.
proof fn lemma_shows_serial(m: Machine, start: u64, s: Live, n: int)
    requires
        sound(m, start, s),
        n <= u64::MAX,
        forall|k: u64| start < k <= n ==> #[trigger] s.installed.contains_key(k),
    ensures
        m.shown_rows(start, s.installed, n) == m.serial_rows(start, n),
    decreases n,
{
    if n > start {
        lemma_shows_serial(m, start, s, n - 1);
        assert(s.installed.contains_key(n as u64));
    }
}

/// Everything visible is installed.
proof fn lemma_visible_installed(m: Machine, start: u64, s: Live)
    requires
        sound(m, start, s),
    ensures
        forall|k: u64| start < k <= s.plan.frontier ==> #[trigger] s.installed.contains_key(k),
{
    let list = s.plan.records;
    assert forall|k: u64| start < k <= s.plan.frontier implies #[trigger] s.installed.contains_key(
        k,
    ) by {
        if k >= s.first() && list.len() > 0 {
            let i = k - list[0].sequence;
            assert(list.last() == list[list.len() - 1]);
            assert(list[list.len() - 1].sequence == list[0].sequence + list.len() - 1);
            assert(list[i].sequence == list[0].sequence + i);
            assert(tracked_record(m, s, list[i]));
        }
    }
}

proof fn lemma_moved(m: Machine, start: u64, s: Live, step: Move)
    requires
        m.keeps_scopes(),
        sound(m, start, s),
        possible(s, step),
    ensures
        sound(m, start, moved(m, start, s, step)),
{
    let next = moved(m, start, s, step);
    let list = s.plan.records;
    match step {
        Move::Assign { digest, bytes, reservation } => {
            let n = s.next() as u64;
            schedule::lemma_assigned(
                s.plan,
                n,
                digest,
                (m.reads)(n),
                (m.writes)(n),
                bytes,
                reservation,
            );
            assert forall|i: int| 0 <= i < next.plan.records.len() implies tracked_record(
                m,
                next,
                #[trigger] next.plan.records[i],
            ) by {
                if i < list.len() {
                    assert(next.plan.records[i] == list[i]);
                    assert(tracked_record(m, s, list[i]));
                }
            }
        },
        Move::Take(i) => {
            let n = list[i].sequence;
            schedule::lemma_taken(s.plan, i);
            lemma_sees_serial(m, start, s, i, n - 1);
            assert(computation(m, start, s, n) == m.serial_run(start, n));
            assert(list[i].sequence == list[0].sequence + i);
            assert forall|k: int| 0 <= k < next.plan.records.len() implies tracked_record(
                m,
                next,
                #[trigger] next.plan.records[k],
            ) by {
                assert(tracked_record(m, s, list[k]));
            }
        },
        Move::Resolve(i) => {
            let n = list[i].sequence;
            schedule::lemma_resolved(s.plan, i, s.computed[n].outcome);
            assert(tracked_record(m, s, list[i]));
            assert forall|k: int| 0 <= k < next.plan.records.len() implies tracked_record(
                m,
                next,
                #[trigger] next.plan.records[k],
            ) by {
                assert(tracked_record(m, s, list[k]));
            }
        },
        Move::Advance => {
            schedule::lemma_advanced(s.plan);
            schedule::visibility_is_the_resolved_prefix(s.plan);
            assert forall|k: int| 0 <= k < next.plan.records.len() implies tracked_record(
                m,
                next,
                #[trigger] next.plan.records[k],
            ) by {
                assert(tracked_record(m, s, list[k]));
            }
        },
        Move::Retire => {
            schedule::lemma_popped(s.plan);
            assert(tracked_record(m, s, list[0]));
            assert forall|k: int| 0 <= k < next.plan.records.len() implies tracked_record(
                m,
                next,
                #[trigger] next.plan.records[k],
            ) by {
                assert(next.plan.records[k] == list[k + 1]);
                assert(tracked_record(m, s, list[k + 1]));
            }
            if list.len() > 1 {
                assert(list[1].sequence == list[0].sequence + 1);
            }
        },
        Move::Commit => {
            let n = s.next() as u64;
            lemma_visible_installed(m, start, s);
            lemma_shows_serial(m, start, s, n - 1);
        },
    }
}

// ---- Laws ----------------------------------------------------------------

proof fn lemma_continued(m: Machine, start: u64, s: Live, steps: Seq<Move>)
    requires
        m.keeps_scopes(),
        sound(m, start, s),
    ensures
        continued(m, start, s, steps) matches Some(next) ==> sound(m, start, next),
    decreases steps.len(),
{
    if steps.len() > 0 {
        lemma_continued(m, start, s, steps.drop_last());
        if let Some(before) = continued(m, start, s, steps.drop_last()) {
            if possible(before, steps.last()) {
                lemma_moved(m, start, before, steps.last());
            }
        }
    }
}

/// Concurrent execution is serial: whatever order the coordinator and the
/// workers take their steps in, every record gives what it gives when all
/// records run one after another in log order, and a reader at the visible
/// frontier finds the rows of that serial run. The outcome that a record is
/// answered with is the one of that run.
pub proof fn concurrent_execution_is_serial(m: Machine, start: u64, steps: Seq<Move>)
    requires
        m.keeps_scopes(),
        start < u64::MAX,
        executed(m, start, steps) is Some,
    ensures
        ({
            let s = executed(m, start, steps)->0;
            &&& forall|n: u64| #[trigger]
                s.installed.contains_key(n) ==> s.installed[n] == m.serial_run(start, n)
            &&& m.shown_rows(start, s.installed, s.plan.frontier as int) == m.serial_rows(
                start,
                s.plan.frontier as int,
            )
            &&& forall|n: u64| start < n <= s.plan.frontier ==> #[trigger] s.installed.contains_key(n)
            &&& forall|i: int|
                0 <= i < s.plan.records.len() ==> {
                    let record = #[trigger] s.plan.records[i];
                    record.outcome matches Some(outcome) ==> outcome == m.serial_run(
                        start,
                        record.sequence,
                    ).outcome
                }
        }),
{
    lemma_continued(m, start, started(start), steps);
    let s = executed(m, start, steps)->0;
    lemma_visible_installed(m, start, s);
    lemma_shows_serial(m, start, s, s.plan.frontier as int);
    assert forall|i: int| 0 <= i < s.plan.records.len() implies {
        let record = #[trigger] s.plan.records[i];
        record.outcome matches Some(outcome) ==> outcome == m.serial_run(
            start,
            record.sequence,
        ).outcome
    } by {
        assert(tracked_record(m, s, s.plan.records[i]));
    }
}

/// Two scopes overlap exactly when there is a row that both hold.
pub proof fn overlap_is_a_common_row(a: ScopeModel, b: ScopeModel)
    ensures
        access::share(a, b) <==> exists|cell: Cell| #[trigger] holds(a, cell) && holds(b, cell),
{
    let table = match a {
        ScopeModel::Table(table) => table,
        ScopeModel::Key(table, _) => table,
    };
    let key = match (a, b) {
        (ScopeModel::Key(_, key), _) => key,
        (_, ScopeModel::Key(_, key)) => key,
        _ => Seq::empty(),
    };
    let cell = Cell { table, key };
    assert(access::share(a, b) ==> holds(a, cell) && holds(b, cell));
}

/// The transactions of a log, by their sequences: the manifest of each, and what
/// it gives on some rows. `rows` are those before the first record.
pub struct Transactions {
    pub rows: Map<Cell, Seq<u8>>,
    pub manifests: spec_fn(u64) -> Seq<(Scope, AccessMode)>,
    pub run: spec_fn(u64, Map<Cell, Seq<u8>>) -> Run,
}

/// Whether an entry of a manifest is for a row: for its table, or for its key.
pub open spec fn entry_for(entry: (Scope, AccessMode), cell: Cell) -> bool {
    match entry.0 {
        Scope::Table(table) => table == cell.table,
        Scope::Key(table, key) => table == cell.table && key@ == cell.key,
    }
}

/// Whether a row is found alike in `a` and `b`.
pub open spec fn alike(a: Map<Cell, Seq<u8>>, b: Map<Cell, Seq<u8>>, cell: Cell) -> bool {
    a.contains_key(cell) == b.contains_key(cell) && (a.contains_key(cell) ==> a[cell] == b[cell])
}

impl Transactions {
    /// Whether every transaction uses a row only under an entry of its manifest
    /// that is for the row: what it gives depends on rows under entries for
    /// reading alone, and it changes rows under entries for writing alone.
    pub open spec fn keep_their_manifests(self) -> bool {
        &&& forall|n: u64, a: Map<Cell, Seq<u8>>, b: Map<Cell, Seq<u8>>|
            (forall|cell: Cell, i: int|
                0 <= i < (self.manifests)(n).len() && (#[trigger] (self.manifests)(n)[i]).1
                    != AccessMode::Write && #[trigger] entry_for((self.manifests)(n)[i], cell)
                    ==> alike(a, b, cell)) ==> #[trigger] (self.run)(n, a) == #[trigger] (self.run)(
                n,
                b,
            )
        &&& forall|n: u64, a: Map<Cell, Seq<u8>>, cell: Cell| #[trigger]
            changes((self.run)(n, a), cell) ==> exists|i: int|
                0 <= i < (self.manifests)(n).len() && (#[trigger] (self.manifests)(n)[i]).1
                    != AccessMode::Read && entry_for((self.manifests)(n)[i], cell)
    }

    /// The machine that runs these transactions, each assigned with the scopes
    /// that its manifest gives for reading and for writing.
    pub open spec fn machine(self) -> Machine {
        Machine {
            rows: self.rows,
            reads: |n: u64| access::selected((self.manifests)(n), true),
            writes: |n: u64| access::selected((self.manifests)(n), false),
            run: self.run,
        }
    }
}

/// The scopes of a manifest hold the rows of its entries.
proof fn lemma_entry_scopes(entries: Seq<(Scope, AccessMode)>, i: int, cell: Cell)
    requires
        0 <= i < entries.len(),
        entry_for(entries[i], cell),
    ensures
        entries[i].1 != AccessMode::Write ==> within(access::selected(entries, true), cell),
        entries[i].1 != AccessMode::Read ==> within(access::selected(entries, false), cell),
{
    let scope = entries[i].0@;
    access::modes_select_scopes(entries, scope);
    let reads = access::selected(entries, true);
    let writes = access::selected(entries, false);
    if reads.contains(scope) {
        let k = choose|k: int| 0 <= k < reads.len() && reads[k] == scope;
        assert(holds(reads[k], cell));
    }
    if writes.contains(scope) {
        let k = choose|k: int| 0 <= k < writes.len() && writes[k] == scope;
        assert(holds(writes[k], cell));
    }
}

/// Transactions that keep their manifests run in parallel with the results of a
/// serial run in log order: each is assigned with the scopes that its manifest
/// gives for reading and for writing, and whatever order the coordinator and the
/// workers take their steps in, it gives what it gives when all run one after
/// another, and a reader at the visible frontier finds the rows of that run.
pub proof fn manifests_keep_execution_serial(t: Transactions, start: u64, steps: Seq<Move>)
    requires
        t.keep_their_manifests(),
        start < u64::MAX,
        executed(t.machine(), start, steps) is Some,
    ensures
        ({
            let m = t.machine();
            let s = executed(m, start, steps)->0;
            &&& m.keeps_scopes()
            &&& forall|n: u64| #[trigger]
                s.installed.contains_key(n) ==> s.installed[n] == m.serial_run(start, n)
            &&& m.shown_rows(start, s.installed, s.plan.frontier as int) == m.serial_rows(
                start,
                s.plan.frontier as int,
            )
            &&& forall|n: u64| start < n <= s.plan.frontier ==> #[trigger] s.installed.contains_key(n)
        }),
{
    let m = t.machine();
    assert forall|n: u64, a: Map<Cell, Seq<u8>>, b: Map<Cell, Seq<u8>>|
        agree(a, b, (m.reads)(n)) implies #[trigger] (m.run)(n, a) == #[trigger] (m.run)(n, b) by {
        let entries = (t.manifests)(n);
        assert forall|cell: Cell, i: int|
            0 <= i < entries.len() && (#[trigger] entries[i]).1 != AccessMode::Write
                && #[trigger] entry_for(entries[i], cell) implies alike(a, b, cell) by {
            lemma_entry_scopes(entries, i, cell);
            assert(within((m.reads)(n), cell));
        }
    }
    assert forall|n: u64, a: Map<Cell, Seq<u8>>, cell: Cell| #[trigger]
        changes((m.run)(n, a), cell) implies within((m.writes)(n), cell) by {
        let entries = (t.manifests)(n);
        let i = choose|i: int|
            0 <= i < entries.len() && (#[trigger] entries[i]).1 != AccessMode::Read && entry_for(
                entries[i],
                cell,
            );
        lemma_entry_scopes(entries, i, cell);
    }
    concurrent_execution_is_serial(m, start, steps);
}

/// A step in front of others.
proof fn lemma_first_step(m: Machine, start: u64, s: Live, step: Move, rest: Seq<Move>)
    requires
        possible(s, step),
    ensures
        continued(m, start, s, seq![step] + rest) == continued(
            m,
            start,
            moved(m, start, s, step),
            rest,
        ),
    decreases rest.len(),
{
    let steps = seq![step] + rest;
    if rest.len() == 0 {
        assert(steps.drop_last() =~= Seq::empty());
        assert(continued(m, start, s, steps.drop_last()) == Some(s));
        assert(rest =~= Seq::empty());
    } else {
        assert(steps.drop_last() =~= seq![step] + rest.drop_last());
        assert(steps.last() == rest.last());
        lemma_first_step(m, start, s, step, rest.drop_last());
    }
}

/// Whatever a schedule hands out to idle workers, it does by such steps.
pub proof fn dispatch_takes_steps(
    m: Machine,
    start: u64,
    s: Live,
    busy: Seq<bool>,
    w: int,
    durable: u64,
    window: u64,
)
    requires
        0 <= w,
    ensures
        exists|steps: Seq<Move>|
            (#[trigger] continued(m, start, s, steps)) matches Some(next) && next.plan
                == schedule::handed_out(s.plan, busy, w, durable, window).0 && next.installed
                == s.installed,
    decreases busy.len() - w,
{
    let none = Seq::<Move>::empty();
    assert(continued(m, start, s, none) == Some(s));
    if w < busy.len() {
        if busy[w] {
            dispatch_takes_steps(m, start, s, busy, w + 1, durable, window);
        } else {
            schedule::lemma_first_ready(s.plan, 0, durable, window);
            if let Some(i) = schedule::first_ready(s.plan, 0, durable, window) {
                let step = Move::Take(i);
                let after = moved(m, start, s, step);
                let longer = busy.update(w, true);
                dispatch_takes_steps(m, start, after, longer, w + 1, durable, window);
                let rest = choose|rest: Seq<Move>|
                    (#[trigger] continued(m, start, after, rest)) matches Some(next) && next.plan
                        == schedule::handed_out(after.plan, longer, w + 1, durable, window).0
                        && next.installed == after.installed;
                lemma_first_step(m, start, s, step, rest);
                assert(continued(m, start, s, seq![step] + rest) is Some);
            }
        }
    }
}

/// Taking out all visible records is a number of such steps.
pub proof fn retirement_takes_steps(m: Machine, start: u64, s: Live)
    ensures
        exists|steps: Seq<Move>|
            (#[trigger] continued(m, start, s, steps)) matches Some(next) && next.plan
                == schedule::retired_plan(s.plan) && next.installed == s.installed,
    decreases s.plan.records.len(),
{
    let none = Seq::<Move>::empty();
    assert(continued(m, start, s, none) == Some(s));
    if s.plan.records.len() > 0 && s.plan.records[0].sequence <= s.plan.frontier {
        let step = Move::Retire;
        let after = moved(m, start, s, step);
        retirement_takes_steps(m, start, after);
        let rest = choose|rest: Seq<Move>|
            (#[trigger] continued(m, start, after, rest)) matches Some(next) && next.plan
                == schedule::retired_plan(after.plan) && next.installed == after.installed;
        lemma_first_step(m, start, s, step, rest);
        assert(continued(m, start, s, seq![step] + rest) is Some);
    }
}

} // verus!
