//! What a whole recovery leaves behind, and that another one changes nothing.

use super::durability;
use super::engine;
use super::record::CommandModel;
use super::recovery;
use super::recovery::{Progress, StepModel};
use crate::storage::{Error, ManifestModel};
use vstd::prelude::*;

verus! {

/// A database at rest: its manifest, the files of its log segments, and the
/// trees of its checkpoint.
pub struct Disk<T> {
    pub manifest: ManifestModel,
    pub files: Seq<Seq<u8>>,
    pub trees: T,
}

/// What recovery needs besides the log: whether the retained history is
/// accepted at all, whether it agrees with an older record, and the trees after
/// a record was executed.
#[verifier::reject_recursive_types(T)]
pub struct Executor<T> {
    pub history: spec_fn(T, ManifestModel) -> Option<Error>,
    pub compare: spec_fn(T, StepModel) -> Option<Error>,
    pub execute: spec_fn(T, StepModel) -> Result<T, Error>,
}

/// A record as it is compared once it is part of the checkpoint.
pub open spec fn older(step: StepModel) -> StepModel {
    StepModel { replay: false, ..step }
}

impl<T> Executor<T> {
    /// Whether the history that is retained of an executed record agrees with
    /// it, and still does after other records were executed.
    pub open spec fn retains(self) -> bool {
        &&& forall|trees: T, step: StepModel|
            (#[trigger] (self.execute)(trees, step)) matches Ok(after) ==> (self.compare)(
                after,
                older(step),
            ) is None
        &&& forall|trees: T, step: StepModel, other: StepModel|
            other.sequence != step.sequence && (#[trigger] (self.compare)(trees, step)) is None ==> (
            (#[trigger] (self.execute)(trees, other)) matches Ok(after) ==> (self.compare)(
                after,
                step,
            ) is None)
    }

    /// The trees after the first `n` records of a replay: the older ones are
    /// compared with the checkpoint, the others are executed.
    pub open spec fn replayed(self, base: T, steps: Seq<StepModel>, n: int) -> Result<T, Error>
        decreases n,
    {
        if n <= 0 {
            Ok(base)
        } else {
            match self.replayed(base, steps, n - 1) {
                Err(e) => Err(e),
                Ok(trees) => if steps[n - 1].replay {
                    (self.execute)(trees, steps[n - 1])
                } else {
                    match (self.compare)(base, steps[n - 1]) {
                        Some(e) => Err(e),
                        None => Ok(trees),
                    }
                },
            }
        }
    }

    /// What a recovery comes to: the trees of all durable records, or its fault.
    pub open spec fn outcome(self, disk: Disk<T>) -> Result<T, Error> {
        match (self.history)(disk.trees, disk.manifest) {
            Some(e) => Err(e),
            None => match durability::recovered(disk.manifest, disk.files) {
                Err(e) => Err(e),
                Ok(steps) => self.replayed(disk.trees, steps, steps.len() as int),
            },
        }
    }

    /// The database after a recovery. Only a complete one publishes what it has
    /// made, and only where that is more than the checkpoint.
    pub open spec fn recover(self, disk: Disk<T>) -> Disk<T> {
        match self.outcome(disk) {
            Err(_) => disk,
            Ok(trees) => if disk.manifest.checkpoint_sequence != disk.manifest.durable_sequence {
                Disk { manifest: engine::checkpointed(disk.manifest), trees, ..disk }
            } else {
                disk
            },
        }
    }
}

/// The sequences of the first `n` records that are executed.
pub open spec fn executed(steps: Seq<StepModel>, n: int) -> Seq<u64>
    decreases n,
{
    if n <= 0 {
        Seq::empty()
    } else if steps[n - 1].replay {
        executed(steps, n - 1).push(steps[n - 1].sequence)
    } else {
        executed(steps, n - 1)
    }
}

// ---- Which records are executed ------------------------------------------

/// Whether a replay that has resolved `from` executes the next records, and
/// only these, and comes to `to`.
spec fn walks(steps: Seq<StepModel>, from: int, to: int, checkpoint: u64) -> bool {
    &&& checkpoint <= from
    &&& to == from + executed(steps, steps.len() as int).len()
    &&& forall|i: int|
        0 <= i < executed(steps, steps.len() as int).len() ==> (#[trigger] executed(
            steps,
            steps.len() as int,
        )[i]) == from + i + 1
    &&& forall|i: int|
        0 <= i < steps.len() ==> (#[trigger] steps[i]).replay == (steps[i].sequence > checkpoint)
}

/// The records of one list after those of another.
proof fn lemma_executed_after(a: Seq<StepModel>, b: Seq<StepModel>, n: int)
    requires
        0 <= n <= b.len(),
    ensures
        executed(a + b, a.len() + n) == executed(a, a.len() as int) + executed(b, n),
    decreases n,
{
    if n == 0 {
        lemma_executed_front(a, b, a.len() as int);
        assert(executed(a, a.len() as int) + executed(b, 0) =~= executed(a, a.len() as int));
    } else {
        lemma_executed_after(a, b, n - 1);
        assert((a + b)[a.len() + n - 1] == b[n - 1]);
        assert(executed(a + b, a.len() + n) =~= executed(a, a.len() as int) + executed(b, n));
    }
}

proof fn lemma_executed_front(a: Seq<StepModel>, b: Seq<StepModel>, n: int)
    requires
        0 <= n <= a.len(),
    ensures
        executed(a + b, n) == executed(a, n),
    decreases n,
{
    if n > 0 {
        lemma_executed_front(a, b, n - 1);
        assert((a + b)[n - 1] == a[n - 1]);
    }
}

proof fn lemma_walks_on(
    a: Seq<StepModel>,
    b: Seq<StepModel>,
    from: int,
    middle: int,
    to: int,
    checkpoint: u64,
)
    requires
        walks(a, from, middle, checkpoint),
        walks(b, middle, to, checkpoint),
    ensures
        walks(a + b, from, to, checkpoint),
{
    lemma_executed_after(a, b, b.len() as int);
    let x = executed(a, a.len() as int);
    let y = executed(b, b.len() as int);
    let z = executed(a + b, (a + b).len() as int);
    assert(z == x + y);
    assert forall|i: int| 0 <= i < z.len() implies (#[trigger] z[i]) == from + i + 1 by {
        if i < x.len() {
            assert(z[i] == x[i]);
        } else {
            assert(z[i] == y[i - x.len()]);
        }
    }
    assert forall|i: int| 0 <= i < (a + b).len() implies (#[trigger] (a + b)[i]).replay == ((a
        + b)[i].sequence > checkpoint) by {
        if i < a.len() {
            assert((a + b)[i] == a[i]);
        } else {
            assert((a + b)[i] == b[i - a.len()]);
        }
    }
}

proof fn lemma_records_walk(m: ManifestModel, p: Progress, file: Seq<u8>)
    requires
        m.checkpoint_sequence <= p.resolved,
    ensures
        durability::replayed_records(m, p, file) matches Ok((q, steps)) ==> walks(
            steps,
            p.resolved as int,
            q.resolved as int,
            m.checkpoint_sequence,
        ) && q.segment == p.segment,
    decreases
            match p.next {
                None => 0,
                Some(n) => if n <= m.segments[p.segment].last_sequence {
                    m.segments[p.segment].last_sequence - n + 1
                } else {
                    1
                },
            },
{
    if let Some(_) = p.next {
        let at = m.segments[p.segment].committed_bytes - p.remaining;
        if let Ok((next, step)) = recovery::stepped(m, p, file.subrange(at, file.len() as int)) {
            lemma_records_walk(m, next, file);
            if let Ok((last, steps)) = durability::replayed_records(m, next, file) {
                let one = seq![step];
                assert(executed(one, 1) =~= if step.replay {
                    executed(one, 0).push(step.sequence)
                } else {
                    executed(one, 0)
                });
                assert(walks(
                    one,
                    p.resolved as int,
                    next.resolved as int,
                    m.checkpoint_sequence,
                ));
                lemma_walks_on(
                    one,
                    steps,
                    p.resolved as int,
                    next.resolved as int,
                    last.resolved as int,
                    m.checkpoint_sequence,
                );
            }
        }
    }
}

proof fn lemma_segments_walk(m: ManifestModel, p: Progress, files: Seq<Seq<u8>>)
    requires
        m.checkpoint_sequence <= p.resolved,
    ensures
        durability::replayed_segments(m, p, files) matches Ok((q, steps)) ==> walks(
            steps,
            p.resolved as int,
            q.resolved as int,
            m.checkpoint_sequence,
        ),
    decreases m.segments.len() - p.segment,
{
    if 0 <= p.segment < m.segments.len() {
        let file = files[p.segment];
        if let Ok(p1) = recovery::opened(m, p, file) {
            lemma_records_walk(m, p1, file);
            if let Ok((p2, steps)) = durability::replayed_records(m, p1, file) {
                if let Ok(p3) = recovery::closed(m, p2) {
                    lemma_segments_walk(m, p3, files);
                    if let Ok((last, rest)) = durability::replayed_segments(m, p3, files) {
                        lemma_walks_on(
                            steps,
                            rest,
                            p.resolved as int,
                            p3.resolved as int,
                            last.resolved as int,
                            m.checkpoint_sequence,
                        );
                    }
                }
            }
        }
    }
}

// ---- A second recovery ---------------------------------------------------

/// Whether two replays read the same bytes next.
spec fn abreast(p: Progress, q: Progress) -> bool {
    q == Progress { resolved: q.resolved, ..p }
}

/// Whether one list holds the records of another as older ones.
spec fn aged(steps: Seq<StepModel>, list: Seq<StepModel>) -> bool {
    &&& list.len() == steps.len()
    &&& forall|i: int|
        0 <= i < steps.len() ==> older(#[trigger] list[i]) == older(steps[i])
}

proof fn lemma_aged_on(
    a: Seq<StepModel>,
    b: Seq<StepModel>,
    c: Seq<StepModel>,
    d: Seq<StepModel>,
)
    requires
        aged(a, c),
        aged(b, d),
    ensures
        aged(a + b, c + d),
{
    assert forall|i: int| 0 <= i < (a + b).len() implies older(#[trigger] (c + d)[i]) == older(
        (a + b)[i],
    ) by {
        if i < a.len() {
            assert((c + d)[i] == c[i]);
        } else {
            assert((c + d)[i] == d[i - a.len()]);
        }
    }
}

proof fn lemma_records_again(
    m: ManifestModel,
    n: ManifestModel,
    p: Progress,
    q: Progress,
    file: Seq<u8>,
)
    requires
        n.segments == m.segments,
        abreast(p, q),
    ensures
        durability::replayed_records(m, p, file) matches Ok((a, steps)) ==> (
        durability::replayed_records(n, q, file) matches Ok((b, list)) ==> abreast(a, b) && aged(
            steps,
            list,
        )),
    decreases
            match p.next {
                None => 0,
                Some(n) => if n <= m.segments[p.segment].last_sequence {
                    m.segments[p.segment].last_sequence - n + 1
                } else {
                    1
                },
            },
{
    if let Some(_) = p.next {
        let at = m.segments[p.segment].committed_bytes - p.remaining;
        let rest = file.subrange(at, file.len() as int);
        if let Ok((p1, step)) = recovery::stepped(m, p, rest) {
            if let Ok((q1, same)) = recovery::stepped(n, q, rest) {
                assert(abreast(p1, q1));
                assert(older(step) == older(same));
                lemma_records_again(m, n, p1, q1, file);
                if let Ok((a, steps)) = durability::replayed_records(m, p1, file) {
                    if let Ok((b, list)) = durability::replayed_records(n, q1, file) {
                        lemma_aged_on(seq![step], steps, seq![same], list);
                    }
                }
            }
        }
    }
}

proof fn lemma_segments_again(
    m: ManifestModel,
    n: ManifestModel,
    p: Progress,
    q: Progress,
    files: Seq<Seq<u8>>,
)
    requires
        n.segments == m.segments,
        n.database_id == m.database_id,
        p.segment == q.segment,
    ensures
        durability::replayed_segments(m, p, files) matches Ok((a, steps)) ==> (
        durability::replayed_segments(n, q, files) matches Ok((b, list)) ==> aged(steps, list)),
    decreases m.segments.len() - p.segment,
{
    if 0 <= p.segment < m.segments.len() {
        let file = files[p.segment];
        if let (Ok(p1), Ok(q1)) = (recovery::opened(m, p, file), recovery::opened(n, q, file)) {
            lemma_records_again(m, n, p1, q1, file);
            if let (Ok((p2, steps)), Ok((q2, list))) = (
                durability::replayed_records(m, p1, file),
                durability::replayed_records(n, q1, file),
            ) {
                if let (Ok(p3), Ok(q3)) = (recovery::closed(m, p2), recovery::closed(n, q2)) {
                    if p3.segment == p.segment + 1 {
                        lemma_segments_again(m, n, p3, q3, files);
                        if let (Ok((a, more)), Ok((b, rest))) = (
                            durability::replayed_segments(m, p3, files),
                            durability::replayed_segments(n, q3, files),
                        ) {
                            lemma_aged_on(steps, more, list, rest);
                        }
                    }
                }
            }
        }
    }
}

/// The records that are executed have ascending sequences.
proof fn lemma_executed_member(steps: Seq<StepModel>, n: int, k: int) -> (i: int)
    requires
        0 <= k < n <= steps.len(),
        steps[k].replay,
    ensures
        0 <= i < executed(steps, n).len(),
        executed(steps, n)[i] == steps[k].sequence,
        i == executed(steps, k).len(),
    decreases n,
{
    if k == n - 1 {
        executed(steps, k).len() as int
    } else {
        let i = lemma_executed_member(steps, n - 1, k);
        i
    }
}

proof fn lemma_executed_grows(steps: Seq<StepModel>, a: int, b: int)
    requires
        0 <= a <= b <= steps.len(),
    ensures
        executed(steps, a).len() <= executed(steps, b).len(),
        a < b && steps[a].replay ==> executed(steps, a).len() < executed(steps, b).len(),
    decreases b - a,
{
    if a < b {
        lemma_executed_grows(steps, a, b - 1);
    }
}

/// Everything that a complete replay has read agrees with the history that it
/// leaves.
proof fn lemma_agrees<T>(
    executor: Executor<T>,
    base: T,
    steps: Seq<StepModel>,
    n: int,
    k: int,
    from: int,
    to: int,
    checkpoint: u64,
)
    requires
        executor.retains(),
        walks(steps, from, to, checkpoint),
        0 <= k < n <= steps.len(),
        executor.replayed(base, steps, n) is Ok,
    ensures
        (executor.compare)(executor.replayed(base, steps, n)->Ok_0, older(steps[k])) is None,
    decreases n,
{
    let trees = executor.replayed(base, steps, n - 1)->Ok_0;
    let last = steps[n - 1];
    if k < n - 1 {
        lemma_agrees(executor, base, steps, n - 1, k, from, to, checkpoint);
        if last.replay {
            lemma_other_sequence(steps, k, n - 1, from, to, checkpoint);
            assert((executor.compare)(trees, older(steps[k])) is None);
            assert((executor.execute)(trees, last) is Ok);
        }
    } else if last.replay {
        assert((executor.execute)(trees, last) is Ok);
    } else {
        assert(older(last) == last);
        lemma_carried(executor, base, steps, n - 1, last, from, to, checkpoint);
    }
}

/// A record that is executed has another sequence than those before it.
proof fn lemma_other_sequence(
    steps: Seq<StepModel>,
    k: int,
    n: int,
    from: int,
    to: int,
    checkpoint: u64,
)
    requires
        walks(steps, from, to, checkpoint),
        0 <= k < n < steps.len(),
        steps[n].replay,
    ensures
        steps[n].sequence != steps[k].sequence,
{
    let all = steps.len() as int;
    assert(steps[k].replay == (steps[k].sequence > checkpoint));
    assert(steps[n].replay == (steps[n].sequence > checkpoint));
    if steps[k].replay {
        let i = lemma_executed_member(steps, all, k);
        let j = lemma_executed_member(steps, all, n);
        lemma_executed_grows(steps, k, n);
        assert(executed(steps, all)[i] == from + i + 1);
        assert(executed(steps, all)[j] == from + j + 1);
    }
}

/// An older record that agrees with the checkpoint agrees with what is made of
/// it.
proof fn lemma_carried<T>(
    executor: Executor<T>,
    base: T,
    steps: Seq<StepModel>,
    n: int,
    step: StepModel,
    from: int,
    to: int,
    checkpoint: u64,
)
    requires
        executor.retains(),
        walks(steps, from, to, checkpoint),
        0 <= n <= steps.len(),
        step.sequence <= checkpoint,
        (executor.compare)(base, step) is None,
        executor.replayed(base, steps, n) is Ok,
    ensures
        (executor.compare)(executor.replayed(base, steps, n)->Ok_0, step) is None,
    decreases n,
{
    if n > 0 {
        lemma_carried(executor, base, steps, n - 1, step, from, to, checkpoint);
        let trees = executor.replayed(base, steps, n - 1)->Ok_0;
        if steps[n - 1].replay {
            assert(steps[n - 1].sequence > checkpoint);
            assert((executor.execute)(trees, steps[n - 1]) is Ok);
        }
    }
}

/// A replay that executes nothing leaves the trees as they are, where all
/// records agree.
proof fn lemma_nothing_executed<T>(executor: Executor<T>, base: T, steps: Seq<StepModel>, n: int)
    requires
        0 <= n <= steps.len(),
        forall|i: int|
            0 <= i < steps.len() ==> !(#[trigger] steps[i]).replay && (executor.compare)(
                base,
                steps[i],
            ) is None,
    ensures
        executor.replayed(base, steps, n) == Ok::<T, Error>(base),
    decreases n,
{
    if n > 0 {
        lemma_nothing_executed(executor, base, steps, n - 1);
        assert(!steps[n - 1].replay);
    }
}

// ---- Laws ----------------------------------------------------------------

/// A whole recovery ends with everything durable in the checkpoint: it executes
/// each record behind the old checkpoint once and in order, and leaves the log
/// as it is. One that fails changes nothing.
pub proof fn recovery_reaches_the_durable_end<T>(executor: Executor<T>, disk: Disk<T>)
    requires
        disk.manifest.checkpoint_sequence <= disk.manifest.durable_sequence,
    ensures
        ({
            let after = executor.recover(disk);
            let first = disk.manifest.checkpoint_sequence;
            &&& after.files == disk.files
            &&& after.manifest.durable_sequence == disk.manifest.durable_sequence
            &&& executor.outcome(disk) is Err ==> after == disk
            &&& executor.outcome(disk) matches Ok(trees) ==> {
                let steps = durability::recovered(disk.manifest, disk.files)->Ok_0;
                let done = executed(steps, steps.len() as int);
                &&& after.manifest.checkpoint_sequence == disk.manifest.durable_sequence
                &&& done.len() == disk.manifest.durable_sequence - first
                &&& forall|i: int| 0 <= i < done.len() ==> #[trigger] done[i] == first + i + 1
                &&& executor.replayed(disk.trees, steps, steps.len() as int) == Ok::<T, Error>(
                    after.trees,
                )
            }
        }),
{
    let m = disk.manifest;
    lemma_segments_walk(m, recovery::start_of(m), disk.files);
    if let Ok(trees) = executor.outcome(disk) {
        let steps = durability::recovered(m, disk.files)->Ok_0;
        let n = steps.len() as int;
        if m.checkpoint_sequence == m.durable_sequence {
            lemma_unchanged(executor, disk.trees, steps, n);
        }
    }
}

/// A replay that executes nothing keeps the trees.
proof fn lemma_unchanged<T>(executor: Executor<T>, base: T, steps: Seq<StepModel>, n: int)
    requires
        0 <= n <= steps.len(),
        executed(steps, n).len() == 0,
    ensures
        executor.replayed(base, steps, n) matches Ok(trees) ==> trees == base,
    decreases n,
{
    if n > 0 {
        lemma_unchanged(executor, base, steps, n - 1);
    }
}

/// A second recovery changes nothing: whatever the first one came to, and whatever
/// the second one comes to, manifest, log and trees stay as they are.
pub proof fn recovering_again_changes_nothing<T>(executor: Executor<T>, disk: Disk<T>)
    ensures
        executor.recover(executor.recover(disk)) == executor.recover(disk),
{
}

/// A second recovery succeeds: where the log is intact, and the history that the
/// first one left is accepted and retains what it executed, recovering again
/// finds nothing to execute and comes to the same trees.
pub proof fn recovering_again_succeeds<T>(
    executor: Executor<T>,
    disk: Disk<T>,
    commands: Seq<Seq<CommandModel>>,
)
    requires
        executor.retains(),
        durability::intact(disk.manifest, disk.files, commands),
        executor.outcome(disk) is Ok,
        (executor.history)(executor.recover(disk).trees, executor.recover(disk).manifest) is None,
    ensures
        ({
            let after = executor.recover(disk);
            executor.outcome(after) == Ok::<T, Error>(after.trees)
        }),
{
    let m = disk.manifest;
    let after = executor.recover(disk);
    let n = after.manifest;
    recovery_reaches_the_durable_end(executor, disk);
    lemma_segments_walk(m, recovery::start_of(m), disk.files);
    let steps = durability::recovered(m, disk.files)->Ok_0;
    let trees = executor.outcome(disk)->Ok_0;
    if m.checkpoint_sequence == m.durable_sequence {
        lemma_unchanged(executor, disk.trees, steps, steps.len() as int);
    } else {
        durability::checkpoints_keep_the_log_recoverable(m, disk.files, commands);
        durability::logged_commands_are_replayed(n, disk.files, commands);
        let list = durability::recovered(n, disk.files)->Ok_0;
        lemma_segments_walk(n, recovery::start_of(n), disk.files);
        lemma_segments_again(
            m,
            n,
            recovery::start_of(m),
            recovery::start_of(n),
            disk.files,
        );
        let last = durability::replayed_segments(m, recovery::start_of(m), disk.files)->Ok_0.0;
        assert forall|i: int| 0 <= i < list.len() implies !(#[trigger] list[i]).replay && (
        executor.compare)(after.trees, list[i]) is None by {
            if list[i].replay {
                let k = lemma_executed_member(list, list.len() as int, i);
            }
            assert(older(list[i]) == older(steps[i]));
            assert(list[i] == older(steps[i]));
            lemma_agrees(
                executor,
                disk.trees,
                steps,
                steps.len() as int,
                i,
                m.checkpoint_sequence as int,
                last.resolved as int,
                m.checkpoint_sequence,
            );
        }
        lemma_nothing_executed(executor, after.trees, list, list.len() as int);
    }
}

} // verus!
