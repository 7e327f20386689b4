//! What a submission is answered with: the outcome that was installed for its
//! record, whatever the coordinator does in between.

use super::coordinator;
use super::coordinator::{Event, HeadModel, State, Work};
use super::register;
use super::register::{Arrival, Group};
use super::schedule;
use super::schedule::Plan;
use crate::database::Error;
use crate::vm::outcome::Resolution;
use vstd::prelude::*;

verus! {

/// Something that the coordinator does, or that a registration does with it.
pub enum Action {
    Dispatch { durable: u64 },
    Receive { event: Event, read_only: bool, durable: u64 },
    Fault { work: Work, error: Error, message: Seq<char> },
    Hold(HeadModel),
    TakeHead,
    TakeMaintenance,
    TakeSetAside,
    /// A commit or an import made everything up to a sequence visible.
    Reached(u64),
    Accept { worker: int },
    /// A record gets its outcome.
    Install { sequence: u64, outcome: Resolution },
    Advance,
    Retire,
    Leave { fault: Option<Seq<char>> },
    Step { group: Group, interrupted: bool },
    Arrive { group: Group, arrival: Arrival },
}

/// Whether the coordinator can do something. What becomes visible stays visible.
pub open spec fn possible(s: State, action: Action) -> bool {
    match action {
        Action::Dispatch { .. } | Action::Receive { .. } | Action::TakeHead
        | Action::TakeMaintenance | Action::TakeSetAside => s.wf(),
        Action::Fault { .. } | Action::Advance | Action::Leave { .. } => s.sound(),
        Action::Hold(head) => s.wf() && (head matches HeadModel::Transaction(p) ==> p.sequence
            == s.tail() + 1 && p.sequence < u64::MAX),
        Action::Reached(n) => s.wf() && s.head is None && s.plan.records.len() == 0
            && s.plan.frontier <= n,
        Action::Accept { worker } => s.sound() && 0 <= worker < s.busy.len(),
        Action::Install { sequence, .. } => s.sound() && exists|k: int|
            0 <= k < s.plan.records.len() && (#[trigger] s.plan.records[k]).sequence == sequence
                && !s.plan.records[k].waiting && !s.plan.records[k].resolved(),
        Action::Retire => s.sound() && s.plan.settled_prefix(),
        Action::Step { group, .. } => s.wf() && group.wf(s.plan),
        Action::Arrive { group, arrival } => {
            &&& s.wf()
            &&& group.wf(s.plan)
            &&& group.rounds > 0
            &&& arrival matches Arrival::Prepared(p) ==> p.sequence == s.tail() + 1 && p.sequence
                < u64::MAX
        },
    }
}

/// The coordinator after it did something.
pub open spec fn acted(s: State, action: Action) -> State {
    match action {
        Action::Dispatch { durable } => {
            let (plan, busy, _) = schedule::handed_out(
                s.plan,
                s.busy,
                0,
                durable,
                s.options.execution_window,
            );
            State { plan, busy, ..s }
        },
        Action::Receive { event, read_only, durable } => coordinator::received(
            s,
            event,
            read_only,
            durable,
        ).0,
        Action::Fault { work, error, message } => coordinator::faulted(s, work, error, message),
        Action::Hold(head) => State { head: Some(head), ..s },
        Action::TakeHead => State { head: None, ..s },
        Action::TakeMaintenance => State { maintenance: false, ..s },
        Action::TakeSetAside => State { set_aside: false, ..s },
        Action::Reached(n) => State { plan: Plan { frontier: n, ..s.plan }, ..s },
        Action::Accept { worker } => State { busy: s.busy.update(worker, false), ..s },
        Action::Install { sequence, outcome } => State {
            plan: schedule::resolved(
                s.plan,
                schedule::index_of(s.plan.records, sequence),
                outcome,
            ),
            ..s
        },
        Action::Advance => State { plan: schedule::advanced(s.plan).0, ..s },
        Action::Retire => State { plan: schedule::retired_plan(s.plan), ..s },
        Action::Leave { fault } => State {
            last_error: coordinator::final_error(s, fault),
            ..s
        },
        Action::Step { group, interrupted } => register::stepped(s, group, interrupted).0,
        Action::Arrive { group, arrival } => match register::arrived(s, group, arrival) {
            Some((next, _)) => next,
            None => s,
        },
    }
}

/// A coordinator at work: the outcomes that it was given, by their sequences,
/// and the receipts that it has handed out.
pub struct Ledger {
    pub state: State,
    pub given: Map<u64, Resolution>,
    pub receipts: Seq<(u64, Resolution)>,
}

/// The ledger after the coordinator did something.
pub open spec fn entered(l: Ledger, action: Action) -> Ledger {
    Ledger {
        state: acted(l.state, action),
        given: match action {
            Action::Install { sequence, outcome } => l.given.insert(sequence, outcome),
            _ => l.given,
        },
        receipts: match action {
            Action::Retire => l.receipts + schedule::visible_answers(l.state.plan),
            _ => l.receipts,
        },
    }
}

/// The ledger of a coordinator after it did some things; none where one is not
/// possible.
pub open spec fn followed(s: State, actions: Seq<Action>) -> Option<Ledger>
    decreases actions.len(),
{
    if actions.len() == 0 {
        Some(Ledger { state: s, given: Map::empty(), receipts: Seq::empty() })
    } else {
        match followed(s, actions.drop_last()) {
            Some(l) => if possible(l.state, actions.last()) {
                Some(entered(l, actions.last()))
            } else {
                None
            },
            None => None,
        }
    }
}

/// Whether a sequence is behind the records that are still scheduled.
pub open spec fn passed(p: Plan, n: u64) -> bool {
    p.records.len() == 0 || n < p.records[0].sequence
}

/// What every action keeps.
pub open spec fn balanced(l: Ledger) -> bool {
    let plan = l.state.plan;
    &&& schedule::consecutive(plan.records)
    &&& forall|i: int|
        0 <= i < plan.records.len() ==> {
            let record = #[trigger] plan.records[i];
            &&& record.resolved() == l.given.contains_key(record.sequence)
            &&& record.outcome matches Some(outcome) ==> l.given[record.sequence] == outcome
        }
    &&& forall|n: u64| #[trigger]
        l.given.contains_key(n) ==> n <= l.state.tail() && (passed(plan, n)
            ==> l.receipts.contains((n, l.given[n])))
    &&& forall|k: int|
        0 <= k < l.receipts.len() ==> {
            let (n, outcome) = #[trigger] l.receipts[k];
            &&& l.given.contains_key(n)
            &&& l.given[n] == outcome
            &&& n <= plan.frontier
            &&& passed(plan, n)
        }
    &&& forall|j: int, k: int|
        0 <= j < k < l.receipts.len() ==> (#[trigger] l.receipts[j]).0 < (
        #[trigger] l.receipts[k]).0
}

/// Retiring takes away the visible records at the front.
proof fn lemma_retired_records(p: Plan)
    requires
        p.wf(),
    ensures
        schedule::visible(p) <= p.records.len(),
        schedule::retired_plan(p).frontier == p.frontier,
        schedule::retired_plan(p).records == p.records.subrange(
            schedule::visible(p) as int,
            p.records.len() as int,
        ),
        forall|i: int|
            0 <= i < schedule::visible(p) ==> (#[trigger] p.records[i]).sequence <= p.frontier,
    decreases p.records.len(),
{
    if p.records.len() > 0 && p.records[0].sequence <= p.frontier {
        schedule::lemma_popped(p);
        let q = schedule::popped(p);
        lemma_retired_records(q);
        let n = schedule::visible(p) as int;
        assert(q.records.subrange(n - 1, q.records.len() as int) =~= p.records.subrange(
            n,
            p.records.len() as int,
        ));
        assert forall|i: int| 0 <= i < n implies (#[trigger] p.records[i]).sequence
            <= p.frontier by {
            if i > 0 {
                assert(q.records[i - 1] == p.records[i]);
            }
        }
    } else {
        assert(p.records.subrange(0, p.records.len() as int) =~= p.records);
    }
}

/// Where sequences and outcomes stay, so does the balance.
proof fn lemma_same_outcomes(l: Ledger, next: State)
    requires
        balanced(l),
        next.plan.records.len() == l.state.plan.records.len(),
        next.plan.frontier >= l.state.plan.frontier,
        forall|i: int|
            0 <= i < next.plan.records.len() ==> (#[trigger] next.plan.records[i]).sequence
                == l.state.plan.records[i].sequence && next.plan.records[i].outcome
                == l.state.plan.records[i].outcome,
    ensures
        balanced(Ledger { state: next, ..l }),
{
    let m = Ledger { state: next, ..l };
    let before = l.state.plan;
    let after = next.plan;
    if before.records.len() > 0 {
        assert(after.records[0].sequence == before.records[0].sequence);
        assert(after.records[after.records.len() - 1].sequence == before.records[before.records.len()
            - 1].sequence);
    }
    assert(m.state.tail() >= l.state.tail());
    assert forall|i: int| 0 <= i < after.records.len() implies (
    #[trigger] after.records[i]).sequence == after.records[0].sequence + i by {
        assert(before.records[i].sequence == before.records[0].sequence + i);
    }
    assert forall|i: int| 0 <= i < after.records.len() implies {
        let record = #[trigger] after.records[i];
        &&& record.resolved() == m.given.contains_key(record.sequence)
        &&& record.outcome matches Some(outcome) ==> m.given[record.sequence] == outcome
    } by {
        assert(before.records[i].resolved() == l.given.contains_key(before.records[i].sequence));
    }
    assert forall|n: u64| #[trigger] m.given.contains_key(n) implies n <= m.state.tail() && (passed(
        after,
        n,
    ) ==> m.receipts.contains((n, m.given[n]))) by {
        assert(l.given.contains_key(n));
    }
    assert forall|k: int| 0 <= k < m.receipts.len() implies {
        let (n, outcome) = #[trigger] m.receipts[k];
        &&& m.given.contains_key(n)
        &&& m.given[n] == outcome
        &&& n <= after.frontier
        &&& passed(after, n)
    } by {
        let (n, outcome) = l.receipts[k];
        assert(passed(before, n));
    }
}

proof fn lemma_assigned(l: Ledger, next: State)
    requires
        balanced(l),
        l.state.plan.wf(),
        next.plan.records.len() == l.state.plan.records.len() + 1,
        next.plan.frontier == l.state.plan.frontier,
        next.plan.records.drop_last() == l.state.plan.records,
        next.plan.records.last().sequence == l.state.tail() + 1,
        !next.plan.records.last().resolved(),
    ensures
        balanced(Ledger { state: next, ..l }),
{
    let m = Ledger { state: next, ..l };
    let before = l.state.plan;
    let after = next.plan;
    assert forall|i: int| 0 <= i < after.records.len() implies {
        let record = #[trigger] after.records[i];
        &&& record.resolved() == m.given.contains_key(record.sequence)
        &&& record.outcome matches Some(outcome) ==> m.given[record.sequence] == outcome
    } by {
        if i < before.records.len() {
            assert(after.records.drop_last()[i] == after.records[i]);
            assert(before.records[i] == after.records[i]);
        }
    }
    if before.records.len() > 0 {
        assert(after.records.drop_last()[0] == after.records[0]);
        assert(before.records[before.records.len() - 1].sequence == before.records[0].sequence
            + before.records.len() - 1);
    }
    assert forall|i: int| 0 <= i < after.records.len() implies (
    #[trigger] after.records[i]).sequence == after.records[0].sequence + i by {
        if i < before.records.len() {
            assert(after.records.drop_last()[i] == after.records[i]);
            assert(before.records[i].sequence == before.records[0].sequence + i);
        }
    }
    assert forall|n: u64| #[trigger] m.given.contains_key(n) implies n <= m.state.tail() && (passed(
        after,
        n,
    ) ==> m.receipts.contains((n, m.given[n]))) by {
        assert(l.given.contains_key(n));
    }
    assert forall|k: int| 0 <= k < m.receipts.len() implies {
        let (n, outcome) = #[trigger] m.receipts[k];
        &&& m.given.contains_key(n)
        &&& m.given[n] == outcome
        &&& n <= after.frontier
        &&& passed(after, n)
    } by {
        let (n, outcome) = l.receipts[k];
        assert(passed(before, n));
    }
}

proof fn lemma_installed(l: Ledger, sequence: u64, outcome: Resolution)
    requires
        balanced(l),
        possible(l.state, Action::Install { sequence, outcome }),
    ensures
        balanced(entered(l, Action::Install { sequence, outcome })),
{
    let m = entered(l, Action::Install { sequence, outcome });
    let before = l.state.plan;
    let after = m.state.plan;
    let k = schedule::index_of(before.records, sequence);
    let w = choose|w: int|
        0 <= w < before.records.len() && (#[trigger] before.records[w]).sequence == sequence
            && !before.records[w].waiting && !before.records[w].resolved();
    assert(before.records[w].sequence == before.records[0].sequence + w);
    assert(w == k);
    assert(after.records[0].sequence == before.records[0].sequence);
    assert(after.records.last().sequence == before.records.last().sequence);
    assert forall|i: int| 0 <= i < after.records.len() implies (
    #[trigger] after.records[i]).sequence == after.records[0].sequence + i by {
        assert(before.records[i].sequence == before.records[0].sequence + i);
    }
    assert(before.records[before.records.len() - 1].sequence == before.records[0].sequence
        + before.records.len() - 1);
    assert forall|i: int| 0 <= i < after.records.len() implies {
        let record = #[trigger] after.records[i];
        &&& record.resolved() == m.given.contains_key(record.sequence)
        &&& record.outcome matches Some(outcome) ==> m.given[record.sequence] == outcome
    } by {
        assert(before.records[i].sequence == before.records[0].sequence + i);
        assert(before.records[i].resolved() == l.given.contains_key(before.records[i].sequence));
    }
    assert forall|n: u64| #[trigger] m.given.contains_key(n) implies n <= m.state.tail() && (passed(
        after,
        n,
    ) ==> m.receipts.contains((n, m.given[n]))) by {
        if n != sequence {
            assert(l.given.contains_key(n));
        }
    }
    assert forall|j: int| 0 <= j < m.receipts.len() implies {
        let (n, outcome) = #[trigger] m.receipts[j];
        &&& m.given.contains_key(n)
        &&& m.given[n] == outcome
        &&& n <= after.frontier
        &&& passed(after, n)
    } by {
        let (n, outcome) = l.receipts[j];
        assert(passed(before, n));
    }
}

proof fn lemma_retired(l: Ledger)
    requires
        balanced(l),
        possible(l.state, Action::Retire),
    ensures
        balanced(entered(l, Action::Retire)),
{
    let m = entered(l, Action::Retire);
    let before = l.state.plan;
    let after = m.state.plan;
    let list = before.records;
    let gone = schedule::visible_answers(before);
    let v = schedule::visible(before) as int;
    lemma_retired_records(before);
    schedule::lemma_retired(before, l.state.options);
    assert(m.receipts == l.receipts + gone);
    if list.len() > 0 {
        assert(list[list.len() - 1].sequence == list[0].sequence + list.len() - 1);
    }
    assert forall|i: int| 0 <= i < after.records.len() implies {
        let record = #[trigger] after.records[i];
        &&& record.resolved() == m.given.contains_key(record.sequence)
        &&& record.outcome matches Some(outcome) ==> m.given[record.sequence] == outcome
    } by {
        assert(after.records[i] == list[v + i]);
    }
    if after.records.len() > 0 {
        assert(after.records[0] == list[v]);
        assert(list[v].sequence == list[0].sequence + v);
    }
    assert forall|i: int| 0 <= i < after.records.len() implies (
    #[trigger] after.records[i]).sequence == after.records[0].sequence + i by {
        assert(list[v + i].sequence == list[0].sequence + v + i);
    }
    assert forall|n: u64| #[trigger] m.given.contains_key(n) implies n <= m.state.tail() && (passed(
        after,
        n,
    ) ==> m.receipts.contains((n, m.given[n]))) by {
        assert(l.given.contains_key(n));
        if passed(after, n) {
            if passed(before, n) {
                let j = choose|j: int|
                    0 <= j < l.receipts.len() && l.receipts[j] == (n, l.given[n]);
                assert(m.receipts[j] == (n, m.given[n]));
            } else {
                let i = n - list[0].sequence;
                assert(list[i].sequence == list[0].sequence + i);
                assert(i < v);
                assert(list[i].resolved());
                assert(gone[i] == (n, m.given[n]));
                assert(m.receipts[l.receipts.len() + i] == (n, m.given[n]));
            }
        }
    }
    assert forall|j: int| 0 <= j < m.receipts.len() implies {
        let (n, outcome) = #[trigger] m.receipts[j];
        &&& m.given.contains_key(n)
        &&& m.given[n] == outcome
        &&& n <= after.frontier
        &&& passed(after, n)
    } by {
        if j < l.receipts.len() {
            assert(m.receipts[j] == l.receipts[j]);
            assert(passed(before, l.receipts[j].0));
        } else {
            let i = j - l.receipts.len();
            assert(m.receipts[j] == gone[i]);
            assert(list[i].sequence == list[0].sequence + i);
            assert(list[i].resolved());
        }
    }
    assert forall|j: int, k: int| 0 <= j < k < m.receipts.len() implies (
    #[trigger] m.receipts[j]).0 < (#[trigger] m.receipts[k]).0 by {
        let n = l.receipts.len();
        if k < n {
            assert(m.receipts[j] == l.receipts[j] && m.receipts[k] == l.receipts[k]);
        } else {
            assert(m.receipts[k] == gone[k - n]);
            assert(list[k - n].sequence == list[0].sequence + (k - n));
            if j < n {
                assert(m.receipts[j] == l.receipts[j]);
                assert(passed(before, l.receipts[j].0));
            } else {
                assert(m.receipts[j] == gone[j - n]);
                assert(list[j - n].sequence == list[0].sequence + (j - n));
            }
        }
    }
}

/// Where the schedule stays, so does the balance.
proof fn lemma_same_plan(l: Ledger, next: State)
    requires
        balanced(l),
        next.plan == l.state.plan,
    ensures
        balanced(Ledger { state: next, ..l }),
{
    assert(next.tail() == l.state.tail());
}

/// Most actions leave the schedule as it is.
proof fn lemma_plan_kept(s: State, action: Action)
    requires
        !(action is Dispatch || action is Reached || action is Install || action is Advance
            || action is Retire || action is Step),
    ensures
        acted(s, action).plan == s.plan,
{
}

proof fn lemma_entered(l: Ledger, action: Action)
    requires
        balanced(l),
        possible(l.state, action),
    ensures
        balanced(entered(l, action)),
{
    let s = l.state;
    let next = acted(s, action);
    match action {
        Action::Dispatch { durable } => {
            schedule::lemma_handed_out(s.plan, s.busy, 0, durable, s.options.execution_window);
            lemma_same_outcomes(l, next);
        },
        Action::Install { sequence, outcome } => {
            lemma_installed(l, sequence, outcome);
        },
        Action::Advance => {
            schedule::visibility_is_the_resolved_prefix(s.plan);
            lemma_same_outcomes(l, next);
        },
        Action::Retire => {
            lemma_retired(l);
        },
        Action::Step { group, interrupted } => {
            if next.plan.records.len() == s.plan.records.len() {
                lemma_same_outcomes(l, next);
            } else {
                assert(next.plan.records.drop_last() =~= s.plan.records);
                lemma_assigned(l, next);
            }
        },
        Action::Reached(n) => {
            lemma_same_outcomes(l, next);
        },
        _ => {
            lemma_plan_kept(s, action);
            lemma_same_plan(l, next);
        },
    }
}

proof fn lemma_followed(s: State, actions: Seq<Action>)
    requires
        s.plan.records.len() == 0,
    ensures
        followed(s, actions) matches Some(l) ==> balanced(l),
    decreases actions.len(),
{
    if actions.len() > 0 {
        lemma_followed(s, actions.drop_last());
        if let Some(l) = followed(s, actions.drop_last()) {
            if possible(l.state, actions.last()) {
                lemma_entered(l, actions.last());
            }
        }
    }
}

/// A receipt holds the outcome that was installed for its record, whatever the
/// coordinator does in between. Receipts come in log order, one for each record;
/// and of what was installed, nothing is lost: its record still waits for an
/// earlier one, or the receipt was handed out.
pub proof fn receipts_hold_the_installed_outcomes(s: State, actions: Seq<Action>)
    requires
        s.plan.records.len() == 0,
        followed(s, actions) is Some,
    ensures
        ({
            let l = followed(s, actions)->0;
            &&& forall|k: int|
                0 <= k < l.receipts.len() ==> {
                    let (n, outcome) = #[trigger] l.receipts[k];
                    l.given.contains_key(n) && l.given[n] == outcome
                }
            &&& forall|j: int, k: int|
                0 <= j < k < l.receipts.len() ==> (#[trigger] l.receipts[j]).0 < (
                #[trigger] l.receipts[k]).0
            &&& forall|n: u64| #[trigger]
                l.given.contains_key(n) ==> l.receipts.contains((n, l.given[n])) || exists|i: int|
                    0 <= i < l.state.plan.records.len() && (
                    #[trigger] l.state.plan.records[i]).sequence == n
                        && l.state.plan.records[i].outcome == Some(l.given[n])
        }),
{
    lemma_followed(s, actions);
    let l = followed(s, actions)->0;
    let list = l.state.plan.records;
    assert forall|n: u64| #[trigger] l.given.contains_key(n) implies l.receipts.contains(
        (n, l.given[n]),
    ) || exists|i: int|
        0 <= i < list.len() && (#[trigger] list[i]).sequence == n && list[i].outcome == Some(
            l.given[n],
        ) by {
        if !passed(l.state.plan, n) {
            let i = n - list[0].sequence;
            assert(list[list.len() - 1].sequence == list[0].sequence + list.len() - 1);
            assert(list[i].sequence == list[0].sequence + i);
            assert(list[i].resolved());
        }
    }
}

} // verus!
