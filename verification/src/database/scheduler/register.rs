//! Registration: a group of prepared transactions gets its places in the
//! schedule before it is appended to the log at once.

use super::coordinator::{
    fatal, Coordinator, Head, HeadModel, State, Work, MAX_GROUP,
};
use super::coordinator;
use super::prepare::{Prepared, PreparedModel};
use super::schedule;
use super::schedule::Plan;
use crate::database::workers;
use crate::database::workers::failure;
use crate::database::Error;
use crate::external;
use crate::external::sha256;
use crate::vm;
use crate::vm::access;
use crate::vm::AccessMode;
use vstd::prelude::*;

verus! {

/// A record that is to be appended.
#[derive(Debug, PartialEq, Eq)]
pub struct Assigned {
    pub sequence: u64,
    pub bytes: Vec<u8>,
}

/// A registration under way: how many more submissions it takes at most, and
/// the records that it has assigned.
#[derive(Debug, PartialEq, Eq)]
pub struct Registration {
    pub rounds: usize,
    pub records: Vec<Assigned>,
}

/// The model of a [`Registration`].
#[verifier::ext_equal]
pub struct Group {
    pub rounds: nat,
    pub records: Seq<(u64, Seq<u8>)>,
}

/// The models of some records.
pub open spec fn assigned(list: Seq<Assigned>) -> Seq<(u64, Seq<u8>)> {
    list.map_values(|a: Assigned| (a.sequence, a.bytes@))
}

impl Registration {
    pub open spec fn view(&self) -> Group {
        Group { rounds: self.rounds as nat, records: assigned(self.records@) }
    }
}

impl Group {
    /// Whether the group is bounded and its records are the last ones of the
    /// plan, each under the digest of its bytes.
    pub open spec fn wf(self, plan: Plan) -> bool {
        &&& self.rounds + self.records.len() <= MAX_GROUP
        &&& self.records.len() <= plan.records.len()
        &&& forall|i: int|
            0 <= i < self.records.len() ==> {
                let record = plan.records[plan.records.len() - self.records.len() + i];
                &&& record.sequence == (#[trigger] self.records[i]).0
                &&& record.digest == external::sha256_of(self.records[i].1)
                &&& record.bytes == self.records[i].1.len()
            }
    }
}

/// What a registration does next.
#[derive(Clone, Copy, Debug, PartialEq, Eq, Structural)]
pub enum Round {
    /// The head was assigned.
    Assigned,
    /// Look for another submission.
    Receive,
    /// Append what was assigned.
    Finished,
}

/// The state after its head was assigned.
pub open spec fn with_head_assigned(s: State, p: PreparedModel) -> State {
    State {
        head: None,
        plan: schedule::with_record(
            s.plan,
            schedule::assigned_record(
                s.plan,
                p.sequence,
                external::sha256_of(p.bytes),
                access::selected(p.entries, true),
                access::selected(p.entries, false),
                p.bytes.len() as u64,
                p.reservation,
            ),
        ),
        ..s
    }
}

/// One step of a registration. `interrupted` says that a control request or a
/// completion waits, or that a worker failed: then no submission is taken.
pub open spec fn stepped(s: State, g: Group, interrupted: bool) -> (State, Group, Round) {
    let ended = Group { rounds: 0, ..g };
    if g.rounds == 0 {
        (s, g, Round::Finished)
    } else {
        match s.head {
            Some(HeadModel::Transaction(p)) => if schedule::room(
                s.plan,
                s.options,
                p.bytes.len() as u64,
                p.reservation,
            ) {
                (
                    with_head_assigned(s, p),
                    Group {
                        rounds: (g.rounds - 1) as nat,
                        records: g.records.push((p.sequence, p.bytes)),
                    },
                    Round::Assigned,
                )
            } else {
                (s, ended, Round::Finished)
            },
            Some(HeadModel::Administrative) => (s, ended, Round::Finished),
            None => if interrupted {
                (s, ended, Round::Finished)
            } else {
                (s, g, Round::Receive)
            },
        }
    }
}

/// What a registration finds when it looks for another submission.
#[derive(Debug, PartialEq, Eq)]
pub enum Arrival {
    Nothing,
    /// A request of another kind; it waits until the group is done.
    SetAside,
    Prepared(Prepared),
    /// A transaction that was answered with an error, with its text.
    Refused { error: Error, message: String },
}

/// A registration after it looked for another submission; an error stops the
/// coordinator.
pub open spec fn arrived(s: State, g: Group, arrival: Arrival) -> Option<(State, Group)> {
    match arrival {
        Arrival::Nothing => Some((s, Group { rounds: 0, ..g })),
        Arrival::SetAside => Some((State { set_aside: true, ..s }, Group { rounds: 0, ..g })),
        Arrival::Prepared(p) => Some(
            (State { head: Some(HeadModel::Transaction(p@)), ..s }, g),
        ),
        Arrival::Refused { error, .. } => if coordinator::is_fatal(Work::Preparation, error) {
            None
        } else {
            Some((s, Group { rounds: (g.rounds - 1) as nat, ..g }))
        },
    }
}

impl Registration {
    /// Begin a registration while this many submissions wait. It bounds both
    /// accepted and rejected work, and never waits to fill a group.
    pub fn start(queued: usize) -> (registration: Registration)
        ensures
            registration@ == (Group {
                rounds: if queued < 63 {
                    queued as nat + 1
                } else {
                    64
                },
                records: Seq::empty(),
            }),
            forall|plan: Plan| #[trigger] registration@.wf(plan),
    {
        let rounds: usize = if queued < 63 {
            queued + 1
        } else {
            64
        };
        let registration = Registration { rounds, records: Vec::new() };
        assert(registration@.records =~= Seq::empty());
        registration
    }

    /// Assign the head if there is room for it, or say what comes next.
    pub fn step(&mut self, coordinator: &mut Coordinator, interrupted: bool) -> (round: Round)
        requires
            old(coordinator)@.wf(),
            old(self)@.wf(old(coordinator)@.plan),
        ensures
            stepped(old(coordinator)@, old(self)@, interrupted) == (
                final(coordinator)@,
                final(self)@,
                round,
            ),
            final(coordinator)@.wf(),
            final(self)@.wf(final(coordinator)@.plan),
    {
        if self.rounds == 0 {
            return Round::Finished;
        }
        let ghost before = coordinator@;
        let ghost group = self@;
        match coordinator.head.take() {
            None => {
                if interrupted {
                    self.rounds = 0;
                    return Round::Finished;
                }
                Round::Receive
            },
            Some(Head::Administrative) => {
                coordinator.head = Some(Head::Administrative);
                self.rounds = 0;
                Round::Finished
            },
            Some(Head::Transaction(p)) => {
                if !coordinator.schedule.fits(
                    &coordinator.options,
                    p.bytes.len() as u64,
                    p.reservation,
                ) {
                    coordinator.head = Some(Head::Transaction(p));
                    self.rounds = 0;
                    return Round::Finished;
                }
                let digest: [u8; 32] = sha256(p.bytes.as_slice());
                coordinator.schedule.assign(
                    &coordinator.options,
                    p.sequence,
                    digest,
                    &p.manifest,
                    p.bytes.len() as u64,
                    p.reservation,
                );
                self.rounds = self.rounds - 1;
                let record = Assigned { sequence: p.sequence, bytes: p.bytes };
                self.records.push(record);
                proof {
                    let after = coordinator@.plan;
                    assert(self@.records =~= group.records.push((p@.sequence, p@.bytes)));
                    assert forall|i: int| 0 <= i < self@.records.len() implies {
                        let record = after.records[after.records.len() - self@.records.len() + i];
                        &&& record.sequence == (#[trigger] self@.records[i]).0
                        &&& record.digest == external::sha256_of(self@.records[i].1)
                        &&& record.bytes == self@.records[i].1.len()
                    } by {
                        if i < group.records.len() {
                            let j = before.plan.records.len() - group.records.len() + i;
                            assert(before.plan.records[j].sequence == group.records[i].0);
                            assert(after.records[j] == before.plan.records[j]);
                        }
                    }
                }
                Round::Assigned
            },
        }
    }

    /// Take what was found when another submission was looked for.
    pub fn receive(&mut self, coordinator: &mut Coordinator, arrival: Arrival) -> (taken: Result<
        (),
        Error,
    >)
        requires
            old(coordinator)@.wf(),
            old(self)@.wf(old(coordinator)@.plan),
            old(self)@.rounds > 0,
            arrival matches Arrival::Prepared(p) ==> p.sequence == old(coordinator)@.tail() + 1
                && p.sequence < u64::MAX,
        ensures
            match taken {
                Ok(()) => arrived(old(coordinator)@, old(self)@, arrival) == Some(
                    (final(coordinator)@, final(self)@),
                ),
                Err(e) => {
                    &&& arrived(old(coordinator)@, old(self)@, arrival) is None
                    &&& e matches Error::Uncertain { sequence: None, source: Some(source) }
                    &&& workers::failure_text(source) == Some(arrival->message@)
                    &&& final(coordinator)@ == old(coordinator)@
                    &&& final(self)@ == old(self)@
                },
            },
            final(coordinator)@.wf(),
            final(self)@.wf(final(coordinator)@.plan),
    {
        match arrival {
            Arrival::Nothing => {
                self.rounds = 0;
            },
            Arrival::SetAside => {
                coordinator.set_aside = true;
                self.rounds = 0;
            },
            Arrival::Prepared(p) => {
                coordinator.head = Some(Head::Transaction(p));
            },
            Arrival::Refused { error, message } => {
                if fatal(Work::Preparation, &error) {
                    return Err(
                        Error::Uncertain {
                            sequence: None,
                            source: Some(failure(message.as_str())),
                        },
                    );
                }
                self.rounds = self.rounds - 1;
            },
        }
        Ok(())
    }

    /// How a failure to append the group is reported.
    pub fn append_failed(&self, error: vm::Error) -> (fault: Error)
        ensures
            fault == (Error::Uncertain {
                sequence: if self@.records.len() > 0 {
                    Some(self@.records[0].0)
                } else {
                    None
                },
                source: Some(error),
            }),
    {
        let sequence = if self.records.len() > 0 {
            Some(self.records[0].sequence)
        } else {
            None
        };
        Error::Uncertain { sequence, source: Some(error) }
    }
}

// ---- Laws ----------------------------------------------------------------

/// A head for which there is room gets the next place in the schedule and in
/// the group, under its sequence and the digest of its bytes. Its record reads
/// what its manifest lets it read, and writes what its manifest lets it write.
pub proof fn assigned_records_use_their_manifests(
    s: State,
    g: Group,
    p: PreparedModel,
    interrupted: bool,
    scope: access::ScopeModel,
)
    requires
        g.rounds > 0,
        s.head == Some(HeadModel::Transaction(p)),
        s.plan.records.len() < s.options.assigned_backlog_count,
        s.plan.assigned_bytes + p.bytes.len() <= s.options.assigned_backlog_bytes,
        s.plan.reserved_bytes + p.reservation <= s.options.execution_bytes,
    ensures
        ({
            let (next, group, round) = stepped(s, g, interrupted);
            let record = next.plan.records.last();
            &&& round == Round::Assigned
            &&& next.head is None
            &&& next.plan.records.drop_last() == s.plan.records
            &&& group.records == g.records.push((p.sequence, p.bytes))
            &&& group.rounds == g.rounds - 1
            &&& record.sequence == p.sequence
            &&& record.digest == external::sha256_of(p.bytes)
            &&& record.bytes == p.bytes.len()
            &&& record.reservation == p.reservation
            &&& record.outcome is None
            &&& record.reads.contains(scope) <==> exists|i: int|
                0 <= i < p.entries.len() && (#[trigger] p.entries[i]).0@ == scope && (
                p.entries[i].1 == AccessMode::Read || p.entries[i].1 == AccessMode::ReadWrite)
            &&& record.writes.contains(scope) <==> exists|i: int|
                0 <= i < p.entries.len() && (#[trigger] p.entries[i]).0@ == scope && (
                p.entries[i].1 == AccessMode::Write || p.entries[i].1 == AccessMode::ReadWrite)
        }),
{
    access::modes_select_scopes(p.entries, scope);
    let next = stepped(s, g, interrupted).0;
    assert(next.plan.records.drop_last() =~= s.plan.records);
}

/// A registration takes no more than it was started with, and ends: every step
/// assigns one record, takes one submission, or is the last.
pub proof fn registrations_end(s: State, g: Group, interrupted: bool)
    ensures
        ({
            let (next, group, round) = stepped(s, g, interrupted);
            &&& group.rounds <= g.rounds
            &&& round == Round::Assigned ==> group.rounds < g.rounds && group.records.len()
                == g.records.len() + 1
            &&& round == Round::Finished ==> group.rounds == 0 && group.records == g.records
                && next == s
            &&& round == Round::Receive ==> s.head is None && !interrupted && g.rounds > 0
                && group == g && next == s
        }),
{
}

} // verus!
