//! The decisions of the coordinator, between the waits and the storage work
//! that its caller performs.

use super::prepare::{Prepared, PreparedModel};
use super::schedule;
use super::schedule::{Job, Plan, Schedule};
use crate::database::budget;
use crate::database::budget::EngineOptions;
use crate::database::workers;
use crate::database::workers::{check_pool, failure};
use crate::database::{Error, Receipt};
use crate::storage;
use crate::vm;
use crate::vm::Outcome;
use vstd::prelude::*;

verus! {

pub const NOT_A_REPLICA: &'static str = "logical import requires a read-only replica";

pub const REOPEN: &'static str = "database execution requires reopen";

/// How many submissions one registration takes at most.
pub const MAX_GROUP: usize = 64;

/// The submission that is assigned next.
#[derive(Debug, PartialEq, Eq)]
pub enum Head {
    /// A change of the catalogue or of the limits, which runs alone.
    Administrative,
    Transaction(Prepared),
}

/// The model of a [`Head`].
pub enum HeadModel {
    Administrative,
    Transaction(PreparedModel),
}

impl Head {
    pub open spec fn view(&self) -> HeadModel {
        match self {
            Head::Administrative => HeadModel::Administrative,
            Head::Transaction(prepared) => HeadModel::Transaction(prepared@),
        }
    }
}

/// What the coordinator decides by.
#[derive(Debug, PartialEq, Eq)]
pub struct Coordinator {
    pub options: EngineOptions,
    pub schedule: Schedule,
    /// Which workers interpret a record.
    pub busy: Vec<bool>,
    pub head: Option<Head>,
    /// Whether submissions can still arrive.
    pub requests: bool,
    /// Whether control requests can still arrive.
    pub controls: bool,
    /// Whether a waiting submission goes before a waiting control request.
    pub prefer_requests: bool,
    /// Whether maintenance waits for the assigned records.
    pub maintenance: bool,
    /// Whether a request was set aside that ended a registration.
    pub set_aside: bool,
    pub failed: bool,
    pub last_error: Option<String>,
}

/// The model of a [`Coordinator`].
#[verifier::ext_equal]
pub struct State {
    pub options: EngineOptions,
    pub plan: Plan,
    pub busy: Seq<bool>,
    pub head: Option<HeadModel>,
    pub requests: bool,
    pub controls: bool,
    pub prefer_requests: bool,
    pub maintenance: bool,
    pub set_aside: bool,
    pub failed: bool,
    pub last_error: Option<Seq<char>>,
}

/// The model of an optional head.
pub open spec fn head_model(head: Option<Head>) -> Option<HeadModel> {
    match head {
        Some(head) => Some(head@),
        None => None,
    }
}

/// The model of an optional text.
pub open spec fn text_model(text: Option<String>) -> Option<Seq<char>> {
    match text {
        Some(text) => Some(text@),
        None => None,
    }
}

impl Coordinator {
    pub open spec fn view(&self) -> State {
        State {
            options: self.options,
            plan: self.schedule@,
            busy: self.busy@,
            head: head_model(self.head),
            requests: self.requests,
            controls: self.controls,
            prefer_requests: self.prefer_requests,
            maintenance: self.maintenance,
            set_aside: self.set_aside,
            failed: self.failed,
            last_error: text_model(self.last_error),
        }
    }
}

impl State {
    /// The last assigned sequence, or the last visible one.
    pub open spec fn tail(self) -> u64 {
        if self.plan.records.len() > 0 {
            self.plan.records.last().sequence
        } else {
            self.plan.frontier
        }
    }

    /// What holds at every point.
    pub open spec fn sound(self) -> bool {
        &&& budget::options_allowed(self.options)
        &&& self.plan.wf()
        &&& self.plan.within(self.options)
        &&& self.busy.len() == self.options.workers
        &&& self.head matches Some(HeadModel::Transaction(p)) ==> {
            &&& p.sequence == self.tail() + 1
            &&& p.sequence < u64::MAX
        }
    }

    /// What holds between two turns: no visible record is kept, and the first
    /// one is unresolved.
    pub open spec fn wf(self) -> bool {
        &&& self.sound()
        &&& self.plan.current()
    }
}

// ---- Turns ---------------------------------------------------------------

/// What the coordinator does next. After a registration, a commit, or where
/// there is nothing of that kind to do, it dispatches ready records.
#[derive(Clone, Copy, Debug, PartialEq, Eq, Structural)]
pub enum Turn {
    /// A worker failed.
    Fail,
    /// A worker reported a result.
    Complete,
    /// Run the pending maintenance.
    Maintain,
    /// Everything that was accepted is done.
    Stop,
    /// Assign the head, and what can follow it.
    Register,
    /// Run the administrative head.
    Commit,
    Dispatch,
}

/// What the coordinator does next.
pub open spec fn next_turn(s: State, poisoned: bool, completed: bool) -> Turn {
    let idle = s.plan.records.len() == 0;
    if poisoned {
        Turn::Fail
    } else if completed {
        Turn::Complete
    } else if idle && s.maintenance {
        Turn::Maintain
    } else if !s.requests && s.head is None && idle {
        Turn::Stop
    } else if s.maintenance {
        Turn::Dispatch
    } else {
        match s.head {
            None => Turn::Dispatch,
            Some(HeadModel::Administrative) => if idle {
                Turn::Commit
            } else {
                Turn::Dispatch
            },
            Some(HeadModel::Transaction(p)) => if schedule::room(
                s.plan,
                s.options,
                p.bytes.len() as u64,
                p.reservation,
            ) {
                Turn::Register
            } else {
                Turn::Dispatch
            },
        }
    }
}

impl Coordinator {
    /// A coordinator behind a published checkpoint.
    pub fn new(options: EngineOptions, checkpoint: u64) -> (coordinator: Coordinator)
        requires
            budget::options_allowed(options),
        ensures
            coordinator@ == (State {
                options,
                plan: Plan {
                    frontier: checkpoint,
                    records: Seq::empty(),
                    assigned_bytes: 0,
                    reserved_bytes: 0,
                },
                busy: Seq::new(options.workers as nat, |i: int| false),
                head: None,
                requests: true,
                controls: true,
                prefer_requests: false,
                maintenance: false,
                set_aside: false,
                failed: false,
                last_error: None,
            }),
            coordinator@.wf(),
    {
        let mut busy: Vec<bool> = Vec::new();
        while busy.len() < options.workers
            invariant
                busy@.len() <= options.workers,
                forall|i: int| 0 <= i < busy@.len() ==> !(#[trigger] busy@[i]),
            decreases options.workers - busy@.len(),
        {
            busy.push(false);
        }
        assert(busy@ =~= Seq::new(options.workers as nat, |i: int| false));
        Coordinator {
            options,
            schedule: Schedule::new(checkpoint),
            busy,
            head: None,
            requests: true,
            controls: true,
            prefer_requests: false,
            maintenance: false,
            set_aside: false,
            failed: false,
            last_error: None,
        }
    }

    /// What to do next, given whether a worker failed and whether a result has
    /// arrived. Reported faults come before any further work.
    pub fn turn(&self, poisoned: bool, completed: bool) -> (turn: Turn)
        requires
            self@.sound(),
        ensures
            turn == next_turn(self@, poisoned, completed),
    {
        if poisoned {
            return Turn::Fail;
        }
        if completed {
            return Turn::Complete;
        }
        let idle = self.schedule.entries.len() == 0;
        if idle && self.maintenance {
            return Turn::Maintain;
        }
        if !self.requests && self.head.is_none() && idle {
            return Turn::Stop;
        }
        if self.maintenance {
            return Turn::Dispatch;
        }
        match &self.head {
            None => Turn::Dispatch,
            Some(Head::Administrative) => if idle {
                Turn::Commit
            } else {
                Turn::Dispatch
            },
            Some(Head::Transaction(p)) => if self.schedule.fits(
                &self.options,
                p.bytes.len() as u64,
                p.reservation,
            ) {
                Turn::Register
            } else {
                Turn::Dispatch
            },
        }
    }

    /// Hand ready records to idle workers; whether there were any.
    pub fn dispatch(&mut self, durable: u64) -> (jobs: Vec<Job>)
        requires
            old(self)@.wf(),
        ensures
            schedule::handed_out(
                old(self)@.plan,
                old(self)@.busy,
                0,
                durable,
                old(self)@.options.execution_window,
            ) == (final(self)@.plan, final(self)@.busy, schedule::jobs(jobs@)),
            final(self)@ == (State {
                plan: final(self)@.plan,
                busy: final(self)@.busy,
                ..old(self)@
            }),
            final(self)@.wf(),
    {
        let window: u64 = self.options.execution_window;
        proof {
            schedule::lemma_handed_out(self@.plan, self@.busy, 0, durable, window);
        }
        self.schedule.dispatch(&mut self.busy, durable, window)
    }
}

// ---- Waiting -------------------------------------------------------------

/// What the coordinator waits for besides completions.
#[derive(Clone, Copy, Debug, PartialEq, Eq, Structural)]
pub struct Wait {
    pub requests: bool,
    pub controls: bool,
    pub prefer_requests: bool,
}

/// Where the next event comes from.
#[derive(Clone, Copy, Debug, PartialEq, Eq, Structural)]
pub enum Source {
    Completion,
    Request,
    Control,
}

/// What the coordinator waits for.
pub open spec fn waiting_for(s: State) -> Wait {
    Wait {
        requests: s.requests && s.head is None && !s.maintenance,
        controls: s.controls && !s.maintenance,
        prefer_requests: s.prefer_requests,
    }
}

/// Which of the sources that are ready is read.
pub open spec fn chosen(wait: Wait, completed: bool, request: bool, control: bool) -> Option<
    Source,
> {
    if completed {
        Some(Source::Completion)
    } else if wait.prefer_requests && wait.requests && request {
        Some(Source::Request)
    } else if wait.controls && control {
        Some(Source::Control)
    } else if wait.requests && request {
        Some(Source::Request)
    } else {
        None
    }
}

impl Coordinator {
    /// What to wait for besides completions.
    pub fn waits(&self) -> (wait: Wait)
        ensures
            wait == waiting_for(self@),
    {
        Wait {
            requests: self.requests && self.head.is_none() && !self.maintenance,
            controls: self.controls && !self.maintenance,
            prefer_requests: self.prefer_requests,
        }
    }
}

impl Wait {
    /// Which of the sources that are ready is read; none if all must be waited
    /// for.
    pub fn choose_source(&self, completed: bool, request: bool, control: bool) -> (source: Option<
        Source,
    >)
        ensures
            source == chosen(*self, completed, request, control),
    {
        if completed {
            Some(Source::Completion)
        } else if self.prefer_requests && self.requests && request {
            Some(Source::Request)
        } else if self.controls && control {
            Some(Source::Control)
        } else if self.requests && request {
            Some(Source::Request)
        } else {
            None
        }
    }
}

// ---- Events --------------------------------------------------------------

/// What arrives at the coordinator.
#[derive(Clone, Copy, Debug, PartialEq, Eq, Structural)]
pub enum Event {
    Completion,
    CompletionsClosed,
    ControlsClosed,
    Maintenance,
    Backup,
    Snapshot,
    Retention,
    RequestsClosed,
    Close,
    Import,
    Execute,
}

/// What the caller of the coordinator does about an event.
#[derive(Debug, PartialEq, Eq)]
pub enum Effect {
    Nothing,
    /// Leave the loop.
    Leave,
    /// Install the result of a worker.
    Complete,
    StartBackup,
    CaptureSnapshot,
    ChangeRetention,
    /// Take no more submissions.
    CloseQueue,
    InstallImport,
    PrepareSubmission,
    /// Answer with this error.
    Refuse(Error),
}

/// Why an import is not installed.
pub open spec fn import_fault(s: State, read_only: bool, durable: u64) -> Option<Error> {
    if !read_only {
        Some(Error::InvalidInput(NOT_A_REPLICA))
    } else if s.head is Some || s.plan.records.len() > 0 || s.plan.frontier != durable {
        Some(Error::Storage(storage::Error::NeedsRecovery))
    } else {
        None
    }
}

/// The coordinator after an event, and what its caller does about it.
pub open spec fn received(s: State, event: Event, read_only: bool, durable: u64) -> (
    State,
    Effect,
) {
    let control = State { prefer_requests: true, ..s };
    let request = State { prefer_requests: false, ..s };
    match event {
        Event::Completion => (s, Effect::Complete),
        Event::CompletionsClosed => (State { failed: true, ..s }, Effect::Leave),
        Event::ControlsClosed => (State { controls: false, ..s }, Effect::Nothing),
        Event::Maintenance => (State { maintenance: true, ..control }, Effect::Nothing),
        Event::Backup => (control, Effect::StartBackup),
        Event::Snapshot => (control, Effect::CaptureSnapshot),
        Event::Retention => (control, Effect::ChangeRetention),
        Event::RequestsClosed => (State { requests: false, ..s }, Effect::Nothing),
        Event::Close => (s, Effect::CloseQueue),
        Event::Import => (
            request,
            match import_fault(s, read_only, durable) {
                Some(e) => Effect::Refuse(e),
                None => Effect::InstallImport,
            },
        ),
        Event::Execute => (
            request,
            if read_only {
                Effect::Refuse(Error::ReadOnly)
            } else {
                Effect::PrepareSubmission
            },
        ),
    }
}

impl Coordinator {
    /// Take an event. `durable` is the last durable sequence.
    pub fn receive(&mut self, event: Event, read_only: bool, durable: u64) -> (effect: Effect)
        requires
            old(self)@.wf(),
        ensures
            received(old(self)@, event, read_only, durable) == (final(self)@, effect),
            final(self)@.wf(),
    {
        match event {
            Event::Completion => Effect::Complete,
            Event::CompletionsClosed => {
                self.failed = true;
                Effect::Leave
            },
            Event::ControlsClosed => {
                self.controls = false;
                Effect::Nothing
            },
            Event::Maintenance => {
                self.prefer_requests = true;
                self.maintenance = true;
                Effect::Nothing
            },
            Event::Backup => {
                self.prefer_requests = true;
                Effect::StartBackup
            },
            Event::Snapshot => {
                self.prefer_requests = true;
                Effect::CaptureSnapshot
            },
            Event::Retention => {
                self.prefer_requests = true;
                Effect::ChangeRetention
            },
            Event::RequestsClosed => {
                self.requests = false;
                Effect::Nothing
            },
            Event::Close => Effect::CloseQueue,
            Event::Import => {
                self.prefer_requests = false;
                // Imports are restricted to replicas, which cannot have a
                // prepared head or unresolved canonical work of their own.
                if !read_only {
                    Effect::Refuse(Error::InvalidInput(NOT_A_REPLICA))
                } else if self.head.is_some() || self.schedule.entries.len() > 0
                    || self.schedule.frontier != durable {
                    Effect::Refuse(Error::Storage(storage::Error::NeedsRecovery))
                } else {
                    Effect::InstallImport
                }
            },
            Event::Execute => {
                self.prefer_requests = false;
                if read_only {
                    Effect::Refuse(Error::ReadOnly)
                } else {
                    Effect::PrepareSubmission
                }
            },
        }
    }
}

// ---- Results of the caller's work ----------------------------------------

/// What an error comes from.
#[derive(Clone, Copy, Debug, PartialEq, Eq, Structural)]
pub enum Work {
    /// The preparation of a submission.
    Preparation,
    /// The commit of an administrative command.
    Commit,
    /// A change of a cursor, or an import.
    Control,
    /// Anything else that the coordinator does.
    Storage,
}

/// Whether an error stops the coordinator.
pub open spec fn is_fatal(work: Work, error: Error) -> bool {
    match work {
        Work::Preparation => !(error is Rejected) && !(error is OperationalLimit),
        Work::Commit => !(error is Rejected),
        Work::Control => error is Storage || error is Uncertain || error is Read,
        Work::Storage => true,
    }
}

/// Whether an error stops the coordinator.
pub fn fatal(work: Work, error: &Error) -> (stops: bool)
    ensures
        stops == is_fatal(work, *error),
{
    match work {
        Work::Preparation => match error {
            Error::Rejected(_) => false,
            Error::OperationalLimit { .. } => false,
            _ => true,
        },
        Work::Commit => match error {
            Error::Rejected(_) => false,
            _ => true,
        },
        Work::Control => match error {
            Error::Storage(_) => true,
            Error::Uncertain { .. } => true,
            Error::Read(_) => true,
            _ => false,
        },
        Work::Storage => true,
    }
}

/// The coordinator after an error with the text `message`.
pub open spec fn faulted(s: State, work: Work, error: Error, message: Seq<char>) -> State {
    if is_fatal(work, error) {
        State { failed: true, last_error: Some(message), ..s }
    } else {
        s
    }
}

impl Coordinator {
    /// Take an error of the caller's work, with its text; whether it stops the
    /// coordinator.
    pub fn fault(&mut self, work: Work, error: &Error, message: &str) -> (stops: bool)
        requires
            old(self)@.sound(),
        ensures
            final(self)@ == faulted(old(self)@, work, *error, message@),
            stops == is_fatal(work, *error),
            final(self)@.sound(),
            old(self)@.wf() ==> final(self)@.wf(),
    {
        let stops = fatal(work, error);
        if stops {
            self.failed = true;
            self.last_error = Some(message.to_owned());
        }
        stops
    }

    /// Keep a prepared submission until it can be assigned; `None` is an
    /// administrative command.
    pub fn hold(&mut self, prepared: Option<Prepared>)
        requires
            old(self)@.wf(),
            prepared matches Some(p) ==> p.sequence == old(self)@.tail() + 1 && p.sequence
                < u64::MAX,
        ensures
            final(self)@ == (State {
                head: Some(
                    match prepared {
                        Some(p) => HeadModel::Transaction(p@),
                        None => HeadModel::Administrative,
                    },
                ),
                ..old(self)@
            }),
            final(self)@.wf(),
    {
        self.head = Some(
            match prepared {
                Some(p) => Head::Transaction(p),
                None => Head::Administrative,
            },
        );
    }

    /// Take out the head, to run an administrative command.
    pub fn take_head(&mut self) -> (head: Option<Head>)
        requires
            old(self)@.wf(),
        ensures
            head == old(self).head,
            final(self)@ == (State { head: None, ..old(self)@ }),
            final(self)@.wf(),
    {
        self.head.take()
    }

    /// Take out the pending maintenance, to run it.
    pub fn take_maintenance(&mut self)
        requires
            old(self)@.wf(),
        ensures
            final(self)@ == (State { maintenance: false, ..old(self)@ }),
            final(self)@.wf(),
    {
        self.maintenance = false;
    }

    /// Take the request that was set aside; whether there was one.
    pub fn take_set_aside(&mut self) -> (found: bool)
        requires
            old(self)@.wf(),
        ensures
            found == old(self)@.set_aside,
            final(self)@ == (State { set_aside: false, ..old(self)@ }),
            final(self)@.wf(),
    {
        let found = self.set_aside;
        self.set_aside = false;
        found
    }

    /// A commit or an import made everything up to `sequence` visible.
    pub fn reached(&mut self, sequence: u64)
        requires
            old(self)@.wf(),
            old(self)@.head is None,
            old(self)@.plan.records.len() == 0,
        ensures
            final(self)@ == (State {
                plan: Plan { frontier: sequence, ..old(self)@.plan },
                ..old(self)@
            }),
            final(self)@.wf(),
    {
        self.schedule.frontier = sequence;
    }

    /// Take the result of a worker; the worker is idle again. No result counts
    /// once a worker has failed.
    pub fn accept(
        &mut self,
        worker: usize,
        outcome: Result<Outcome, vm::Error>,
        poisoned: bool,
    ) -> (accepted: Result<Outcome, vm::Error>)
        requires
            old(self)@.sound(),
            worker < old(self)@.busy.len(),
        ensures
            final(self)@ == (State {
                busy: old(self)@.busy.update(worker as int, false),
                ..old(self)@
            }),
            match outcome {
                Err(e) => accepted == Err::<Outcome, vm::Error>(e),
                Ok(found) => match accepted {
                    Ok(given) => !poisoned && given == found,
                    Err(e) => poisoned && workers::failure_text(e) == Some(workers::POISONED@),
                },
            },
            final(self)@.sound(),
            old(self)@.wf() ==> final(self)@.wf(),
    {
        self.busy.set(worker, false);
        let outcome = outcome?;
        match check_pool(poisoned) {
            Ok(()) => Ok(outcome),
            Err(e) => Err(e),
        }
    }

    /// An accepted result was installed.
    pub fn installed(&mut self, sequence: u64, outcome: Outcome)
        requires
            old(self)@.sound(),
            exists|k: int|
                0 <= k < old(self)@.plan.records.len() && (
                #[trigger] old(self)@.plan.records[k]).sequence == sequence
                    && !old(self)@.plan.records[k].waiting && !old(self)@.plan.records[k].resolved(),
        ensures
            ({
                let k = schedule::index_of(old(self)@.plan.records, sequence);
                &&& 0 <= k < old(self)@.plan.records.len()
                &&& final(self)@ == (State {
                    plan: schedule::resolved(old(self)@.plan, k, outcome@),
                    ..old(self)@
                })
            }),
            final(self)@.sound(),
    {
        self.schedule.resolve(sequence, outcome);
    }

    /// Move the frontier over the resolved prefix. Where it moves, the caller
    /// publishes a checkpoint with this digest before it goes on.
    pub fn advance(&mut self) -> (digest: Option<[u8; 32]>)
        requires
            old(self)@.sound(),
        ensures
            schedule::advanced(old(self)@.plan) == (
                final(self)@.plan,
                schedule::digest_model(digest),
            ),
            final(self)@ == (State { plan: final(self)@.plan, ..old(self)@ }),
            final(self)@.sound(),
            final(self)@.plan.settled_prefix(),
    {
        proof {
            schedule::lemma_settled_prefix(self@.plan);
        }
        self.schedule.advance()
    }

    /// Take out the visible records, in order, with their receipts.
    pub fn retire(&mut self) -> (receipts: Vec<Receipt>)
        requires
            old(self)@.sound(),
            old(self)@.plan.settled_prefix(),
        ensures
            final(self)@ == (State {
                plan: schedule::retired_plan(old(self)@.plan),
                ..old(self)@
            }),
            schedule::answers(receipts@) == schedule::visible_answers(old(self)@.plan),
            final(self)@.wf(),
    {
        proof {
            schedule::lemma_retired(self@.plan, self@.options);
        }
        self.schedule.retire()
    }
}

// ---- The end -------------------------------------------------------------

/// The text that is kept when the coordinator has failed: the first fault of a
/// worker, or the coordinator's own.
pub open spec fn final_error(s: State, worker: Option<Seq<char>>) -> Option<Seq<char>> {
    if !s.failed {
        s.last_error
    } else {
        match (worker, s.last_error) {
            (Some(text), _) => Some(text),
            (None, Some(text)) => Some(text),
            (None, None) => Some(REOPEN@),
        }
    }
}

/// The text with which unresolved records are answered.
pub open spec fn loss_text(s: State) -> Seq<char> {
    match s.last_error {
        Some(text) => text,
        None => REOPEN@,
    }
}

impl Coordinator {
    /// Leave the loop; `worker` is the text of the first fault of a worker.
    pub fn leave(&mut self, worker: Option<String>)
        requires
            old(self)@.sound(),
        ensures
            final(self)@ == (State {
                last_error: final_error(old(self)@, text_model(worker)),
                ..old(self)@
            }),
            final(self)@.sound(),
    {
        if self.failed {
            match worker {
                Some(text) => {
                    self.last_error = Some(text);
                },
                None => {
                    if self.last_error.is_none() {
                        self.last_error = Some(REOPEN.to_owned());
                    }
                },
            }
        }
    }

    /// The answer to an assigned record whose outcome is not known.
    fn loss(&self, sequence: u64) -> (error: Error)
        ensures
            error matches Error::Uncertain { sequence: Some(n), source: Some(source) } && n
                == sequence && workers::failure_text(source) == Some(loss_text(self@)),
    {
        let source = match &self.last_error {
            Some(text) => failure(text.as_str()),
            None => failure(REOPEN),
        };
        Error::Uncertain { sequence: Some(sequence), source: Some(source) }
    }

    /// The answers to the assigned records that are left: each may be durable.
    pub fn losses(&self) -> (errors: Vec<Error>)
        ensures
            errors@.len() == self@.plan.records.len(),
            forall|i: int|
                0 <= i < errors@.len() ==> {
                    &&& (#[trigger] errors@[i]) matches Error::Uncertain {
                        sequence: Some(n),
                        source: Some(source),
                    }
                    &&& n == self@.plan.records[i].sequence
                    &&& workers::failure_text(source) == Some(loss_text(self@))
                },
    {
        let mut errors: Vec<Error> = Vec::new();
        let mut i: usize = 0;
        while i < self.schedule.entries.len()
            invariant
                i <= self.schedule.entries@.len(),
                errors@.len() == i,
                forall|k: int|
                    0 <= k < i ==> {
                        &&& (#[trigger] errors@[k]) matches Error::Uncertain {
                            sequence: Some(n),
                            source: Some(source),
                        }
                        &&& n == self@.plan.records[k].sequence
                        &&& workers::failure_text(source) == Some(loss_text(self@))
                    },
            decreases self.schedule.entries@.len() - i,
        {
            let sequence: u64 = self.schedule.entries[i].sequence;
            assert(self@.plan.records[i as int] == self.schedule.entries@[i as int]@);
            errors.push(self.loss(sequence));
            i += 1;
        }
        errors
    }
}

// ---- Laws ----------------------------------------------------------------

/// The coordinator never waits in vain: between two turns, while records are
/// assigned and durable and none is being interpreted, one is ready.
pub proof fn some_record_can_always_run(s: State, durable: u64)
    requires
        s.wf(),
        s.plan.records.len() > 0,
        s.plan.records[0].sequence <= durable,
        forall|i: int|
            0 <= i < s.plan.records.len() ==> (#[trigger] s.plan.records[i]).waiting
                || s.plan.records[i].resolved(),
    ensures
        schedule::first_ready(s.plan, 0, durable, s.options.execution_window) is Some,
{
    schedule::the_oldest_unresolved_record_waits_for_nothing(s.plan, 0);
    assert(schedule::ready(s.plan, 0, durable, s.options.execution_window));
}

/// Submissions and control requests take turns: where both wait and neither is
/// held back, a submission is followed by a control request, and a control
/// request by a submission.
pub proof fn requests_and_controls_take_turns(s: State, event: Event, read_only: bool, durable: u64)
    ensures
        ({
            let next = received(s, event, read_only, durable).0;
            let wait = waiting_for(next);
            wait.requests && wait.controls ==> {
                &&& event == Event::Import || event == Event::Execute ==> chosen(
                    wait,
                    false,
                    true,
                    true,
                ) == Some(Source::Control)
                &&& event == Event::Backup || event == Event::Snapshot || event == Event::Retention
                    ==> chosen(wait, false, true, true) == Some(Source::Request)
            }
        }),
{
}

/// Nothing is admitted while maintenance waits, and maintenance runs as soon as
/// the assigned records are done.
pub proof fn maintenance_drains_the_schedule(s: State)
    requires
        s.maintenance,
    ensures
        !waiting_for(s).requests,
        !waiting_for(s).controls,
        next_turn(s, false, false) == if s.plan.records.len() == 0 {
            Turn::Maintain
        } else {
            Turn::Dispatch
        },
{
}

/// The coordinator stops only when nothing that was accepted is left.
pub proof fn accepted_work_is_drained(s: State)
    requires
        next_turn(s, false, false) == Turn::Stop,
    ensures
        s.plan.records.len() == 0,
        s.head is None,
        !s.requests,
        !s.maintenance,
{
}

/// A head is registered as soon as there is room for it, unless something else
/// comes first; without room it waits.
pub proof fn heads_are_registered_when_there_is_room(s: State, p: PreparedModel)
    requires
        s.head == Some(HeadModel::Transaction(p)),
        !s.maintenance,
    ensures
        next_turn(s, false, false) == Turn::Register <==> {
            &&& s.plan.records.len() < s.options.assigned_backlog_count
            &&& s.plan.assigned_bytes + (p.bytes.len() as u64) <= s.options.assigned_backlog_bytes
            &&& s.plan.reserved_bytes + p.reservation <= s.options.execution_bytes
        },
        next_turn(s, false, false) == Turn::Register || next_turn(s, false, false)
            == Turn::Dispatch,
{
}

/// An administrative command is committed alone: when no record is assigned, and
/// not before.
pub proof fn administrative_commands_run_alone(s: State)
    requires
        s.head == Some(HeadModel::Administrative),
        !s.maintenance,
    ensures
        next_turn(s, false, false) == Turn::Commit <==> s.plan.records.len() == 0,
        next_turn(s, false, false) == Turn::Commit || next_turn(s, false, false)
            == Turn::Dispatch,
{
}

/// Whatever is ready and waited for is read; completions come first.
pub proof fn ready_sources_are_read(wait: Wait, completed: bool, request: bool, control: bool)
    ensures
        completed ==> chosen(wait, completed, request, control) == Some(Source::Completion),
        chosen(wait, completed, request, control) is None <==> !completed && !(wait.requests
            && request) && !(wait.controls && control),
        chosen(wait, completed, request, control) == Some(Source::Request) ==> wait.requests
            && request,
        chosen(wait, completed, request, control) == Some(Source::Control) ==> wait.controls
            && control,
{
}

/// A replica takes imports and no submissions; any other database takes
/// submissions and no imports.
pub proof fn replicas_take_imports_only(s: State, read_only: bool, durable: u64)
    ensures
        received(s, Event::Execute, read_only, durable).1 == Effect::PrepareSubmission <==>
            !read_only,
        received(s, Event::Execute, true, durable).1 == Effect::Refuse(Error::ReadOnly),
        received(s, Event::Import, read_only, durable).1 == Effect::InstallImport <==> read_only
            && s.head is None && s.plan.records.len() == 0 && s.plan.frontier == durable,
        received(s, Event::Import, false, durable).1 is Refuse,
{
}

/// A definite refusal of a submission leaves the coordinator as it was, and a
/// failure of storage stops it, whatever it comes from.
pub proof fn refusals_stop_nothing(s: State, work: Work, error: Error, message: Seq<char>)
    ensures
        error is Rejected && work != Work::Storage ==> faulted(s, work, error, message) == s,
        error is OperationalLimit && (work == Work::Preparation || work == Work::Control)
            ==> faulted(s, work, error, message) == s,
        error is Storage || error is Uncertain ==> faulted(s, work, error, message).failed
            && faulted(s, work, error, message).last_error == Some(message),
        faulted(s, work, error, message).plan == s.plan,
        faulted(s, work, error, message).head == s.head,
{
}

} // verus!
