//! The coordinator of one trial: it serialises the participants into one
//! order, chosen by a run that it replays or by a seeded generator.
//!
//! The coordinator does no work on threads or channels itself. It is told
//! what happened (a message arrived, a thread was joined, the invariants
//! were evaluated, the deadline passed) and answers with what is to be done
//! next. Whoever drives it performs that action and reports back.

use vstd::prelude::*;
use crate::outcome::{KeyView, Outcome, OutcomeView, TrialKey};
use crate::rng::{draw_below, seeded};

verus! {

/// What a participant and the coordinator tell each other.
#[derive(Debug, Clone, Copy, PartialEq, Eq, Structural)]
pub enum SchedulerMessage {
    /// The participant's thread is alive and parked.
    Rendezvous,
    /// The participant ran up to its next scheduling point and is parked again.
    Step,
    /// The participant has terminated.
    Exit,
}

/// Where a participant stands, as the coordinator sees it.
#[derive(Debug, Clone, Copy, PartialEq, Eq, Structural)]
pub enum Status {
    /// Declared; its rendezvous has not arrived yet.
    Spawned,
    /// Blocked until the coordinator grants it a step.
    Parked,
    /// Granted a step and not heard of since.
    Running,
    /// Terminated; never selected again.
    Exited,
}

/// How a finished trial ended, without the key and the payload.
#[derive(Debug, Clone, Copy, PartialEq, Eq, Structural)]
pub enum Verdict {
    Passed,
    FailedInvariant,
    Panicked,
    TimedOut,
}

/// Why a trial was aborted. None of these is an outcome of the tested
/// program: each says that the harness itself was misused or misled.
#[derive(Debug, Clone, Copy, PartialEq, Eq, Structural)]
pub enum Fault {
    /// A participant sent a message of a kind that its state does not allow.
    UnexpectedMessage,
    /// The coordinator was told of something it was not waiting for.
    UnexpectedEvent,
    /// The replayed run does not fit the steps that the participants take.
    StepCountMismatch,
    /// A draw was not below the number of runnable participants.
    DrawOutOfRange,
    /// The channel of the participant that was awaited is closed.
    Disconnected,
}

/// What the coordinator is waiting for.
#[derive(Debug, Clone, Copy, PartialEq, Eq, Structural)]
pub enum Phase {
    /// The rendezvous of this participant.
    Binding(usize),
    /// The choice of the participant to run next.
    Ready,
    /// The reply of this participant to its grant.
    Granted(usize),
    /// The end of this participant's thread.
    Joining(usize),
    /// The evaluation of the invariants.
    Checking,
    /// Nothing: the trial is over.
    Done(Verdict),
    /// Nothing: the trial was aborted.
    Aborted(Fault),
}

/// What the driver of a coordinator is to do next.
#[derive(Debug, Clone, Copy, PartialEq, Eq, Structural)]
pub enum Action {
    /// Start this participant and report its first message.
    Await(usize),
    /// Ask the coordinator to select the participant to run next.
    Select,
    /// Send this participant a grant and report its reply.
    Grant(usize),
    /// Join this participant's thread and report how it ended.
    Join(usize),
    /// Evaluate the invariants and report whether all hold.
    Check,
    /// Stop: the trial is over.
    Finish(Verdict),
    /// Stop: the trial was aborted.
    Abort(Fault),
}

/// The action that a phase calls for.
pub open spec fn action_of(phase: Phase) -> Action {
    match phase {
        Phase::Binding(i) => Action::Await(i),
        Phase::Ready => Action::Select,
        Phase::Granted(i) => Action::Grant(i),
        Phase::Joining(i) => Action::Join(i),
        Phase::Checking => Action::Check,
        Phase::Done(verdict) => Action::Finish(verdict),
        Phase::Aborted(fault) => Action::Abort(fault),
    }
}

/// How many of `s` are parked.
pub open spec fn parked_count(s: Seq<Status>) -> nat
    decreases s.len(),
{
    if s.len() == 0 {
        0
    } else {
        parked_count(s.drop_last()) + (if s.last() == Status::Parked { 1nat } else { 0nat })
    }
}

/// `c` is the position of the parked participant with `r` parked ones before it.
pub open spec fn is_nth_parked(s: Seq<Status>, r: nat, c: int) -> bool {
    &&& 0 <= c < s.len()
    &&& s[c] == Status::Parked
    &&& parked_count(s.take(c)) == r
}

/// The position of the parked participant with `r` parked ones before it.
pub open spec fn nth_parked(s: Seq<Status>, r: nat) -> int {
    choose|c: int| is_nth_parked(s, r, c)
}

/// The state of a trial as the coordinator knows it.
#[verifier::ext_equal]
pub struct TrialState {
    /// One status per participant, in the order of declaration.
    pub statuses: Seq<Status>,
    /// The seed, or the run that is replayed.
    pub key: KeyView,
    /// How many items of a replayed run have been consumed.
    pub position: nat,
    /// The replies to the grants so far, each with the participant it came from.
    pub trace: Seq<(usize, SchedulerMessage)>,
    /// What the coordinator is waiting for.
    pub phase: Phase,
    /// The message of the panic, where a participant panicked.
    pub payload: Seq<char>,
}

impl TrialState {
    /// The state before anything has happened.
    pub open spec fn initial(participants: nat, key: KeyView) -> TrialState {
        TrialState {
            statuses: Seq::new(participants, |k: int| Status::Spawned),
            key,
            position: 0,
            trace: Seq::empty(),
            phase: if participants == 0 {
                Phase::Ready
            } else {
                Phase::Binding(0)
            },
            payload: Seq::empty(),
        }
    }

    /// Every participant is parked or has exited.
    pub open spec fn settled(self) -> bool {
        forall|k: int|
            0 <= k < self.statuses.len() ==> self.statuses[k] == Status::Parked
                || self.statuses[k] == Status::Exited
    }

    /// Every participant but `i` is parked or has exited.
    pub open spec fn settled_but(self, i: int) -> bool {
        forall|k: int|
            0 <= k < self.statuses.len() && k != i ==> self.statuses[k] == Status::Parked
                || self.statuses[k] == Status::Exited
    }

    /// The trial is over or was aborted.
    pub open spec fn stopped(self) -> bool {
        self.phase is Done || self.phase is Aborted
    }

    /// The statuses fit the phase.
    pub open spec fn statuses_fit(self) -> bool {
        match self.phase {
            Phase::Binding(i) => {
                &&& i < self.statuses.len()
                &&& forall|k: int|
                    0 <= k < self.statuses.len() ==> self.statuses[k] == (if k < i {
                        Status::Parked
                    } else {
                        Status::Spawned
                    })
            },
            Phase::Ready => self.settled(),
            Phase::Checking => self.settled(),
            Phase::Granted(i) => {
                &&& i < self.statuses.len()
                &&& self.statuses[i as int] == Status::Running
                &&& self.settled_but(i as int)
            },
            Phase::Joining(i) => {
                &&& i < self.statuses.len()
                &&& self.statuses[i as int] == Status::Exited
                &&& self.settled()
            },
            Phase::Done(_) => self.one_runner_at_most(),
            Phase::Aborted(_) => self.one_runner_at_most(),
        }
    }

    /// No two participants are running.
    pub open spec fn one_runner_at_most(self) -> bool {
        forall|j: int, k: int|
            0 <= j < self.statuses.len() && 0 <= k < self.statuses.len() && self.statuses[j]
                == Status::Running && self.statuses[k] == Status::Running ==> j == k
    }

    /// Where a run is replayed, the grants so far follow it item by item.
    pub open spec fn follows_schedule(self) -> bool {
        match self.key {
            KeyView::Seed(_) => true,
            KeyView::Run(run) => {
                &&& self.position <= run.len()
                &&& forall|k: int| 0 <= k < self.trace.len() ==> self.trace[k].0 == run[k]
                &&& match self.phase {
                    Phase::Granted(i) => self.position == self.trace.len() + 1 && run[self.position
                        - 1] == i,
                    Phase::Done(_) => self.trace.len() <= self.position <= self.trace.len() + 1,
                    Phase::Aborted(_) => self.trace.len() <= self.position <= self.trace.len()
                        + 1,
                    _ => self.position == self.trace.len(),
                }
            },
        }
    }

    /// The invariant of a trial's state.
    pub open spec fn wf(self) -> bool {
        self.statuses.len() <= usize::MAX && self.statuses_fit() && self.follows_schedule()
    }

    /// This state, aborted for `fault`.
    pub open spec fn aborted(self, fault: Fault) -> TrialState {
        TrialState { phase: Phase::Aborted(fault), ..self }
    }

    /// This state, with the participant at `i` in status `status`.
    pub open spec fn with_status(self, i: int, status: Status) -> TrialState {
        TrialState { statuses: self.statuses.update(i, status), ..self }
    }

    /// The state after a message from the participant that is awaited.
    pub open spec fn on_message(self, message: SchedulerMessage) -> TrialState {
        match self.phase {
            Phase::Binding(i) => {
                if message == SchedulerMessage::Rendezvous {
                    TrialState {
                        phase: if i + 1 < self.statuses.len() {
                            Phase::Binding((i + 1) as usize)
                        } else {
                            Phase::Ready
                        },
                        ..self.with_status(i as int, Status::Parked)
                    }
                } else {
                    self.aborted(Fault::UnexpectedMessage)
                }
            },
            Phase::Granted(i) => match message {
                SchedulerMessage::Step => TrialState {
                    phase: Phase::Checking,
                    trace: self.trace.push((i, message)),
                    ..self.with_status(i as int, Status::Parked)
                },
                SchedulerMessage::Exit => TrialState {
                    phase: Phase::Joining(i),
                    trace: self.trace.push((i, message)),
                    ..self.with_status(i as int, Status::Exited)
                },
                SchedulerMessage::Rendezvous => self.aborted(Fault::UnexpectedMessage),
            },
            Phase::Done(_) => self,
            Phase::Aborted(_) => self,
            _ => self.aborted(Fault::UnexpectedEvent),
        }
    }

    /// The state after the thread that is being joined has ended: normally
    /// with `None`, in a panic with its message.
    pub open spec fn on_joined(self, panic: Option<Seq<char>>) -> TrialState {
        match self.phase {
            Phase::Joining(_) => match panic {
                None => TrialState { phase: Phase::Checking, ..self },
                Some(payload) => TrialState {
                    phase: Phase::Done(Verdict::Panicked),
                    payload,
                    ..self
                },
            },
            Phase::Done(_) => self,
            Phase::Aborted(_) => self,
            _ => self.aborted(Fault::UnexpectedEvent),
        }
    }

    /// The state after the invariants were evaluated.
    pub open spec fn on_checked(self, holds: bool) -> TrialState {
        match self.phase {
            Phase::Checking => TrialState {
                phase: if holds {
                    Phase::Ready
                } else {
                    Phase::Done(Verdict::FailedInvariant)
                },
                ..self
            },
            Phase::Done(_) => self,
            Phase::Aborted(_) => self,
            _ => self.aborted(Fault::UnexpectedEvent),
        }
    }

    /// The state after the deadline has passed.
    pub open spec fn on_deadline(self) -> TrialState {
        if self.stopped() {
            self
        } else {
            TrialState { phase: Phase::Done(Verdict::TimedOut), ..self }
        }
    }

    /// The state after the channel of the awaited participant was found
    /// closed: a participant that is gone without its exit aborts the trial.
    pub open spec fn on_disconnected(self) -> TrialState {
        if self.stopped() {
            self
        } else {
            self.aborted(Fault::Disconnected)
        }
    }

    /// This state with a grant to the participant at `c`.
    pub open spec fn granted(self, c: int) -> TrialState {
        TrialState { phase: Phase::Granted(c as usize), ..self.with_status(c, Status::Running) }
    }

    /// The state after the choice of the next participant. Where a run is
    /// replayed, its next item decides and `draw` is not looked at. Under a
    /// seed, `draw` counts off the runnable participants in the order of
    /// declaration.
    pub open spec fn on_select(self, draw: nat) -> TrialState {
        match self.phase {
            Phase::Ready => {
                let live = parked_count(self.statuses);
                match self.key {
                    KeyView::Run(run) => {
                        if live == 0 {
                            if self.position == run.len() {
                                TrialState { phase: Phase::Done(Verdict::Passed), ..self }
                            } else {
                                self.aborted(Fault::StepCountMismatch)
                            }
                        } else if self.position >= run.len() {
                            self.aborted(Fault::StepCountMismatch)
                        } else {
                            let c = run[self.position as int];
                            if c < self.statuses.len() && self.statuses[c as int]
                                == Status::Parked {
                                TrialState {
                                    position: self.position + 1,
                                    ..self.granted(c as int)
                                }
                            } else {
                                self.aborted(Fault::StepCountMismatch)
                            }
                        }
                    },
                    KeyView::Seed(_) => {
                        if live == 0 {
                            TrialState { phase: Phase::Done(Verdict::Passed), ..self }
                        } else if draw < live {
                            self.granted(nth_parked(self.statuses, draw))
                        } else {
                            self.aborted(Fault::DrawOutOfRange)
                        }
                    },
                }
            },
            Phase::Done(_) => self,
            Phase::Aborted(_) => self,
            _ => self.aborted(Fault::UnexpectedEvent),
        }
    }

    /// How the trial ended, once it is over.
    pub open spec fn outcome(self) -> Option<OutcomeView> {
        match self.phase {
            Phase::Done(Verdict::Passed) => Some(OutcomeView::Passed),
            Phase::Done(Verdict::FailedInvariant) => Some(OutcomeView::FailedInvariant(self.key)),
            Phase::Done(Verdict::Panicked) => Some(OutcomeView::Panicked(self.key, self.payload)),
            Phase::Done(Verdict::TimedOut) => Some(OutcomeView::TimedOut(self.key)),
            _ => None,
        }
    }
}

/// Taking one more item into a prefix adds it to the count of the parked.
pub proof fn lemma_parked_count_step(s: Seq<Status>, i: int)
    requires
        0 <= i < s.len(),
    ensures
        parked_count(s.take(i + 1)) == parked_count(s.take(i)) + (if s[i] == Status::Parked {
            1nat
        } else {
            0nat
        }),
{
    assert(s.take(i + 1).drop_last() =~= s.take(i));
}

/// A longer prefix holds at least as many parked participants.
pub proof fn lemma_parked_count_monotone(s: Seq<Status>, a: int, b: int)
    requires
        0 <= a <= b <= s.len(),
    ensures
        parked_count(s.take(a)) <= parked_count(s.take(b)),
    decreases b - a,
{
    if a < b {
        lemma_parked_count_monotone(s, a, b - 1);
        lemma_parked_count_step(s, b - 1);
    }
}

/// Only one parked participant has `r` parked ones before it.
pub proof fn lemma_nth_parked_unique(s: Seq<Status>, r: nat, c1: int, c2: int)
    requires
        is_nth_parked(s, r, c1),
        is_nth_parked(s, r, c2),
    ensures
        c1 == c2,
{
    if c1 < c2 {
        lemma_parked_count_step(s, c1);
        lemma_parked_count_monotone(s, c1 + 1, c2);
    } else if c2 < c1 {
        lemma_parked_count_step(s, c2);
        lemma_parked_count_monotone(s, c2 + 1, c1);
    }
}

/// No message leads out of the invariant.
pub proof fn lemma_message_keeps_wf(s: TrialState, message: SchedulerMessage)
    requires
        s.wf(),
    ensures
        s.on_message(message).wf(),
{
    let t = s.on_message(message);
    match s.phase {
        Phase::Binding(i) => {
            if message == SchedulerMessage::Rendezvous {
                assert(t.statuses_fit());
                assert(t.follows_schedule());
            }
        },
        Phase::Granted(i) => {
            assert(t.statuses_fit());
            assert(t.follows_schedule());
        },
        _ => {},
    }
}

/// Neither a join, nor an evaluation of the invariants, nor the deadline,
/// nor a closed channel leads out of the invariant.
pub proof fn lemma_reports_keep_wf(s: TrialState, panic: Option<Seq<char>>, holds: bool)
    requires
        s.wf(),
    ensures
        s.on_joined(panic).wf(),
        s.on_checked(holds).wf(),
        s.on_deadline().wf(),
        s.on_disconnected().wf(),
{
}

/// No choice leads out of the invariant, whatever is drawn.
pub proof fn lemma_select_keeps_wf(s: TrialState, draw: nat)
    requires
        s.wf(),
    ensures
        s.on_select(draw).wf(),
{
    let live = parked_count(s.statuses);
    let t = s.on_select(draw);
    if s.phase == Phase::Ready {
        match s.key {
            KeyView::Seed(_) => {
                if live != 0 && draw < live {
                    lemma_nth_parked_exists(s.statuses, draw);
                    let c = nth_parked(s.statuses, draw);
                    assert(t.statuses[c] == Status::Running);
                    assert(t.statuses_fit());
                }
            },
            KeyView::Run(run) => {
                assert(t.statuses_fit());
                assert(t.follows_schedule());
            },
        }
    }
}

/// With more than `r` participants parked, one of them has `r` parked ones before it.
pub proof fn lemma_nth_parked_exists(s: Seq<Status>, r: nat)
    requires
        r < parked_count(s),
    ensures
        is_nth_parked(s, r, nth_parked(s, r)),
    decreases s.len(),
{
    if s.len() > 0 {
        let front = s.drop_last();
        if r < parked_count(front) {
            lemma_nth_parked_exists(front, r);
            let c = nth_parked(front, r);
            assert(front.take(c) =~= s.take(c));
            assert(is_nth_parked(s, r, c));
        } else {
            let c = s.len() - 1;
            assert(s.take(c) =~= front);
            assert(is_nth_parked(s, r, c));
        }
    }
}

/// At any instant at most one participant is running, and one is running
/// only while its grant is outstanding or after the trial was stopped.
pub proof fn lemma_one_runner(s: TrialState, j: int, k: int)
    requires
        s.wf(),
        0 <= j < s.statuses.len(),
        0 <= k < s.statuses.len(),
        s.statuses[j] == Status::Running,
    ensures
        s.statuses[k] == Status::Running ==> j == k,
        s.phase == Phase::Granted(j as usize) || s.stopped(),
{
}

/// What a coordinator can be told.
pub enum Event {
    /// A message from the participant that is awaited.
    Message(SchedulerMessage),
    /// The end of the thread that is joined: `None` for a normal end, the
    /// panic's message else.
    Joined(Option<Seq<char>>),
    /// Whether the invariants hold.
    Checked(bool),
    /// The deadline has passed.
    Deadline,
    /// The channel of the awaited participant is closed.
    Disconnected,
    /// The selection of the next participant, with the number that was drawn.
    Select(nat),
}

impl TrialState {
    /// The state after one event.
    pub open spec fn after(self, event: Event) -> TrialState {
        match event {
            Event::Message(message) => self.on_message(message),
            Event::Joined(panic) => self.on_joined(panic),
            Event::Checked(holds) => self.on_checked(holds),
            Event::Deadline => self.on_deadline(),
            Event::Disconnected => self.on_disconnected(),
            Event::Select(draw) => self.on_select(draw),
        }
    }

    /// The state after a sequence of events.
    pub open spec fn after_all(self, events: Seq<Event>) -> TrialState
        decreases events.len(),
    {
        if events.len() == 0 {
            self
        } else {
            self.after_all(events.drop_last()).after(events.last())
        }
    }

    /// This state and `other` differ in their keys at most.
    pub open spec fn alike(self, other: TrialState) -> bool {
        &&& self.statuses == other.statuses
        &&& self.position == other.position
        &&& self.trace == other.trace
        &&& self.phase == other.phase
        &&& self.payload == other.payload
    }
}

/// The state before anything has happened meets the invariant.
pub proof fn lemma_initial_wf(participants: nat, key: KeyView)
    requires
        participants <= usize::MAX,
    ensures
        TrialState::initial(participants, key).wf(),
{
}

/// Every state that a trial reaches meets the invariant.
pub proof fn lemma_reached_wf(start: TrialState, events: Seq<Event>)
    requires
        start.wf(),
    ensures
        start.after_all(events).wf(),
    decreases events.len(),
{
    if events.len() > 0 {
        lemma_reached_wf(start, events.drop_last());
        let s = start.after_all(events.drop_last());
        match events.last() {
            Event::Message(message) => lemma_message_keeps_wf(s, message),
            Event::Joined(panic) => lemma_reports_keep_wf(s, panic, true),
            Event::Checked(holds) => lemma_reports_keep_wf(s, None, holds),
            Event::Deadline => lemma_reports_keep_wf(s, None, true),
            Event::Disconnected => lemma_reports_keep_wf(s, None, true),
            Event::Select(draw) => lemma_select_keeps_wf(s, draw),
        }
    }
}

/// At no instant of a trial are two participants running: whatever the
/// coordinator was told since the start, the participants that it holds to
/// be running are one at most.
pub proof fn lemma_never_two_runners(
    participants: nat,
    key: KeyView,
    events: Seq<Event>,
    j: int,
    k: int,
)
    requires
        participants <= usize::MAX,
        0 <= j < participants,
        0 <= k < participants,
        TrialState::initial(participants, key).after_all(events).statuses[j] == Status::Running,
        TrialState::initial(participants, key).after_all(events).statuses[k] == Status::Running,
    ensures
        j == k,
{
    let start = TrialState::initial(participants, key);
    lemma_initial_wf(participants, key);
    lemma_reached_wf(start, events);
    lemma_statuses_stay(start, events);
    lemma_one_runner(start.after_all(events), j, k);
}

/// No event adds or removes a participant.
pub proof fn lemma_statuses_stay(start: TrialState, events: Seq<Event>)
    requires
        start.wf(),
    ensures
        start.after_all(events).statuses.len() == start.statuses.len(),
    decreases events.len(),
{
    if events.len() > 0 {
        lemma_statuses_stay(start, events.drop_last());
        lemma_reached_wf(start, events.drop_last());
        let s = start.after_all(events.drop_last());
        match events.last() {
            Event::Select(draw) => {
                if s.phase == Phase::Ready && s.key is Seed && draw < parked_count(s.statuses) {
                    lemma_nth_parked_exists(s.statuses, draw);
                }
            },
            _ => {},
        }
    }
}

/// Under a seed the order of a trial depends on the seed through the
/// drawn numbers alone: two trials that are told the same things, with the
/// same numbers drawn, grant the same participants in the same order and
/// get the same replies.
pub proof fn lemma_same_draws_same_order(first: TrialState, second: TrialState, events: Seq<Event>)
    requires
        first.key is Seed,
        second.key is Seed,
        first.alike(second),
    ensures
        first.after_all(events).alike(second.after_all(events)),
        first.after_all(events).key == first.key,
        second.after_all(events).key == second.key,
    decreases events.len(),
{
    if events.len() > 0 {
        lemma_same_draws_same_order(first, second, events.drop_last());
    }
}

/// A trial that is run again from the same state and told the same things
/// stands where the first one stood: same grants, same replies, same end.
pub proof fn lemma_trials_repeat(first: TrialState, second: TrialState, events: Seq<Event>)
    requires
        first == second,
    ensures
        first.after_all(events) == second.after_all(events),
        first.after_all(events).trace == second.after_all(events).trace,
        first.after_all(events).outcome() == second.after_all(events).outcome(),
{
}

/// Where a run is replayed the drawn numbers change nothing: the run
/// alone decides the order.
pub proof fn lemma_replay_needs_no_draws(start: TrialState, events: Seq<Event>, others: Seq<Event>)
    requires
        start.key is Run,
        events.len() == others.len(),
        forall|i: int|
            0 <= i < events.len() ==> (#[trigger] events[i] == others[i] || (events[i] is Select
                && others[i] is Select)),
    ensures
        start.after_all(events) == start.after_all(others),
        start.after_all(events).key == start.key,
    decreases events.len(),
{
    if events.len() > 0 {
        lemma_replay_needs_no_draws(start, events.drop_last(), others.drop_last());
        let s = start.after_all(events.drop_last());
        assert(events.last() == events[events.len() - 1]);
        assert(others.last() == others[events.len() - 1]);
    }
}

/// The payload of a panic as a plain value.
pub open spec fn payload_view(panic: Option<String>) -> Option<Seq<char>> {
    match panic {
        Some(payload) => Some(payload@),
        None => None,
    }
}

/// The coordinator of one trial.
#[derive(Debug)]
pub struct Coordinator {
    statuses: Vec<Status>,
    key: TrialKey,
    generator: Option<rand::StdRng>,
    position: usize,
    trace: Vec<(usize, SchedulerMessage)>,
    phase: Phase,
    payload: String,
}

impl Coordinator {
    /// The state of the trial.
    pub closed spec fn view(&self) -> TrialState {
        TrialState {
            statuses: self.statuses@,
            key: self.key@,
            position: self.position as nat,
            trace: self.trace@,
            phase: self.phase,
            payload: self.payload@,
        }
    }

    /// A coordinator under a seed holds its generator.
    pub closed spec fn equipped(&self) -> bool {
        self.key is Seed ==> self.generator is Some
    }

    /// The invariant of a coordinator.
    pub open spec fn wf(&self) -> bool {
        self@.wf() && self.equipped()
    }

    fn spawned(participants: usize) -> (statuses: Vec<Status>)
        ensures
            statuses@ == Seq::new(participants as nat, |k: int| Status::Spawned),
    {
        let mut statuses: Vec<Status> = Vec::new();
        let mut i: usize = 0;
        while i < participants
            invariant
                i <= participants,
                statuses@ == Seq::new(i as nat, |k: int| Status::Spawned),
            decreases participants - i,
        {
            statuses.push(Status::Spawned);
            i = i + 1;
            assert(statuses@ =~= Seq::new(i as nat, |k: int| Status::Spawned));
        }
        statuses
    }

    /// A coordinator for `participants` participants that replays `run`.
    pub fn replaying(participants: usize, run: Vec<usize>) -> (c: Coordinator)
        ensures
            c.wf(),
            c@ == TrialState::initial(participants as nat, KeyView::Run(run@)),
    {
        Coordinator {
            statuses: Coordinator::spawned(participants),
            key: TrialKey::Run(run),
            generator: None,
            position: 0,
            trace: Vec::new(),
            phase: if participants == 0 {
                Phase::Ready
            } else {
                Phase::Binding(0)
            },
            payload: String::new(),
        }
    }

    /// A coordinator for `participants` participants that chooses by a
    /// generator seeded with `seed`.
    pub fn seeded(participants: usize, seed: usize) -> (c: Coordinator)
        ensures
            c.wf(),
            c@ == TrialState::initial(participants as nat, KeyView::Seed(seed)),
    {
        Coordinator {
            statuses: Coordinator::spawned(participants),
            key: TrialKey::Seed(seed),
            generator: Some(seeded(seed)),
            position: 0,
            trace: Vec::new(),
            phase: if participants == 0 {
                Phase::Ready
            } else {
                Phase::Binding(0)
            },
            payload: String::new(),
        }
    }

    /// What is to be done next.
    pub fn pending(&self) -> (action: Action)
        ensures
            action == action_of(self@.phase),
    {
        match self.phase {
            Phase::Binding(i) => Action::Await(i),
            Phase::Ready => Action::Select,
            Phase::Granted(i) => Action::Grant(i),
            Phase::Joining(i) => Action::Join(i),
            Phase::Checking => Action::Check,
            Phase::Done(verdict) => Action::Finish(verdict),
            Phase::Aborted(fault) => Action::Abort(fault),
        }
    }

    /// The status of each participant, in the order of declaration.
    pub fn statuses(&self) -> (statuses: &Vec<Status>)
        ensures
            statuses@ == self@.statuses,
    {
        &self.statuses
    }

    /// The replies to the grants so far, each with the participant it came from.
    pub fn trace(&self) -> (trace: &Vec<(usize, SchedulerMessage)>)
        ensures
            trace@ == self@.trace,
    {
        &self.trace
    }

    /// How the trial ended, or `None` while it is not over.
    pub fn outcome(&self) -> (outcome: Option<Outcome>)
        ensures
            match outcome {
                Some(o) => self@.outcome() == Some(o@),
                None => self@.outcome() is None,
            },
    {
        match self.phase {
            Phase::Done(Verdict::Passed) => Some(Outcome::Passed),
            Phase::Done(Verdict::FailedInvariant) => Some(
                Outcome::FailedInvariant(self.key.duplicate()),
            ),
            Phase::Done(Verdict::Panicked) => Some(
                Outcome::Panicked(self.key.duplicate(), self.payload.clone()),
            ),
            Phase::Done(Verdict::TimedOut) => Some(Outcome::TimedOut(self.key.duplicate())),
            _ => None,
        }
    }

    /// Takes note of a message from the participant that is awaited: its
    /// rendezvous while the participants are bound, its reply while it holds
    /// a grant. A message of another kind aborts the trial.
    pub fn message(&mut self, message: SchedulerMessage) -> (action: Action)
        requires
            old(self).wf(),
        ensures
            final(self).wf(),
            final(self)@ == old(self)@.on_message(message),
            action == action_of(final(self)@.phase),
    {
        proof {
            lemma_message_keeps_wf(self@, message);
        }
        match self.phase {
            Phase::Binding(i) => match message {
                SchedulerMessage::Rendezvous => {
                    self.statuses[i] = Status::Parked;
                    if i + 1 < self.statuses.len() {
                        self.phase = Phase::Binding(i + 1);
                    } else {
                        self.phase = Phase::Ready;
                    }
                },
                _ => {
                    self.phase = Phase::Aborted(Fault::UnexpectedMessage);
                },
            },
            Phase::Granted(i) => match message {
                SchedulerMessage::Step => {
                    self.statuses[i] = Status::Parked;
                    self.trace.push((i, message));
                    self.phase = Phase::Checking;
                },
                SchedulerMessage::Exit => {
                    self.statuses[i] = Status::Exited;
                    self.trace.push((i, message));
                    self.phase = Phase::Joining(i);
                },
                SchedulerMessage::Rendezvous => {
                    self.phase = Phase::Aborted(Fault::UnexpectedMessage);
                },
            },
            Phase::Done(_) => {},
            Phase::Aborted(_) => {},
            _ => {
                self.phase = Phase::Aborted(Fault::UnexpectedEvent);
            },
        }
        self.pending()
    }

    /// Takes note of how the thread that was joined has ended: normally with
    /// `None`, in a panic with the panic's message.
    pub fn joined(&mut self, panic: Option<String>) -> (action: Action)
        requires
            old(self).wf(),
        ensures
            final(self).wf(),
            final(self)@ == old(self)@.on_joined(payload_view(panic)),
            action == action_of(final(self)@.phase),
    {
        proof {
            lemma_reports_keep_wf(self@, payload_view(panic), true);
        }
        match self.phase {
            Phase::Joining(_) => match panic {
                None => {
                    self.phase = Phase::Checking;
                },
                Some(payload) => {
                    self.payload = payload;
                    self.phase = Phase::Done(Verdict::Panicked);
                },
            },
            Phase::Done(_) => {},
            Phase::Aborted(_) => {},
            _ => {
                self.phase = Phase::Aborted(Fault::UnexpectedEvent);
            },
        }
        self.pending()
    }

    /// Takes note of whether the invariants hold after the last step.
    pub fn checked(&mut self, holds: bool) -> (action: Action)
        requires
            old(self).wf(),
        ensures
            final(self).wf(),
            final(self)@ == old(self)@.on_checked(holds),
            action == action_of(final(self)@.phase),
    {
        proof {
            lemma_reports_keep_wf(self@, None, holds);
        }
        match self.phase {
            Phase::Checking => {
                if holds {
                    self.phase = Phase::Ready;
                } else {
                    self.phase = Phase::Done(Verdict::FailedInvariant);
                }
            },
            Phase::Done(_) => {},
            Phase::Aborted(_) => {},
            _ => {
                self.phase = Phase::Aborted(Fault::UnexpectedEvent);
            },
        }
        self.pending()
    }

    /// Takes note that the deadline of the trial has passed.
    pub fn deadline(&mut self) -> (action: Action)
        requires
            old(self).wf(),
        ensures
            final(self).wf(),
            final(self)@ == old(self)@.on_deadline(),
            action == action_of(final(self)@.phase),
    {
        proof {
            lemma_reports_keep_wf(self@, None, true);
        }
        match self.phase {
            Phase::Done(_) => {},
            Phase::Aborted(_) => {},
            _ => {
                self.phase = Phase::Done(Verdict::TimedOut);
            },
        }
        self.pending()
    }

    /// Takes note that the channel of the participant that is awaited is
    /// closed: the participant is gone without having sent its exit.
    pub fn disconnected(&mut self) -> (action: Action)
        requires
            old(self).wf(),
        ensures
            final(self).wf(),
            final(self)@ == old(self)@.on_disconnected(),
            action == action_of(final(self)@.phase),
    {
        proof {
            lemma_reports_keep_wf(self@, None, true);
        }
        match self.phase {
            Phase::Done(_) => {},
            Phase::Aborted(_) => {},
            _ => {
                self.phase = Phase::Aborted(Fault::Disconnected);
            },
        }
        self.pending()
    }

    /// How many participants are parked.
    pub fn count_parked(&self) -> (count: usize)
        ensures
            count == parked_count(self@.statuses),
    {
        let mut count: usize = 0;
        let mut i: usize = 0;
        while i < self.statuses.len()
            invariant
                i <= self.statuses.len(),
                count <= i,
                count == parked_count(self.statuses@.take(i as int)),
            decreases self.statuses.len() - i,
        {
            proof {
                lemma_parked_count_step(self.statuses@, i as int);
            }
            if self.statuses[i] == Status::Parked {
                count = count + 1;
            }
            i = i + 1;
        }
        assert(self.statuses@.take(i as int) =~= self.statuses@);
        count
    }

    /// The position of the parked participant with `draw` parked ones
    /// before it, or `None` where that many are not parked.
    pub fn find_parked(&self, draw: usize) -> (found: Option<usize>)
        ensures
            match found {
                Some(c) => draw < parked_count(self@.statuses) && c == nth_parked(
                    self@.statuses,
                    draw as nat,
                ),
                None => draw >= parked_count(self@.statuses),
            },
    {
        let mut seen: usize = 0;
        let mut i: usize = 0;
        while i < self.statuses.len()
            invariant
                i <= self.statuses.len(),
                seen <= i,
                seen <= draw,
                seen == parked_count(self.statuses@.take(i as int)),
            decreases self.statuses.len() - i,
        {
            proof {
                lemma_parked_count_step(self.statuses@, i as int);
            }
            if self.statuses[i] == Status::Parked {
                if seen == draw {
                    proof {
                        let s = self.statuses@;
                        assert(is_nth_parked(s, draw as nat, i as int));
                        lemma_parked_count_monotone(s, i as int + 1, s.len() as int);
                        assert(s.take(s.len() as int) =~= s);
                        lemma_nth_parked_exists(s, draw as nat);
                        lemma_nth_parked_unique(
                            s,
                            draw as nat,
                            i as int,
                            nth_parked(s, draw as nat),
                        );
                    }
                    return Some(i);
                }
                seen = seen + 1;
            }
            i = i + 1;
        }
        assert(self.statuses@.take(i as int) =~= self.statuses@);
        None
    }

    /// The item of the replayed run that is next, if one is left.
    fn scheduled(&self) -> (next: Option<usize>)
        requires
            self@.key is Run,
        ensures
            match next {
                Some(c) => self@.position < self@.key->Run_0.len() && self@.position
                    < usize::MAX && c == self@.key->Run_0[self@.position as int],
                None => self@.position >= self@.key->Run_0.len(),
            },
    {
        match &self.key {
            TrialKey::Run(run) => {
                if self.position < run.len() {
                    Some(run[self.position])
                } else {
                    None
                }
            },
            TrialKey::Seed(_) => None,
        }
    }

    fn grant(&mut self, c: usize)
        requires
            c < old(self).statuses@.len(),
        ensures
            final(self)@ == old(self)@.granted(c as int),
            final(self).generator == old(self).generator,
            final(self).key == old(self).key,
    {
        self.statuses[c] = Status::Running;
        self.phase = Phase::Granted(c);
    }

    /// Chooses the participant to run next, with `draw` in place of a drawn
    /// number. Where no participant is left the trial has passed; where the
    /// replayed run and the participants disagree, or `draw` is not below
    /// the number of runnable participants, the trial is aborted.
    pub fn select_with(&mut self, draw: usize) -> (action: Action)
        requires
            old(self).wf(),
        ensures
            final(self).wf(),
            final(self)@ == old(self)@.on_select(draw as nat),
            action == action_of(final(self)@.phase),
    {
        proof {
            lemma_select_keeps_wf(self@, draw as nat);
        }
        match self.phase {
            Phase::Ready => {
                let live = self.count_parked();
                let replayed = match &self.key {
                    TrialKey::Run(_) => true,
                    TrialKey::Seed(_) => false,
                };
                if replayed {
                    let next = self.scheduled();
                    match next {
                        None => {
                            if live == 0 {
                                self.phase = Phase::Done(Verdict::Passed);
                            } else {
                                self.phase = Phase::Aborted(Fault::StepCountMismatch);
                            }
                        },
                        Some(c) => {
                            if live != 0 && c < self.statuses.len() && self.statuses[c]
                                == Status::Parked {
                                self.position = self.position + 1;
                                self.grant(c);
                            } else {
                                self.phase = Phase::Aborted(Fault::StepCountMismatch);
                            }
                        },
                    }
                } else if live == 0 {
                    self.phase = Phase::Done(Verdict::Passed);
                } else {
                    match self.find_parked(draw) {
                        Some(c) => {
                            proof {
                                lemma_nth_parked_exists(self@.statuses, draw as nat);
                            }
                            self.grant(c);
                        },
                        None => {
                            self.phase = Phase::Aborted(Fault::DrawOutOfRange);
                        },
                    }
                }
            },
            Phase::Done(_) => {},
            Phase::Aborted(_) => {},
            _ => {
                self.phase = Phase::Aborted(Fault::UnexpectedEvent);
            },
        }
        self.pending()
    }

    /// Chooses the participant to run next: by the next item of the run that
    /// is replayed, or by a number drawn from the seeded generator, which
    /// counts off the runnable participants in the order of declaration.
    pub fn select(&mut self) -> (action: Action)
        requires
            old(self).wf(),
        ensures
            final(self).wf(),
            exists|draw: nat|
                {
                    &&& parked_count(old(self)@.statuses) > 0 ==> draw < parked_count(
                        old(self)@.statuses,
                    )
                    &&& #[trigger] old(self)@.on_select(draw) == final(self)@
                },
            action == action_of(final(self)@.phase),
    {
        let live = self.count_parked();
        let mut draw: usize = 0;
        if live > 0 && self.phase == Phase::Ready {
            match &mut self.generator {
                Some(generator) => {
                    draw = draw_below(generator, live);
                },
                None => {},
            }
        }
        let ghost before = self@;
        let action = self.select_with(draw);
        assert(before.on_select(draw as nat) == self@);
        action
    }
}

} // verus!
