//! What a test declares, and the participant's side of the rendezvous.

use vstd::prelude::*;
use crate::coordinator::{Coordinator, Phase, SchedulerMessage, Status, TrialState};
use crate::interleavings::{lemma_nth_run, lemma_nth_run_end, run_count};
use crate::outcome::{KeyView, Outcome, OutcomeView};
use crate::runs::{as_counts, following, nth_run, Runs};

verus! {

/// How many seeds `Scheduler::explore` tries.
pub const TRIALS: usize = 100000;

/// Where a participant stands in its own eyes.
#[derive(Debug, Clone, Copy, PartialEq, Eq, Structural)]
pub enum Standing {
    /// Not bound to a coordinator yet.
    Unbound,
    /// Has sent a message and waits for the coordinator's grant.
    Parked,
    /// Holds a grant and runs.
    Running,
    /// Has sent its exit.
    Exited,
}

/// Why a handle refused a call.
#[derive(Debug, Clone, Copy, PartialEq, Eq, Structural)]
pub enum Misuse {
    /// The handle was bound before.
    AlreadyBound,
    /// The participant holds no grant: it runs outside a coordinator's control.
    NotRunning,
    /// The participant does not wait for a grant.
    NotParked,
}

/// The participant's end of the rendezvous. It says which message the
/// participant is to send next and keeps count of its steps; sending and
/// waiting are left to whoever holds the channel.
#[derive(Debug)]
pub struct Handle {
    standing: Standing,
    steps: usize,
}

impl Handle {
    /// Where the participant stands.
    pub closed spec fn standing(&self) -> Standing {
        self.standing
    }

    /// How many scheduling points the participant has passed.
    pub closed spec fn steps(&self) -> nat {
        self.steps as nat
    }

    /// A handle that is not bound yet.
    pub fn new() -> (handle: Handle)
        ensures
            handle.standing() == Standing::Unbound,
            handle.steps() == 0,
    {
        Handle { standing: Standing::Unbound, steps: 0 }
    }

    /// Where the participant stands.
    pub fn position(&self) -> (standing: Standing)
        ensures
            standing == self.standing(),
    {
        self.standing
    }

    /// How many scheduling points the participant has passed.
    pub fn steps_taken(&self) -> (steps: usize)
        ensures
            steps == self.steps(),
    {
        self.steps
    }

    /// Binds the handle: the participant is to send `Rendezvous` and to wait
    /// for a grant. A handle can be bound once.
    pub fn bind(&mut self) -> (message: Result<SchedulerMessage, Misuse>)
        ensures
            final(self).steps() == old(self).steps(),
            match message {
                Ok(m) => m == SchedulerMessage::Rendezvous && old(self).standing()
                    == Standing::Unbound && final(self).standing() == Standing::Parked,
                Err(e) => e == Misuse::AlreadyBound && old(self).standing() != Standing::Unbound
                    && final(self).standing() == old(self).standing(),
            },
    {
        match self.standing {
            Standing::Unbound => {
                self.standing = Standing::Parked;
                Ok(SchedulerMessage::Rendezvous)
            },
            _ => Err(Misuse::AlreadyBound),
        }
    }

    /// Takes note of the coordinator's grant: the participant runs.
    pub fn granted(&mut self) -> (result: Result<(), Misuse>)
        ensures
            final(self).steps() == old(self).steps(),
            match result {
                Ok(_) => old(self).standing() == Standing::Parked && final(self).standing()
                    == Standing::Running,
                Err(e) => e == Misuse::NotParked && old(self).standing() != Standing::Parked
                    && final(self).standing() == old(self).standing(),
            },
    {
        match self.standing {
            Standing::Parked => {
                self.standing = Standing::Running;
                Ok(())
            },
            _ => Err(Misuse::NotParked),
        }
    }

    /// Marks a scheduling point: the participant is to send `Step` and to
    /// wait for a grant. Outside a coordinator's control (not bound, not
    /// granted, or after the exit) the call is refused.
    pub fn step(&mut self) -> (message: Result<SchedulerMessage, Misuse>)
        ensures
            match message {
                Ok(m) => m == SchedulerMessage::Step && old(self).standing() == Standing::Running
                    && final(self).standing() == Standing::Parked && final(self).steps() == (
                if old(self).steps() < usize::MAX {
                    old(self).steps() + 1
                } else {
                    old(self).steps()
                }),
                Err(e) => e == Misuse::NotRunning && old(self).standing() != Standing::Running
                    && final(self).standing() == old(self).standing() && final(self).steps()
                    == old(self).steps(),
            },
    {
        match self.standing {
            Standing::Running => {
                self.standing = Standing::Parked;
                if self.steps < usize::MAX {
                    self.steps = self.steps + 1;
                }
                Ok(SchedulerMessage::Step)
            },
            _ => Err(Misuse::NotRunning),
        }
    }

    /// Ends the participant: it is to send `Exit`, whatever it did before.
    /// Returns `None` where the exit was sent already.
    pub fn exit(&mut self) -> (message: Option<SchedulerMessage>)
        ensures
            final(self).standing() == Standing::Exited,
            final(self).steps() == old(self).steps(),
            match message {
                Some(m) => m == SchedulerMessage::Exit && old(self).standing() != Standing::Exited,
                None => old(self).standing() == Standing::Exited,
            },
    {
        match self.standing {
            Standing::Exited => None,
            _ => {
                self.standing = Standing::Exited;
                Some(SchedulerMessage::Exit)
            },
        }
    }
}

/// What the coordinator holds a participant to be that stands at `standing`.
pub open spec fn seen_as(standing: Standing) -> Status {
    match standing {
        Standing::Unbound => Status::Spawned,
        Standing::Parked => Status::Parked,
        Standing::Running => Status::Running,
        Standing::Exited => Status::Exited,
    }
}

/// The two ends of the rendezvous fit: while the coordinator awaits the
/// participant `i` and holds it to be what its handle says, each message
/// that the handle can hand out is one that the coordinator takes, and
/// after it the coordinator holds the participant to be what the handle
/// says then.
pub proof fn lemma_handle_messages_are_awaited(
    s: TrialState,
    i: usize,
    standing: Standing,
    message: SchedulerMessage,
)
    requires
        s.wf(),
        s.phase == Phase::Binding(i) || s.phase == Phase::Granted(i),
        s.statuses[i as int] == seen_as(standing),
        match message {
            SchedulerMessage::Rendezvous => standing == Standing::Unbound,
            SchedulerMessage::Step => standing == Standing::Running,
            SchedulerMessage::Exit => standing == Standing::Running,
        },
    ensures
        !(s.on_message(message).phase is Aborted),
        s.on_message(message).statuses[i as int] == seen_as(
            match message {
                SchedulerMessage::Exit => Standing::Exited,
                _ => Standing::Parked,
            },
        ),
{
}

/// The position in `report` of the first trial that did not pass, or
/// `None` where every trial passed.
pub fn first_failed(report: &Vec<(usize, Outcome)>) -> (found: Option<usize>)
    ensures
        match found {
            Some(i) => {
                &&& i < report@.len()
                &&& report@[i as int].1@ != OutcomeView::Passed
                &&& forall|k: int| 0 <= k < i ==> (#[trigger] report@[k]).1@ == OutcomeView::Passed
            },
            None => forall|k: int|
                0 <= k < report@.len() ==> (#[trigger] report@[k]).1@ == OutcomeView::Passed,
        },
{
    let mut i: usize = 0;
    while i < report.len()
        invariant
            i <= report@.len(),
            forall|k: int| 0 <= k < i ==> (#[trigger] report@[k]).1@ == OutcomeView::Passed,
        decreases report@.len() - i,
    {
        if !report[i].1.passed() {
            return Some(i);
        }
        i = i + 1;
    }
    None
}

/// An operation on an instrumented lock.
#[derive(Debug, Clone, Copy, PartialEq, Eq, Structural)]
pub enum Acquisition {
    /// Taking an exclusive lock.
    Lock,
    /// Trying to take an exclusive lock.
    TryLock,
    /// Taking a lock for reading.
    Read,
    /// Trying to take a lock for reading.
    TryRead,
    /// Taking a lock for writing.
    Write,
    /// Trying to take a lock for writing.
    TryWrite,
}

/// How many scheduling points an operation passes before it turns to the
/// lock itself: one, whatever the operation.
pub fn steps_before(operation: Acquisition) -> (steps: usize)
    ensures
        steps == 1,
{
    1
}

/// How many scheduling points an operation passes once the lock itself
/// has answered: one where a lock was taken for reading, none where the
/// lock was taken for anything else or was not taken at all.
pub fn steps_after(operation: Acquisition, acquired: bool) -> (steps: usize)
    ensures
        steps == (if acquired && (operation == Acquisition::Read || operation
            == Acquisition::TryRead) {
            1usize
        } else {
            0usize
        }),
{
    match operation {
        Acquisition::Read => if acquired {
            1
        } else {
            0
        },
        Acquisition::TryRead => if acquired {
            1
        } else {
            0
        },
        _ => 0,
    }
}

/// What a test declares: how the shared state is made, and the
/// participants that run on it.
pub struct Scheduler<Init, Target> {
    targets: Vec<Target>,
    initializer: Init,
}

impl<Init, Target> Scheduler<Init, Target> {
    /// The declared participants, in the order of declaration.
    pub closed spec fn declared(&self) -> Seq<Target> {
        self.targets@
    }

    /// What makes the shared state.
    pub closed spec fn maker(&self) -> Init {
        self.initializer
    }

    /// A scheduler without participants, whose shared state `f` makes.
    pub fn with_initializer(f: Init) -> (scheduler: Scheduler<Init, Target>)
        ensures
            scheduler.declared() == Seq::<Target>::empty(),
            scheduler.maker() == f,
    {
        Scheduler { targets: Vec::new(), initializer: f }
    }

    /// Declares one more participant.
    pub fn add(&mut self, f: Target)
        ensures
            final(self).declared() == old(self).declared().push(f),
            final(self).maker() == old(self).maker(),
    {
        self.targets.push(f);
    }

    /// The declared participants, in the order of declaration.
    pub fn targets(&self) -> (targets: &Vec<Target>)
        ensures
            targets@ == self.declared(),
    {
        &self.targets
    }

    /// What makes the shared state.
    pub fn initializer(&self) -> (initializer: &Init)
        ensures
            *initializer == self.maker(),
    {
        &self.initializer
    }

    /// The coordinator of one trial of the declared participants under `seed`.
    pub fn coordinator(&self, seed: usize) -> (coordinator: Coordinator)
        ensures
            coordinator.wf(),
            coordinator@ == TrialState::initial(self.declared().len(), KeyView::Seed(seed)),
    {
        Coordinator::seeded(self.targets.len(), seed)
    }

    /// `report` holds, for each seed from 0 up to, not including, `trials`
    /// and in that order, the seed and the outcome that `trial` gave under it.
    pub open spec fn is_report<Trial: Fn(&Scheduler<Init, Target>, usize) -> Outcome>(
        &self,
        trial: Trial,
        trials: nat,
        report: Seq<(usize, Outcome)>,
    ) -> bool {
        &&& report.len() == trials
        &&& forall|seed: int|
            0 <= seed < trials ==> (#[trigger] report[seed]).0 == seed && call_ensures(
                trial,
                (self, seed as usize),
                report[seed].1,
            )
    }

    /// Runs a trial under each seed from 0 up to, not including, `trials`,
    /// whatever the trials before it came to, and hands back every outcome
    /// with its seed. `trial` runs one trial of this scheduler under the seed
    /// it is given.
    pub fn sample<Trial: Fn(&Scheduler<Init, Target>, usize) -> Outcome>(
        &self,
        trials: usize,
        trial: Trial,
    ) -> (report: Vec<(usize, Outcome)>)
        requires
            forall|seed: usize| seed < trials ==> call_requires(trial, (self, seed)),
        ensures
            self.is_report(trial, trials as nat, report@),
    {
        let mut report: Vec<(usize, Outcome)> = Vec::new();
        let mut seed: usize = 0;
        while seed < trials
            invariant
                seed <= trials,
                forall|s: usize| s < trials ==> call_requires(trial, (self, s)),
                self.is_report(trial, seed as nat, report@),
            decreases trials - seed,
        {
            let outcome = trial(self, seed);
            report.push((seed, outcome));
            seed = seed + 1;
        }
        report
    }

    /// Runs a trial under each seed from 0 up to, not including, `TRIALS`,
    /// whatever the trials before it came to, and hands back every outcome
    /// with its seed. `trial` runs one trial of this scheduler under the seed
    /// it is given.
    pub fn explore<Trial: Fn(&Scheduler<Init, Target>, usize) -> Outcome>(
        self,
        trial: Trial,
    ) -> (report: Vec<(usize, Outcome)>)
        requires
            forall|seed: usize| seed < TRIALS ==> call_requires(trial, (&self, seed)),
        ensures
            self.is_report(trial, TRIALS as nat, report@),
    {
        self.sample(TRIALS, trial)
    }

    /// The replay of `run` ended with `outcome`.
    pub open spec fn replay_gave<Trial: Fn(&Scheduler<Init, Target>, &Vec<usize>) -> Outcome>(
        &self,
        trial: Trial,
        run: Seq<usize>,
        outcome: OutcomeView,
    ) -> bool {
        exists|r: Vec<usize>, o: Outcome|
            r@ == run && o@ == outcome && #[trigger] call_ensures(trial, (self, &r), o)
    }

    /// Replays every interleaving of participants that are granted the
    /// given numbers of stretches, in the order of the enumeration, and
    /// stops at the first replay that does not pass. `trial` runs one trial
    /// of this scheduler in the order of the run it is given.
    pub fn exhaust<Trial: Fn(&Scheduler<Init, Target>, &Vec<usize>) -> Outcome>(
        &self,
        grants: &Vec<usize>,
        trial: Trial,
    ) -> (outcome: Outcome)
        requires
            forall|run: Vec<usize>| call_requires(trial, (self, &run)),
        ensures
            outcome@ == OutcomeView::Passed ==> forall|k: nat|
                k < run_count(as_counts(grants@)) ==> self.replay_gave(
                    trial,
                    (#[trigger] nth_run(as_counts(grants@), k)).unwrap(),
                    OutcomeView::Passed,
                ),
            outcome@ != OutcomeView::Passed ==> exists|k: nat|
                {
                    &&& k < run_count(as_counts(grants@))
                    &&& self.replay_gave(
                        trial,
                        (#[trigger] nth_run(as_counts(grants@), k)).unwrap(),
                        outcome@,
                    )
                    &&& forall|e: nat|
                        e < k ==> self.replay_gave(
                            trial,
                            (#[trigger] nth_run(as_counts(grants@), e)).unwrap(),
                            OutcomeView::Passed,
                        )
                },
    {
        let mut runs = Runs::with_counts(grants);
        let ghost counts = as_counts(grants@);
        let ghost mut k: nat = 0;
        assert(counts.len() == grants.len());
        loop
            invariant
                forall|run: Vec<usize>| call_requires(trial, (self, &run)),
                counts == as_counts(grants@),
                counts.len() <= usize::MAX,
                k <= run_count(counts),
                runs.upcoming() == nth_run(counts, k),
                forall|e: nat|
                    e < k ==> self.replay_gave(
                        trial,
                        (#[trigger] nth_run(counts, e)).unwrap(),
                        OutcomeView::Passed,
                    ),
            decreases run_count(counts) - k,
        {
            match runs.next() {
                None => {
                    proof {
                        if k < run_count(counts) {
                            lemma_nth_run(counts, k);
                        }
                    }
                    return Outcome::Passed;
                },
                Some(run) => {
                    proof {
                        if k >= run_count(counts) {
                            lemma_nth_run_end(counts, k);
                        }
                    }
                    let outcome = trial(self, &run);
                    assert(self.replay_gave(trial, nth_run(counts, k).unwrap(), outcome@));
                    if !outcome.passed() {
                        return outcome;
                    }
                    proof {
                        assert(nth_run(counts, k + 1) == following(nth_run(counts, k)));
                        k = k + 1;
                    }
                },
            }
        }
    }
}

} // verus!
