//! Exhaustive testing of processes that share one state: every interleaving
//! of their steps is replayed, and the invariants are evaluated after every
//! step.

use vstd::prelude::*;
use crate::coordinator::Fault;
use crate::interleavings::{
    factorial, lemma_nth_run, lemma_nth_run_end, lemma_occurrences_absent,
    lemma_occurrences_concat, lemma_occurrences_single, lemma_occurrences_split, run_count,
};
use crate::outcome::{KeyView, Outcome, OutcomeView, TrialKey};
use crate::runs::{following, is_interleaving, nth_run, occurrences, step_counts, Runs};

verus! {

/// The steps of one process, each with a note that names it.
pub struct Process<F>(pub Vec<(Option<String>, F)>);

impl<F> Process<F> {
    /// A process that takes the given steps in their order.
    pub fn new(steps: Vec<(&str, F)>) -> (process: Process<F>)
        ensures
            process.0@.len() == steps@.len(),
            forall|i: int|
                0 <= i < steps@.len() ==> {
                    &&& (#[trigger] process.0@[i]).0 is Some
                    &&& process.0@[i].0->0@ == steps@[i].0@
                    &&& process.0@[i].1 == steps@[i].1
                },
    {
        let ghost given = steps@;
        let mut steps = steps;
        let mut stack: Vec<(Option<String>, F)> = Vec::new();
        while steps.len() > 0
            invariant
                steps@.len() + stack@.len() == given.len(),
                forall|i: int| 0 <= i < steps@.len() ==> steps@[i] == given[i],
                forall|i: int|
                    0 <= i < stack@.len() ==> {
                        &&& (#[trigger] stack@[i]).0 is Some
                        &&& stack@[i].0->0@ == given[given.len() - 1 - i].0@
                        &&& stack@[i].1 == given[given.len() - 1 - i].1
                    },
            decreases steps@.len(),
        {
            match steps.pop() {
                Some((note, step)) => {
                    stack.push((Some(note.to_owned()), step));
                },
                None => {},
            }
        }
        let mut ordered: Vec<(Option<String>, F)> = Vec::new();
        while stack.len() > 0
            invariant
                stack@.len() + ordered@.len() == given.len(),
                forall|i: int|
                    0 <= i < stack@.len() ==> {
                        &&& (#[trigger] stack@[i]).0 is Some
                        &&& stack@[i].0->0@ == given[given.len() - 1 - i].0@
                        &&& stack@[i].1 == given[given.len() - 1 - i].1
                    },
                forall|i: int|
                    0 <= i < ordered@.len() ==> {
                        &&& (#[trigger] ordered@[i]).0 is Some
                        &&& ordered@[i].0->0@ == given[i].0@
                        &&& ordered@[i].1 == given[i].1
                    },
            decreases stack@.len(),
        {
            match stack.pop() {
                Some(entry) => {
                    ordered.push(entry);
                },
                None => {},
            }
        }
        Process(ordered)
    }
}

/// The step that a run takes at position `k`: the next step of the
/// process that stands there, counted by how often that process stands
/// before `k`.
pub open spec fn step_at<F>(
    processes: Seq<Vec<(Option<String>, F)>>,
    run: Seq<usize>,
    k: int,
) -> F {
    processes[run[k] as int]@[occurrences(run.take(k), run[k]) as int].1
}

/// A state, processes that each take steps on it, and invariants that are
/// to hold after every step.
pub struct System<A, F, P> {
    pub state: A,
    pub invariants: Vec<P>,
    pub processes: Vec<Vec<(Option<String>, F)>>,
}

impl<A: Clone, F: Fn(A) -> A, P: Fn(&A) -> bool> System<A, F, P> {
    /// How many steps each process takes.
    pub open spec fn counts(&self) -> Seq<nat> {
        step_counts(self.processes@)
    }

    /// Every step and every invariant can be called on every state.
    pub open spec fn callable(&self) -> bool {
        &&& forall|i: int, j: int, a: A|
            0 <= i < self.processes@.len() && 0 <= j < self.processes@[i]@.len()
                ==> #[trigger] call_requires(self.processes@[i]@[j].1, (a,))
        &&& forall|j: int, a: A|
            0 <= j < self.invariants@.len() ==> #[trigger] call_requires(
                self.invariants@[j],
                (&a,),
            )
    }

    /// `states` is what a replay of `run` went through: a copy of the
    /// initial state, and after it the state that each step made of the one
    /// before.
    pub open spec fn is_replay(&self, run: Seq<usize>, states: Seq<A>) -> bool {
        &&& 1 <= states.len() <= run.len() + 1
        &&& cloned(self.state, states[0])
        &&& forall|k: int|
            0 <= k < states.len() - 1 ==> call_ensures(
                step_at(self.processes@, run, k),
                (states[k],),
                #[trigger] states[k + 1],
            )
    }

    /// Every invariant was found true of `state`.
    pub open spec fn sound_at(&self, state: A) -> bool {
        forall|j: int|
            0 <= j < self.invariants@.len() ==> #[trigger] call_ensures(
                self.invariants@[j],
                (&state,),
                true,
            )
    }

    /// Some invariant was found false of `state`.
    pub open spec fn broken_at(&self, state: A) -> bool {
        exists|j: int|
            0 <= j < self.invariants@.len() && #[trigger] call_ensures(
                self.invariants@[j],
                (&state,),
                false,
            )
    }

    /// `states` is a replay of all of `run`, with every invariant true after
    /// every step.
    pub open spec fn passes(&self, run: Seq<usize>, states: Seq<A>) -> bool {
        &&& self.is_replay(run, states)
        &&& states.len() == run.len() + 1
        &&& forall|k: int| 1 <= k < states.len() ==> self.sound_at(#[trigger] states[k])
    }

    /// `states` is a replay of `run` up to a step after which an invariant
    /// was false, with every invariant true after every step before that.
    pub open spec fn fails(&self, run: Seq<usize>, states: Seq<A>) -> bool {
        &&& self.is_replay(run, states)
        &&& states.len() >= 2
        &&& forall|k: int| 1 <= k < states.len() - 1 ==> self.sound_at(#[trigger] states[k])
        &&& self.broken_at(states.last())
    }

    /// A replay of `run` passed.
    pub open spec fn run_passes(&self, run: Seq<usize>) -> bool {
        exists|states: Seq<A>| self.passes(run, states)
    }

    /// A replay of `run` failed.
    pub open spec fn run_fails(&self, run: Seq<usize>) -> bool {
        exists|states: Seq<A>| self.fails(run, states)
    }

    /// A replay of every run of the enumeration passed.
    pub open spec fn all_pass(&self) -> bool {
        forall|k: nat|
            k < run_count(self.counts()) ==> self.run_passes(
                (#[trigger] nth_run(self.counts(), k)).unwrap(),
            )
    }

    /// `run` is the first run of the enumeration of which a replay failed.
    pub open spec fn first_failure(&self, run: Seq<usize>) -> bool {
        exists|k: nat|
            {
                &&& k < run_count(self.counts())
                &&& #[trigger] nth_run(self.counts(), k) == Some(run)
                &&& self.run_fails(run)
                &&& forall|e: nat|
                    e < k ==> self.run_passes((#[trigger] nth_run(self.counts(), e)).unwrap())
            }
    }

    fn zeros(n: usize) -> (v: Vec<usize>)
        ensures
            v@.len() == n,
            forall|i: int| 0 <= i < n ==> v@[i] == 0,
    {
        let mut v: Vec<usize> = Vec::new();
        while v.len() < n
            invariant
                v@.len() <= n,
                forall|i: int| 0 <= i < v@.len() ==> v@[i] == 0,
            decreases n - v@.len(),
        {
            v.push(0);
        }
        v
    }

    /// Whether `run` is an interleaving of the processes' steps: whether it
    /// names each process as often as that process has steps, and nothing else.
    pub fn fits(&self, run: &Vec<usize>) -> (yes: bool)
        ensures
            yes == is_interleaving(run@, self.counts()),
    {
        let n = self.processes.len();
        let ghost counts = self.counts();
        let mut tally = Self::zeros(n);
        let mut k: usize = 0;
        assert(run@.take(0) =~= Seq::<usize>::empty());
        while k < run.len()
            invariant
                counts == self.counts(),
                n == self.processes@.len(),
                tally@.len() == n,
                k <= run@.len(),
                forall|c: int|
                    0 <= c < n ==> #[trigger] tally@[c] == occurrences(
                        run@.take(k as int),
                        c as usize,
                    ),
                forall|c: int| 0 <= c < n ==> #[trigger] tally@[c] <= k,
                forall|i: int| 0 <= i < k ==> run@[i] < n,
            decreases run@.len() - k,
        {
            let choice = run[k];
            if choice >= n {
                proof {
                    lemma_occurrences_split(run@, k as int + 1, choice);
                    assert(run@.subrange(0, k as int + 1) =~= run@.take(k as int) + seq![choice]);
                    lemma_occurrences_concat(run@.take(k as int), seq![choice], choice);
                    lemma_occurrences_single(choice, choice);
                }
                return false;
            }
            tally[choice] = tally[choice] + 1;
            proof {
                assert forall|c: int| 0 <= c < n implies #[trigger] tally@[c] == occurrences(
                    run@.take(k as int + 1),
                    c as usize,
                ) by {
                    assert(run@.take(k as int + 1) =~= run@.take(k as int) + seq![choice]);
                    lemma_occurrences_concat(run@.take(k as int), seq![choice], c as usize);
                    lemma_occurrences_single(choice, c as usize);
                }
            }
            k = k + 1;
        }
        assert(run@.take(k as int) =~= run@);
        let mut c: usize = 0;
        while c < n
            invariant
                c <= n,
                n == self.processes@.len(),
                tally@.len() == n,
                counts == self.counts(),
                forall|d: int| 0 <= d < n ==> #[trigger] tally@[d] == occurrences(run@, d as usize),
                forall|d: int| 0 <= d < c ==> tally@[d] == #[trigger] self.processes@[d]@.len(),
            decreases n - c,
        {
            if tally[c] != self.processes[c].len() {
                proof {
                    assert(occurrences(run@, c) == tally@[c as int]);
                }
                return false;
            }
            c = c + 1;
        }
        proof {
            assert forall|v: usize| #[trigger]
                occurrences(run@, v) == (if v < counts.len() {
                    counts[v as int]
                } else {
                    0
                }) by {
                if v < n {
                    assert(tally@[v as int] == occurrences(run@, v));
                } else {
                    lemma_occurrences_absent(run@, v);
                }
            }
        }
        true
    }

    /// Replays one run: takes the steps in the order that `run` gives and
    /// evaluates the invariants after each. Stops at the first invariant
    /// that is false. A run that is no interleaving of the processes' steps
    /// is refused before any step is taken.
    pub fn replay(&self, run: &Vec<usize>) -> (result: Result<Outcome, Fault>)
        requires
            self.callable(),
        ensures
            match result {
                Ok(outcome) => is_interleaving(run@, self.counts()) && match outcome@ {
                    OutcomeView::Passed => self.run_passes(run@),
                    OutcomeView::FailedInvariant(key) => key == KeyView::Run(run@)
                        && self.run_fails(run@),
                    _ => false,
                },
                Err(fault) => fault == Fault::StepCountMismatch && !is_interleaving(
                    run@,
                    self.counts(),
                ),
            },
    {
        if self.fits(run) {
            Ok(self.run_once(run))
        } else {
            Err(Fault::StepCountMismatch)
        }
    }

    fn run_once(&self, run: &Vec<usize>) -> (outcome: Outcome)
        requires
            self.callable(),
            is_interleaving(run@, self.counts()),
        ensures
            match outcome@ {
                OutcomeView::Passed => self.run_passes(run@),
                OutcomeView::FailedInvariant(key) => key == KeyView::Run(run@) && self.run_fails(
                    run@,
                ),
                _ => false,
            },
    {
        let n = self.processes.len();
        let ghost counts = self.counts();
        let mut indices = Self::zeros(n);
        let mut state = self.state.clone();
        let ghost mut states: Seq<A> = seq![state];
        let mut k: usize = 0;
        assert(run@.take(0) =~= Seq::<usize>::empty());
        while k < run.len()
            invariant
                self.callable(),
                counts == self.counts(),
                is_interleaving(run@, counts),
                n == self.processes@.len(),
                indices@.len() == n,
                k <= run@.len(),
                forall|c: int|
                    0 <= c < n ==> #[trigger] indices@[c] == occurrences(
                        run@.take(k as int),
                        c as usize,
                    ),
                states.len() == k + 1,
                states.last() == state,
                self.is_replay(run@, states),
                forall|i: int| 1 <= i < states.len() ==> self.sound_at(#[trigger] states[i]),
            decreases run@.len() - k,
        {
            let choice = run[k];
            proof {
                lemma_occurrences_split(run@, k as int + 1, choice);
                assert(run@.subrange(0, k as int + 1) =~= run@.take(k as int) + seq![choice]);
                lemma_occurrences_concat(run@.take(k as int), seq![choice], choice);
                lemma_occurrences_single(choice, choice);
                assert(occurrences(run@, choice) == (if choice < counts.len() {
                    counts[choice as int]
                } else {
                    0
                }));
            }
            let index = indices[choice];
            assert(index < self.processes[choice as int].len());
            let step = &self.processes[choice][index].1;
            indices[choice] = index + 1;
            state = step(state);
            proof {
                let longer = states.push(state);
                assert forall|i: int| 0 <= i < longer.len() - 1 implies call_ensures(
                    step_at(self.processes@, run@, i),
                    (longer[i],),
                    #[trigger] longer[i + 1],
                ) by {
                    if i < states.len() - 1 {
                        assert(longer[i] == states[i] && longer[i + 1] == states[i + 1]);
                    }
                }
                states = longer;
                assert forall|c: int| 0 <= c < n implies #[trigger] indices@[c] == occurrences(
                    run@.take(k as int + 1),
                    c as usize,
                ) by {
                    assert(run@.take(k as int + 1) =~= run@.take(k as int) + seq![choice]);
                    lemma_occurrences_concat(run@.take(k as int), seq![choice], c as usize);
                    lemma_occurrences_single(choice, c as usize);
                }
            }
            let mut j: usize = 0;
            while j < self.invariants.len()
                invariant
                    self.callable(),
                    j <= self.invariants@.len(),
                    states.len() == k + 2,
                    states.last() == state,
                    self.is_replay(run@, states),
                    is_interleaving(run@, self.counts()),
                    k < run@.len(),
                    forall|i: int|
                        1 <= i < states.len() - 1 ==> self.sound_at(#[trigger] states[i]),
                    forall|i: int|
                        0 <= i < j ==> #[trigger] call_ensures(
                            self.invariants@[i],
                            (&state,),
                            true,
                        ),
                decreases self.invariants@.len() - j,
            {
                let predicate = &self.invariants[j];
                let holds = predicate(&state);
                if !holds {
                    proof {
                        assert(call_ensures(self.invariants@[j as int], (&state,), false));
                        assert(self.fails(run@, states));
                    }
                    return Outcome::FailedInvariant(TrialKey::Run(run.clone()));
                }
                j = j + 1;
            }
            k = k + 1;
        }
        proof {
            assert(self.passes(run@, states));
        }
        Outcome::Passed
    }

    /// Replays every interleaving of the processes' steps, in the order of
    /// the enumeration, and stops at the first of which the replay fails.
    pub fn check(&self) -> (outcome: Outcome)
        requires
            self.callable(),
        ensures
            match outcome@ {
                OutcomeView::Passed => self.all_pass(),
                OutcomeView::FailedInvariant(KeyView::Run(run)) => self.first_failure(run),
                _ => false,
            },
    {
        let mut runs = Runs::new(&self.processes);
        let ghost counts = self.counts();
        let ghost mut k: nat = 0;
        assert(counts.len() == self.processes.len());
        loop
            invariant
                self.callable(),
                counts == self.counts(),
                counts.len() <= usize::MAX,
                k <= run_count(counts),
                runs.upcoming() == nth_run(counts, k),
                forall|e: nat|
                    e < k ==> self.run_passes((#[trigger] nth_run(counts, e)).unwrap()),
            decreases run_count(counts) - k,
        {
            match runs.next() {
                None => {
                    proof {
                        if k < run_count(counts) {
                            lemma_nth_run(counts, k);
                        }
                    }
                    return Outcome::Passed;
                },
                Some(run) => {
                    proof {
                        if k >= run_count(counts) {
                            lemma_nth_run_end(counts, k);
                        }
                        lemma_nth_run(counts, k);
                    }
                    let outcome = self.run_once(&run);
                    if !outcome.passed() {
                        return outcome;
                    }
                    proof {
                        assert(nth_run(counts, k + 1) == following(
                            nth_run(counts, k),
                        ));
                        k = k + 1;
                    }
                },
            }
        }
    }

    /// Replays every interleaving of the processes' steps, in the order of
    /// the enumeration. Where a replay fails, the error is the key of the
    /// first run that failed: with it the failure can be replayed.
    pub fn test(&self) -> (result: Result<(), TrialKey>)
        requires
            self.callable(),
        ensures
            match result {
                Ok(_) => self.all_pass(),
                Err(key) => key@ matches KeyView::Run(run) && self.first_failure(run),
            },
    {
        match self.check() {
            Outcome::FailedInvariant(key) => Err(key),
            _ => Ok(()),
        }
    }
}

/// The factorial of `n`, where it fits the machine's word.
pub fn fact(n: usize) -> (product: usize)
    requires
        factorial(n as nat) <= usize::MAX,
    ensures
        product == factorial(n as nat),
{
    let mut product: usize = 1;
    let mut i: usize = 0;
    while i < n
        invariant
            i <= n,
            product == factorial(i as nat),
            factorial(n as nat) <= usize::MAX,
        decreases n - i,
    {
        i = i + 1;
        proof {
            lemma_factorial_monotone(i as nat, n as nat);
            assert(factorial(i as nat) == i * factorial((i - 1) as nat));
            assert(product * i == i * product) by (nonlinear_arith);
        }
        product = product * i;
    }
    product
}

/// The factorial never decreases.
pub proof fn lemma_factorial_monotone(i: nat, n: nat)
    requires
        i <= n,
    ensures
        1 <= factorial(i) <= factorial(n),
    decreases n,
{
    if i < n {
        lemma_factorial_monotone(i, (n - 1) as nat);
        let f = factorial((n - 1) as nat);
        assert(n * f >= f) by (nonlinear_arith)
            requires
                n >= 1,
                f >= 0,
        ;
    } else if n > 0 {
        lemma_factorial_monotone((i - 1) as nat, (n - 1) as nat);
        let f = factorial((n - 1) as nat);
        assert(n * f >= f) by (nonlinear_arith)
            requires
                n >= 1,
                f >= 0,
        ;
    }
}

} // verus!
