//! How a trial ended, and what it takes to run it again.

use vstd::prelude::*;

verus! {

/// What selects the order of one trial: the seed of its generator, or the
/// run that it replays. With it a trial can be run again in isolation.
#[derive(Debug, PartialEq, Eq)]
pub enum TrialKey {
    Seed(usize),
    Run(Vec<usize>),
}

/// The mathematical value of a `TrialKey`.
pub enum KeyView {
    Seed(usize),
    Run(Seq<usize>),
}

impl View for TrialKey {
    type V = KeyView;

    open spec fn view(&self) -> KeyView {
        match self {
            TrialKey::Seed(seed) => KeyView::Seed(*seed),
            TrialKey::Run(run) => KeyView::Run(run@),
        }
    }
}

impl TrialKey {
    /// A copy of this key.
    pub fn duplicate(&self) -> (copy: TrialKey)
        ensures
            copy@ == self@,
    {
        match self {
            TrialKey::Seed(seed) => TrialKey::Seed(*seed),
            TrialKey::Run(run) => TrialKey::Run(run.clone()),
        }
    }
}

/// How a trial ended.
#[derive(Debug, PartialEq, Eq)]
pub enum Outcome {
    /// Every participant exited and every invariant held after every step.
    Passed,
    /// An invariant was false after a step.
    FailedInvariant(TrialKey),
    /// A participant panicked; the second field is the panic's message.
    Panicked(TrialKey, String),
    /// The deadline passed before every participant had exited.
    TimedOut(TrialKey),
}

/// The mathematical value of an `Outcome`.
pub enum OutcomeView {
    Passed,
    FailedInvariant(KeyView),
    Panicked(KeyView, Seq<char>),
    TimedOut(KeyView),
}

impl View for Outcome {
    type V = OutcomeView;

    open spec fn view(&self) -> OutcomeView {
        match self {
            Outcome::Passed => OutcomeView::Passed,
            Outcome::FailedInvariant(key) => OutcomeView::FailedInvariant(key@),
            Outcome::Panicked(key, payload) => OutcomeView::Panicked(key@, payload@),
            Outcome::TimedOut(key) => OutcomeView::TimedOut(key@),
        }
    }
}

impl Outcome {
    /// A copy of this outcome.
    pub fn duplicate(&self) -> (copy: Outcome)
        ensures
            copy@ == self@,
    {
        match self {
            Outcome::Passed => Outcome::Passed,
            Outcome::FailedInvariant(key) => Outcome::FailedInvariant(key.duplicate()),
            Outcome::Panicked(key, payload) => Outcome::Panicked(key.duplicate(), payload.clone()),
            Outcome::TimedOut(key) => Outcome::TimedOut(key.duplicate()),
        }
    }

    /// Whether the trial passed.
    pub fn passed(&self) -> (yes: bool)
        ensures
            yes == (self@ == OutcomeView::Passed),
    {
        match self {
            Outcome::Passed => true,
            _ => false,
        }
    }
}

} // verus!
