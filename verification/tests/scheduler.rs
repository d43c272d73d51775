use deterministic::coordinator::{Action, Coordinator, SchedulerMessage};
use deterministic::outcome::{Outcome, TrialKey};
use deterministic::scheduler::{
    first_failed, steps_after, steps_before, Acquisition, Handle, Misuse, Scheduler, Standing,
    TRIALS,
};
use std::cell::Cell;

#[derive(Debug)]
struct SharedState {
    x: usize,
    y: usize,
}

/// Where a participant stops after a grant.
enum Pause {
    /// At a scheduling point; the number says where it goes on from.
    Step(usize),
    /// At its end.
    Done,
    /// In a panic.
    Panic(&'static str),
}

/// A participant: given the place it goes on from, it runs up to its next
/// scheduling point.
type Target = fn(usize, &mut SharedState) -> Pause;

type Declared = Scheduler<fn() -> SharedState, Target>;

// Two rounds of: step, lock, step, x = 1, step, y = 1, step.
fn t1(at: usize, ss: &mut SharedState) -> Pause {
    match at {
        0 | 1 | 4 | 5 => Pause::Step(at + 1),
        2 | 6 => {
            ss.x = 1;
            Pause::Step(at + 1)
        }
        3 | 7 => {
            ss.y = 1;
            Pause::Step(at + 1)
        }
        _ => Pause::Done,
    }
}

// Two rounds of: step, lock, step, x = 0, step, unlock, step,
// and where x > 0: step, y += 1, step, x = 2.
fn t2(at: usize, ss: &mut SharedState) -> Pause {
    let round = at / 10;
    let next_round = if round == 0 { Pause::Step(11) } else { Pause::Done };
    match at % 10 {
        0 => Pause::Step(1),
        1 | 3 => Pause::Step(at + 1),
        2 => {
            ss.x = 0;
            Pause::Step(at + 1)
        }
        4 => {
            if ss.x > 0 {
                Pause::Step(at + 1)
            } else {
                next_round
            }
        }
        5 => {
            ss.y += 1;
            Pause::Step(at + 1)
        }
        _ => {
            ss.x = 2;
            next_round
        }
    }
}

// Two rounds of: step, and where x > 1: step, and a panic where y == 3,
// else: step, y = 2.
fn t3(at: usize, ss: &mut SharedState) -> Pause {
    let round = at / 10;
    let next_round = if round == 0 { Pause::Step(11) } else { Pause::Done };
    match at % 10 {
        0 => Pause::Step(1),
        1 => {
            if ss.x > 1 {
                Pause::Step(at + 1)
            } else {
                next_round
            }
        }
        2 => {
            if ss.y == 3 {
                Pause::Panic("ahhh wtf")
            } else {
                Pause::Step(at + 1)
            }
        }
        _ => {
            ss.y = 2;
            next_round
        }
    }
}

fn fresh() -> SharedState {
    SharedState { x: 0, y: 0 }
}

fn declare() -> Declared {
    let mut scheduler: Declared = Scheduler::with_initializer(fresh as fn() -> SharedState);
    scheduler.add(t1 as Target);
    scheduler.add(t2 as Target);
    scheduler.add(t3 as Target);
    scheduler
}

/// One trial under a seed. Returns the outcome and the participants in the
/// order of their grants.
fn run_with_seed(scheduler: &Declared, seed: usize) -> (Outcome, Vec<usize>) {
    run_trial(scheduler, scheduler.coordinator(seed), |_| true)
}

/// One trial in the order of a run.
fn replay(scheduler: &Declared, run: &Vec<usize>, holds: fn(&SharedState) -> bool) -> Outcome {
    let coordinator = Coordinator::replaying(scheduler.targets().len(), run.clone());
    run_trial(scheduler, coordinator, holds).0
}

/// One trial: every participant is run by its handle and the coordinator's
/// grants. Returns the outcome and the participants in the order of their grants.
fn run_trial(
    scheduler: &Declared,
    mut coordinator: Coordinator,
    holds: fn(&SharedState) -> bool,
) -> (Outcome, Vec<usize>) {
    let mut shared = (scheduler.initializer())();
    let targets = scheduler.targets();
    let mut handles: Vec<Handle> = targets.iter().map(|_| Handle::new()).collect();
    let mut places: Vec<usize> = vec![0; targets.len()];
    let mut panics: Vec<Option<String>> = vec![None; targets.len()];
    let mut action = coordinator.pending();
    loop {
        action = match action {
            Action::Await(i) => coordinator.message(handles[i].bind().unwrap()),
            Action::Select => coordinator.select(),
            Action::Grant(i) => {
                handles[i].granted().unwrap();
                match (targets[i])(places[i], &mut shared) {
                    Pause::Step(next) => {
                        places[i] = next;
                        coordinator.message(handles[i].step().unwrap())
                    }
                    Pause::Done => coordinator.message(handles[i].exit().unwrap()),
                    Pause::Panic(payload) => {
                        panics[i] = Some(String::from(payload));
                        coordinator.message(handles[i].exit().unwrap())
                    }
                }
            }
            Action::Join(i) => coordinator.joined(panics[i].take()),
            Action::Check => coordinator.checked(holds(&shared)),
            Action::Finish(_) => {
                let order = coordinator.trace().iter().map(|entry| entry.0).collect();
                return (coordinator.outcome().unwrap(), order);
            }
            Action::Abort(fault) => panic!("trial aborted: {:?}", fault),
        };
    }
}

#[test]
fn complex_race() {
    let scheduler = declare();

    let report = scheduler.explore(|s, seed| run_with_seed(s, seed).0);

    // Every seed was tried, whatever the seeds before it came to.
    assert_eq!(report.len(), TRIALS);
    for (seed, entry) in report.iter().enumerate() {
        assert_eq!(entry.0, seed);
    }
    let at = match first_failed(&report) {
        Some(at) => at,
        None => panic!("the race was not found"),
    };
    let seed = report[at].0;
    assert_eq!(report[at].1, Outcome::Panicked(TrialKey::Seed(seed), String::from("ahhh wtf")));
    // The seed brings the failure back, by the same order.
    let again = declare();
    let (first, first_order) = run_with_seed(&again, seed);
    let (second, second_order) = run_with_seed(&again, seed);
    assert_eq!(first, report[at].1);
    assert_eq!(second, report[at].1);
    assert_eq!(first_order, second_order);
    // Every seed before it passed, and the failure kept no later seed from passing.
    for earlier in 0..at {
        assert_eq!(report[earlier].1, Outcome::Passed);
    }
    assert!(report[at + 1..].iter().any(|entry| entry.1 == Outcome::Passed));
    // Each failure of the batch is a panic under its own seed.
    for entry in &report {
        assert!(
            entry.1 == Outcome::Passed
                || entry.1 == Outcome::Panicked(TrialKey::Seed(entry.0), String::from("ahhh wtf"))
        );
    }
}

#[test]
fn a_scheduler_keeps_what_was_declared() {
    let mut scheduler: Declared = Scheduler::with_initializer(fresh as fn() -> SharedState);
    assert_eq!(scheduler.targets().len(), 0);
    scheduler.add(t3 as Target);
    scheduler.add(t1 as Target);
    assert_eq!(scheduler.targets().len(), 2);
    let mut ss = (scheduler.initializer())();
    assert_eq!(ss.x, 0);
    assert_eq!(ss.y, 0);
    // The second participant declared is t1: its third stretch sets x.
    (scheduler.targets()[1])(2, &mut ss);
    assert_eq!(ss.x, 1);
    let coordinator = scheduler.coordinator(3);
    assert_eq!(coordinator.statuses().len(), 2);
    assert_eq!(coordinator.pending(), Action::Await(0));
}

#[test]
fn explore_tries_every_seed_while_all_pass() {
    let scheduler = declare();
    let calls = Cell::new(0usize);
    let report = scheduler.explore(|_, seed| {
        assert_eq!(seed, calls.get());
        calls.set(calls.get() + 1);
        Outcome::Passed
    });
    assert_eq!(calls.get(), TRIALS);
    assert_eq!(TRIALS, 100_000);
    assert_eq!(report.len(), TRIALS);
    assert_eq!(report[0], (0, Outcome::Passed));
    assert_eq!(report[99_999], (99_999, Outcome::Passed));
    assert_eq!(first_failed(&report), None);
}

#[test]
fn a_failure_does_not_end_the_batch() {
    let scheduler = declare();
    let calls = Cell::new(0usize);
    let report = scheduler.explore(|_, seed| {
        calls.set(calls.get() + 1);
        if seed == 7 || seed == 11 {
            Outcome::FailedInvariant(TrialKey::Seed(seed))
        } else {
            Outcome::Passed
        }
    });
    assert_eq!(calls.get(), TRIALS);
    assert_eq!(report.len(), TRIALS);
    assert_eq!(report[6], (6, Outcome::Passed));
    assert_eq!(report[7], (7, Outcome::FailedInvariant(TrialKey::Seed(7))));
    assert_eq!(report[8], (8, Outcome::Passed));
    assert_eq!(report[11], (11, Outcome::FailedInvariant(TrialKey::Seed(11))));
    assert_eq!(first_failed(&report), Some(7));
}

#[test]
fn explore_hands_the_scheduler_to_the_trial() {
    let scheduler = declare();
    let report = scheduler.explore(|s, seed| {
        if s.targets().len() == 3 && seed == 0 {
            Outcome::TimedOut(TrialKey::Seed(seed))
        } else {
            Outcome::Passed
        }
    });
    assert_eq!(report[0], (0, Outcome::TimedOut(TrialKey::Seed(0))));
    assert_eq!(first_failed(&report), Some(0));
}

#[test]
fn the_first_failure_of_a_report() {
    assert_eq!(first_failed(&vec![]), None);
    assert_eq!(first_failed(&vec![(0, Outcome::Passed), (1, Outcome::Passed)]), None);
    let report = vec![
        (0, Outcome::Passed),
        (1, Outcome::TimedOut(TrialKey::Seed(1))),
        (2, Outcome::Passed),
        (3, Outcome::Panicked(TrialKey::Seed(3), String::from("boom"))),
    ];
    assert_eq!(first_failed(&report), Some(1));
}

#[test]
fn a_handle_goes_from_rendezvous_over_steps_to_exit() {
    let mut handle = Handle::new();
    assert_eq!(handle.position(), Standing::Unbound);
    assert_eq!(handle.steps_taken(), 0);
    assert_eq!(handle.bind(), Ok(SchedulerMessage::Rendezvous));
    assert_eq!(handle.position(), Standing::Parked);
    assert_eq!(handle.granted(), Ok(()));
    assert_eq!(handle.position(), Standing::Running);
    assert_eq!(handle.step(), Ok(SchedulerMessage::Step));
    assert_eq!(handle.position(), Standing::Parked);
    assert_eq!(handle.steps_taken(), 1);
    assert_eq!(handle.granted(), Ok(()));
    assert_eq!(handle.step(), Ok(SchedulerMessage::Step));
    assert_eq!(handle.steps_taken(), 2);
    assert_eq!(handle.granted(), Ok(()));
    assert_eq!(handle.exit(), Some(SchedulerMessage::Exit));
    assert_eq!(handle.position(), Standing::Exited);
    assert_eq!(handle.steps_taken(), 2);
}

#[test]
fn a_step_outside_a_granted_stretch_is_refused() {
    let mut handle = Handle::new();
    assert_eq!(handle.step(), Err(Misuse::NotRunning));
    assert_eq!(handle.position(), Standing::Unbound);
    handle.bind().unwrap();
    assert_eq!(handle.step(), Err(Misuse::NotRunning));
    assert_eq!(handle.position(), Standing::Parked);
    handle.granted().unwrap();
    handle.exit();
    assert_eq!(handle.step(), Err(Misuse::NotRunning));
    assert_eq!(handle.steps_taken(), 0);
}

#[test]
fn a_handle_is_bound_once() {
    let mut handle = Handle::new();
    assert_eq!(handle.bind(), Ok(SchedulerMessage::Rendezvous));
    assert_eq!(handle.bind(), Err(Misuse::AlreadyBound));
    handle.granted().unwrap();
    assert_eq!(handle.bind(), Err(Misuse::AlreadyBound));
    assert_eq!(handle.position(), Standing::Running);
}

#[test]
fn a_grant_needs_a_parked_participant() {
    let mut handle = Handle::new();
    assert_eq!(handle.granted(), Err(Misuse::NotParked));
    handle.bind().unwrap();
    assert_eq!(handle.granted(), Ok(()));
    assert_eq!(handle.granted(), Err(Misuse::NotParked));
    handle.exit();
    assert_eq!(handle.granted(), Err(Misuse::NotParked));
}

#[test]
fn an_exit_is_sent_once_from_wherever_the_participant_stands() {
    let mut unbound = Handle::new();
    assert_eq!(unbound.exit(), Some(SchedulerMessage::Exit));
    assert_eq!(unbound.exit(), None);
    assert_eq!(unbound.position(), Standing::Exited);

    let mut parked = Handle::new();
    parked.bind().unwrap();
    assert_eq!(parked.exit(), Some(SchedulerMessage::Exit));
    assert_eq!(parked.exit(), None);
}

#[test]
fn every_lock_operation_steps_once_before_the_lock() {
    for operation in [
        Acquisition::Lock,
        Acquisition::TryLock,
        Acquisition::Read,
        Acquisition::TryRead,
        Acquisition::Write,
        Acquisition::TryWrite,
    ] {
        assert_eq!(steps_before(operation), 1);
    }
}

#[test]
fn only_a_taken_read_lock_steps_once_more() {
    assert_eq!(steps_after(Acquisition::Read, true), 1);
    assert_eq!(steps_after(Acquisition::TryRead, true), 1);
    assert_eq!(steps_after(Acquisition::Read, false), 0);
    assert_eq!(steps_after(Acquisition::TryRead, false), 0);
    for acquired in [true, false] {
        assert_eq!(steps_after(Acquisition::Lock, acquired), 0);
        assert_eq!(steps_after(Acquisition::TryLock, acquired), 0);
        assert_eq!(steps_after(Acquisition::Write, acquired), 0);
        assert_eq!(steps_after(Acquisition::TryWrite, acquired), 0);
    }
}

// x = 1, step, y += x.
fn q0(at: usize, ss: &mut SharedState) -> Pause {
    match at {
        0 => {
            ss.x = 1;
            Pause::Step(1)
        }
        _ => {
            ss.y += ss.x;
            Pause::Done
        }
    }
}

// x = 5, step, y += x.
fn q1(at: usize, ss: &mut SharedState) -> Pause {
    match at {
        0 => {
            ss.x = 5;
            Pause::Step(1)
        }
        _ => {
            ss.y += ss.x;
            Pause::Done
        }
    }
}

fn declare_two() -> Declared {
    let mut scheduler: Declared = Scheduler::with_initializer(fresh as fn() -> SharedState);
    scheduler.add(q0 as Target);
    scheduler.add(q1 as Target);
    scheduler
}

#[test]
fn exhaust_replays_every_interleaving_while_all_pass() {
    let scheduler = declare_two();
    let seen: std::cell::RefCell<Vec<Vec<usize>>> = std::cell::RefCell::new(Vec::new());
    let outcome = scheduler.exhaust(&vec![2, 2], |s, run| {
        seen.borrow_mut().push(run.clone());
        replay(s, run, |_| true)
    });
    assert_eq!(outcome, Outcome::Passed);
    assert_eq!(
        seen.into_inner(),
        vec![
            vec![0, 0, 1, 1],
            vec![0, 1, 0, 1],
            vec![0, 1, 1, 0],
            vec![1, 0, 0, 1],
            vec![1, 0, 1, 0],
            vec![1, 1, 0, 0],
        ]
    );
}

#[test]
fn exhaust_stops_at_the_first_run_that_fails() {
    let scheduler = declare_two();
    let calls = Cell::new(0usize);
    let outcome = scheduler.exhaust(&vec![2, 2], |s, run| {
        calls.set(calls.get() + 1);
        replay(s, run, |ss| ss.y != 10)
    });
    assert_eq!(outcome, Outcome::FailedInvariant(TrialKey::Run(vec![0, 1, 0, 1])));
    assert_eq!(calls.get(), 2);
}

#[test]
fn sample_tries_the_seeds_below_the_bound() {
    let scheduler = declare_two();
    let calls = Cell::new(0usize);
    let report = scheduler.sample(25, |s, seed| {
        calls.set(calls.get() + 1);
        run_with_seed(s, seed).0
    });
    assert_eq!(calls.get(), 25);
    assert_eq!(report.len(), 25);
    for (seed, entry) in report.iter().enumerate() {
        assert_eq!(entry, &(seed, Outcome::Passed));
    }
    assert_eq!(scheduler.sample(0, |_, seed| Outcome::TimedOut(TrialKey::Seed(seed))), vec![]);
    assert_eq!(
        scheduler.sample(3, |_, seed| Outcome::TimedOut(TrialKey::Seed(seed))),
        vec![
            (0, Outcome::TimedOut(TrialKey::Seed(0))),
            (1, Outcome::TimedOut(TrialKey::Seed(1))),
            (2, Outcome::TimedOut(TrialKey::Seed(2))),
        ]
    );
}
