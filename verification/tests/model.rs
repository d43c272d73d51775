use deterministic::coordinator::Fault;
use deterministic::model::{Process, System};
use deterministic::outcome::{Outcome, TrialKey};

type Cells = (i64, i64);
type Step = Box<dyn Fn(Cells) -> Cells>;
type Check = Box<dyn Fn(&Cells) -> bool>;

fn bump() -> Step {
    Box::new(|(x, y): Cells| -> Cells { if x > 0 { (x, y + 1) } else { (x, y) } })
}

/// Three processes of two steps each on two cells. `A` adds one to `y`
/// whenever `x` is set; `B` sets `y` and then `x`; `C` overwrites `y`
/// once `x` is above one and then clears `x`.
fn racy(invariants: Vec<Check>) -> System<Cells, Step, Check> {
    let a: Process<Step> = Process::new(vec![("a1", bump()), ("a2", bump())]);
    let b: Process<Step> = Process::new(vec![
        ("b1", Box::new(|(x, _): Cells| -> Cells { (x, 1) }) as Step),
        ("b2", Box::new(|(_, y): Cells| -> Cells { (1, y) }) as Step),
    ]);
    let c: Process<Step> = Process::new(vec![
        ("c1", Box::new(|(x, y): Cells| -> Cells { if x > 1 { (x, 2) } else { (x, y) } }) as Step),
        ("c2", Box::new(|(_, y): Cells| -> Cells { (0, y) }) as Step),
    ]);
    System { state: (0, 0), invariants, processes: vec![a.0, b.0, c.0] }
}

fn y_is_not_three() -> Vec<Check> {
    vec![Box::new(|cells: &Cells| cells.1 != 3) as Check]
}

#[test]
fn exhaustive_mode_finds_the_race() {
    let system = racy(y_is_not_three());
    let outcome = system.check();
    assert_eq!(outcome, Outcome::FailedInvariant(TrialKey::Run(vec![1, 1, 0, 0, 2, 2])));
    assert_eq!(system.test(), Err(TrialKey::Run(vec![1, 1, 0, 0, 2, 2])));
}

#[test]
fn the_failing_run_fails_again_in_isolation() {
    let system = racy(y_is_not_three());
    let run = match system.check() {
        Outcome::FailedInvariant(TrialKey::Run(run)) => run,
        other => panic!("expected a failed invariant, got {:?}", other),
    };
    assert_eq!(system.replay(&run), Ok(Outcome::FailedInvariant(TrialKey::Run(run.clone()))));
    assert_eq!(system.replay(&run), Ok(Outcome::FailedInvariant(TrialKey::Run(run))));
}

#[test]
fn a_run_that_avoids_the_race_passes() {
    let system = racy(y_is_not_three());
    assert_eq!(system.replay(&vec![0, 0, 1, 1, 2, 2]), Ok(Outcome::Passed));
    assert_eq!(system.replay(&vec![1, 0, 1, 0, 2, 2]), Ok(Outcome::Passed));
}

#[test]
fn without_invariants_every_run_passes() {
    let system = racy(vec![]);
    assert_eq!(system.check(), Outcome::Passed);
    assert_eq!(system.test(), Ok(()));
}

#[test]
fn invariants_are_evaluated_after_every_step() {
    // `y` is 3 only between the fourth and the sixth step of this run.
    let system = System {
        state: (0i64, 0i64),
        invariants: y_is_not_three(),
        processes: vec![Process::new(vec![
            ("one", Box::new(|(x, y): Cells| -> Cells { (x, y + 1) }) as Step),
            ("two", Box::new(|(x, y): Cells| -> Cells { (x, y + 1) }) as Step),
            ("three", Box::new(|(x, y): Cells| -> Cells { (x, y + 1) }) as Step),
            ("four", Box::new(|(x, y): Cells| -> Cells { (x, y + 1) }) as Step),
        ])
        .0],
    };
    assert_eq!(system.check(), Outcome::FailedInvariant(TrialKey::Run(vec![0, 0, 0, 0])));
}

#[test]
fn the_initial_state_is_not_checked() {
    let system = System {
        state: (0i64, 3i64),
        invariants: y_is_not_three(),
        processes: vec![Process::new(vec![("clear", Box::new(|(x, _): Cells| -> Cells { (x, 0) }) as Step)]).0],
    };
    assert_eq!(system.check(), Outcome::Passed);
}

#[test]
fn a_system_without_steps_passes() {
    let system: System<Cells, Step, Check> =
        System { state: (0, 3), invariants: y_is_not_three(), processes: vec![vec![]] };
    assert_eq!(system.check(), Outcome::Passed);
    assert_eq!(system.replay(&vec![]), Ok(Outcome::Passed));
}

#[test]
fn a_run_with_too_few_steps_is_refused() {
    let system = racy(vec![]);
    assert_eq!(system.replay(&vec![0, 0, 1, 1, 2]), Err(Fault::StepCountMismatch));
}

#[test]
fn a_run_with_too_many_steps_is_refused() {
    let system = racy(vec![]);
    assert_eq!(system.replay(&vec![0, 0, 0, 1, 1, 2, 2]), Err(Fault::StepCountMismatch));
}

#[test]
fn a_run_with_an_unknown_process_is_refused() {
    let system = racy(vec![]);
    assert_eq!(system.replay(&vec![0, 0, 1, 1, 2, 3]), Err(Fault::StepCountMismatch));
}

#[test]
fn each_replay_starts_from_the_initial_state() {
    let system = System {
        state: (0i64, 0i64),
        invariants: vec![Box::new(|cells: &Cells| cells.1 <= 2) as Check],
        processes: vec![
            Process::new(vec![("a", Box::new(|(x, y): Cells| -> Cells { (x, y + 1) }) as Step)]).0,
            Process::new(vec![("b", Box::new(|(x, y): Cells| -> Cells { (x, y + 1) }) as Step)]).0,
        ],
    };
    // Two runs of two steps each: were the state carried over, `y` would reach 4.
    assert_eq!(system.check(), Outcome::Passed);
}

/// `A` sets `x` and then `y`; `B` and `C` each add `x` to `y` and then do nothing.
fn adders() -> System<(i32, i32), Box<dyn Fn((i32, i32)) -> (i32, i32)>, Box<dyn Fn(&(i32, i32)) -> bool>> {
    type Pair = (i32, i32);
    type Move = Box<dyn Fn(Pair) -> Pair>;
    let a: Vec<(&str, Move)> = vec![
        ("a1", Box::new(|s: Pair| -> Pair { (1, s.1) })),
        ("a2", Box::new(|s: Pair| -> Pair { (s.0, 1) })),
    ];
    let b: Vec<(&str, Move)> = vec![
        ("b1", Box::new(|s: Pair| -> Pair { (s.0, s.1 + s.0) })),
        ("b2", Box::new(|s: Pair| -> Pair { s })),
    ];
    let c: Vec<(&str, Move)> = vec![
        ("c1", Box::new(|s: Pair| -> Pair { (s.0, s.1 + s.0) })),
        ("c2", Box::new(|s: Pair| -> Pair { s })),
    ];
    System {
        state: (0, 0),
        invariants: vec![Box::new(|s: &Pair| s.1 != 3)],
        processes: vec![Process::new(a).0, Process::new(b).0, Process::new(c).0],
    }
}

#[test]
fn a_failed_test_names_the_run_that_failed() {
    let system = adders();
    // The first run drives `y` to 3 at its fifth step.
    let key = system.test().unwrap_err();
    assert_eq!(key, TrialKey::Run(vec![0, 0, 1, 1, 2, 2]));
    let run = match key {
        TrialKey::Run(run) => run,
        TrialKey::Seed(seed) => panic!("a seed where a run was expected: {}", seed),
    };
    assert_eq!(system.replay(&run), Ok(Outcome::FailedInvariant(TrialKey::Run(run.clone()))));
    assert_eq!(system.check(), Outcome::FailedInvariant(TrialKey::Run(run)));
}

#[test]
fn a_test_that_passes_has_no_key() {
    assert_eq!(racy(vec![]).test(), Ok(()));
}
