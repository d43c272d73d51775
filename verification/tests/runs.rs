use deterministic::model::{fact, Process, System};
use deterministic::runs::Runs;

fn all_runs(counts: &[usize]) -> Vec<Vec<usize>> {
    let steps: Vec<Vec<u8>> = counts.iter().map(|n| vec![0u8; *n]).collect();
    let mut runs = Runs::new(&steps);
    let mut out = Vec::new();
    while let Some(run) = runs.next() {
        out.push(run);
    }
    out
}

fn multinomial(counts: &[usize]) -> usize {
    let total: usize = counts.iter().sum();
    let mut result = fact(total);
    for n in counts {
        result /= fact(*n);
    }
    result
}

#[test]
fn model_it_works() {
    let a = vec![11, 12];
    let b = vec![21, 22];
    let c = vec![31, 32];

    let mut runs = Runs::new(&vec![a, b, c]);
    while let Some(i) = runs.next() {
        println!("i: {:?}", i);
    }

    type Step = Box<dyn Fn(()) -> ()>;
    let p_a: Process<Step> = Process::new(vec![
        ("a1", Box::new(|()| println!("a1")) as Step),
        ("a2", Box::new(|()| println!("a2")) as Step),
        ("a3", Box::new(|()| println!("a3")) as Step),
    ]);

    let p_b: Process<Step> = Process::new(vec![
        ("b1", Box::new(|()| println!("b1")) as Step),
        ("b2", Box::new(|()| println!("b2")) as Step),
        ("b3", Box::new(|()| println!("b3")) as Step),
    ]);

    let invariants: Vec<Box<dyn Fn(&()) -> bool>> = vec![];
    let system = System { state: (), invariants, processes: vec![p_a.0, p_b.0] };

    system.test().unwrap();
}

#[test]
fn process_keeps_notes_and_order() {
    type Step = Box<dyn Fn(u32) -> u32>;
    let p: Process<Step> = Process::new(vec![
        ("double", Box::new(|x: u32| -> u32 { x * 2 }) as Step),
        ("inc", Box::new(|x: u32| -> u32 { x + 1 }) as Step),
        ("square", Box::new(|x: u32| -> u32 { x * x }) as Step),
    ]);
    assert_eq!(p.0.len(), 3);
    assert_eq!(p.0[0].0.as_deref(), Some("double"));
    assert_eq!(p.0[1].0.as_deref(), Some("inc"));
    assert_eq!(p.0[2].0.as_deref(), Some("square"));
    assert_eq!((p.0[0].1)(5), 10);
    assert_eq!((p.0[1].1)(5), 6);
    assert_eq!((p.0[2].1)(5), 25);
}

#[test]
fn empty_process() {
    let p: Process<Box<dyn Fn(u32) -> u32>> = Process::new(vec![]);
    assert_eq!(p.0.len(), 0);
}

#[test]
fn first_run_is_sorted() {
    let steps: Vec<Vec<u8>> = vec![vec![0; 2], vec![], vec![0; 3], vec![0; 1]];
    let mut runs = Runs::new(&steps);
    assert_eq!(runs.next(), Some(vec![0, 0, 2, 2, 2, 3]));
}

#[test]
fn two_participants_one_step_each() {
    assert_eq!(all_runs(&[1, 1]), vec![vec![0, 1], vec![1, 0]]);
}

#[test]
fn runs_of_two_and_one() {
    assert_eq!(all_runs(&[2, 1]), vec![vec![0, 0, 1], vec![0, 1, 0], vec![1, 0, 0]]);
}

#[test]
fn runs_of_one_two_one_in_order() {
    let expected: Vec<Vec<usize>> = vec![
        vec![0, 1, 1, 2],
        vec![0, 1, 2, 1],
        vec![0, 2, 1, 1],
        vec![1, 0, 1, 2],
        vec![1, 0, 2, 1],
        vec![1, 1, 0, 2],
        vec![1, 1, 2, 0],
        vec![1, 2, 0, 1],
        vec![1, 2, 1, 0],
        vec![2, 0, 1, 1],
        vec![2, 1, 0, 1],
        vec![2, 1, 1, 0],
    ];
    assert_eq!(all_runs(&[1, 2, 1]), expected);
}

#[test]
fn single_participant_without_steps_has_one_empty_run() {
    let steps: Vec<Vec<u8>> = vec![vec![]];
    let mut runs = Runs::new(&steps);
    assert_eq!(runs.next(), Some(vec![]));
    assert_eq!(runs.next(), None);
    assert_eq!(runs.next(), None);
}

#[test]
fn no_participants_have_one_empty_run() {
    let steps: Vec<Vec<u8>> = vec![];
    let mut runs = Runs::new(&steps);
    assert_eq!(runs.next(), Some(vec![]));
    assert_eq!(runs.next(), None);
}

#[test]
fn single_participant_has_one_run() {
    assert_eq!(all_runs(&[4]), vec![vec![0, 0, 0, 0]]);
}

#[test]
fn exhausted_enumerator_stays_exhausted() {
    let steps: Vec<Vec<u8>> = vec![vec![0; 1], vec![0; 1]];
    let mut runs = Runs::new(&steps);
    assert_eq!(runs.next(), Some(vec![0, 1]));
    assert_eq!(runs.next(), Some(vec![1, 0]));
    assert_eq!(runs.next(), None);
    assert_eq!(runs.next(), None);
}

#[test]
fn three_participants_of_two_steps_have_ninety_runs() {
    let runs = all_runs(&[2, 2, 2]);
    assert_eq!(runs.len(), 90);
    assert_eq!(runs[0], vec![0, 0, 1, 1, 2, 2]);
    assert_eq!(runs[89], vec![2, 2, 1, 1, 0, 0]);
}

#[test]
fn run_counts_are_multinomial_coefficients() {
    let cases: Vec<Vec<usize>> = vec![
        vec![0],
        vec![1],
        vec![3],
        vec![1, 1],
        vec![2, 2],
        vec![3, 1],
        vec![0, 2, 0, 1],
        vec![2, 2, 2],
        vec![1, 1, 1, 1],
        vec![3, 2, 1],
        vec![4, 3],
        vec![2, 3, 2],
    ];
    for counts in cases {
        assert_eq!(all_runs(&counts).len(), multinomial(&counts));
    }
}

#[test]
fn runs_are_distinct_interleavings_in_rising_order() {
    let counts = [2usize, 3, 1];
    let runs = all_runs(&counts);
    assert_eq!(runs.len(), 60);
    for run in &runs {
        assert_eq!(run.len(), 6);
        for (who, n) in counts.iter().enumerate() {
            assert_eq!(run.iter().filter(|&&x| x == who).count(), *n);
        }
    }
    for pair in runs.windows(2) {
        assert!(pair[0] < pair[1]);
    }
}

#[test]
fn enumeration_repeats() {
    let first: Vec<Vec<u8>> = vec![vec![1, 2], vec![3], vec![4, 5]];
    let second: Vec<Vec<&str>> = vec![vec!["x", "y"], vec!["z"], vec!["u", "v"]];
    let mut a = Runs::new(&first);
    let mut b = Runs::new(&second);
    let mut n = 0;
    loop {
        let x = a.next();
        let y = b.next();
        assert_eq!(x, y);
        if x.is_none() {
            break;
        }
        n += 1;
    }
    assert_eq!(n, 30);
    assert_eq!(all_runs(&[2, 1, 2]), all_runs(&[2, 1, 2]));
}

#[test]
fn factorials() {
    assert_eq!(fact(0), 1);
    assert_eq!(fact(1), 1);
    assert_eq!(fact(2), 2);
    assert_eq!(fact(3), 6);
    assert_eq!(fact(6), 720);
    assert_eq!(fact(10), 3628800);
    assert_eq!(fact(12), 479001600);
}

#[test]
fn counts_and_step_lists_give_the_same_runs() {
    let counts = vec![1usize, 2, 1];
    let mut by_counts = Runs::with_counts(&counts);
    let mut listed = Vec::new();
    while let Some(run) = by_counts.next() {
        listed.push(run);
    }
    assert_eq!(listed, all_runs(&[1, 2, 1]));
    assert_eq!(listed.len(), 12);
    let mut none = Runs::with_counts(&vec![]);
    assert_eq!(none.next(), Some(vec![]));
    assert_eq!(none.next(), None);
}
