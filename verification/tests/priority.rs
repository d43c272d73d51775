use deterministic::priority::{count_free, draw_priorities, pick_free};
use rand::{SeedableRng, StdRng};

fn generator(seed: usize) -> StdRng {
    SeedableRng::from_seed(&[seed][..])
}

#[test]
fn priorities_lie_in_the_range_and_differ() {
    let mut rng = generator(0);
    for _ in 0..500 {
        let (parent, child) = draw_priorities(&mut rng, 1, 99, &vec![]).unwrap();
        assert!(1 <= parent && parent < 99);
        assert!(1 <= child && child < 99);
        assert_ne!(parent, child);
    }
}

#[test]
fn two_free_priorities_are_both_drawn() {
    let mut rng = generator(3);
    for _ in 0..50 {
        let (parent, child) = draw_priorities(&mut rng, -3, -1, &vec![]).unwrap();
        assert!((parent, child) == (-3, -2) || (parent, child) == (-2, -3));
    }
}

#[test]
fn taken_priorities_are_not_drawn() {
    let mut rng = generator(5);
    let taken = vec![2, 3, 5, 7, 40];
    for _ in 0..200 {
        let (parent, child) = draw_priorities(&mut rng, 1, 9, &taken).unwrap();
        assert!([1, 4, 6, 8].contains(&parent));
        assert!([1, 4, 6, 8].contains(&child));
        assert_ne!(parent, child);
    }
}

#[test]
fn priorities_stay_apart_across_spawns() {
    let mut rng = generator(9);
    let mut taken: Vec<i32> = Vec::new();
    for _ in 0..49 {
        let (parent, child) = draw_priorities(&mut rng, 1, 99, &taken).unwrap();
        assert!(!taken.contains(&parent));
        assert!(!taken.contains(&child));
        assert_ne!(parent, child);
        taken.push(parent);
        taken.push(child);
    }
    assert_eq!(taken.len(), 98);
    assert_eq!(count_free(1, 99, &taken), 0);
    assert_eq!(draw_priorities(&mut rng, 1, 99, &taken), None);
}

#[test]
fn fewer_than_two_free_priorities_give_none() {
    let mut rng = generator(0);
    assert_eq!(draw_priorities(&mut rng, 5, 5, &vec![]), None);
    assert_eq!(draw_priorities(&mut rng, 9, 2, &vec![]), None);
    assert_eq!(draw_priorities(&mut rng, 5, 6, &vec![]), None);
    assert_eq!(draw_priorities(&mut rng, 5, 8, &vec![5, 7]), None);
}

#[test]
fn free_priorities_are_counted_off_in_rising_order() {
    let taken = vec![3, 1, 3, 20];
    assert_eq!(count_free(0, 6, &taken), 4);
    assert_eq!(pick_free(0, 6, &taken, 0), Some(0));
    assert_eq!(pick_free(0, 6, &taken, 1), Some(2));
    assert_eq!(pick_free(0, 6, &taken, 2), Some(4));
    assert_eq!(pick_free(0, 6, &taken, 3), Some(5));
    assert_eq!(pick_free(0, 6, &taken, 4), None);
    assert_eq!(count_free(6, 0, &taken), 0);
    assert_eq!(pick_free(6, 0, &taken, 0), None);
    assert_eq!(count_free(-2, 2, &vec![]), 4);
    assert_eq!(pick_free(-2, 2, &vec![], 3), Some(1));
}

#[test]
fn priorities_vary() {
    let mut rng = generator(1);
    let mut seen: Vec<i32> = Vec::new();
    for _ in 0..40 {
        let (parent, child) = draw_priorities(&mut rng, 0, 1000, &vec![]).unwrap();
        for p in [parent, child] {
            if !seen.contains(&p) {
                seen.push(p);
            }
        }
    }
    assert!(seen.len() > 2);
}

#[test]
fn the_same_seed_gives_the_same_priorities() {
    let mut first = generator(42);
    let mut second = generator(42);
    let mut taken: Vec<i32> = Vec::new();
    for _ in 0..40 {
        let a = draw_priorities(&mut first, 1, 99, &taken);
        let b = draw_priorities(&mut second, 1, 99, &taken);
        assert_eq!(a, b);
        taken.push(a.unwrap().1);
    }
}
