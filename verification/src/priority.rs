//! Priorities for the threads of a test that is not run under a
//! coordinator. Threads that are pinned to one processor and given
//! real-time priorities drawn from a seeded generator tend to run in the
//! order of their priorities. The operating system keeps the last word:
//! nothing is enumerated and nothing can be replayed for certain.
//!
//! No two threads are given the same priority: a priority is drawn among
//! those that are not taken yet.

use vstd::prelude::*;
use crate::rng::draw_below;

verus! {

/// `p` is a priority from `low` up to, not including, `high` that is not taken.
pub open spec fn is_free(low: int, high: int, taken: Seq<i32>, p: int) -> bool {
    low <= p < high && !taken.contains(p as i32)
}

/// How many priorities from `low` up to, not including, `upto` are not taken.
pub open spec fn free_count(low: int, upto: int, taken: Seq<i32>) -> nat
    decreases upto - low,
{
    if upto <= low {
        0
    } else {
        free_count(low, upto - 1, taken) + (if taken.contains((upto - 1) as i32) {
            0nat
        } else {
            1nat
        })
    }
}

/// `p` is the free priority with `r` free ones below it.
pub open spec fn is_nth_free(low: int, high: int, taken: Seq<i32>, r: nat, p: int) -> bool {
    is_free(low, high, taken, p) && free_count(low, p, taken) == r
}

/// The free priority with `r` free ones below it.
pub open spec fn nth_free(low: int, high: int, taken: Seq<i32>, r: nat) -> int {
    choose|p: int| is_nth_free(low, high, taken, r, p)
}

/// A longer range holds at least as many free priorities.
pub proof fn lemma_free_count_monotone(low: int, a: int, b: int, taken: Seq<i32>)
    requires
        a <= b,
    ensures
        free_count(low, a, taken) <= free_count(low, b, taken),
    decreases b - a,
{
    if a < b {
        lemma_free_count_monotone(low, a, b - 1, taken);
    }
}

/// Only one free priority has `r` free ones below it.
pub proof fn lemma_nth_free_unique(
    low: int,
    high: int,
    taken: Seq<i32>,
    r: nat,
    p1: int,
    p2: int,
)
    requires
        is_nth_free(low, high, taken, r, p1),
        is_nth_free(low, high, taken, r, p2),
    ensures
        p1 == p2,
{
    if p1 < p2 {
        lemma_free_count_monotone(low, p1 + 1, p2, taken);
    } else if p2 < p1 {
        lemma_free_count_monotone(low, p2 + 1, p1, taken);
    }
}

/// With more than `r` priorities free, one of them has `r` free ones below it.
pub proof fn lemma_nth_free_exists(low: int, high: int, taken: Seq<i32>, r: nat)
    requires
        r < free_count(low, high, taken),
    ensures
        is_nth_free(low, high, taken, r, nth_free(low, high, taken, r)),
    decreases high - low,
{
    if high > low {
        if r < free_count(low, high - 1, taken) {
            lemma_nth_free_exists(low, high - 1, taken, r);
            let p = nth_free(low, high - 1, taken, r);
            assert(is_nth_free(low, high, taken, r, p));
        } else {
            assert(is_nth_free(low, high, taken, r, high - 1));
        }
    }
}

/// Taking a free priority leaves one free priority less.
pub proof fn lemma_free_count_push(low: int, upto: int, taken: Seq<i32>, q: i32)
    requires
        !taken.contains(q),
        i32::MIN <= low,
        upto <= i32::MAX + 1,
    ensures
        free_count(low, upto, taken.push(q)) + (if low <= q < upto {
            1nat
        } else {
            0nat
        }) == free_count(low, upto, taken),
        forall|x: i32| #[trigger] taken.push(q).contains(x) <==> taken.contains(x) || x == q,
    decreases upto - low,
{
    let more = taken.push(q);
    assert forall|x: i32| #[trigger] more.contains(x) <==> taken.contains(x) || x == q by {
        if taken.contains(x) {
            let i = choose|i: int| 0 <= i < taken.len() && taken[i] == x;
            assert(more[i] == x);
        }
        if x == q {
            assert(more[taken.len() as int] == x);
        }
        if more.contains(x) {
            let i = choose|i: int| 0 <= i < more.len() && more[i] == x;
            if i < taken.len() {
                assert(taken[i] == x);
            }
        }
    }
    if upto > low {
        lemma_free_count_push(low, upto - 1, taken, q);
    }
}

/// Whether `p` is among `taken`.
fn is_taken(taken: &Vec<i32>, p: i32) -> (yes: bool)
    ensures
        yes == taken@.contains(p),
{
    let mut i: usize = 0;
    while i < taken.len()
        invariant
            i <= taken@.len(),
            forall|k: int| 0 <= k < i ==> taken@[k] != p,
        decreases taken@.len() - i,
    {
        if taken[i] == p {
            return true;
        }
        i = i + 1;
    }
    false
}

/// How many priorities from `low` up to, not including, `high` are not taken.
pub fn count_free(low: i32, high: i32, taken: &Vec<i32>) -> (count: usize)
    ensures
        count == free_count(low as int, high as int, taken@),
{
    if high < low {
        return 0;
    }
    let mut count: usize = 0;
    let mut p: i32 = low;
    while p < high
        invariant
            low <= p <= high,
            count <= p - low,
            count == free_count(low as int, p as int, taken@),
        decreases high - p,
    {
        if !is_taken(taken, p) {
            count = count + 1;
        }
        p = p + 1;
    }
    count
}

/// The free priority with `r` free ones below it, or `None` where that
/// many priorities are not free.
pub fn pick_free(low: i32, high: i32, taken: &Vec<i32>, r: usize) -> (found: Option<i32>)
    ensures
        match found {
            Some(p) => r < free_count(low as int, high as int, taken@) && p == nth_free(
                low as int,
                high as int,
                taken@,
                r as nat,
            ),
            None => r >= free_count(low as int, high as int, taken@),
        },
{
    if high < low {
        return None;
    }
    let mut seen: usize = 0;
    let mut p: i32 = low;
    while p < high
        invariant
            low <= p <= high,
            seen <= p - low,
            seen <= r,
            seen == free_count(low as int, p as int, taken@),
        decreases high - p,
    {
        if !is_taken(taken, p) {
            if seen == r {
                proof {
                    assert(is_nth_free(low as int, high as int, taken@, r as nat, p as int));
                    lemma_free_count_monotone(low as int, p + 1, high as int, taken@);
                    lemma_nth_free_exists(low as int, high as int, taken@, r as nat);
                    lemma_nth_free_unique(
                        low as int,
                        high as int,
                        taken@,
                        r as nat,
                        p as int,
                        nth_free(low as int, high as int, taken@, r as nat),
                    );
                }
                return Some(p);
            }
            seen = seen + 1;
        }
        p = p + 1;
    }
    None
}

/// The priorities for one spawn: the first for the thread that spawns, the
/// second for the thread that is spawned. Both are drawn among the
/// priorities from `low` up to, not including, `high` that are not in
/// `taken`, and the second is not the first. Returns `None`, and draws
/// nothing, where fewer than two priorities are free.
pub fn draw_priorities(rng: &mut rand::StdRng, low: i32, high: i32, taken: &Vec<i32>) -> (drawn:
    Option<(i32, i32)>)
    ensures
        match drawn {
            Some((parent, child)) => {
                &&& is_free(low as int, high as int, taken@, parent as int)
                &&& is_free(low as int, high as int, taken@, child as int)
                &&& parent != child
                &&& exists|first: nat, second: nat|
                    {
                        &&& first < free_count(low as int, high as int, taken@)
                        &&& second + 1 < free_count(low as int, high as int, taken@)
                        &&& parent == nth_free(low as int, high as int, taken@, first)
                        &&& child == #[trigger] nth_free(
                            low as int,
                            high as int,
                            taken@.push(nth_free(low as int, high as int, taken@, first) as i32),
                            second,
                        )
                    }
            },
            None => free_count(low as int, high as int, taken@) < 2,
        },
{
    let free = count_free(low, high, taken);
    if free < 2 {
        return None;
    }
    let first = draw_below(rng, free);
    match pick_free(low, high, taken, first) {
        Some(parent) => {
            let mut both = taken.clone();
            both.push(parent);
            proof {
                lemma_nth_free_exists(low as int, high as int, taken@, first as nat);
                lemma_free_count_push(low as int, high as int, taken@, parent);
                assert(both@ == taken@.push(parent));
            }
            let left = count_free(low, high, &both);
            let second = draw_below(rng, left);
            match pick_free(low, high, &both, second) {
                Some(child) => {
                    proof {
                        lemma_nth_free_exists(low as int, high as int, both@, second as nat);
                        assert(both@.contains(parent));
                    }
                    Some((parent, child))
                },
                None => None,
            }
        },
        None => None,
    }
}

} // verus!
