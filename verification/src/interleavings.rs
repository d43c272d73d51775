//! What holds of the enumeration of runs: it hands out every interleaving
//! of the declared steps exactly once, and their number is the multinomial
//! coefficient of the step counts.

use vstd::prelude::*;
use crate::runs::{
    differ_upward_at, exchange_and_reverse, has_pivot, initial_run, is_exchange,
    is_interleaving, is_pivot, lex_less, next_run, nth_run, occurrences, same_items, step_counts,
};

verus! {

/// Occurrences add up over a concatenation.
pub proof fn lemma_occurrences_concat(a: Seq<usize>, b: Seq<usize>, v: usize)
    ensures
        occurrences(a + b, v) == occurrences(a, v) + occurrences(b, v),
    decreases a.len(),
{
    if a.len() == 0 {
        assert(a + b =~= b);
    } else {
        assert((a + b).drop_first() =~= a.drop_first() + b);
        lemma_occurrences_concat(a.drop_first(), b, v);
    }
}

/// A sequence of one item holds that item once.
pub proof fn lemma_occurrences_single(x: usize, v: usize)
    ensures
        occurrences(seq![x], v) == (if x == v { 1nat } else { 0nat }),
{
    assert(seq![x].drop_first() =~= Seq::<usize>::empty());
    assert(occurrences(seq![x].drop_first(), v) == 0);
}

/// Reversal keeps the occurrences.
pub proof fn lemma_occurrences_reverse(s: Seq<usize>, v: usize)
    ensures
        occurrences(s.reverse(), v) == occurrences(s, v),
    decreases s.len(),
{
    if s.len() == 0 {
        assert(s.reverse() =~= s);
    } else {
        let tail = s.drop_first();
        assert(s.reverse() =~= tail.reverse() + seq![s[0]]);
        lemma_occurrences_concat(tail.reverse(), seq![s[0]], v);
        lemma_occurrences_single(s[0], v);
        lemma_occurrences_reverse(tail, v);
    }
}

/// Replacing one item takes one occurrence from the old item and gives one to the new.
pub proof fn lemma_occurrences_update(s: Seq<usize>, i: int, x: usize, v: usize)
    requires
        0 <= i < s.len(),
    ensures
        occurrences(s.update(i, x), v) + (if s[i] == v { 1nat } else { 0nat }) == occurrences(s, v)
            + (if x == v { 1nat } else { 0nat }),
    decreases s.len(),
{
    if i == 0 {
        assert(s.update(i, x).drop_first() =~= s.drop_first());
    } else {
        assert(s.update(i, x).drop_first() =~= s.drop_first().update(i - 1, x));
        lemma_occurrences_update(s.drop_first(), i - 1, x, v);
    }
}

/// The occurrences in a sequence are those before a position and those from it on.
pub proof fn lemma_occurrences_split(s: Seq<usize>, j: int, v: usize)
    requires
        0 <= j <= s.len(),
    ensures
        occurrences(s, v) == occurrences(s.subrange(0, j), v) + occurrences(
            s.subrange(j, s.len() as int),
            v,
        ),
{
    assert(s =~= s.subrange(0, j) + s.subrange(j, s.len() as int));
    lemma_occurrences_concat(s.subrange(0, j), s.subrange(j, s.len() as int), v);
}

/// An item that stands nowhere in a sequence does not occur in it.
pub proof fn lemma_occurrences_absent(s: Seq<usize>, v: usize)
    requires
        forall|i: int| 0 <= i < s.len() ==> s[i] != v,
    ensures
        occurrences(s, v) == 0,
    decreases s.len(),
{
    if s.len() > 0 {
        assert forall|i: int| 0 <= i < s.drop_first().len() implies s.drop_first()[i] != v by {
            assert(s.drop_first()[i] == s[i + 1]);
        }
        lemma_occurrences_absent(s.drop_first(), v);
    }
}

/// A block of one repeated item holds that item as often as it is long.
pub proof fn lemma_occurrences_block(n: nat, x: usize, v: usize)
    ensures
        occurrences(Seq::new(n, |k: int| x), v) == (if x == v { n } else { 0 }),
    decreases n,
{
    let block = Seq::new(n, |k: int| x);
    if n > 0 {
        assert(block.drop_first() =~= Seq::new((n - 1) as nat, |k: int| x));
        lemma_occurrences_block((n - 1) as nat, x, v);
    }
}

/// The exchange and the reversal keep the items.
pub proof fn lemma_exchange_keeps_items(s: Seq<usize>, j: int, l: int)
    requires
        0 <= j < l < s.len(),
    ensures
        same_items(s, exchange_and_reverse(s, j, l)),
        exchange_and_reverse(s, j, l).len() == s.len(),
{
    let n = s.len() as int;
    let half = s.update(j, s[l]);
    let swapped = half.update(l, s[j]);
    let t = exchange_and_reverse(s, j, l);
    assert forall|v: usize| #[trigger] occurrences(s, v) == occurrences(t, v) by {
        lemma_occurrences_update(s, j, s[l], v);
        lemma_occurrences_update(half, l, s[j], v);
        lemma_occurrences_split(swapped, j + 1, v);
        lemma_occurrences_reverse(swapped.subrange(j + 1, n), v);
        lemma_occurrences_concat(
            swapped.subrange(0, j + 1),
            swapped.subrange(j + 1, n).reverse(),
            v,
        );
    }
}

/// Left of an ascent there is a pivot, or the ascent is the pivot.
pub proof fn lemma_pivot_exists(s: Seq<usize>, i: int)
    requires
        0 <= i < s.len() - 1,
        s[i] < s[i + 1],
    ensures
        has_pivot(s),
    decreases s.len() - i,
{
    if exists|k: int| i < k < s.len() - 1 && s[k] < #[trigger] s[k + 1] {
        let k = choose|k: int| i < k < s.len() - 1 && s[k] < #[trigger] s[k + 1];
        lemma_pivot_exists(s, k);
    } else {
        assert(is_pivot(s, i));
    }
}

/// Behind a position with a greater item somewhere to its right, there is
/// a rightmost such item.
pub proof fn lemma_exchange_exists(s: Seq<usize>, j: int, l: int)
    requires
        0 <= j < l < s.len(),
        s[l] > s[j],
    ensures
        exists|e: int| is_exchange(s, j, e),
    decreases s.len() - l,
{
    if exists|k: int| l < k < s.len() && #[trigger] s[k] > s[j] {
        let k = choose|k: int| l < k < s.len() && #[trigger] s[k] > s[j];
        lemma_exchange_exists(s, j, k);
    } else {
        assert(is_exchange(s, j, l));
    }
}

/// The pivot and the exchange position of a sequence that has a pivot.
pub proof fn lemma_pivot_and_exchange(s: Seq<usize>) -> (at: (int, int))
    requires
        has_pivot(s),
    ensures
        is_pivot(s, at.0),
        is_exchange(s, at.0, at.1),
        next_run(s) == Some(exchange_and_reverse(s, at.0, at.1)),
{
    let j = choose|j: int| is_pivot(s, j);
    lemma_exchange_exists(s, j, j + 1);
    let l = choose|l: int| is_exchange(s, j, l);
    (j, l)
}

/// The run that follows a run holds the same items and is greater in
/// lexicographic order.
pub proof fn lemma_next_run_is_greater(s: Seq<usize>)
    requires
        next_run(s) is Some,
    ensures
        same_items(s, next_run(s).unwrap()),
        next_run(s).unwrap().len() == s.len(),
        lex_less(s, next_run(s).unwrap()),
{
    let (j, l) = lemma_pivot_and_exchange(s);
    lemma_exchange_keeps_items(s, j, l);
    let t = exchange_and_reverse(s, j, l);
    assert(differ_upward_at(s, t, j));
}

/// The sum of the step counts.
pub open spec fn total(counts: Seq<nat>) -> nat
    decreases counts.len(),
{
    if counts.len() == 0 {
        0
    } else {
        total(counts.drop_last()) + counts.last()
    }
}

/// The step counts with one step less for participant `v`.
pub open spec fn lessen(counts: Seq<nat>, v: int) -> Seq<nat> {
    counts.update(v, (counts[v] - 1) as nat)
}

/// The number of interleavings of `n` steps with the given counts, for
/// `n` the sum of the counts: one where no step is left, else the sum over
/// the participants that have a step left of the interleavings that start
/// with that participant.
pub open spec fn arrangements(counts: Seq<nat>, n: nat) -> nat
    decreases n, 1nat, 0nat,
{
    if n == 0 {
        1
    } else {
        arrangements_below(counts, n, counts.len())
    }
}

/// The number of interleavings of `n` steps with the given counts that
/// start with a participant below `u`.
pub open spec fn arrangements_below(counts: Seq<nat>, n: nat, u: nat) -> nat
    decreases n, 0nat, u,
{
    if n == 0 || u == 0 {
        0
    } else {
        arrangements_below(counts, n, (u - 1) as nat) + (if u <= counts.len() && counts[u - 1]
            > 0 {
            arrangements(lessen(counts, u - 1), (n - 1) as nat)
        } else {
            0
        })
    }
}

/// The number of runs of participants with the given step counts.
pub open spec fn run_count(counts: Seq<nat>) -> nat {
    arrangements(counts, total(counts))
}

/// The factorial of `n`.
pub open spec fn factorial(n: nat) -> nat
    decreases n,
{
    if n == 0 {
        1
    } else {
        n * factorial((n - 1) as nat)
    }
}

/// The product of the factorials of the step counts.
pub open spec fn factorial_product(counts: Seq<nat>) -> nat
    decreases counts.len(),
{
    if counts.len() == 0 {
        1
    } else {
        factorial_product(counts.drop_last()) * factorial(counts.last())
    }
}

/// Replacing one count changes the sum by the difference.
pub proof fn lemma_total_update(counts: Seq<nat>, i: int, x: nat)
    requires
        0 <= i < counts.len(),
    ensures
        total(counts.update(i, x)) + counts[i] == total(counts) + x,
    decreases counts.len(),
{
    if i == counts.len() - 1 {
        assert(counts.update(i, x).drop_last() =~= counts.drop_last());
    } else {
        assert(counts.update(i, x).drop_last() =~= counts.drop_last().update(i, x));
        lemma_total_update(counts.drop_last(), i, x);
    }
}

/// Taking one more count into a prefix adds it to the prefix's sum.
pub proof fn lemma_total_take(counts: Seq<nat>, u: int)
    requires
        0 <= u < counts.len(),
    ensures
        total(counts.take(u + 1)) == total(counts.take(u)) + counts[u],
{
    assert(counts.take(u + 1).drop_last() =~= counts.take(u));
}

/// Counts that sum to zero are all zero.
pub proof fn lemma_total_zero(counts: Seq<nat>)
    requires
        total(counts) == 0,
    ensures
        forall|i: int| 0 <= i < counts.len() ==> counts[i] == 0,
        factorial_product(counts) == 1,
    decreases counts.len(),
{
    if counts.len() > 0 {
        lemma_total_zero(counts.drop_last());
        assert forall|i: int| 0 <= i < counts.len() implies counts[i] == 0 by {
            if i < counts.len() - 1 {
                assert(counts.drop_last()[i] == counts[i]);
            }
        }
        assert(factorial(0) == 1);
    }
}

/// Taking one step from a participant divides the product of the
/// factorials by that participant's count.
pub proof fn lemma_factorial_product_lessen(counts: Seq<nat>, v: int)
    requires
        0 <= v < counts.len(),
        counts[v] > 0,
    ensures
        factorial_product(counts) == counts[v] * factorial_product(lessen(counts, v)),
    decreases counts.len(),
{
    let less = lessen(counts, v);
    let front = factorial_product(counts.drop_last());
    if v == counts.len() - 1 {
        assert(less.drop_last() =~= counts.drop_last());
        let k = counts[v];
        let f = factorial((k - 1) as nat);
        assert(factorial(k) == k * f);
        assert(front * (k * f) == k * (front * f)) by (nonlinear_arith);
    } else {
        assert(less.drop_last() =~= lessen(counts.drop_last(), v));
        lemma_factorial_product_lessen(counts.drop_last(), v);
        let k = counts[v];
        let rest = factorial_product(lessen(counts.drop_last(), v));
        let last = factorial(counts.last());
        assert((k * rest) * last == k * (rest * last)) by (nonlinear_arith);
    }
}

/// The interleavings that start below `u`, times the product of the
/// factorials of the counts, are the sum of the counts below `u` times the
/// factorial of one less than all steps.
pub proof fn lemma_multinomial_below(counts: Seq<nat>, n: nat, u: nat)
    requires
        n > 0,
        n == total(counts),
        u <= counts.len(),
    ensures
        arrangements_below(counts, n, u) * factorial_product(counts) == total(
            counts.take(u as int),
        ) * factorial((n - 1) as nat),
    decreases n, 0nat, u,
{
    let product = factorial_product(counts);
    let rest = factorial((n - 1) as nat);
    if u == 0 {
        assert(counts.take(0) =~= Seq::<nat>::empty());
        assert(0 * product == 0 * rest) by (nonlinear_arith);
    } else {
        let before = arrangements_below(counts, n, (u - 1) as nat);
        let sum_before = total(counts.take(u - 1));
        lemma_multinomial_below(counts, n, (u - 1) as nat);
        lemma_total_take(counts, u - 1);
        let k = counts[u - 1];
        if k > 0 {
            let less = lessen(counts, u - 1);
            let here = arrangements(less, (n - 1) as nat);
            let less_product = factorial_product(less);
            lemma_total_update(counts, u - 1, (k - 1) as nat);
            lemma_multinomial(less, (n - 1) as nat);
            lemma_factorial_product_lessen(counts, u - 1);
            assert((before + here) * product == (sum_before + k) * rest) by (nonlinear_arith)
                requires
                    before * product == sum_before * rest,
                    here * less_product == rest,
                    product == k * less_product,
            ;
        } else {
            assert((before + 0) * product == (sum_before + 0) * rest) by (nonlinear_arith)
                requires
                    before * product == sum_before * rest,
            ;
        }
    }
}

/// The number of interleavings times the product of the factorials of the
/// step counts is the factorial of the number of all steps.
pub proof fn lemma_multinomial(counts: Seq<nat>, n: nat)
    requires
        n == total(counts),
    ensures
        arrangements(counts, n) * factorial_product(counts) == factorial(n),
    decreases n, 1nat, 0nat,
{
    if n == 0 {
        lemma_total_zero(counts);
    } else {
        lemma_multinomial_below(counts, n, counts.len());
        assert(counts.take(counts.len() as int) =~= counts);
    }
}

/// No item of `s` is smaller than an item to its right.
pub open spec fn non_increasing(s: Seq<usize>) -> bool {
    forall|i: int, j: int| 0 <= i <= j < s.len() ==> s[i] >= s[j]
}

/// No item of `s` is greater than an item to its right.
pub open spec fn non_decreasing(s: Seq<usize>) -> bool {
    forall|i: int, j: int| 0 <= i <= j < s.len() ==> s[i] <= s[j]
}

/// The number of interleavings of `counts` that come before `s` in
/// lexicographic order, for `s` an interleaving of `counts`: those that
/// start with a smaller item, and those that start with the same item and
/// go on with a sequence that comes before the rest of `s`.
pub open spec fn rank(s: Seq<usize>, counts: Seq<nat>) -> nat
    decreases s.len(),
{
    if s.len() == 0 {
        0
    } else {
        arrangements_below(counts, s.len(), s[0] as nat) + rank(
            s.drop_first(),
            lessen(counts, s[0] as int),
        )
    }
}

/// The first item of an interleaving has a step to take, and the rest is an
/// interleaving of the steps that are left.
pub proof fn lemma_interleaving_tail(s: Seq<usize>, counts: Seq<nat>)
    requires
        is_interleaving(s, counts),
        s.len() > 0,
    ensures
        s[0] < counts.len(),
        counts[s[0] as int] > 0,
        is_interleaving(s.drop_first(), lessen(counts, s[0] as int)),
{
    let a = s[0];
    assert(occurrences(s, a) == (if a < counts.len() {
        counts[a as int]
    } else {
        0
    }));
    let less = lessen(counts, a as int);
    assert forall|v: usize| #[trigger]
        occurrences(s.drop_first(), v) == (if v < less.len() {
            less[v as int]
        } else {
            0
        }) by {
        assert(occurrences(s, v) == (if v < counts.len() {
            counts[v as int]
        } else {
            0
        }));
    }
}

/// Counts that are all zero sum to zero.
pub proof fn lemma_zero_total(counts: Seq<nat>)
    requires
        forall|i: int| 0 <= i < counts.len() ==> counts[i] == 0,
    ensures
        total(counts) == 0,
    decreases counts.len(),
{
    if counts.len() > 0 {
        assert forall|i: int| 0 <= i < counts.drop_last().len() implies counts.drop_last()[i]
            == 0 by {
            assert(counts.drop_last()[i] == counts[i]);
        }
        lemma_zero_total(counts.drop_last());
    }
}

/// An interleaving is as long as the step counts sum up to.
pub proof fn lemma_interleaving_length(s: Seq<usize>, counts: Seq<nat>)
    requires
        is_interleaving(s, counts),
        counts.len() <= usize::MAX,
    ensures
        s.len() == total(counts),
    decreases s.len(),
{
    if s.len() == 0 {
        assert forall|i: int| 0 <= i < counts.len() implies counts[i] == 0 by {
            let v = i as usize;
            assert(occurrences(s, v) == (if v < counts.len() {
                counts[v as int]
            } else {
                0
            }));
        }
        lemma_zero_total(counts);
    } else {
        lemma_interleaving_tail(s, counts);
        let a = s[0] as int;
        lemma_total_update(counts, a, (counts[a] - 1) as nat);
        lemma_interleaving_length(s.drop_first(), lessen(counts, a));
    }
}

/// More interleavings start below a greater bound.
pub proof fn lemma_arrangements_below_monotone(counts: Seq<nat>, n: nat, u1: nat, u2: nat)
    requires
        u1 <= u2,
    ensures
        arrangements_below(counts, n, u1) <= arrangements_below(counts, n, u2),
    decreases u2,
{
    if u1 < u2 {
        lemma_arrangements_below_monotone(counts, n, u1, (u2 - 1) as nat);
    }
}

/// Participants without a step start no interleaving.
pub proof fn lemma_arrangements_below_skip(counts: Seq<nat>, n: nat, u1: nat, u2: nat)
    requires
        u1 <= u2,
        forall|v: int| u1 <= v < u2 && v < counts.len() ==> counts[v] == 0,
    ensures
        arrangements_below(counts, n, u1) == arrangements_below(counts, n, u2),
    decreases u2,
{
    if u1 < u2 {
        lemma_arrangements_below_skip(counts, n, u1, (u2 - 1) as nat);
    }
}

/// The interleavings that start with a participant that has a step left
/// are counted right after those that start below it.
pub proof fn lemma_arrangements_below_next(counts: Seq<nat>, n: nat, a: nat)
    requires
        n > 0,
        a < counts.len(),
        counts[a as int] > 0,
    ensures
        arrangements_below(counts, n, a + 1) == arrangements_below(counts, n, a) + arrangements(
            lessen(counts, a as int),
            (n - 1) as nat,
        ),
{
}

/// Fewer interleavings come before an interleaving than there are.
pub proof fn lemma_rank_below(s: Seq<usize>, counts: Seq<nat>)
    requires
        is_interleaving(s, counts),
    ensures
        rank(s, counts) < arrangements(counts, s.len()),
    decreases s.len(),
{
    if s.len() > 0 {
        let a = s[0];
        lemma_interleaving_tail(s, counts);
        lemma_rank_below(s.drop_first(), lessen(counts, a as int));
        lemma_arrangements_below_next(counts, s.len(), a as nat);
        lemma_arrangements_below_monotone(counts, s.len(), (a + 1) as nat, counts.len());
    }
}

/// The rest of a sequence is ordered as the sequence is.
pub proof fn lemma_tail_order(s: Seq<usize>)
    requires
        s.len() > 0,
    ensures
        non_decreasing(s) ==> non_decreasing(s.drop_first()),
        non_increasing(s) ==> non_increasing(s.drop_first()),
{
    let tail = s.drop_first();
    if non_decreasing(s) {
        assert forall|i: int, j: int| 0 <= i <= j < tail.len() implies tail[i] <= tail[j] by {
            assert(tail[i] == s[i + 1] && tail[j] == s[j + 1]);
        }
    }
    if non_increasing(s) {
        assert forall|i: int, j: int| 0 <= i <= j < tail.len() implies tail[i] >= tail[j] by {
            assert(tail[i] == s[i + 1] && tail[j] == s[j + 1]);
        }
    }
}

/// No interleaving comes before the one that never descends.
pub proof fn lemma_rank_first(s: Seq<usize>, counts: Seq<nat>)
    requires
        is_interleaving(s, counts),
        non_decreasing(s),
    ensures
        rank(s, counts) == 0,
    decreases s.len(),
{
    if s.len() > 0 {
        let a = s[0];
        lemma_interleaving_tail(s, counts);
        assert forall|v: int| 0 <= v < a && v < counts.len() implies counts[v] == 0 by {
            let w = v as usize;
            lemma_occurrences_absent(s, w);
            assert(occurrences(s, w) == (if w < counts.len() {
                counts[w as int]
            } else {
                0
            }));
        }
        lemma_arrangements_below_skip(counts, s.len(), 0, a as nat);
        lemma_tail_order(s);
        lemma_rank_first(s.drop_first(), lessen(counts, a as int));
    }
}

/// All other interleavings come before the one that never ascends.
pub proof fn lemma_rank_last(s: Seq<usize>, counts: Seq<nat>)
    requires
        is_interleaving(s, counts),
        non_increasing(s),
        counts.len() <= usize::MAX,
    ensures
        rank(s, counts) + 1 == arrangements(counts, s.len()),
    decreases s.len(),
{
    if s.len() > 0 {
        let a = s[0];
        lemma_interleaving_tail(s, counts);
        assert forall|v: int| a + 1 <= v < counts.len() implies counts[v] == 0 by {
            let w = v as usize;
            lemma_occurrences_absent(s, w);
            assert(occurrences(s, w) == (if w < counts.len() {
                counts[w as int]
            } else {
                0
            }));
        }
        lemma_arrangements_below_skip(counts, s.len(), (a + 1) as nat, counts.len());
        lemma_arrangements_below_next(counts, s.len(), a as nat);
        lemma_tail_order(s);
        lemma_rank_last(s.drop_first(), lessen(counts, a as int));
    }
}

/// Where no item from `lo` on is smaller than its right neighbour, none
/// is smaller than any item to its right.
pub proof fn lemma_descent(s: Seq<usize>, lo: int, i: int, j: int)
    requires
        forall|k: int| lo <= k < s.len() - 1 ==> s[k] >= #[trigger] s[k + 1],
        0 <= lo <= i <= j < s.len(),
    ensures
        s[i] >= s[j],
    decreases j - i,
{
    if i < j {
        lemma_descent(s, lo, i, j - 1);
        assert(s[j - 1] >= s[j - 1 + 1]);
    }
}

/// A sequence that is not the last of its interleavings has a pivot.
pub proof fn lemma_ascent_gives_pivot(s: Seq<usize>)
    requires
        !non_increasing(s),
    ensures
        has_pivot(s),
{
    if forall|k: int| 0 <= k < s.len() - 1 ==> s[k] >= #[trigger] s[k + 1] {
        assert forall|i: int, j: int| 0 <= i <= j < s.len() implies s[i] >= s[j] by {
            lemma_descent(s, 0, i, j);
        }
    } else {
        let k = choose|k: int| 0 <= k < s.len() - 1 && !(s[k] >= #[trigger] s[k + 1]);
        lemma_pivot_exists(s, k);
    }
}

/// Where the pivot is the first item, the next run is the one that has
/// exactly one more interleaving before it.
pub proof fn lemma_rank_step_at_head(s: Seq<usize>, counts: Seq<nat>, l: int)
    requires
        is_interleaving(s, counts),
        counts.len() <= usize::MAX,
        is_pivot(s, 0),
        is_exchange(s, 0, l),
    ensures
        rank(exchange_and_reverse(s, 0, l), counts) == rank(s, counts) + 1,
{
    let n = s.len();
    let a = s[0];
    let b = s[l];
    let t = exchange_and_reverse(s, 0, l);
    let swapped = s.update(0, b).update(l, a);
    let falling = swapped.subrange(1, n as int);
    lemma_exchange_keeps_items(s, 0, l);
    assert(is_interleaving(t, counts)) by {
        assert forall|v: usize| #[trigger]
            occurrences(t, v) == (if v < counts.len() {
                counts[v as int]
            } else {
                0
            }) by {
            assert(occurrences(s, v) == occurrences(t, v));
            assert(occurrences(s, v) == (if v < counts.len() {
                counts[v as int]
            } else {
                0
            }));
        }
    }
    assert(t[0] == b);
    assert(t.drop_first() =~= falling.reverse());
    lemma_interleaving_tail(s, counts);
    lemma_interleaving_tail(t, counts);
    // What follows the pivot never ascends: it is the last of its interleavings.
    let tail = s.drop_first();
    assert(non_increasing(tail)) by {
        assert forall|i: int, j: int| 0 <= i <= j < tail.len() implies tail[i] >= tail[j] by {
            lemma_descent(s, 1, i + 1, j + 1);
        }
    }
    lemma_rank_last(tail, lessen(counts, a as int));
    // With the pivot's item in place of the exchanged one it still never
    // ascends, so its reversal is the first of its interleavings.
    assert forall|i: int, j: int| 0 <= i <= j < falling.len() implies falling[i] >= falling[j] by {
        if i < j {
            if i + 1 == l {
                assert(s[j + 1] <= s[0]);
            } else if j + 1 == l {
                lemma_descent(s, 1, i + 1, l);
            } else {
                lemma_descent(s, 1, i + 1, j + 1);
            }
        }
    }
    let rising = falling.reverse();
    assert(non_decreasing(rising)) by {
        assert forall|i: int, j: int| 0 <= i <= j < rising.len() implies rising[i]
            <= rising[j] by {
            assert(rising[i] == falling[falling.len() - 1 - i]);
            assert(rising[j] == falling[falling.len() - 1 - j]);
        }
    }
    lemma_rank_first(rising, lessen(counts, b as int));
    // No participant between the two items has a step to take.
    assert forall|v: int| a + 1 <= v < b && v < counts.len() implies counts[v] == 0 by {
        let w = v as usize;
        assert forall|i: int| 0 <= i < s.len() implies s[i] != w by {
            if 1 <= i <= l {
                lemma_descent(s, 1, i, l);
            } else if i > l {
                assert(s[i] <= s[0]);
            }
        }
        lemma_occurrences_absent(s, w);
        assert(occurrences(s, w) == (if w < counts.len() {
            counts[w as int]
        } else {
            0
        }));
    }
    lemma_arrangements_below_skip(counts, n, (a + 1) as nat, b as nat);
    lemma_arrangements_below_next(counts, n, a as nat);
}

/// The next run is the one that has exactly one more interleaving before it.
pub proof fn lemma_rank_step(s: Seq<usize>, counts: Seq<nat>, j: int, l: int)
    requires
        is_interleaving(s, counts),
        counts.len() <= usize::MAX,
        is_pivot(s, j),
        is_exchange(s, j, l),
    ensures
        rank(exchange_and_reverse(s, j, l), counts) == rank(s, counts) + 1,
    decreases j,
{
    if j == 0 {
        lemma_rank_step_at_head(s, counts, l);
    } else {
        let t = exchange_and_reverse(s, j, l);
        let tail = s.drop_first();
        lemma_interleaving_tail(s, counts);
        assert(is_pivot(tail, j - 1)) by {
            assert(tail[j - 1] == s[j] && tail[j - 1 + 1] == s[j + 1]);
            assert forall|i: int| j - 1 < i < tail.len() - 1 implies tail[i] >= #[trigger] tail[i
                + 1] by {
                assert(s[i + 1] >= s[i + 1 + 1]);
            }
        }
        assert(is_exchange(tail, j - 1, l - 1)) by {
            assert forall|i: int| l - 1 < i < tail.len() implies #[trigger] tail[i] <= tail[j
                - 1] by {
                assert(s[i + 1] <= s[j]);
            }
        }
        assert(t.drop_first() =~= exchange_and_reverse(tail, j - 1, l - 1));
        assert(t[0] == s[0]);
        lemma_rank_step(tail, lessen(counts, s[0] as int), j - 1, l - 1);
    }
}

/// Two interleavings with as many interleavings before them are the same.
pub proof fn lemma_rank_injective(p: Seq<usize>, q: Seq<usize>, counts: Seq<nat>)
    requires
        is_interleaving(p, counts),
        is_interleaving(q, counts),
        p.len() == q.len(),
        rank(p, counts) == rank(q, counts),
    ensures
        p == q,
    decreases p.len(),
{
    if p.len() == 0 {
        assert(p =~= q);
    } else {
        let n = p.len();
        let a = p[0];
        let b = q[0];
        lemma_interleaving_tail(p, counts);
        lemma_interleaving_tail(q, counts);
        lemma_rank_below(p.drop_first(), lessen(counts, a as int));
        lemma_rank_below(q.drop_first(), lessen(counts, b as int));
        lemma_arrangements_below_next(counts, n, a as nat);
        lemma_arrangements_below_next(counts, n, b as nat);
        if a < b {
            lemma_arrangements_below_monotone(counts, n, (a + 1) as nat, b as nat);
        } else if b < a {
            lemma_arrangements_below_monotone(counts, n, (b + 1) as nat, a as nat);
        } else {
            lemma_rank_injective(p.drop_first(), q.drop_first(), lessen(counts, a as int));
            assert(p =~= seq![a] + p.drop_first());
            assert(q =~= seq![b] + q.drop_first());
        }
    }
}

/// The first run is an interleaving of the step counts and never descends.
pub proof fn lemma_initial_run(counts: Seq<nat>)
    requires
        counts.len() <= usize::MAX,
    ensures
        is_interleaving(initial_run(counts), counts),
        non_decreasing(initial_run(counts)),
        forall|i: int|
            0 <= i < initial_run(counts).len() ==> initial_run(counts)[i] < counts.len(),
    decreases counts.len(),
{
    let run = initial_run(counts);
    if counts.len() == 0 {
        assert forall|v: usize| #[trigger] occurrences(run, v) == 0 by {}
    } else {
        let front = counts.drop_last();
        let last = (counts.len() - 1) as usize;
        let head = initial_run(front);
        let block = Seq::new(counts.last(), |k: int| last);
        lemma_initial_run(front);
        assert(run == head + block);
        assert forall|v: usize| #[trigger]
            occurrences(run, v) == (if v < counts.len() {
                counts[v as int]
            } else {
                0
            }) by {
            lemma_occurrences_concat(head, block, v);
            lemma_occurrences_block(counts.last(), last, v);
            assert(occurrences(head, v) == (if v < front.len() {
                front[v as int]
            } else {
                0
            }));
        }
        assert forall|i: int, j: int| 0 <= i <= j < run.len() implies run[i] <= run[j] by {
            if j < head.len() {
                assert(run[i] == head[i] && run[j] == head[j]);
            } else if i < head.len() {
                assert(run[i] == head[i]);
                assert(run[j] == block[j - head.len()]);
            } else {
                assert(run[i] == block[i - head.len()]);
                assert(run[j] == block[j - head.len()]);
            }
        }
        assert forall|i: int| 0 <= i < run.len() implies run[i] < counts.len() by {
            if i < head.len() {
                assert(run[i] == head[i]);
            } else {
                assert(run[i] == block[i - head.len()]);
            }
        }
    }
}

/// Below the number of runs, the run at position `k` is an interleaving
/// with exactly `k` interleavings before it.
pub proof fn lemma_nth_run(counts: Seq<nat>, k: nat)
    requires
        counts.len() <= usize::MAX,
        k < run_count(counts),
    ensures
        nth_run(counts, k) is Some,
        is_interleaving(nth_run(counts, k).unwrap(), counts),
        rank(nth_run(counts, k).unwrap(), counts) == k,
    decreases k,
{
    if k == 0 {
        lemma_initial_run(counts);
        lemma_rank_first(initial_run(counts), counts);
    } else {
        lemma_nth_run(counts, (k - 1) as nat);
        let s = nth_run(counts, (k - 1) as nat).unwrap();
        lemma_interleaving_length(s, counts);
        if non_increasing(s) {
            lemma_rank_last(s, counts);
        }
        lemma_ascent_gives_pivot(s);
        let (j, l) = lemma_pivot_and_exchange(s);
        lemma_rank_step(s, counts, j, l);
        lemma_next_run_keeps_interleaving(s, counts);
    }
}

/// The run that follows an interleaving is an interleaving of the same counts.
pub proof fn lemma_next_run_keeps_interleaving(s: Seq<usize>, counts: Seq<nat>)
    requires
        is_interleaving(s, counts),
        next_run(s) is Some,
    ensures
        is_interleaving(next_run(s).unwrap(), counts),
{
    let t = next_run(s).unwrap();
    lemma_next_run_is_greater(s);
    assert forall|v: usize| #[trigger]
        occurrences(t, v) == (if v < counts.len() {
            counts[v as int]
        } else {
            0
        }) by {
        assert(occurrences(s, v) == occurrences(t, v));
        assert(occurrences(s, v) == (if v < counts.len() {
            counts[v as int]
        } else {
            0
        }));
    }
}

/// There is at least one run.
pub proof fn lemma_run_count_positive(counts: Seq<nat>)
    requires
        counts.len() <= usize::MAX,
    ensures
        run_count(counts) > 0,
{
    lemma_initial_run(counts);
    lemma_interleaving_length(initial_run(counts), counts);
    lemma_rank_below(initial_run(counts), counts);
}

/// From the number of runs on, the enumeration hands out nothing.
pub proof fn lemma_nth_run_end(counts: Seq<nat>, k: nat)
    requires
        counts.len() <= usize::MAX,
        k >= run_count(counts),
    ensures
        nth_run(counts, k) is None,
    decreases k,
{
    lemma_run_count_positive(counts);
    if k == run_count(counts) {
        lemma_nth_run(counts, (k - 1) as nat);
        let s = nth_run(counts, (k - 1) as nat).unwrap();
        if has_pivot(s) {
            let (j, l) = lemma_pivot_and_exchange(s);
            lemma_rank_step(s, counts, j, l);
            lemma_next_run_keeps_interleaving(s, counts);
            let t = next_run(s).unwrap();
            lemma_next_run_is_greater(s);
            lemma_interleaving_length(s, counts);
            lemma_rank_below(t, counts);
        }
    } else {
        lemma_nth_run_end(counts, (k - 1) as nat);
    }
}

/// The enumeration for participants with the given step counts hands out
/// exactly `run_count(counts)` runs. Each is an interleaving of the step
/// counts, no two are the same, and every interleaving is among them. That
/// number, times the product of the factorials of the step counts, is the
/// factorial of the number of all steps.
pub proof fn lemma_enumeration_is_exact(counts: Seq<nat>)
    requires
        counts.len() <= usize::MAX,
    ensures
        run_count(counts) * factorial_product(counts) == factorial(total(counts)),
        forall|k: nat|
            k < run_count(counts) ==> (#[trigger] nth_run(counts, k)) is Some && is_interleaving(
                nth_run(counts, k).unwrap(),
                counts,
            ),
        forall|k: nat| k >= run_count(counts) ==> (#[trigger] nth_run(counts, k)) is None,
        forall|j: nat, k: nat|
            j < k < run_count(counts) ==> #[trigger] nth_run(counts, j) != #[trigger] nth_run(
                counts,
                k,
            ),
        forall|p: Seq<usize>|
            is_interleaving(p, counts) ==> exists|k: nat|
                k < run_count(counts) && #[trigger] nth_run(counts, k) == Some(p),
{
    lemma_multinomial(counts, total(counts));
    assert forall|k: nat| k < run_count(counts) implies (#[trigger] nth_run(counts, k)) is Some
        && is_interleaving(nth_run(counts, k).unwrap(), counts) by {
        lemma_nth_run(counts, k);
    }
    assert forall|k: nat| k >= run_count(counts) implies (#[trigger] nth_run(counts, k))
        is None by {
        lemma_nth_run_end(counts, k);
    }
    assert forall|j: nat, k: nat| j < k < run_count(counts) implies #[trigger] nth_run(counts, j)
        != #[trigger] nth_run(counts, k) by {
        lemma_nth_run(counts, j);
        lemma_nth_run(counts, k);
    }
    assert forall|p: Seq<usize>| is_interleaving(p, counts) implies exists|k: nat|
        k < run_count(counts) && #[trigger] nth_run(counts, k) == Some(p) by {
        lemma_interleaving_length(p, counts);
        lemma_rank_below(p, counts);
        let k = rank(p, counts);
        lemma_nth_run(counts, k);
        let r = nth_run(counts, k).unwrap();
        lemma_interleaving_length(r, counts);
        lemma_rank_injective(p, r, counts);
    }
}

/// Two enumerations for participants that take as many steps each hand
/// out the same runs in the same order, whatever the steps are.
pub proof fn lemma_enumeration_repeats<I, J>(first: Seq<Vec<I>>, second: Seq<Vec<J>>, k: nat)
    requires
        first.len() == second.len(),
        forall|i: int| 0 <= i < first.len() ==> first[i]@.len() == second[i]@.len(),
    ensures
        nth_run(step_counts(first), k) == nth_run(step_counts(second), k),
{
    assert(step_counts(first) =~= step_counts(second));
}

/// Participants that take no step at all have exactly one run: the empty one.
pub proof fn lemma_no_steps_one_run(counts: Seq<nat>)
    requires
        counts.len() <= usize::MAX,
        total(counts) == 0,
    ensures
        run_count(counts) == 1,
        nth_run(counts, 0) == Some(Seq::<usize>::empty()),
        nth_run(counts, 1) is None,
{
    lemma_initial_run(counts);
    lemma_interleaving_length(initial_run(counts), counts);
    assert(initial_run(counts) =~= Seq::<usize>::empty());
    lemma_nth_run_end(counts, 1);
}

/// The lexicographic order is transitive.
pub proof fn lemma_lex_transitive(a: Seq<usize>, b: Seq<usize>, c: Seq<usize>)
    requires
        lex_less(a, b),
        lex_less(b, c),
    ensures
        lex_less(a, c),
{
    let k1 = choose|k: int| #[trigger] differ_upward_at(a, b, k);
    let k2 = choose|k: int| #[trigger] differ_upward_at(b, c, k);
    if k1 <= k2 {
        assert(differ_upward_at(a, c, k1));
    } else {
        assert(differ_upward_at(a, c, k2));
    }
}

/// The enumeration hands out the runs in rising lexicographic order.
pub proof fn lemma_runs_rise(counts: Seq<nat>, j: nat, k: nat)
    requires
        counts.len() <= usize::MAX,
        j < k < run_count(counts),
    ensures
        nth_run(counts, j) is Some,
        nth_run(counts, k) is Some,
        lex_less(nth_run(counts, j).unwrap(), nth_run(counts, k).unwrap()),
    decreases k,
{
    lemma_nth_run(counts, j);
    lemma_nth_run(counts, k);
    lemma_nth_run(counts, (k - 1) as nat);
    let before = nth_run(counts, (k - 1) as nat).unwrap();
    lemma_next_run_is_greater(before);
    if j < k - 1 {
        lemma_runs_rise(counts, j, (k - 1) as nat);
        lemma_lex_transitive(nth_run(counts, j).unwrap(), before, nth_run(counts, k).unwrap());
    }
}

} // verus!
