//! The run enumerator: every interleaving of a fixed set of participants,
//! one after the other, in lexicographic order.
//!
//! A run is a sequence of participant indices in which participant `i`
//! occurs once per step it takes. The enumerator starts from the sorted
//! run and moves from each run to the next greater one in place.

use vstd::prelude::*;

verus! {

/// How often `v` occurs in `s`.
pub open spec fn occurrences(s: Seq<usize>, v: usize) -> nat
    decreases s.len(),
{
    if s.len() == 0 {
        0
    } else {
        (if s[0] == v { 1nat } else { 0nat }) + occurrences(s.drop_first(), v)
    }
}

/// `run` holds every participant `i` exactly `counts[i]` times, and nothing else.
pub open spec fn is_interleaving(run: Seq<usize>, counts: Seq<nat>) -> bool {
    forall|v: usize|
        #[trigger] occurrences(run, v) == (if v < counts.len() { counts[v as int] } else { 0 })
}

/// `a` and `b` hold the same items, each as often.
pub open spec fn same_items(a: Seq<usize>, b: Seq<usize>) -> bool {
    forall|v: usize| #[trigger] occurrences(a, v) == occurrences(b, v)
}

/// `a` comes before `b` in lexicographic order.
pub open spec fn lex_less(a: Seq<usize>, b: Seq<usize>) -> bool {
    exists|k: int| #[trigger] differ_upward_at(a, b, k)
}

/// `a` and `b` agree before position `k`, where `a` holds the smaller item.
pub open spec fn differ_upward_at(a: Seq<usize>, b: Seq<usize>, k: int) -> bool {
    &&& 0 <= k < a.len()
    &&& k < b.len()
    &&& a[k] < b[k]
    &&& forall|i: int| 0 <= i < k ==> a[i] == b[i]
}

/// The step counts of the declared participants: one length per step list.
pub open spec fn step_counts<I>(inner: Seq<Vec<I>>) -> Seq<nat> {
    Seq::new(inner.len(), |i: int| inner[i]@.len())
}

/// Step counts as natural numbers.
pub open spec fn as_counts(counts: Seq<usize>) -> Seq<nat> {
    Seq::new(counts.len(), |i: int| counts[i] as nat)
}

/// The first run: participant 0 as often as it steps, then participant 1, and so on.
pub open spec fn initial_run(counts: Seq<nat>) -> Seq<usize>
    decreases counts.len(),
{
    if counts.len() == 0 {
        Seq::empty()
    } else {
        initial_run(counts.drop_last()) + Seq::new(
            counts.last(),
            |k: int| (counts.len() - 1) as usize,
        )
    }
}

/// `j` is the rightmost position of `s` whose item is smaller than its right neighbour.
pub open spec fn is_pivot(s: Seq<usize>, j: int) -> bool {
    &&& 0 <= j < s.len() - 1
    &&& s[j] < s[j + 1]
    &&& forall|i: int| j < i < s.len() - 1 ==> s[i] >= #[trigger] s[i + 1]
}

/// `l` is the rightmost position behind `j` whose item is greater than that at `j`.
pub open spec fn is_exchange(s: Seq<usize>, j: int, l: int) -> bool {
    &&& 0 <= j < l < s.len()
    &&& s[l] > s[j]
    &&& forall|i: int| l < i < s.len() ==> #[trigger] s[i] <= s[j]
}

/// Some item of `s` is smaller than its right neighbour.
pub open spec fn has_pivot(s: Seq<usize>) -> bool {
    exists|j: int| is_pivot(s, j)
}

/// `s` with the items at `j` and `l` exchanged and everything behind `j` reversed.
pub open spec fn exchange_and_reverse(s: Seq<usize>, j: int, l: int) -> Seq<usize> {
    let swapped = s.update(j, s[l]).update(l, s[j]);
    swapped.subrange(0, j + 1) + swapped.subrange(j + 1, s.len() as int).reverse()
}

/// The run that follows `s`, or `None` where `s` is the last one.
pub open spec fn next_run(s: Seq<usize>) -> Option<Seq<usize>> {
    if has_pivot(s) {
        let j = choose|j: int| is_pivot(s, j);
        let l = choose|l: int| is_exchange(s, j, l);
        Some(exchange_and_reverse(s, j, l))
    } else {
        None
    }
}

/// The run that follows an optional run.
pub open spec fn following(run: Option<Seq<usize>>) -> Option<Seq<usize>> {
    match run {
        Some(s) => next_run(s),
        None => None,
    }
}

/// The run at position `k` of the enumeration for `counts`, or `None` behind its end.
pub open spec fn nth_run(counts: Seq<nat>, k: nat) -> Option<Seq<usize>>
    decreases k,
{
    if k == 0 {
        Some(initial_run(counts))
    } else {
        following(nth_run(counts, (k - 1) as nat))
    }
}

/// A position has at most one pivot.
pub proof fn lemma_pivot_unique(s: Seq<usize>, j1: int, j2: int)
    requires
        is_pivot(s, j1),
        is_pivot(s, j2),
    ensures
        j1 == j2,
{
    if j1 < j2 {
        assert(s[j2] >= s[j2 + 1]);
    } else if j2 < j1 {
        assert(s[j1] >= s[j1 + 1]);
    }
}

/// A pivot has exactly one exchange position.
pub proof fn lemma_exchange_unique(s: Seq<usize>, j: int, l1: int, l2: int)
    requires
        is_exchange(s, j, l1),
        is_exchange(s, j, l2),
    ensures
        l1 == l2,
{
    if l1 < l2 {
        assert(s[l2] <= s[j]);
    } else if l2 < l1 {
        assert(s[l1] <= s[j]);
    }
}

/// With the pivot and its exchange position known, the next run is known.
pub proof fn lemma_next_run_at(s: Seq<usize>, j: int, l: int)
    requires
        is_pivot(s, j),
        is_exchange(s, j, l),
    ensures
        next_run(s) == Some(exchange_and_reverse(s, j, l)),
{
    let j0 = choose|j: int| is_pivot(s, j);
    lemma_pivot_unique(s, j, j0);
    let l0 = choose|l: int| is_exchange(s, j, l);
    lemma_exchange_unique(s, j, l, l0);
}

/// The enumerator of all interleavings of a set of participants.
#[derive(Debug)]
pub struct Runs {
    choices: Vec<usize>,
    on_tail: bool,
}

impl Runs {
    /// The run that the next call of `next` hands out, or `None` once the
    /// enumeration is over.
    pub closed spec fn upcoming(&self) -> Option<Seq<usize>> {
        if !self.on_tail {
            Some(self.choices@)
        } else {
            next_run(self.choices@)
        }
    }

    /// An enumerator for participants with the given step lists. Only the
    /// length of each list counts.
    pub fn new<I>(inner: &Vec<Vec<I>>) -> (runs: Runs)
        ensures
            runs.upcoming() == Some(initial_run(step_counts(inner@))),
    {
        let mut counts: Vec<usize> = Vec::new();
        let mut i: usize = 0;
        while i < inner.len()
            invariant
                0 <= i <= inner.len(),
                counts@.len() == i,
                forall|k: int| 0 <= k < i ==> counts@[k] == inner@[k]@.len(),
            decreases inner.len() - i,
        {
            counts.push(inner[i].len());
            i = i + 1;
        }
        assert(as_counts(counts@) =~= step_counts(inner@));
        Runs::with_counts(&counts)
    }

    /// An enumerator for participants that take the given numbers of steps.
    pub fn with_counts(counts: &Vec<usize>) -> (runs: Runs)
        ensures
            runs.upcoming() == Some(initial_run(as_counts(counts@))),
    {
        let ghost all = as_counts(counts@);
        let mut choices: Vec<usize> = Vec::new();
        let mut i: usize = 0;
        assert(all.take(0) =~= Seq::<nat>::empty());
        while i < counts.len()
            invariant
                0 <= i <= counts.len(),
                all == as_counts(counts@),
                choices@ == initial_run(all.take(i as int)),
            decreases counts.len() - i,
        {
            let n: usize = counts[i];
            let ghost before = choices@;
            let mut k: usize = 0;
            while k < n
                invariant
                    0 <= k <= n,
                    0 <= i < counts.len(),
                    choices@ == before + Seq::new(k as nat, |x: int| i),
                decreases n - k,
            {
                choices.push(i);
                k = k + 1;
                assert(choices@ =~= before + Seq::new(k as nat, |x: int| i));
            }
            proof {
                let done = all.take(i as int + 1);
                assert(done.drop_last() =~= all.take(i as int));
                assert(done.last() == n);
                assert(Seq::new(done.last(), |x: int| (done.len() - 1) as usize) =~= Seq::new(
                    k as nat,
                    |x: int| i,
                ));
            }
            i = i + 1;
        }
        assert(all.take(i as int) =~= all);
        Runs { choices, on_tail: false }
    }

    /// Hands out the upcoming run and moves on to the one that follows it.
    /// Returns `None`, and changes nothing, once the last run has been handed out.
    pub fn next(&mut self) -> (run: Option<Vec<usize>>)
        ensures
            match run {
                Some(v) => old(self).upcoming() == Some(v@),
                None => old(self).upcoming() is None,
            },
            final(self).upcoming() == following(old(self).upcoming()),
    {
        if !self.on_tail {
            self.on_tail = true;
            return Some(self.choices.clone());
        }
        let size = self.choices.len();
        let ghost s = self.choices@;
        if size < 2 {
            return None;
        }
        let mut j: usize = size - 2;
        while j > 0 && self.choices[j] >= self.choices[j + 1]
            invariant
                0 <= j <= size - 2,
                size == self.choices.len(),
                self.choices@ == s,
                forall|i: int| j < i < size - 1 ==> s[i] >= #[trigger] s[i + 1],
            decreases j,
        {
            j = j - 1;
        }
        if self.choices[j] < self.choices[j + 1] {
            let mut l: usize = size - 1;
            while self.choices[j] >= self.choices[l]
                invariant
                    0 <= j < l < size,
                    size == self.choices.len(),
                    self.choices@ == s,
                    s[j as int] < s[j + 1],
                    forall|i: int| l < i < size ==> #[trigger] s[i] <= s[j as int],
                decreases l,
            {
                l = l - 1;
            }
            proof {
                assert(is_pivot(s, j as int));
                assert(is_exchange(s, j as int, l as int));
                lemma_next_run_at(s, j as int, l as int);
            }
            let at_j: usize = self.choices[j];
            let at_l: usize = self.choices[l];
            self.choices[j] = at_l;
            self.choices[l] = at_j;
            let ghost swapped = self.choices@;
            let mut lo: usize = j + 1;
            let mut hi: usize = size - 1;
            while lo < hi
                invariant
                    j < lo <= size,
                    j <= hi < size,
                    lo + hi == j + size,
                    self.on_tail,
                    size == self.choices.len(),
                    swapped.len() == size,
                    forall|i: int| 0 <= i <= j ==> self.choices@[i] == swapped[i],
                    forall|i: int| lo <= i <= hi ==> self.choices@[i] == swapped[i],
                    forall|i: int|
                        j < i < lo ==> self.choices@[i] == swapped[j + size - i],
                    forall|i: int|
                        hi < i < size ==> self.choices@[i] == swapped[j + size - i],
                decreases size - lo,
            {
                let at_lo: usize = self.choices[lo];
                let at_hi: usize = self.choices[hi];
                self.choices[lo] = at_hi;
                self.choices[hi] = at_lo;
                lo = lo + 1;
                hi = hi - 1;
            }
            assert(self.choices@ =~= exchange_and_reverse(s, j as int, l as int));
            Some(self.choices.clone())
        } else {
            proof {
                assert forall|p: int| !is_pivot(s, p) by {
                    if is_pivot(s, p) {
                        if p > j {
                            assert(s[p] >= s[p + 1]);
                        }
                    }
                }
            }
            assert(!has_pivot(s));
            None
        }
    }
}

} // verus!
