//! The majority vote over the recent classes of a track.

use vstd::prelude::*;

verus! {

/// How often `class` occurs.
pub open spec fn occurrences(recent: Seq<usize>, class: usize) -> nat
    decreases recent.len(),
{
    if recent.len() == 0 {
        0
    } else {
        occurrences(recent.drop_last(), class) + (if recent.last() == class {
            1nat
        } else {
            0nat
        })
    }
}

/// The most frequent class among the first `n` entries, each counted over the whole list.
/// Of equally frequent classes the first to occur wins.
pub open spec fn leader(recent: Seq<usize>, n: int) -> usize
    decreases n,
{
    if n <= 1 {
        recent[0]
    } else {
        let best = leader(recent, n - 1);
        if occurrences(recent, recent[n - 1]) > occurrences(recent, best) {
            recent[n - 1]
        } else {
            best
        }
    }
}

/// The most frequent class of a list that is not empty.
pub open spec fn majority(recent: Seq<usize>) -> usize {
    leader(recent, recent.len() as int)
}

/// How often `class` occurs in the list.
fn count(recent: &[usize], class: usize) -> (n: usize)
    ensures
        n == occurrences(recent@, class),
{
    let mut n: usize = 0;
    let mut i: usize = 0;
    while i < recent.len()
        invariant
            i <= recent@.len(),
            n <= i,
            n == occurrences(recent@.take(i as int), class),
        decreases recent@.len() - i,
    {
        assert(recent@.take(i + 1).drop_last() =~= recent@.take(i as int));
        if recent[i] == class {
            n = n + 1;
        }
        i = i + 1;
    }
    assert(recent@.take(i as int) =~= recent@);
    n
}

/// The most frequent class. Of equally frequent classes the first to occur wins.
pub fn majority_class(recent: &[usize]) -> (class: usize)
    requires
        recent@.len() > 0,
    ensures
        class == majority(recent@),
        recent@.contains(class),
        forall|i: int|
            0 <= i < recent@.len() ==> occurrences(recent@, #[trigger] recent@[i]) <= occurrences(
                recent@,
                class,
            ),
{
    let mut best: usize = recent[0];
    let mut best_count: usize = 0;
    let mut i: usize = 0;
    while i < recent.len()
        invariant
            i <= recent@.len(),
            recent@.len() > 0,
            i == 0 ==> best == recent@[0] && best_count == 0,
            i > 0 ==> best == leader(recent@, i as int) && best_count == occurrences(
                recent@,
                best,
            ),
        decreases recent@.len() - i,
    {
        let candidate: usize = recent[i];
        let found: usize = count(recent, candidate);
        if i == 0 {
            proof {
                lemma_occurs(recent@, 0);
            }
        }
        if found > best_count {
            best_count = found;
            best = candidate;
        }
        i = i + 1;
    }
    proof {
        law_majority_wins(recent@);
    }
    best
}

/// What stands in the list occurs in it.
proof fn lemma_occurs(recent: Seq<usize>, i: int)
    requires
        0 <= i < recent.len(),
    ensures
        occurrences(recent, recent[i]) > 0,
    decreases recent.len(),
{
    if i < recent.len() - 1 {
        lemma_occurs(recent.drop_last(), i);
        assert(recent.drop_last()[i] == recent[i]);
    }
}

/// The majority is in the list, no class is more frequent, and every class that occurs
/// before its first occurrence is less frequent.
pub proof fn law_majority_wins(recent: Seq<usize>)
    requires
        recent.len() > 0,
    ensures
        exists|first: int|
            0 <= first < recent.len() && #[trigger] recent[first] == majority(recent) && forall|
                i: int,
            |
                0 <= i < first ==> occurrences(recent, #[trigger] recent[i]) < occurrences(
                    recent,
                    majority(recent),
                ),
        forall|i: int|
            0 <= i < recent.len() ==> occurrences(recent, #[trigger] recent[i]) <= occurrences(
                recent,
                majority(recent),
            ),
{
    let first = lemma_leader(recent, recent.len() as int);
    assert(recent[first] == majority(recent));
}

proof fn lemma_leader(recent: Seq<usize>, n: int) -> (first: int)
    requires
        1 <= n <= recent.len(),
    ensures
        0 <= first < n,
        recent[first] == leader(recent, n),
        forall|i: int|
            0 <= i < first ==> occurrences(recent, #[trigger] recent[i]) < occurrences(
                recent,
                leader(recent, n),
            ),
        forall|i: int|
            0 <= i < n ==> occurrences(recent, #[trigger] recent[i]) <= occurrences(
                recent,
                leader(recent, n),
            ),
    decreases n,
{
    if n == 1 {
        0
    } else {
        let before = lemma_leader(recent, n - 1);
        if occurrences(recent, recent[n - 1]) > occurrences(recent, leader(recent, n - 1)) {
            n - 1
        } else {
            before
        }
    }
}

/// Counting goes over the whole list.
pub proof fn law_every_occurrence_counts(recent: Seq<usize>, class: usize)
    ensures
        occurrences(recent, class) == recent.filter(|c: usize| c == class).len(),
        occurrences(recent, class) <= recent.len(),
    decreases recent.len(),
{
    reveal(Seq::filter);
    if recent.len() > 0 {
        law_every_occurrence_counts(recent.drop_last(), class);
    }
}

} // verus!
