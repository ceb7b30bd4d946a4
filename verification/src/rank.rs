//! Ranking: the indices of a list of scores, best score first, and of equal scores the
//! earlier index first.

use vstd::prelude::*;

use crate::number::Real;

verus! {

/// Whether item `a` comes before item `b`: it has the better score, or the same score and
/// the smaller index.
pub open spec fn outranks(scores: Seq<Real>, a: int, b: int) -> bool {
    scores[a].rank() > scores[b].rank() || (scores[a].rank() == scores[b].rank() && a < b)
}

/// Whether index `a` stands in the order.
pub open spec fn lists(order: Seq<usize>, a: int) -> bool {
    exists|i: int| 0 <= i < order.len() && #[trigger] order[i] == a
}

/// Whether `order` lists every index of `scores`, each before all that it outranks.
pub open spec fn is_ranking(scores: Seq<Real>, order: Seq<usize>) -> bool {
    &&& order.len() == scores.len()
    &&& forall|i: int| 0 <= i < order.len() ==> 0 <= #[trigger] order[i] < scores.len()
    &&& forall|i: int, j: int|
        0 <= i < j < order.len() ==> outranks(
            scores,
            #[trigger] order[i] as int,
            #[trigger] order[j] as int,
        )
    &&& forall|a: int| 0 <= a < scores.len() ==> #[trigger] lists(order, a)
}

/// The indices of `scores`, best first. Equal scores keep their order.
pub fn rank(scores: &Vec<Real>) -> (order: Vec<usize>)
    requires
        scores@.len() > 1 ==> forall|i: int|
            0 <= i < scores@.len() ==> !(#[trigger] scores@[i]).nan(),
    ensures
        is_ranking(scores@, order@),
{
    let mut order: Vec<usize> = Vec::new();
    let mut n: usize = 0;
    while n < scores.len()
        invariant
            n <= scores@.len(),
            scores@.len() > 1 ==> forall|i: int|
                0 <= i < scores@.len() ==> !(#[trigger] scores@[i]).nan(),
            is_ranking(scores@.take(n as int), order@),
        decreases scores@.len() - n,
    {
        let ghost before = order@;
        let ghost seen = scores@.take(n as int);
        let mut p: usize = order.len();
        while p > 0 && scores[order[p - 1]].less_than(scores[n])
            invariant
                p <= order@.len(),
                order@ == before,
                n < scores@.len(),
                before.len() == n,
                seen == scores@.take(n as int),
                is_ranking(seen, before),
                scores@.len() > 1 ==> forall|i: int|
                    0 <= i < scores@.len() ==> !(#[trigger] scores@[i]).nan(),
                forall|j: int|
                    p <= j < before.len() ==> scores@[#[trigger] before[j] as int].rank()
                        < scores@[n as int].rank(),
            decreases p,
        {
            p = p - 1;
        }
        order.insert(p, n);
        proof {
            lemma_insert_keeps_ranking(scores@, before, n, p as int);
        }
        n = n + 1;
    }
    proof {
        assert(scores@.take(n as int) =~= scores@);
    }
    order
}

/// Putting item `n` behind every ranked item that scores at least as much, and before the
/// rest, ranks the first `n + 1` items.
proof fn lemma_insert_keeps_ranking(scores: Seq<Real>, order: Seq<usize>, n: usize, p: int)
    requires
        n < scores.len(),
        is_ranking(scores.take(n as int), order),
        0 <= p <= order.len(),
        p > 0 ==> scores[order[p - 1] as int].rank() >= scores[n as int].rank(),
        forall|j: int|
            p <= j < order.len() ==> scores[#[trigger] order[j] as int].rank()
                < scores[n as int].rank(),
    ensures
        is_ranking(scores.take(n + 1), order.insert(p, n)),
{
    let seen = scores.take(n as int);
    let grown = scores.take(n + 1);
    let next = order.insert(p, n);
    assert forall|i: int, j: int| 0 <= i < j < next.len() implies outranks(
        grown,
        #[trigger] next[i] as int,
        #[trigger] next[j] as int,
    ) by {
        if i < p && j < p {
            assert(outranks(seen, order[i] as int, order[j] as int));
        } else if i < p && j == p {
            assert(order[i] < n);
            if i < p - 1 {
                assert(outranks(seen, order[i] as int, order[p - 1] as int));
            }
        } else if i < p && j > p {
            assert(outranks(seen, order[i] as int, order[j - 1] as int));
        } else if i == p {
            assert(order[j - 1] < n);
        } else {
            assert(outranks(seen, order[i - 1] as int, order[j - 1] as int));
        }
    }
    assert forall|a: int| 0 <= a < grown.len() implies #[trigger] lists(next, a) by {
        if a == n {
            assert(next[p] == n);
        } else {
            assert(lists(order, a));
            let i = choose|i: int| 0 <= i < order.len() && #[trigger] order[i] == a;
            if i < p {
                assert(next[i] == order[i]);
            } else {
                assert(next[i + 1] == order[i]);
            }
        }
    }
}

/// Scores have one ranking only.
pub proof fn lemma_ranking_is_unique(scores: Seq<Real>, a: Seq<usize>, b: Seq<usize>)
    requires
        is_ranking(scores, a),
        is_ranking(scores, b),
    ensures
        a == b,
{
    lemma_ranking_prefix(scores, a, b, a.len());
    assert(a =~= b);
}

proof fn lemma_ranking_prefix(scores: Seq<Real>, a: Seq<usize>, b: Seq<usize>, n: nat)
    requires
        is_ranking(scores, a),
        is_ranking(scores, b),
        n <= a.len(),
    ensures
        forall|i: int| 0 <= i < n ==> a[i] == b[i],
    decreases n,
{
    if n > 0 {
        lemma_ranking_prefix(scores, a, b, (n - 1) as nat);
        let k = n - 1;
        // a[k] stands somewhere in b, and b[k] somewhere in a; neither can stand earlier.
        assert(lists(b, a[k] as int));
        let j = choose|j: int| 0 <= j < b.len() && #[trigger] b[j] == a[k];
        assert(lists(a, b[k] as int));
        let i = choose|i: int| 0 <= i < a.len() && #[trigger] a[i] == b[k];
        if j < k {
            assert(a[j] == b[j]);
            assert(outranks(scores, a[j] as int, a[k] as int));
        }
        if i < k {
            assert(a[i] == b[i]);
            assert(outranks(scores, b[i] as int, b[k] as int));
        }
        if j > k && i > k {
            assert(outranks(scores, b[k] as int, b[j] as int));
            assert(outranks(scores, a[k] as int, a[i] as int));
        }
    }
}

/// A ranking holds every index once, better scores before worse ones, and equal scores in the
/// order in which they stand.
pub proof fn law_ranking_is_best_first_and_stable(scores: Seq<Real>, order: Seq<usize>)
    requires
        is_ranking(scores, order),
    ensures
        order.len() == scores.len(),
        forall|i: int| 0 <= i < order.len() ==> 0 <= #[trigger] order[i] < scores.len(),
        order.no_duplicates(),
        forall|i: int, j: int|
            0 <= i < j < order.len() ==> {
                let a = #[trigger] order[i] as int;
                let b = #[trigger] order[j] as int;
                scores[a].rank() >= scores[b].rank() && (scores[a].rank() == scores[b].rank() ==> a
                    < b)
            },
{
    assert forall|i: int, j: int| 0 <= i < order.len() && 0 <= j < order.len() && i != j implies
        order[i] != order[j] by {
        if i < j {
            assert(outranks(scores, order[i] as int, order[j] as int));
        } else {
            assert(outranks(scores, order[j] as int, order[i] as int));
        }
    }
}

} // verus!
