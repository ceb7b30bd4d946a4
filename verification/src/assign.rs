//! Greedy association of tracks with detections: every pair with a positive score is a
//! candidate, and candidates are taken best first as long as both partners are free.

use vstd::prelude::*;

use crate::number::Real;
use crate::rank::{is_ranking, lists, outranks, rank};

verus! {

/// Which detection each track was given, and which detections were given away.
pub struct Assignment {
    /// For each track, the index of its detection.
    pub matched: Vec<Option<usize>>,
    /// For each detection, whether a track has it.
    pub taken: Vec<bool>,
}

/// A track, a detection, and how well they fit.
struct Candidate {
    score: Real,
    track: usize,
    detection: usize,
}

/// The scores of a table, row by row.
pub open spec fn table(scores: Seq<Vec<Real>>) -> Seq<Seq<Real>> {
    scores.map_values(|row: Vec<Real>| row@)
}

/// Whether track `t` and detection `d` may be paired at all.
pub open spec fn eligible(scores: Seq<Seq<Real>>, t: int, d: int) -> bool {
    Real::nought().below(scores[t][d])
}

/// Whether the pair `(t, d)` is taken before the pair `(u, e)`: it has the better score,
/// or the same score and the earlier track, or also the same track and the earlier
/// detection.
pub open spec fn beats(scores: Seq<Seq<Real>>, t: int, d: int, u: int, e: int) -> bool {
    let a = scores[t][d].rank();
    let b = scores[u][e].rank();
    a > b || (a == b && (t < u || (t == u && d < e)))
}

/// Whether a better pair holds the track `t` or the detection `d`.
pub open spec fn blocked(
    scores: Seq<Seq<Real>>,
    matched: Seq<Option<usize>>,
    t: int,
    d: int,
) -> bool {
    ||| (matched[t] matches Some(e) && beats(scores, t, e as int, t, d))
    ||| exists|u: int|
        0 <= u < matched.len() && #[trigger] matched[u] == Some(d as usize) && beats(
            scores,
            u,
            d,
            t,
            d,
        )
}

/// Whether `matched` pairs tracks with the `width` detections greedily: only eligible
/// pairs, no detection twice, and an eligible pair is passed over only for a better one
/// with the same track or the same detection.
pub open spec fn is_greedy(
    scores: Seq<Seq<Real>>,
    width: nat,
    matched: Seq<Option<usize>>,
) -> bool {
    &&& matched.len() == scores.len()
    &&& forall|t: int|
        0 <= t < matched.len() ==> (#[trigger] matched[t] matches Some(d) ==> d < width
            && eligible(scores, t, d as int))
    &&& forall|t: int, u: int|
        0 <= t < u < matched.len() && (#[trigger] matched[t]) is Some ==> matched[t]
            != #[trigger] matched[u]
    &&& forall|t: int, d: int|
        0 <= t < matched.len() && 0 <= d < width && #[trigger] eligible(scores, t, d)
            && matched[t] != Some(d as usize) ==> blocked(scores, matched, t, d)
}

/// Whether some track was given detection `d`.
pub open spec fn is_taken(matched: Seq<Option<usize>>, d: int) -> bool {
    exists|t: int| 0 <= t < matched.len() && #[trigger] matched[t] == Some(d as usize)
}

/// Whether the list holds exactly the eligible pairs of the tracks before `t`, and of
/// track `t` those with the detections before `d`, track by track.
spec fn lists_candidates(
    scores: Seq<Seq<Real>>,
    width: int,
    list: Seq<Candidate>,
    t: int,
    d: int,
) -> bool {
    &&& forall|i: int|
        0 <= i < list.len() ==> {
            let c = #[trigger] list[i];
            &&& c.track < scores.len()
            &&& c.detection < width
            &&& c.track < t || (c.track == t && c.detection < d)
            &&& c.score == scores[c.track as int][c.detection as int]
            &&& eligible(scores, c.track as int, c.detection as int)
        }
    &&& forall|i: int, j: int|
        0 <= i < j < list.len() ==> {
            let a = #[trigger] list[i];
            let b = #[trigger] list[j];
            a.track < b.track || (a.track == b.track && a.detection < b.detection)
        }
    &&& forall|u: int, e: int|
        0 <= u < scores.len() && 0 <= e < width && (u < t || (u == t && e < d))
            && #[trigger] eligible(scores, u, e) ==> exists|i: int|
            0 <= i < list.len() && (#[trigger] list[i]).track == u && list[i].detection == e
}

/// All eligible pairs, track by track.
fn candidates(scores: &Vec<Vec<Real>>, width: usize) -> (list: Vec<Candidate>)
    requires
        forall|t: int| 0 <= t < scores@.len() ==> (#[trigger] scores@[t])@.len() == width,
    ensures
        lists_candidates(table(scores@), width as int, list@, scores@.len() as int, 0),
{
    let ghost grid = table(scores@);
    let mut list: Vec<Candidate> = Vec::new();
    let mut t: usize = 0;
    while t < scores.len()
        invariant
            t <= scores@.len(),
            grid == table(scores@),
            forall|t: int| 0 <= t < scores@.len() ==> (#[trigger] scores@[t])@.len() == width,
            lists_candidates(grid, width as int, list@, t as int, 0),
        decreases scores@.len() - t,
    {
        let mut d: usize = 0;
        while d < width
            invariant
                t < scores@.len(),
                d <= width,
                grid == table(scores@),
                forall|t: int|
                    0 <= t < scores@.len() ==> (#[trigger] scores@[t])@.len() == width,
                lists_candidates(grid, width as int, list@, t as int, d as int),
            decreases width - d,
        {
            let score = scores[t][d];
            assert(score == grid[t as int][d as int]);
            let ghost before = list@;
            if Real::zero().less_than(score) {
                list.push(Candidate { score, track: t, detection: d });
                assert(list@[before.len() as int].track == t);
            }
            assert forall|u: int, e: int|
                0 <= u < grid.len() && 0 <= e < width && (u < t || (u == t && e < d + 1))
                    && #[trigger] eligible(grid, u, e) implies exists|i: int|
                0 <= i < list@.len() && (#[trigger] list@[i]).track == u && list@[i].detection
                    == e by {
                if u == t && e == d {
                    assert(list@[before.len() as int].track == u);
                } else {
                    let i = choose|i: int|
                        0 <= i < before.len() && (#[trigger] before[i]).track == u
                            && before[i].detection == e;
                    assert(list@[i] == before[i]);
                }
            }
            d = d + 1;
        }
        t = t + 1;
    }
    list
}

/// Pairs tracks (the rows) with detections (the columns), best score first.
pub fn assign(scores: &Vec<Vec<Real>>, width: usize) -> (assignment: Assignment)
    requires
        forall|t: int| 0 <= t < scores@.len() ==> (#[trigger] scores@[t])@.len() == width,
    ensures
        is_greedy(table(scores@), width as nat, assignment.matched@),
        assignment.taken@.len() == width,
        forall|d: int|
            0 <= d < width ==> #[trigger] assignment.taken@[d] == is_taken(
                assignment.matched@,
                d,
            ),
{
    let ghost grid = table(scores@);
    let list = candidates(scores, width);
    let mut keys: Vec<Real> = Vec::new();
    let mut i: usize = 0;
    while i < list.len()
        invariant
            i <= list@.len(),
            keys@.len() == i,
            lists_candidates(grid, width as int, list@, scores@.len() as int, 0),
            forall|j: int| 0 <= j < i ==> #[trigger] keys@[j] == list@[j].score,
            forall|j: int| 0 <= j < i ==> !(#[trigger] keys@[j]).nan(),
        decreases list@.len() - i,
    {
        assert(eligible(grid, list@[i as int].track as int, list@[i as int].detection as int));
        keys.push(list[i].score);
        i = i + 1;
    }
    let order = rank(&keys);
    let mut matched: Vec<Option<usize>> = Vec::new();
    while matched.len() < scores.len()
        invariant
            matched@.len() <= scores@.len(),
            forall|t: int| 0 <= t < matched@.len() ==> #[trigger] matched@[t] is None,
        decreases scores@.len() - matched@.len(),
    {
        matched.push(None);
    }
    let mut taken: Vec<bool> = Vec::new();
    while taken.len() < width
        invariant
            taken@.len() <= width,
            forall|d: int| 0 <= d < taken@.len() ==> !(#[trigger] taken@[d]),
        decreases width - taken@.len(),
    {
        taken.push(false);
    }
    let mut k: usize = 0;
    while k < order.len()
        invariant
            k <= order@.len(),
            grid == table(scores@),
            matched@.len() == scores@.len(),
            taken@.len() == width,
            lists_candidates(grid, width as int, list@, scores@.len() as int, 0),
            is_ranking(keys@, order@),
            keys@.len() == list@.len(),
            forall|j: int| 0 <= j < list@.len() ==> #[trigger] keys@[j] == list@[j].score,
            sweeps(grid, width as int, list@, order@, matched@, taken@, k as int),
        decreases order@.len() - k,
    {
        let at = order[k];
        let t = list[at].track;
        let d = list[at].detection;
        let ghost was = matched@;
        let ghost had = taken@;
        proof {
            lemma_earlier_beats(grid, width as int, list@, keys@, order@, k as int);
        }
        if matched[t].is_none() && !taken[d] {
            matched.set(t, Some(d));
            taken.set(d, true);
            proof {
                lemma_sweep_takes(grid, width as int, list@, order@, was, had, k as int);
            }
        } else {
            proof {
                lemma_sweep_passes(grid, width as int, list@, order@, was, had, k as int);
            }
        }
        k = k + 1;
    }
    proof {
        assert forall|t: int, d: int|
            0 <= t < matched@.len() && 0 <= d < width && #[trigger] eligible(grid, t, d)
                && matched@[t] != Some(d as usize) implies blocked(grid, matched@, t, d) by {
            let i = choose|i: int|
                0 <= i < list@.len() && (#[trigger] list@[i]).track == t && list@[i].detection
                    == d;
            assert(lists(order@, i));
            let j = choose|j: int| 0 <= j < order@.len() && #[trigger] order@[j] == i;
            assert(settled(grid, list@, matched@, order@[j] as int));
        }
    }
    Assignment { matched, taken }
}

/// Whether candidate `i` was taken, or passed over for a better pair.
spec fn settled(
    scores: Seq<Seq<Real>>,
    list: Seq<Candidate>,
    matched: Seq<Option<usize>>,
    i: int,
) -> bool {
    let t = list[i].track as int;
    let d = list[i].detection as int;
    matched[t] == Some(d as usize) || blocked(scores, matched, t, d)
}

/// Whether pair `(t, d)` is among the first `k` candidates of the order.
spec fn visited(
    list: Seq<Candidate>,
    order: Seq<usize>,
    k: int,
    t: int,
    d: int,
) -> bool {
    exists|j: int|
        0 <= j < k && list[#[trigger] order[j] as int].track == t && list[order[j] as int].detection
            == d
}

/// What holds after the first `k` candidates of the order were looked at.
spec fn sweeps(
    scores: Seq<Seq<Real>>,
    width: int,
    list: Seq<Candidate>,
    order: Seq<usize>,
    matched: Seq<Option<usize>>,
    taken: Seq<bool>,
    k: int,
) -> bool {
    &&& forall|t: int|
        0 <= t < matched.len() ==> (#[trigger] matched[t] matches Some(d) ==> d < width
            && eligible(scores, t, d as int) && visited(list, order, k, t, d as int))
    &&& forall|t: int, u: int|
        0 <= t < u < matched.len() && (#[trigger] matched[t]) is Some ==> matched[t]
            != #[trigger] matched[u]
    &&& forall|d: int| 0 <= d < width ==> #[trigger] taken[d] == is_taken(matched, d)
    &&& forall|j: int| 0 <= j < k ==> settled(scores, list, matched, #[trigger] order[j] as int)
}

/// Every candidate before position `k` of the order beats the one at `k`.
proof fn lemma_earlier_beats(
    scores: Seq<Seq<Real>>,
    width: int,
    list: Seq<Candidate>,
    keys: Seq<Real>,
    order: Seq<usize>,
    k: int,
)
    requires
        lists_candidates(scores, width, list, scores.len() as int, 0),
        is_ranking(keys, order),
        keys.len() == list.len(),
        forall|j: int| 0 <= j < list.len() ==> #[trigger] keys[j] == list[j].score,
        0 <= k < order.len(),
    ensures
        forall|t: int, d: int| #[trigger]
            visited(list, order, k, t, d) ==> beats(
                scores,
                t,
                d,
                list[order[k] as int].track as int,
                list[order[k] as int].detection as int,
            ),
{
    assert forall|t: int, d: int| #[trigger] visited(list, order, k, t, d) implies beats(
        scores,
        t,
        d,
        list[order[k] as int].track as int,
        list[order[k] as int].detection as int,
    ) by {
        let j = choose|j: int|
            0 <= j < k && list[#[trigger] order[j] as int].track == t
                && list[order[j] as int].detection == d;
        assert(outranks(keys, order[j] as int, order[k] as int));
        let a = list[order[j] as int];
        let b = list[order[k] as int];
        assert(keys[order[j] as int] == a.score);
        assert(keys[order[k] as int] == b.score);
    }
}

/// Taking the candidate at position `k`, whose track and detection are free, keeps what
/// holds of the sweep.
proof fn lemma_sweep_takes(
    scores: Seq<Seq<Real>>,
    width: int,
    list: Seq<Candidate>,
    order: Seq<usize>,
    was: Seq<Option<usize>>,
    had: Seq<bool>,
    k: int,
)
    requires
        lists_candidates(scores, width, list, scores.len() as int, 0),
        sweeps(scores, width, list, order, was, had, k),
        was.len() == scores.len(),
        had.len() == width,
        width <= usize::MAX,
        0 <= k < order.len(),
        forall|j: int| 0 <= j < order.len() ==> 0 <= #[trigger] order[j] < list.len(),
        was[list[order[k] as int].track as int] is None,
        !had[list[order[k] as int].detection as int],
    ensures
        sweeps(
            scores,
            width,
            list,
            order,
            was.update(
                list[order[k] as int].track as int,
                Some(list[order[k] as int].detection),
            ),
            had.update(list[order[k] as int].detection as int, true),
            k + 1,
        ),
{
    let c = list[order[k] as int];
    let t0 = c.track as int;
    let d0 = c.detection as int;
    let matched = was.update(t0, Some(c.detection));
    let taken = had.update(d0, true);
    assert(matched[t0] == Some(c.detection));
    assert(!is_taken(was, d0));
    assert forall|t: int| 0 <= t < matched.len() implies (#[trigger] matched[t] matches Some(d)
        ==> d < width && eligible(scores, t, d as int) && visited(list, order, k + 1, t, d as int))
    by {
        if t == t0 {
            assert(visited(list, order, k + 1, t0, d0)) by {
                assert(list[order[k] as int].track == t0);
            }
        } else if let Some(d) = matched[t] {
            assert(was[t] == Some(d));
            assert(visited(list, order, k, t, d as int));
            let j = choose|j: int|
                0 <= j < k && list[#[trigger] order[j] as int].track == t
                    && list[order[j] as int].detection == d as int;
            assert(0 <= j < k + 1 && list[order[j] as int].track == t);
        }
    }
    assert forall|t: int, u: int|
        0 <= t < u < matched.len() && (#[trigger] matched[t]) is Some implies matched[t]
        != #[trigger] matched[u] by {
        if t == t0 {
            assert(was[u] != Some(c.detection));
        } else if u == t0 {
            assert(was[t] != Some(c.detection));
        } else {
            assert(was[t] != was[u]);
        }
    }
    assert forall|d: int| 0 <= d < width implies #[trigger] taken[d] == is_taken(matched, d) by {
        if d == d0 {
            assert(matched[t0] == Some(d as usize));
        } else {
            if is_taken(was, d) {
                let t = choose|t: int| 0 <= t < was.len() && #[trigger] was[t] == Some(d as usize);
                assert(matched[t] == Some(d as usize));
            }
            if is_taken(matched, d) {
                let t = choose|t: int|
                    0 <= t < matched.len() && #[trigger] matched[t] == Some(d as usize);
                assert(was[t] == Some(d as usize));
            }
            assert(had[d] == is_taken(was, d));
        }
    }
    assert forall|j: int| 0 <= j < k + 1 implies settled(
        scores,
        list,
        matched,
        #[trigger] order[j] as int,
    ) by {
        if j < k {
            let t = list[order[j] as int].track as int;
            let d = list[order[j] as int].detection as int;
            assert(settled(scores, list, was, order[j] as int));
            if was[t] == Some(d as usize) {
                assert(matched[t] == Some(d as usize));
            } else {
                assert(blocked(scores, was, t, d));
                if exists|u: int|
                    0 <= u < was.len() && #[trigger] was[u] == Some(d as usize) && beats(
                        scores,
                        u,
                        d,
                        t,
                        d,
                    ) {
                    let u = choose|u: int|
                        0 <= u < was.len() && #[trigger] was[u] == Some(d as usize) && beats(
                            scores,
                            u,
                            d,
                            t,
                            d,
                        );
                    assert(matched[u] == Some(d as usize));
                } else {
                    assert(t != t0);
                    assert(matched[t] == was[t]);
                }
            }
        }
    }
}

/// Passing over the candidate at position `k`, whose track or detection is not free, keeps
/// what holds of the sweep.
proof fn lemma_sweep_passes(
    scores: Seq<Seq<Real>>,
    width: int,
    list: Seq<Candidate>,
    order: Seq<usize>,
    matched: Seq<Option<usize>>,
    taken: Seq<bool>,
    k: int,
)
    requires
        lists_candidates(scores, width, list, scores.len() as int, 0),
        sweeps(scores, width, list, order, matched, taken, k),
        matched.len() == scores.len(),
        taken.len() == width,
        0 <= k < order.len(),
        forall|j: int| 0 <= j < order.len() ==> 0 <= #[trigger] order[j] < list.len(),
        matched[list[order[k] as int].track as int] is Some
            || taken[list[order[k] as int].detection as int],
        forall|t: int, d: int| #[trigger]
            visited(list, order, k, t, d) ==> beats(
                scores,
                t,
                d,
                list[order[k] as int].track as int,
                list[order[k] as int].detection as int,
            ),
    ensures
        sweeps(scores, width, list, order, matched, taken, k + 1),
{
    let c = list[order[k] as int];
    let t0 = c.track as int;
    let d0 = c.detection as int;
    assert forall|t: int| 0 <= t < matched.len() implies (#[trigger] matched[t] matches Some(d)
        ==> d < width && eligible(scores, t, d as int) && visited(list, order, k + 1, t, d as int))
    by {
        if let Some(d) = matched[t] {
            assert(visited(list, order, k, t, d as int));
            let j = choose|j: int|
                0 <= j < k && list[#[trigger] order[j] as int].track == t
                    && list[order[j] as int].detection == d as int;
            assert(0 <= j < k + 1 && list[order[j] as int].track == t);
        }
    }
    assert(settled(scores, list, matched, order[k] as int)) by {
        if matched[t0] is Some {
            let e = matched[t0].unwrap();
            assert(visited(list, order, k, t0, e as int));
        } else {
            assert(is_taken(matched, d0));
            let u = choose|u: int|
                0 <= u < matched.len() && #[trigger] matched[u] == Some(d0 as usize);
            assert(visited(list, order, k, u, d0));
        }
    }
}

/// Scores have one greedy pairing only: whoever follows the rule comes to the same result.
pub proof fn law_greedy_pairing_is_unique(
    scores: Seq<Seq<Real>>,
    width: nat,
    a: Seq<Option<usize>>,
    b: Seq<Option<usize>>,
)
    requires
        is_greedy(scores, width, a),
        is_greedy(scores, width, b),
    ensures
        a == b,
{
    assert forall|t: int| 0 <= t < a.len() implies a[t] == b[t] by {
        if let Some(d) = a[t] {
            lemma_same_pair(scores, width, a, b, t, d as int);
        } else if let Some(d) = b[t] {
            lemma_same_pair(scores, width, b, a, t, d as int);
        }
    }
    assert(a =~= b);
}

/// A pair of one greedy pairing is a pair of every other: whatever could stand in its way
/// there is a better pair, which is in both.
proof fn lemma_same_pair(
    scores: Seq<Seq<Real>>,
    width: nat,
    a: Seq<Option<usize>>,
    b: Seq<Option<usize>>,
    t: int,
    d: int,
)
    requires
        is_greedy(scores, width, a),
        is_greedy(scores, width, b),
        0 <= t < a.len(),
        0 <= d < width,
        a[t] == Some(d as usize),
        d <= usize::MAX,
    ensures
        b[t] == Some(d as usize),
    decreases 0x1_0000_0000 - scores[t][d].rank(), t, d,
{
    assert(eligible(scores, t, d));
    if b[t] != Some(d as usize) {
        assert(blocked(scores, b, t, d));
        if b[t] is Some && beats(scores, t, b[t].unwrap() as int, t, d) {
            let e = b[t].unwrap() as int;
            assert(eligible(scores, t, e));
            lemma_same_pair(scores, width, b, a, t, e);
        } else {
            let u = choose|u: int|
                0 <= u < b.len() && #[trigger] b[u] == Some(d as usize) && beats(
                    scores,
                    u,
                    d,
                    t,
                    d,
                );
            assert(eligible(scores, u, d));
            lemma_same_pair(scores, width, b, a, u, d);
            assert(a[u] == a[t]);
        }
    }
}

/// Pairs are taken best first. Only pairs with a score above zero are made, and no detection
/// is given twice. A pair with a score above zero that is not made lost against one that is:
/// its track has a detection with a better score, or an equal one that stands before, or its
/// detection has a track with a better score, or an equal one that stands before.
pub proof fn law_best_pairs_are_made(
    scores: Seq<Seq<Real>>,
    width: nat,
    matched: Seq<Option<usize>>,
)
    requires
        is_greedy(scores, width, matched),
        width <= usize::MAX,
    ensures
        matched.len() == scores.len(),
        forall|t: int|
            0 <= t < matched.len() ==> (#[trigger] matched[t] matches Some(d) ==> d < width && (
            Real { bits: 0 }).below(scores[t][d as int])),
        forall|t: int, u: int|
            0 <= t < u < matched.len() ==> (#[trigger] matched[t] matches Some(d) ==> (
            #[trigger] matched[u] matches Some(e) ==> d != e)),
        forall|t: int, d: int|
            #![trigger scores[t][d]]
            0 <= t < matched.len() && 0 <= d < width && (Real { bits: 0 }).below(scores[t][d]) ==> {
                ||| (matched[t] matches Some(e) && e == d)
                ||| (matched[t] matches Some(e) && (scores[t][e as int].rank()
                    > scores[t][d].rank() || (scores[t][e as int].rank() == scores[t][d].rank() && e
                    < d)))
                ||| exists|u: int|
                    0 <= u < matched.len() && (#[trigger] matched[u] matches Some(e) && e == d) && (
                    scores[u][d].rank() > scores[t][d].rank() || (scores[u][d].rank()
                        == scores[t][d].rank() && u < t))
            },
{
    assert forall|t: int, d: int|
        #![trigger scores[t][d]]
        0 <= t < matched.len() && 0 <= d < width && (Real { bits: 0 }).below(
            scores[t][d],
        ) implies {
        ||| (matched[t] matches Some(e) && e == d)
        ||| (matched[t] matches Some(e) && (scores[t][e as int].rank() > scores[t][d].rank() || (
        scores[t][e as int].rank() == scores[t][d].rank() && e < d)))
        ||| exists|u: int|
            0 <= u < matched.len() && (#[trigger] matched[u] matches Some(e) && e == d) && (
            scores[u][d].rank() > scores[t][d].rank() || (scores[u][d].rank()
                == scores[t][d].rank() && u < t))
    } by {
        assert(eligible(scores, t, d));
        if matched[t] != Some(d as usize) {
            assert(blocked(scores, matched, t, d));
        }
    }
}

} // verus!
