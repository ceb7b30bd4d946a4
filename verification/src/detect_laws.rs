//! What the way from the model's output to detections promises.

use vstd::prelude::*;

use crate::detect::{
    all_located, confidences, covers, kept, preference, suppressed, survives, Candidate, Output,
    Placement, Provider, BOX_ROWS,
};
use crate::number::Real;
use crate::rank::{is_ranking, lemma_ranking_is_unique, lists, outranks};
use crate::types::Detection;

verus! {

/// No two kept detections show one object: of two that are kept, the better does not stand
/// for the other.
pub proof fn law_kept_detections_are_apart(
    dets: Seq<Detection>,
    overlaps: Seq<Vec<Real>>,
    iou_thresh: Real,
    order: Seq<usize>,
    q: int,
    r: int,
)
    requires
        0 <= q < r < order.len(),
        survives(dets, overlaps, iou_thresh, order, q),
        survives(dets, overlaps, iou_thresh, order, r),
    ensures
        !covers(dets, overlaps, iou_thresh, order[q] as int, order[r] as int),
{
}

/// A detection is dropped only for a kept one of its class that is at least as confident
/// and overlaps it by more than the threshold.
pub proof fn law_dropped_detection_is_covered(
    dets: Seq<Detection>,
    overlaps: Seq<Vec<Real>>,
    iou_thresh: Real,
    order: Seq<usize>,
    r: int,
)
    requires
        is_ranking(confidences(dets), order),
        0 <= r < order.len(),
        !survives(dets, overlaps, iou_thresh, order, r),
    ensures
        exists|q: int|
            0 <= q < r && survives(dets, overlaps, iou_thresh, order, q) && covers(
                dets,
                overlaps,
                iou_thresh,
                #[trigger] order[q] as int,
                order[r] as int,
            ) && dets[order[q] as int].class_id == dets[order[r] as int].class_id
                && dets[order[q] as int].confidence.rank()
                >= dets[order[r] as int].confidence.rank(),
{
    let q = choose|q: int|
        0 <= q < r && survives(dets, overlaps, iou_thresh, order, q) && covers(
            dets,
            overlaps,
            iou_thresh,
            #[trigger] order[q] as int,
            order[r] as int,
        );
    assert(outranks(confidences(dets), order[q] as int, order[r] as int));
    assert(confidences(dets)[order[q] as int] == dets[order[q] as int].confidence);
    assert(confidences(dets)[order[r] as int] == dets[order[r] as int].confidence);
}

/// Suppression runs class by class: a detection whose class no better one has is kept,
/// however much others overlap it.
pub proof fn law_other_classes_do_not_suppress(
    dets: Seq<Detection>,
    overlaps: Seq<Vec<Real>>,
    iou_thresh: Real,
    order: Seq<usize>,
    r: int,
)
    requires
        0 <= r < order.len(),
        forall|q: int|
            0 <= q < r ==> dets[#[trigger] order[q] as int].class_id
                != dets[order[r] as int].class_id,
    ensures
        survives(dets, overlaps, iou_thresh, order, r),
{
}

/// What suppression leaves stands best first.
pub proof fn law_left_over_is_best_first(
    dets: Seq<Detection>,
    overlaps: Seq<Vec<Real>>,
    iou_thresh: Real,
    rest: Seq<Detection>,
    i: int,
    j: int,
)
    requires
        suppressed(dets, overlaps, iou_thresh, rest),
        0 <= i < j < rest.len(),
    ensures
        rest[i].confidence.rank() >= rest[j].confidence.rank(),
{
    let order = choose|order: Seq<usize>| #[trigger]
        is_ranking(confidences(dets), order) && rest == kept(
            dets,
            overlaps,
            iou_thresh,
            order,
            dets.len() as int,
        );
    lemma_kept_places_rise(dets, overlaps, iou_thresh, order, dets.len() as int, i, j);
}

/// The place in the order of kept detection `i`.
proof fn lemma_kept_place(
    dets: Seq<Detection>,
    overlaps: Seq<Vec<Real>>,
    iou_thresh: Real,
    order: Seq<usize>,
    n: int,
    i: int,
) -> (r: int)
    requires
        0 <= n <= order.len(),
        0 <= i < kept(dets, overlaps, iou_thresh, order, n).len(),
    ensures
        0 <= r < n,
        survives(dets, overlaps, iou_thresh, order, r),
        kept(dets, overlaps, iou_thresh, order, n)[i] == dets[order[r] as int],
    decreases n,
{
    if i < kept(dets, overlaps, iou_thresh, order, n - 1).len() {
        lemma_kept_place(dets, overlaps, iou_thresh, order, n - 1, i)
    } else {
        n - 1
    }
}

proof fn lemma_kept_places_rise(
    dets: Seq<Detection>,
    overlaps: Seq<Vec<Real>>,
    iou_thresh: Real,
    order: Seq<usize>,
    n: int,
    i: int,
    j: int,
)
    requires
        is_ranking(confidences(dets), order),
        0 <= n <= order.len(),
        0 <= i < j < kept(dets, overlaps, iou_thresh, order, n).len(),
    ensures
        kept(dets, overlaps, iou_thresh, order, n)[i].confidence.rank() >= kept(
            dets,
            overlaps,
            iou_thresh,
            order,
            n,
        )[j].confidence.rank(),
    decreases n,
{
    let earlier = kept(dets, overlaps, iou_thresh, order, n - 1);
    if j < earlier.len() {
        lemma_kept_places_rise(dets, overlaps, iou_thresh, order, n - 1, i, j);
    } else {
        let q = lemma_kept_place(dets, overlaps, iou_thresh, order, n - 1, i);
        assert(outranks(confidences(dets), order[q] as int, order[n - 1] as int));
        assert(confidences(dets)[order[q] as int] == dets[order[q] as int].confidence);
        assert(confidences(dets)[order[n - 1] as int] == dets[order[n - 1] as int].confidence);
    }
}

/// Suppression has one outcome only.
pub proof fn law_suppression_is_unique(
    dets: Seq<Detection>,
    overlaps: Seq<Vec<Real>>,
    iou_thresh: Real,
    a: Seq<Detection>,
    b: Seq<Detection>,
)
    requires
        suppressed(dets, overlaps, iou_thresh, a),
        suppressed(dets, overlaps, iou_thresh, b),
    ensures
        a == b,
{
    let n = dets.len() as int;
    let first = choose|order: Seq<usize>| #[trigger]
        is_ranking(confidences(dets), order) && a == kept(dets, overlaps, iou_thresh, order, n);
    let second = choose|order: Seq<usize>| #[trigger]
        is_ranking(confidences(dets), order) && b == kept(dets, overlaps, iou_thresh, order, n);
    lemma_ranking_is_unique(confidences(dets), first, second);
}

/// The most confident detection is always kept, and comes first.
pub proof fn law_best_detection_is_kept(
    dets: Seq<Detection>,
    overlaps: Seq<Vec<Real>>,
    iou_thresh: Real,
    rest: Seq<Detection>,
)
    requires
        suppressed(dets, overlaps, iou_thresh, rest),
        dets.len() > 0,
    ensures
        rest.len() > 0,
        dets.contains(rest[0]),
        forall|i: int|
            0 <= i < dets.len() ==> (#[trigger] dets[i]).confidence.rank()
                <= rest[0].confidence.rank(),
{
    let n = dets.len() as int;
    let order = choose|order: Seq<usize>| #[trigger]
        is_ranking(confidences(dets), order) && rest == kept(
            dets,
            overlaps,
            iou_thresh,
            order,
            n,
        );
    lemma_first_kept(dets, overlaps, iou_thresh, order, n);
    assert forall|i: int| 0 <= i < dets.len() implies (#[trigger] dets[i]).confidence.rank()
        <= rest[0].confidence.rank() by {
        assert(lists(order, i));
        let r = choose|r: int| 0 <= r < order.len() && #[trigger] order[r] == i;
        assert(confidences(dets)[i] == dets[i].confidence);
        assert(confidences(dets)[order[0] as int] == dets[order[0] as int].confidence);
        if r > 0 {
            assert(outranks(confidences(dets), order[0] as int, order[r] as int));
        }
    }
}

proof fn lemma_first_kept(
    dets: Seq<Detection>,
    overlaps: Seq<Vec<Real>>,
    iou_thresh: Real,
    order: Seq<usize>,
    n: int,
)
    requires
        1 <= n <= order.len(),
    ensures
        kept(dets, overlaps, iou_thresh, order, n).len() > 0,
        kept(dets, overlaps, iou_thresh, order, n)[0] == dets[order[0] as int],
    decreases n,
{
    if n == 1 {
        assert(kept(dets, overlaps, iou_thresh, order, 0).len() == 0);
        assert(survives(dets, overlaps, iou_thresh, order, 0));
    } else {
        lemma_first_kept(dets, overlaps, iou_thresh, order, n - 1);
    }
}

/// The class of an anchor is the best: its score is a number, not below zero, and no class
/// has a score above it.
pub proof fn law_best_class_is_best(output: Output, a: int, k: int)
    requires
        0 <= k,
        k <= usize::MAX,
    ensures
        !output.best(a, k).1.nan(),
        Real::nought().within(output.best(a, k).1),
        forall|c: int|
            0 <= c < k ==> !output.best(a, k).1.below(#[trigger] output.at(BOX_ROWS + c, a)),
        Real::nought().below(output.best(a, k).1) ==> output.best(a, k).0 < k && output.at(
            BOX_ROWS + output.best(a, k).0,
            a,
        ) == output.best(a, k).1,
    decreases k,
{
    if k > 0 {
        law_best_class_is_best(output, a, k - 1);
        assert forall|c: int| 0 <= c < k implies !output.best(a, k).1.below(
            #[trigger] output.at(BOX_ROWS + c, a),
        ) by {
            if c < k - 1 {
                assert(!output.best(a, k - 1).1.below(output.at(BOX_ROWS + c, a)));
            }
        }
    }
}

/// Exactly the anchors whose best score is not below the threshold become candidates.
pub proof fn law_candidates_are_confident(output: Output, conf_thresh: Real, n: int, a: int)
    requires
        0 <= a < n,
    ensures
        !output.candidate(a).confidence.below(conf_thresh) ==> output.confident(
            conf_thresh,
            n,
        ).contains(output.candidate(a)),
        forall|i: int|
            0 <= i < output.confident(conf_thresh, n).len() ==> !(#[trigger] output.confident(
                conf_thresh,
                n,
            )[i]).confidence.below(conf_thresh),
    decreases n,
{
    let earlier = output.confident(conf_thresh, n - 1);
    let all = output.confident(conf_thresh, n);
    if n > 1 {
        let b = if a < n - 1 {
            a
        } else {
            0
        };
        law_candidates_are_confident(output, conf_thresh, n - 1, b);
    }
    if !output.candidate(a).confidence.below(conf_thresh) {
        if a < n - 1 {
            let i = choose|i: int| 0 <= i < earlier.len() && earlier[i] == output.candidate(a);
            assert(all[i] == output.candidate(a));
        } else {
            assert(all[earlier.len() as int] == output.candidate(a));
        }
    }
    assert forall|i: int| 0 <= i < all.len() implies !(#[trigger] all[i]).confidence.below(
        conf_thresh,
    ) by {
        if i < earlier.len() {
            assert(all[i] == earlier[i]);
        }
    }
}

/// Whether the anchor `a` of an output was decoded to a class and a confidence: no class has
/// a score above the confidence; the confidence is the score of the class, which is positive
/// and which no earlier class has, or no class has a positive score, and it is zero.
pub open spec fn decoded(output: Output, a: int, class_id: usize, confidence: Real) -> bool {
    let scores = |c: int| output.values@[(4 + c) * output.anchors + a];
    &&& !confidence.nan()
    &&& forall|c: int| 0 <= c < output.rows - 4 ==> !confidence.below(#[trigger] scores(c))
    &&& if (Real { bits: 0 }).below(confidence) {
        &&& class_id < output.rows - 4
        &&& confidence == scores(class_id as int)
        &&& forall|c: int| 0 <= c < class_id ==> !confidence.within(#[trigger] scores(c))
    } else {
        class_id == 0 && confidence == (Real { bits: 0 })
    }
}

/// What is found at an anchor has the box in the first four rows, and the best of all
/// classes in the rows after them.
pub proof fn law_anchor_is_decoded_over_all_classes(output: Output, a: int)
    requires
        output.wf(),
        0 <= a < output.anchors,
    ensures
        decoded(output, a, output.candidate(a).class_id, output.candidate(a).confidence),
        forall|c: int|
            0 <= c < output.rows - 4 ==> !output.candidate(a).confidence.below(
                #[trigger] output.values@[(4 + c) * output.anchors + a],
            ),
        output.candidate(a).cx == output.values@[a],
        output.candidate(a).cy == output.values@[output.anchors + a],
        output.candidate(a).bw == output.values@[2 * output.anchors + a],
        output.candidate(a).bh == output.values@[3 * output.anchors + a],
{
    let k = output.rows - BOX_ROWS;
    law_best_class_is_best(output, a, k);
    lemma_best_is_the_first(output, a, k);
    let scores = |c: int| output.values@[(4 + c) * output.anchors + a];
    let found = output.candidate(a);
    assert(found.confidence == output.best(a, k).1);
    assert forall|c: int| 0 <= c < k implies !found.confidence.below(#[trigger] scores(c)) by {
        assert(scores(c) == output.at(BOX_ROWS + c, a));
    }
    assert forall|c: int| 0 <= c < output.rows - 4 implies !found.confidence.below(
        #[trigger] output.values@[(4 + c) * output.anchors + a],
    ) by {
        assert(scores(c) == output.values@[(4 + c) * output.anchors + a]);
    }
    if Real::nought().below(found.confidence) {
        assert forall|c: int| 0 <= c < found.class_id implies !found.confidence.within(
            #[trigger] scores(c),
        ) by {
            assert(scores(c) == output.at(BOX_ROWS + c, a));
        }
        assert(scores(found.class_id as int) == output.at(BOX_ROWS + found.class_id, a));
    }
}

/// Of equal scores the first counts; without a positive one there is none.
proof fn lemma_best_is_the_first(output: Output, a: int, k: int)
    requires
        0 <= k <= usize::MAX,
    ensures
        ({
            let best = output.best(a, k);
            &&& Real::nought().below(best.1) ==> forall|c: int|
                0 <= c < best.0 ==> !best.1.within(#[trigger] output.at(BOX_ROWS + c, a))
            &&& !Real::nought().below(best.1) ==> best.0 == 0 && best.1 == Real::nought()
        }),
    decreases k,
{
    if k > 0 {
        lemma_best_is_the_first(output, a, k - 1);
        law_best_class_is_best(output, a, k - 1);
        let before = output.best(a, k - 1);
        let best = output.best(a, k);
        if best.0 == k - 1 && before.1.below(best.1) {
            assert forall|c: int| 0 <= c < best.0 implies !best.1.within(
                #[trigger] output.at(BOX_ROWS + c, a),
            ) by {
                assert(!before.1.below(output.at(BOX_ROWS + c, a)));
            }
        }
    }
}

/// Whether the candidates come from the anchors `from`, each decoded over all classes and
/// with its own box, and none below the threshold.
pub open spec fn come_from(
    output: Output,
    conf_thresh: Real,
    from: Seq<int>,
    list: Seq<Candidate>,
) -> bool {
    &&& from.len() == list.len()
    &&& forall|i: int|
        0 <= i < from.len() ==> {
            let a = #[trigger] from[i];
            &&& 0 <= a < output.anchors
            &&& decoded(output, a, list[i].class_id, list[i].confidence)
            &&& !list[i].confidence.below(conf_thresh)
            &&& list[i].cx == output.values@[a]
            &&& list[i].cy == output.values@[output.anchors + a]
            &&& list[i].bw == output.values@[2 * output.anchors + a]
            &&& list[i].bh == output.values@[3 * output.anchors + a]
        }
    &&& forall|i: int, j: int| 0 <= i < j < from.len() ==> #[trigger] from[i] < #[trigger] from[j]
}

/// The candidates are the anchors that the model is confident of, in their order, and no
/// others: an anchor with a positive score that is not below the threshold, in whatever
/// class, is among them, and if the threshold is not above zero all anchors are.
pub proof fn law_candidates_are_the_confident_anchors(output: Output, conf_thresh: Real)
    requires
        output.wf(),
    ensures
        exists|from: Seq<int>| #[trigger]
            come_from(
                output,
                conf_thresh,
                from,
                output.confident(conf_thresh, output.anchors as int),
            ) && (forall|a: int, c: int|
                #![trigger output.values@[(4 + c) * output.anchors + a]]
                0 <= a < output.anchors && 0 <= c < output.rows - 4 && (Real { bits: 0 }).below(
                    output.values@[(4 + c) * output.anchors + a],
                ) && !output.values@[(4 + c) * output.anchors + a].below(conf_thresh)
                    ==> from.contains(a)) && (!(Real { bits: 0 }).below(conf_thresh) ==> forall|
                a: int,
            |
                0 <= a < output.anchors ==> #[trigger] from.contains(a)),
{
    let n = output.anchors as int;
    let from = confident_anchors(output, conf_thresh, n);
    lemma_confident_anchors(output, conf_thresh, n);
    assert(come_from(output, conf_thresh, from, output.confident(conf_thresh, n)));
    assert forall|a: int, c: int|
        #![trigger output.values@[(4 + c) * output.anchors + a]]
        0 <= a < output.anchors && 0 <= c < output.rows - 4 && (Real { bits: 0 }).below(
            output.values@[(4 + c) * output.anchors + a],
        ) && !output.values@[(4 + c) * output.anchors + a].below(
            conf_thresh,
        ) implies from.contains(a) by {
        law_anchor_is_decoded_over_all_classes(output, a);
    }
    if !(Real { bits: 0 }).below(conf_thresh) {
        assert forall|a: int| 0 <= a < output.anchors implies #[trigger] from.contains(a) by {
            law_best_class_is_best(output, a, output.rows - BOX_ROWS);
        }
    }
}

/// The anchors among the first `n` that the model is confident of.
spec fn confident_anchors(output: Output, conf_thresh: Real, n: int) -> Seq<int>
    decreases n,
{
    if n <= 0 {
        Seq::empty()
    } else if output.candidate(n - 1).confidence.below(conf_thresh) {
        confident_anchors(output, conf_thresh, n - 1)
    } else {
        confident_anchors(output, conf_thresh, n - 1).push(n - 1)
    }
}

proof fn lemma_confident_anchors(output: Output, conf_thresh: Real, n: int)
    requires
        output.wf(),
        0 <= n <= output.anchors,
    ensures
        come_from(
            output,
            conf_thresh,
            confident_anchors(output, conf_thresh, n),
            output.confident(conf_thresh, n),
        ),
        forall|i: int|
            0 <= i < confident_anchors(output, conf_thresh, n).len() ==> (
            #[trigger] confident_anchors(output, conf_thresh, n)[i]) < n,
        forall|a: int|
            0 <= a < n && !output.candidate(a).confidence.below(conf_thresh)
                ==> #[trigger] confident_anchors(output, conf_thresh, n).contains(a),
    decreases n,
{
    if n > 0 {
        lemma_confident_anchors(output, conf_thresh, n - 1);
        law_anchor_is_decoded_over_all_classes(output, n - 1);
        let earlier = confident_anchors(output, conf_thresh, n - 1);
        let all = confident_anchors(output, conf_thresh, n);
        let before = output.confident(conf_thresh, n - 1);
        let list = output.confident(conf_thresh, n);
        assert(forall|i: int| 0 <= i < earlier.len() ==> all[i] == earlier[i]);
        assert(forall|i: int| 0 <= i < before.len() ==> list[i] == before[i]);
        assert forall|i: int| 0 <= i < all.len() implies {
            let a = #[trigger] all[i];
            &&& 0 <= a < output.anchors
            &&& decoded(output, a, list[i].class_id, list[i].confidence)
            &&& !list[i].confidence.below(conf_thresh)
            &&& list[i].cx == output.values@[a]
            &&& list[i].cy == output.values@[output.anchors + a]
            &&& list[i].bw == output.values@[2 * output.anchors + a]
            &&& list[i].bh == output.values@[3 * output.anchors + a]
        } by {
            if i < earlier.len() {
                assert(all[i] == earlier[i]);
                assert(list[i] == before[i]);
            } else {
                assert(list[i] == output.candidate(n - 1));
            }
        }
        assert forall|i: int, j: int| 0 <= i < j < all.len() implies #[trigger] all[i]
            < #[trigger] all[j] by {
            assert(all[i] == earlier[i]);
        }
        assert forall|a: int|
            0 <= a < n && !output.candidate(a).confidence.below(
                conf_thresh,
            ) implies #[trigger] all.contains(a) by {
            if a == n - 1 {
                assert(all[earlier.len() as int] == a);
            } else {
                assert(earlier.contains(a));
                let i = choose|i: int| 0 <= i < earlier.len() && earlier[i] == a;
                assert(all[i] == a);
            }
        }
    }
}

/// A detection is its candidate at its own place: the class and the confidence of the
/// candidate, the box of the place, and a drone if the class is the drones'.
pub proof fn law_detection_is_its_candidate_in_place(
    candidates: Seq<Candidate>,
    places: Seq<Placement>,
    drone_class_index: usize,
    i: int,
)
    requires
        0 <= i < candidates.len(),
        places.len() == candidates.len(),
    ensures
        ({
            let all = all_located(candidates, places, drone_class_index);
            &&& all.len() == candidates.len()
            &&& all[i].class_id == candidates[i].class_id
            &&& all[i].confidence == candidates[i].confidence
            &&& all[i].x == places[i].x
            &&& all[i].y == places[i].y
            &&& all[i].w == places[i].w
            &&& all[i].h == places[i].h
            &&& all[i].is_drone <==> candidates[i].class_id == drone_class_index
        }),
{
}

/// Whether `rest` holds the detections that stand at `places`.
pub open spec fn picks(dets: Seq<Detection>, places: Seq<int>, rest: Seq<Detection>) -> bool {
    &&& places.len() == rest.len()
    &&& forall|i: int|
        0 <= i < places.len() ==> 0 <= #[trigger] places[i] < dets.len() && rest[i]
            == dets[places[i]]
}

/// Whether detection `a` goes before detection `b`: it is more confident, or as confident
/// and stands before it.
pub open spec fn goes_before(dets: Seq<Detection>, a: int, b: int) -> bool {
    dets[a].confidence.rank() > dets[b].confidence.rank() || (dets[a].confidence.rank()
        == dets[b].confidence.rank() && a < b)
}

/// Suppression leaves one detection for each object. The detections that are left stand
/// best first, each once; no two of them are of one class and overlap by more than the
/// threshold; and every detection that is not left is of the class of one that is left,
/// goes after it, and is overlapped by it by more than the threshold.
pub proof fn law_one_detection_is_left_for_each_object(
    dets: Seq<Detection>,
    overlaps: Seq<Vec<Real>>,
    iou_thresh: Real,
    rest: Seq<Detection>,
)
    requires
        suppressed(dets, overlaps, iou_thresh, rest),
    ensures
        exists|places: Seq<int>| #[trigger]
            picks(dets, places, rest) && (forall|i: int, j: int|
                0 <= i < j < places.len() ==> goes_before(
                    dets,
                    #[trigger] places[i],
                    #[trigger] places[j],
                ) && !(dets[places[i]].class_id == dets[places[j]].class_id && iou_thresh.below(
                    overlaps[places[i]]@[places[j]],
                ))) && (forall|d: int|
                0 <= d < dets.len() ==> #[trigger] places.contains(d) || exists|i: int|
                    0 <= i < places.len() && dets[#[trigger] places[i]].class_id
                        == dets[d].class_id && goes_before(dets, places[i], d)
                        && iou_thresh.below(overlaps[places[i]]@[d])),
{
    let n = dets.len() as int;
    let order = choose|order: Seq<usize>| #[trigger]
        is_ranking(confidences(dets), order) && rest == kept(
            dets,
            overlaps,
            iou_thresh,
            order,
            n,
        );
    let ranks = kept_ranks(dets, overlaps, iou_thresh, order, n);
    lemma_kept_ranks(dets, overlaps, iou_thresh, order, n);
    let places = Seq::new(ranks.len(), |i: int| order[ranks[i]] as int);
    assert forall|q: int, r: int| 0 <= q < r < order.len() implies goes_before(
        dets,
        #[trigger] order[q] as int,
        #[trigger] order[r] as int,
    ) by {
        assert(outranks(confidences(dets), order[q] as int, order[r] as int));
        assert(confidences(dets)[order[q] as int] == dets[order[q] as int].confidence);
        assert(confidences(dets)[order[r] as int] == dets[order[r] as int].confidence);
    }
    assert(picks(dets, places, rest)) by {
        assert forall|i: int| 0 <= i < places.len() implies 0 <= #[trigger] places[i] < dets.len()
            && rest[i] == dets[places[i]] by {
            assert(0 <= ranks[i] < n);
        }
    }
    assert forall|i: int, j: int| 0 <= i < j < places.len() implies goes_before(
        dets,
        #[trigger] places[i],
        #[trigger] places[j],
    ) && !(dets[places[i]].class_id == dets[places[j]].class_id && iou_thresh.below(
        overlaps[places[i]]@[places[j]],
    )) by {
        assert(ranks[i] < ranks[j]);
        assert(survives(dets, overlaps, iou_thresh, order, ranks[i]));
        assert(survives(dets, overlaps, iou_thresh, order, ranks[j]));
        law_kept_detections_are_apart(dets, overlaps, iou_thresh, order, ranks[i], ranks[j]);
    }
    assert forall|d: int| 0 <= d < dets.len() implies #[trigger] places.contains(d) || exists|
        i: int,
    |
        0 <= i < places.len() && dets[#[trigger] places[i]].class_id == dets[d].class_id
            && goes_before(dets, places[i], d) && iou_thresh.below(overlaps[places[i]]@[d]) by {
        assert(lists(order, d));
        let r = choose|r: int| 0 <= r < order.len() && #[trigger] order[r] == d;
        if survives(dets, overlaps, iou_thresh, order, r) {
            assert(ranks.contains(r));
            let i = choose|i: int| 0 <= i < ranks.len() && ranks[i] == r;
            assert(places[i] == d);
        } else {
            law_dropped_detection_is_covered(dets, overlaps, iou_thresh, order, r);
            let q = choose|q: int|
                0 <= q < r && survives(dets, overlaps, iou_thresh, order, q) && covers(
                    dets,
                    overlaps,
                    iou_thresh,
                    #[trigger] order[q] as int,
                    order[r] as int,
                );
            assert(ranks.contains(q));
            let i = choose|i: int| 0 <= i < ranks.len() && ranks[i] == q;
            assert(places[i] == order[q]);
        }
    }
}

/// Nothing is lost: every detection is left, or one of its class is, no less confident, that
/// overlaps it by more than the threshold.
pub proof fn law_no_object_is_lost(
    dets: Seq<Detection>,
    overlaps: Seq<Vec<Real>>,
    iou_thresh: Real,
    rest: Seq<Detection>,
    d: int,
)
    requires
        suppressed(dets, overlaps, iou_thresh, rest),
        0 <= d < dets.len(),
    ensures
        rest.contains(dets[d]) || exists|e: int|
            0 <= e < dets.len() && rest.contains(#[trigger] dets[e]) && dets[e].class_id
                == dets[d].class_id && dets[e].confidence.rank() >= dets[d].confidence.rank()
                && iou_thresh.below(overlaps[e]@[d]),
        rest.len() <= dets.len(),
{
    law_one_detection_is_left_for_each_object(dets, overlaps, iou_thresh, rest);
    let places = choose|places: Seq<int>| #[trigger]
        picks(dets, places, rest) && (forall|i: int, j: int|
            0 <= i < j < places.len() ==> goes_before(
                dets,
                #[trigger] places[i],
                #[trigger] places[j],
            ) && !(dets[places[i]].class_id == dets[places[j]].class_id && iou_thresh.below(
                overlaps[places[i]]@[places[j]],
            ))) && (forall|d: int|
            0 <= d < dets.len() ==> #[trigger] places.contains(d) || exists|i: int|
                0 <= i < places.len() && dets[#[trigger] places[i]].class_id == dets[d].class_id
                    && goes_before(dets, places[i], d) && iou_thresh.below(
                    overlaps[places[i]]@[d],
                ));
    if places.contains(d) {
        let i = choose|i: int| 0 <= i < places.len() && places[i] == d;
        assert(rest[i] == dets[d]);
    } else {
        let i = choose|i: int|
            0 <= i < places.len() && dets[#[trigger] places[i]].class_id == dets[d].class_id
                && goes_before(dets, places[i], d) && iou_thresh.below(overlaps[places[i]]@[d]);
        assert(rest[i] == dets[places[i]]);
    }
    let order = choose|order: Seq<usize>| #[trigger]
        is_ranking(confidences(dets), order) && rest == kept(
            dets,
            overlaps,
            iou_thresh,
            order,
            dets.len() as int,
        );
    lemma_kept_ranks(dets, overlaps, iou_thresh, order, dets.len() as int);
}

/// The places of the order, among the first `n`, that are kept.
spec fn kept_ranks(
    dets: Seq<Detection>,
    overlaps: Seq<Vec<Real>>,
    iou_thresh: Real,
    order: Seq<usize>,
    n: int,
) -> Seq<int>
    decreases n,
{
    if n <= 0 {
        Seq::empty()
    } else if survives(dets, overlaps, iou_thresh, order, n - 1) {
        kept_ranks(dets, overlaps, iou_thresh, order, n - 1).push(n - 1)
    } else {
        kept_ranks(dets, overlaps, iou_thresh, order, n - 1)
    }
}

proof fn lemma_kept_ranks(
    dets: Seq<Detection>,
    overlaps: Seq<Vec<Real>>,
    iou_thresh: Real,
    order: Seq<usize>,
    n: int,
)
    requires
        0 <= n <= order.len(),
    ensures
        ({
            let ranks = kept_ranks(dets, overlaps, iou_thresh, order, n);
            let rest = kept(dets, overlaps, iou_thresh, order, n);
            &&& ranks.len() == rest.len()
            &&& ranks.len() <= n
            &&& forall|i: int|
                0 <= i < ranks.len() ==> 0 <= #[trigger] ranks[i] < n && survives(
                    dets,
                    overlaps,
                    iou_thresh,
                    order,
                    ranks[i],
                ) && rest[i] == dets[order[ranks[i]] as int]
            &&& forall|i: int, j: int|
                0 <= i < j < ranks.len() ==> #[trigger] ranks[i] < #[trigger] ranks[j]
            &&& forall|r: int|
                0 <= r < n && survives(dets, overlaps, iou_thresh, order, r)
                    ==> #[trigger] ranks.contains(r)
        }),
    decreases n,
{
    if n > 0 {
        lemma_kept_ranks(dets, overlaps, iou_thresh, order, n - 1);
        let earlier = kept_ranks(dets, overlaps, iou_thresh, order, n - 1);
        let ranks = kept_ranks(dets, overlaps, iou_thresh, order, n);
        let before = kept(dets, overlaps, iou_thresh, order, n - 1);
        let rest = kept(dets, overlaps, iou_thresh, order, n);
        assert(forall|i: int| 0 <= i < earlier.len() ==> ranks[i] == earlier[i]);
        assert(forall|i: int| 0 <= i < before.len() ==> rest[i] == before[i]);
        assert forall|r: int|
            0 <= r < n && survives(
                dets,
                overlaps,
                iou_thresh,
                order,
                r,
            ) implies #[trigger] ranks.contains(r) by {
            if r == n - 1 {
                assert(ranks[earlier.len() as int] == r);
            } else {
                assert(earlier.contains(r));
                let i = choose|i: int| 0 <= i < earlier.len() && earlier[i] == r;
                assert(ranks[i] == r);
            }
        }
    }
}

/// Whatever else is asked for, the processor is there to fall back on, and is tried last.
pub proof fn law_processor_is_the_fallback(use_cuda: bool, use_trt: bool)
    ensures
        preference(use_cuda, use_trt).last() == Provider::Cpu,
        preference(use_cuda, use_trt).contains(Provider::Cuda) == use_cuda,
        preference(use_cuda, use_trt).contains(Provider::TensorRt) == use_trt,
        preference(use_cuda, use_trt).no_duplicates(),
        use_trt ==> preference(use_cuda, use_trt)[0] == Provider::TensorRt,
{
    let list = preference(use_cuda, use_trt);
    if use_trt {
        assert(list[0] == Provider::TensorRt);
    }
    if use_cuda {
        assert(list[if use_trt {
            1int
        } else {
            0int
        }] == Provider::Cuda);
    }
}

} // verus!
