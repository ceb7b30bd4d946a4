//! From the model's output to detections: the best class of each anchor, and one detection
//! for each object.

use vstd::prelude::*;

use crate::number::Real;
use crate::rank::{is_ranking, rank};
use crate::types::Detection;

verus! {

/// What the model can run on.
#[derive(Clone, Copy, Debug, PartialEq, Eq, Structural)]
pub enum Provider {
    TensorRt,
    Cuda,
    Cpu,
}

/// How many rows of the output hold the box; the rows after them hold one class each.
pub const BOX_ROWS: usize = 4;

/// The model's output: for each anchor a box and the scores of the classes. Row by row,
/// with one value for each anchor in each row.
pub struct Output {
    pub values: Vec<Real>,
    pub rows: usize,
    pub anchors: usize,
}

/// An anchor that the model is confident of, with its box in model coordinates.
#[derive(Clone, Copy, Debug)]
pub struct Candidate {
    pub class_id: usize,
    pub confidence: Real,
    pub cx: Real,
    pub cy: Real,
    pub bw: Real,
    pub bh: Real,
}

/// A box in frame coordinates.
#[derive(Clone, Copy, Debug)]
pub struct Placement {
    pub x: Real,
    pub y: Real,
    pub w: Real,
    pub h: Real,
}

/// What decides which of the model's findings become detections.
pub struct Detector {
    pub conf_thresh: Real,
    pub iou_thresh: Real,
    pub drone_class_index: usize,
    /// What the model runs on, in order of preference.
    pub providers: Vec<Provider>,
    /// Whether to time the stages.
    pub profile: bool,
}

impl Output {
    /// Whether the values fill the rows, and the rows of the box are there.
    pub open spec fn wf(self) -> bool {
        self.rows >= BOX_ROWS && self.values@.len() == self.rows * self.anchors
    }

    /// The value of row `r` for anchor `a`.
    pub open spec fn at(self, r: int, a: int) -> Real {
        self.values@[r * self.anchors + a]
    }

    /// The best of the first `k` classes of an anchor, and its score. Of equal scores the
    /// first counts; a score that is not above zero does not count, and leaves class zero.
    pub open spec fn best(self, a: int, k: int) -> (usize, Real)
        decreases k,
    {
        if k <= 0 {
            (0, Real::nought())
        } else {
            let before = self.best(a, k - 1);
            let score = self.at(BOX_ROWS + k - 1, a);
            if before.1.below(score) {
                ((k - 1) as usize, score)
            } else {
                before
            }
        }
    }

    /// What the model found at an anchor.
    pub open spec fn candidate(self, a: int) -> Candidate {
        let best = self.best(a, self.rows - BOX_ROWS);
        Candidate {
            class_id: best.0,
            confidence: best.1,
            cx: self.at(0, a),
            cy: self.at(1, a),
            bw: self.at(2, a),
            bh: self.at(3, a),
        }
    }

    /// What the model found at the first `n` anchors, as far as its score is not below
    /// `conf_thresh`.
    pub open spec fn confident(self, conf_thresh: Real, n: int) -> Seq<Candidate>
        decreases n,
    {
        if n <= 0 {
            Seq::empty()
        } else {
            let earlier = self.confident(conf_thresh, n - 1);
            let candidate = self.candidate(n - 1);
            if candidate.confidence.below(conf_thresh) {
                earlier
            } else {
                earlier.push(candidate)
            }
        }
    }

    /// The value of row `r` for anchor `a`.
    fn value(&self, r: usize, a: usize) -> (v: Real)
        requires
            self.wf(),
            r < self.rows,
            a < self.anchors,
        ensures
            v == self.at(r as int, a as int),
    {
        let rows: usize = self.rows;
        let anchors: usize = self.anchors;
        let len: usize = self.values.len();
        assert(0 <= r * anchors + a < rows * anchors && 0 <= r * anchors) by (nonlinear_arith)
            requires
                r < rows,
                a < anchors,
        ;
        assert(len == rows * anchors);
        self.values[r * anchors + a]
    }
}

/// What the model runs on, in order of preference: the accelerators that are asked for,
/// and last the processor.
pub open spec fn preference(use_cuda: bool, use_trt: bool) -> Seq<Provider> {
    let trt = if use_trt {
        seq![Provider::TensorRt]
    } else {
        seq![]
    };
    let cuda = if use_cuda {
        seq![Provider::Cuda]
    } else {
        seq![]
    };
    trt + cuda + seq![Provider::Cpu]
}

/// A detection from a candidate and its place in the frame.
pub open spec fn located(candidate: Candidate, place: Placement, drone_class_index: usize)
    -> Detection {
    Detection {
        class_id: candidate.class_id,
        confidence: candidate.confidence,
        x: place.x,
        y: place.y,
        w: place.w,
        h: place.h,
        is_drone: candidate.class_id == drone_class_index,
    }
}

/// The detections of candidates, each at its place in the frame.
pub open spec fn all_located(
    candidates: Seq<Candidate>,
    places: Seq<Placement>,
    drone_class_index: usize,
) -> Seq<Detection> {
    Seq::new(
        candidates.len(),
        |i: int| located(candidates[i], places[i], drone_class_index),
    )
}

impl Detector {
    /// A detector that drops findings below `conf_thresh`, and of two findings of one class
    /// that overlap by more than `iou_thresh` the less confident.
    pub fn new(
        conf_thresh: Real,
        iou_thresh: Real,
        drone_class_index: usize,
        use_cuda: bool,
        use_trt: bool,
        profile: bool,
    ) -> (detector: Detector)
        ensures
            detector.conf_thresh == conf_thresh,
            detector.iou_thresh == iou_thresh,
            detector.drone_class_index == drone_class_index,
            detector.providers@ == preference(use_cuda, use_trt),
            detector.profile == profile,
    {
        let mut providers: Vec<Provider> = Vec::new();
        if use_trt {
            providers.push(Provider::TensorRt);
        }
        if use_cuda {
            providers.push(Provider::Cuda);
        }
        providers.push(Provider::Cpu);
        assert(providers@ =~= preference(use_cuda, use_trt));
        Detector { conf_thresh, iou_thresh, drone_class_index, providers, profile }
    }

    /// The anchors that the model is confident of, each with its best class.
    pub fn candidates(&self, output: &Output) -> (found: Vec<Candidate>)
        requires
            output.wf(),
        ensures
            found@ == output.confident(self.conf_thresh, output.anchors as int),
            forall|i: int| 0 <= i < found@.len() ==> !(#[trigger] found@[i]).confidence.nan(),
    {
        let num_classes: usize = output.rows - BOX_ROWS;
        let mut found: Vec<Candidate> = Vec::new();
        let mut a: usize = 0;
        while a < output.anchors
            invariant
                a <= output.anchors,
                output.wf(),
                num_classes == output.rows - BOX_ROWS,
                found@ == output.confident(self.conf_thresh, a as int),
                forall|i: int| 0 <= i < found@.len() ==> !(#[trigger] found@[i]).confidence.nan(),
            decreases output.anchors - a,
        {
            let mut best_id: usize = 0;
            let mut best_score = Real::zero();
            let mut k: usize = 0;
            while k < num_classes
                invariant
                    a < output.anchors,
                    k <= num_classes,
                    output.wf(),
                    num_classes == output.rows - BOX_ROWS,
                    (best_id, best_score) == output.best(a as int, k as int),
                    !best_score.nan(),
                decreases num_classes - k,
            {
                let score = output.value(BOX_ROWS + k, a);
                if best_score.less_than(score) {
                    best_score = score;
                    best_id = k;
                }
                k = k + 1;
            }
            if !best_score.less_than(self.conf_thresh) {
                found.push(
                    Candidate {
                        class_id: best_id,
                        confidence: best_score,
                        cx: output.value(0, a),
                        cy: output.value(1, a),
                        bw: output.value(2, a),
                        bh: output.value(3, a),
                    },
                );
            }
            a = a + 1;
        }
        found
    }

    /// The detections of a frame: the candidates at their places, without those that show
    /// an object which a better candidate shows. `overlaps` holds the intersection over
    /// union of each two places.
    pub fn detect(
        &self,
        candidates: &Vec<Candidate>,
        places: &Vec<Placement>,
        overlaps: &Vec<Vec<Real>>,
    ) -> (detections: Vec<Detection>)
        requires
            places@.len() == candidates@.len(),
            square(overlaps@, candidates@.len()),
            candidates@.len() > 1 ==> forall|i: int|
                0 <= i < candidates@.len() ==> !(#[trigger] candidates@[i]).confidence.nan(),
        ensures
            suppressed(
                all_located(candidates@, places@, self.drone_class_index),
                overlaps@,
                self.iou_thresh,
                detections@,
            ),
    {
        let mut detections: Vec<Detection> = Vec::new();
        let mut i: usize = 0;
        while i < candidates.len()
            invariant
                i <= candidates@.len(),
                places@.len() == candidates@.len(),
                detections@.len() == i,
                forall|j: int|
                    0 <= j < i ==> #[trigger] detections@[j] == located(
                        candidates@[j],
                        places@[j],
                        self.drone_class_index,
                    ),
            decreases candidates@.len() - i,
        {
            detections.push(
                Detection {
                    class_id: candidates[i].class_id,
                    confidence: candidates[i].confidence,
                    x: places[i].x,
                    y: places[i].y,
                    w: places[i].w,
                    h: places[i].h,
                    is_drone: candidates[i].class_id == self.drone_class_index,
                },
            );
            i = i + 1;
        }
        assert(detections@ =~= all_located(candidates@, places@, self.drone_class_index));
        nms(&mut detections, overlaps, self.iou_thresh);
        detections
    }
}

/// Whether the table has `n` rows of `n` entries.
pub open spec fn square(overlaps: Seq<Vec<Real>>, n: nat) -> bool {
    &&& overlaps.len() == n
    &&& forall|i: int| 0 <= i < n ==> (#[trigger] overlaps[i])@.len() == n
}

/// The confidences of detections.
pub open spec fn confidences(dets: Seq<Detection>) -> Seq<Real> {
    dets.map_values(|d: Detection| d.confidence)
}

/// Whether detection `i` stands for the object that detection `j` shows: they are of one
/// class, and overlap by more than `iou_thresh`.
pub open spec fn covers(
    dets: Seq<Detection>,
    overlaps: Seq<Vec<Real>>,
    iou_thresh: Real,
    i: int,
    j: int,
) -> bool {
    dets[i].class_id == dets[j].class_id && iou_thresh.below(overlaps[i]@[j])
}

/// Whether the detection that stands at place `r` of the order is kept: no kept detection
/// before it stands for its object.
pub open spec fn survives(
    dets: Seq<Detection>,
    overlaps: Seq<Vec<Real>>,
    iou_thresh: Real,
    order: Seq<usize>,
    r: int,
) -> bool
    decreases r,
{
    forall|q: int|
        0 <= q < r ==> !(survives(dets, overlaps, iou_thresh, order, q) && covers(
            dets,
            overlaps,
            iou_thresh,
            #[trigger] order[q] as int,
            order[r] as int,
        ))
}

/// The kept detections among the first `n` of the order.
pub open spec fn kept(
    dets: Seq<Detection>,
    overlaps: Seq<Vec<Real>>,
    iou_thresh: Real,
    order: Seq<usize>,
    n: int,
) -> Seq<Detection>
    decreases n,
{
    if n <= 0 {
        Seq::empty()
    } else {
        let earlier = kept(dets, overlaps, iou_thresh, order, n - 1);
        if survives(dets, overlaps, iou_thresh, order, n - 1) {
            earlier.push(dets[order[n - 1] as int])
        } else {
            earlier
        }
    }
}

/// Whether `rest` is what is left of `dets` when they are gone through best first and those
/// are dropped whose object a kept one stands for.
pub open spec fn suppressed(
    dets: Seq<Detection>,
    overlaps: Seq<Vec<Real>>,
    iou_thresh: Real,
    rest: Seq<Detection>,
) -> bool {
    exists|order: Seq<usize>| #[trigger]
        is_ranking(confidences(dets), order) && rest == kept(
            dets,
            overlaps,
            iou_thresh,
            order,
            dets.len() as int,
        )
}

/// Greedy non-maximum suppression, class by class, so that a second object of another
/// class near the first is not dropped. `overlaps` holds the intersection over union of
/// each two detections. The detections that are left stand best first.
pub fn nms(dets: &mut Vec<Detection>, overlaps: &Vec<Vec<Real>>, iou_thresh: Real)
    requires
        square(overlaps@, old(dets)@.len()),
        old(dets)@.len() > 1 ==> forall|i: int|
            0 <= i < old(dets)@.len() ==> !(#[trigger] old(dets)@[i]).confidence.nan(),
    ensures
        suppressed(old(dets)@, overlaps@, iou_thresh, final(dets)@),
{
    let ghost all = dets@;
    let n: usize = dets.len();
    let mut keys: Vec<Real> = Vec::new();
    let mut i: usize = 0;
    while i < n
        invariant
            i <= n,
            n == dets@.len(),
            dets@ == all,
            keys@.len() == i,
            forall|j: int| 0 <= j < i ==> #[trigger] keys@[j] == all[j].confidence,
        decreases n - i,
    {
        keys.push(dets[i].confidence);
        i = i + 1;
    }
    assert(keys@ =~= confidences(all));
    let order = rank(&keys);
    let mut keep: Vec<bool> = Vec::new();
    let mut rest: Vec<Detection> = Vec::new();
    let mut r: usize = 0;
    while r < n
        invariant
            r <= n,
            n == dets@.len(),
            dets@ == all,
            square(overlaps@, n as nat),
            is_ranking(confidences(all), order@),
            keep@.len() == r,
            forall|q: int|
                0 <= q < r ==> #[trigger] keep@[q] == survives(
                    all,
                    overlaps@,
                    iou_thresh,
                    order@,
                    q,
                ),
            rest@ == kept(all, overlaps@, iou_thresh, order@, r as int),
        decreases n - r,
    {
        let j: usize = order[r];
        let mut alive = true;
        let mut q: usize = 0;
        while q < r
            invariant
                q <= r < n,
                n == dets@.len(),
                dets@ == all,
                square(overlaps@, n as nat),
                is_ranking(confidences(all), order@),
                j == order@[r as int],
                keep@.len() == r,
                forall|q: int|
                    0 <= q < r ==> #[trigger] keep@[q] == survives(
                        all,
                        overlaps@,
                        iou_thresh,
                        order@,
                        q,
                    ),
                alive == forall|p: int|
                    0 <= p < q ==> !(survives(all, overlaps@, iou_thresh, order@, p) && covers(
                        all,
                        overlaps@,
                        iou_thresh,
                        #[trigger] order@[p] as int,
                        j as int,
                    )),
            decreases r - q,
        {
            let i: usize = order[q];
            assert(keep@[q as int] == survives(all, overlaps@, iou_thresh, order@, q as int));
            if keep[q] && dets[i].class_id == dets[j].class_id && iou_thresh.less_than(
                overlaps[i][j],
            ) {
                alive = false;
            }
            q = q + 1;
        }
        keep.push(alive);
        if alive {
            rest.push(dets[j]);
        }
        r = r + 1;
    }
    *dets = rest;
}

} // verus!
