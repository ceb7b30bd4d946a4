//! Multi-object tracking: detections of successive frames are associated with tracks,
//! tracks that go undetected coast on their last velocity, and identities are kept.
//!
//! Distances, overlaps and velocities come in as [`FrameEstimates`]; everything that is
//! decided from them is decided here.

use vstd::prelude::*;

use crate::assign::{assign, is_greedy, is_taken, table};
use crate::number::Real;
use crate::types::{values, Detection, Track, TrackView};
use crate::vote::{majority, majority_class};

verus! {

/// Over how many detections the class of a track is voted.
pub const CLASS_VOTE_WINDOW: usize = 15;

/// From how many missed frames in a row on a track is no longer reported.
pub const COAST_REPORT_LIMIT: u32 = 7;

/// How a track and a detection lie to each other.
#[derive(Clone, Copy, Debug)]
pub struct PairEstimate {
    /// The overlap of their boxes: intersection over union.
    pub iou: Real,
    /// The score of the pair if the boxes overlap enough.
    pub overlap_score: Real,
    /// The distance of the detection from where the track was expected.
    pub distance: Real,
    /// The greatest distance at which the pair may still be matched.
    pub gate: Real,
    /// The score of the pair if it lies within reach.
    pub near_score: Real,
    /// The speed at which the object would have moved.
    pub speed: Real,
    /// The velocity of the track, smoothed with that movement.
    pub vx: Real,
    pub vy: Real,
}

/// The middle of a box.
#[derive(Clone, Copy, Debug)]
pub struct Center {
    pub x: Real,
    pub y: Real,
}

/// Where a track is if it goes undetected.
#[derive(Clone, Copy, Debug)]
pub struct Coast {
    /// The corner of its box, moved on at its last velocity.
    pub x: Real,
    pub y: Real,
    /// The middle of its box.
    pub center: Center,
}

/// The part of the plane in which tracks are kept: the frame and a margin around it.
#[derive(Clone, Copy, Debug)]
pub struct Bounds {
    pub left: Real,
    pub right: Real,
    pub top: Real,
    pub bottom: Real,
}

/// What was measured of one frame.
pub struct FrameEstimates {
    /// For each track, its relation to each detection.
    pub pairs: Vec<Vec<PairEstimate>>,
    /// For each track, where it is if it goes undetected.
    pub coasts: Vec<Coast>,
    /// For each detection, its middle.
    pub centers: Vec<Center>,
    /// The greatest speed that is believed.
    pub max_speed: Real,
    /// Where tracks are kept.
    pub bounds: Bounds,
}

/// The state of a tracker.
#[verifier::ext_equal]
pub struct TrackerState {
    pub tracks: Seq<TrackView>,
    pub last_update: Option<u128>,
    pub next_id: u64,
    pub iou_thresh: Real,
    pub max_misses: u32,
    pub confirm_hits: u32,
    pub drone_class_index: usize,
}

/// Keeps the identities of objects across frames.
pub struct Tracker {
    tracks: Vec<Track>,
    last_update: Option<u128>,
    next_id: u64,
    iou_thresh: Real,
    max_misses: u32,
    confirm_hits: u32,
    drone_class_index: usize,
}

impl View for Tracker {
    type V = TrackerState;

    closed spec fn view(&self) -> TrackerState {
        TrackerState {
            tracks: values(self.tracks@),
            last_update: self.last_update,
            next_id: self.next_id,
            iou_thresh: self.iou_thresh,
            max_misses: self.max_misses,
            confirm_hits: self.confirm_hits,
            drone_class_index: self.drone_class_index,
        }
    }
}

impl Bounds {
    /// Whether a point lies strictly inside.
    pub open spec fn surround(self, c: Center) -> bool {
        &&& self.left.below(c.x)
        &&& c.x.below(self.right)
        &&& self.top.below(c.y)
        &&& c.y.below(self.bottom)
    }

    /// Whether a point lies strictly inside.
    pub fn contains(&self, c: Center) -> (r: bool)
        ensures
            r == self.surround(c),
    {
        self.left.less_than(c.x) && c.x.less_than(self.right) && self.top.less_than(c.y)
            && c.y.less_than(self.bottom)
    }
}

impl FrameEstimates {
    /// Whether there is one entry for each track, detection and pair of them.
    pub open spec fn covers(self, tracks: nat, detections: nat) -> bool {
        &&& self.pairs@.len() == tracks
        &&& self.coasts@.len() == tracks
        &&& self.centers@.len() == detections
        &&& forall|t: int| 0 <= t < tracks ==> (#[trigger] self.pairs@[t])@.len() == detections
    }
}

/// How many classes take part in the vote after `hits` detections.
pub open spec fn voting(hits: nat) -> nat {
    if hits < CLASS_VOTE_WINDOW {
        hits
    } else {
        CLASS_VOTE_WINDOW as nat
    }
}

/// The latest classes, with one more, and only as many as take part in the vote.
pub open spec fn voters(recent: Seq<usize>, class: usize) -> Seq<usize> {
    let grown = recent.push(class);
    if grown.len() > CLASS_VOTE_WINDOW {
        grown.drop_first()
    } else {
        grown
    }
}

impl TrackerState {
    /// The time from the last update to `now`. Time that runs backwards does not count.
    pub open spec fn since(self, now: u128) -> u128 {
        match self.last_update {
            Some(then) => if now > then {
                (now - then) as u128
            } else {
                0
            },
            None => 0,
        }
    }

    /// The score of a pair: that of an overlap if the boxes overlap enough, else that of
    /// nearness if the detection lies within reach, else nothing.
    pub open spec fn score(self, pair: PairEstimate) -> Real {
        if self.iou_thresh.within(pair.iou) {
            pair.overlap_score
        } else if pair.distance.within(pair.gate) {
            pair.near_score
        } else {
            Real::nought()
        }
    }

    /// The scores of all pairs, track by track.
    pub open spec fn scores(self, estimates: FrameEstimates) -> Seq<Seq<Real>> {
        Seq::new(
            estimates.pairs@.len(),
            |t: int|
                Seq::new(
                    estimates.pairs@[t]@.len(),
                    |d: int| self.score(estimates.pairs@[t]@[d]),
                ),
        )
    }

    /// A track after the detection `det` was given to it. If time has passed and the
    /// object did not move faster than is believed, the velocity changes too.
    pub open spec fn absorbed(
        self,
        track: TrackView,
        det: Detection,
        pair: PairEstimate,
        max_speed: Real,
        moving: bool,
    ) -> TrackView {
        let steered = moving && pair.speed.within(max_speed);
        let recent_classes = voters(track.recent_classes, det.class_id);
        let hits = (track.hits + 1) as u32;
        TrackView {
            id: track.id,
            class_id: majority(recent_classes),
            is_drone: majority(recent_classes) == self.drone_class_index,
            confidence: det.confidence,
            x: det.x,
            y: det.y,
            w: det.w,
            h: det.h,
            vx: if steered {
                pair.vx
            } else {
                track.vx
            },
            vy: if steered {
                pair.vy
            } else {
                track.vy
            },
            hits,
            misses: 0,
            confirmed: track.confirmed || hits >= self.confirm_hits,
            recent_classes,
        }
    }

    /// A track after a frame in which it was not detected: if time has passed, it moves on.
    pub open spec fn coasted(self, track: TrackView, coast: Coast, moving: bool) -> TrackView {
        TrackView {
            misses: (track.misses + 1) as u32,
            x: if moving {
                coast.x
            } else {
                track.x
            },
            y: if moving {
                coast.y
            } else {
                track.y
            },
            ..track
        }
    }

    /// The track that a detection starts which no track was given.
    pub open spec fn started(self, det: Detection, id: u64) -> TrackView {
        TrackView {
            id,
            class_id: det.class_id,
            is_drone: det.class_id == self.drone_class_index,
            confidence: det.confidence,
            x: det.x,
            y: det.y,
            w: det.w,
            h: det.h,
            vx: Real::nought(),
            vy: Real::nought(),
            hits: 1,
            misses: 0,
            confirmed: self.confirm_hits <= 1,
            recent_classes: seq![det.class_id],
        }
    }

    /// Track `t` after the frame.
    pub open spec fn stepped(
        self,
        detections: Seq<Detection>,
        estimates: FrameEstimates,
        matched: Seq<Option<usize>>,
        moving: bool,
        t: int,
    ) -> TrackView {
        match matched[t] {
            Some(d) => self.absorbed(
                self.tracks[t],
                detections[d as int],
                estimates.pairs@[t]@[d as int],
                estimates.max_speed,
                moving,
            ),
            None => self.coasted(self.tracks[t], estimates.coasts@[t], moving),
        }
    }

    /// Whether track `t` is kept after the frame: it was not missed too often, and its
    /// middle lies within the bounds.
    pub open spec fn keeps(
        self,
        estimates: FrameEstimates,
        matched: Seq<Option<usize>>,
        t: int,
    ) -> bool {
        match matched[t] {
            Some(d) => estimates.bounds.surround(estimates.centers@[d as int]),
            None => self.tracks[t].misses + 1 <= self.max_misses && estimates.bounds.surround(
                estimates.coasts@[t].center,
            ),
        }
    }

    /// Those of the first `n` tracks that are kept, after the frame.
    pub open spec fn survivors(
        self,
        detections: Seq<Detection>,
        estimates: FrameEstimates,
        matched: Seq<Option<usize>>,
        moving: bool,
        n: int,
    ) -> Seq<TrackView>
        decreases n,
    {
        if n <= 0 {
            Seq::empty()
        } else {
            let earlier = self.survivors(detections, estimates, matched, moving, n - 1);
            if self.keeps(estimates, matched, n - 1) {
                earlier.push(self.stepped(detections, estimates, matched, moving, n - 1))
            } else {
                earlier
            }
        }
    }

    /// The tracks that those of the first `n` detections start which no track was given.
    pub open spec fn newcomers(
        self,
        detections: Seq<Detection>,
        matched: Seq<Option<usize>>,
        n: int,
    ) -> Seq<TrackView>
        decreases n,
    {
        if n <= 0 {
            Seq::empty()
        } else {
            let earlier = self.newcomers(detections, matched, n - 1);
            if is_taken(matched, n - 1) {
                earlier
            } else {
                earlier.push(
                    self.started(detections[n - 1], (self.next_id + earlier.len()) as u64),
                )
            }
        }
    }

    /// The tracker after a frame whose detections were given to tracks as `matched` says.
    pub open spec fn advanced(
        self,
        detections: Seq<Detection>,
        now: u128,
        estimates: FrameEstimates,
        matched: Seq<Option<usize>>,
    ) -> TrackerState {
        let moving = self.since(now) > 0;
        let kept = self.survivors(
            detections,
            estimates,
            matched,
            moving,
            self.tracks.len() as int,
        );
        let new = self.newcomers(detections, matched, detections.len() as int);
        TrackerState {
            tracks: kept + new,
            last_update: Some(now),
            next_id: (self.next_id + new.len()) as u64,
            ..self
        }
    }

    /// The tracks to report: confirmed, and not gone for too long.
    pub open spec fn reported(self) -> Seq<TrackView> {
        self.tracks.filter(|t: TrackView| reportable(t))
    }

    /// Whether no counter runs over in a frame with `n` detections.
    pub open spec fn room(self, n: nat) -> bool {
        &&& self.next_id + n <= u64::MAX
        &&& forall|t: int|
            0 <= t < self.tracks.len() ==> (#[trigger] self.tracks[t]).hits < u32::MAX
                && self.tracks[t].misses < u32::MAX
    }

    /// What holds of one track at all times: its class is voted by its latest detections,
    /// all of them or as many as take part in the vote; it is a drone if its class says so;
    /// it is confirmed as soon as it was detected often enough; and it has not been missed
    /// too often.
    pub open spec fn sound(self, track: TrackView) -> bool {
        &&& track.recent_classes.len() == voting(track.hits as nat)
        &&& track.class_id == majority(track.recent_classes)
        &&& track.is_drone == (track.class_id == self.drone_class_index)
        &&& track.hits >= 1
        &&& track.confirmed == (track.hits >= self.confirm_hits)
        &&& track.misses <= self.max_misses
        &&& 1 <= track.id < self.next_id
    }

    /// What holds of a tracker at all times: every track is sound, and no two tracks have
    /// the same identity; older tracks come first.
    pub open spec fn wf(self) -> bool {
        &&& self.next_id >= 1
        &&& forall|t: int| 0 <= t < self.tracks.len() ==> self.sound(#[trigger] self.tracks[t])
        &&& forall|t: int, u: int|
            0 <= t < u < self.tracks.len() ==> (#[trigger] self.tracks[t]).id < (
            #[trigger] self.tracks[u]).id
    }
}

/// Whether a track is reported.
pub open spec fn reportable(track: TrackView) -> bool {
    track.confirmed && track.misses < COAST_REPORT_LIMIT
}

impl Tracker {
    /// A tracker without tracks. Boxes that overlap by at least `iou_thresh` match; a track
    /// is given up after more than `max_misses` missed frames, and is confirmed after
    /// `confirm_hits` detections.
    pub fn new(
        iou_thresh: Real,
        max_misses: u32,
        confirm_hits: u32,
        drone_class_index: usize,
    ) -> (tracker: Tracker)
        ensures
            tracker@ == (TrackerState {
                tracks: Seq::empty(),
                last_update: None,
                next_id: 1,
                iou_thresh,
                max_misses,
                confirm_hits,
                drone_class_index,
            }),
            tracker@.wf(),
    {
        let tracker = Tracker {
            tracks: Vec::new(),
            last_update: None,
            next_id: 1,
            iou_thresh,
            max_misses,
            confirm_hits,
            drone_class_index,
        };
        assert(values(tracker.tracks@) =~= Seq::<TrackView>::empty());
        tracker
    }

    /// All tracks, those that are not reported among them.
    pub fn tracks(&self) -> (tracks: &Vec<Track>)
        ensures
            values(tracks@) == self@.tracks,
    {
        &self.tracks
    }

    /// The time from the last update to `now`, in nanoseconds.
    pub fn elapsed(&self, now: u128) -> (nanos: u128)
        ensures
            nanos == self@.since(now),
    {
        match self.last_update {
            Some(then) => if now > then {
                now - then
            } else {
                0
            },
            None => 0,
        }
    }

    /// Whether no counter runs over in a frame with `n` detections.
    pub fn has_room(&self, n: usize) -> (r: bool)
        ensures
            r == self@.room(n as nat),
    {
        if n as u128 + self.next_id as u128 > u64::MAX as u128 {
            return false;
        }
        let mut t: usize = 0;
        while t < self.tracks.len()
            invariant
                t <= self.tracks@.len(),
                forall|u: int|
                    0 <= u < t ==> (#[trigger] self@.tracks[u]).hits < u32::MAX
                        && self@.tracks[u].misses < u32::MAX,
            decreases self.tracks@.len() - t,
        {
            assert(self@.tracks[t as int] == self.tracks@[t as int]@);
            if self.tracks[t].hits == u32::MAX || self.tracks[t].misses == u32::MAX {
                return false;
            }
            t = t + 1;
        }
        true
    }

    /// The score of a pair, zero for no match.
    pub fn match_score(&self, pair: &PairEstimate) -> (score: Real)
        ensures
            score == self@.score(*pair),
    {
        if self.iou_thresh.at_most(pair.iou) {
            pair.overlap_score
        } else if pair.distance.at_most(pair.gate) {
            pair.near_score
        } else {
            Real::zero()
        }
    }

    /// The scores of all pairs.
    fn score_pairs(&self, estimates: &FrameEstimates) -> (scores: Vec<Vec<Real>>)
        ensures
            table(scores@) == self@.scores(*estimates),
    {
        let mut scores: Vec<Vec<Real>> = Vec::new();
        let mut t: usize = 0;
        while t < estimates.pairs.len()
            invariant
                t <= estimates.pairs@.len(),
                scores@.len() == t,
                forall|u: int|
                    0 <= u < t ==> (#[trigger] scores@[u])@ == self@.scores(*estimates)[u],
            decreases estimates.pairs@.len() - t,
        {
            let mut row: Vec<Real> = Vec::new();
            let mut d: usize = 0;
            while d < estimates.pairs[t].len()
                invariant
                    t < estimates.pairs@.len(),
                    d <= estimates.pairs@[t as int]@.len(),
                    row@.len() == d,
                    forall|e: int|
                        0 <= e < d ==> #[trigger] row@[e] == self@.score(
                            estimates.pairs@[t as int]@[e],
                        ),
                decreases estimates.pairs@[t as int]@.len() - d,
            {
                row.push(self.match_score(&estimates.pairs[t][d]));
                d = d + 1;
            }
            assert(row@ =~= self@.scores(*estimates)[t as int]);
            scores.push(row);
            t = t + 1;
        }
        assert(table(scores@) =~= self@.scores(*estimates));
        scores
    }

    /// A track after a detection was given to it.
    fn absorb(
        &self,
        track: &Track,
        det: &Detection,
        pair: &PairEstimate,
        max_speed: Real,
        moving: bool,
    ) -> (next: Track)
        requires
            track.hits < u32::MAX,
        ensures
            next@ == self@.absorbed(track@, *det, *pair, max_speed, moving),
    {
        let mut recent_classes = track.recent_classes.clone();
        assert(recent_classes@ =~= track.recent_classes@);
        recent_classes.push(det.class_id);
        if recent_classes.len() > CLASS_VOTE_WINDOW {
            recent_classes.remove(0);
        }
        assert(recent_classes@ =~= voters(track.recent_classes@, det.class_id));
        let class_id: usize = majority_class(recent_classes.as_slice());
        let steered = moving && pair.speed.at_most(max_speed);
        let hits: u32 = track.hits + 1;
        Track {
            id: track.id,
            class_id,
            is_drone: class_id == self.drone_class_index,
            confidence: det.confidence,
            x: det.x,
            y: det.y,
            w: det.w,
            h: det.h,
            vx: if steered {
                pair.vx
            } else {
                track.vx
            },
            vy: if steered {
                pair.vy
            } else {
                track.vy
            },
            hits,
            misses: 0,
            confirmed: track.confirmed || hits >= self.confirm_hits,
            recent_classes,
        }
    }

    /// A track after a frame in which it was not detected.
    fn coast(&self, track: &Track, coast: &Coast, moving: bool) -> (next: Track)
        requires
            track.misses < u32::MAX,
        ensures
            next@ == self@.coasted(track@, *coast, moving),
    {
        let mut next = track.clone();
        next.misses = next.misses + 1;
        if moving {
            next.x = coast.x;
            next.y = coast.y;
        }
        next
    }

    /// The track that a detection starts.
    fn start(&self, det: &Detection, id: u64) -> (track: Track)
        ensures
            track@ == self@.started(*det, id),
    {
        let mut recent_classes: Vec<usize> = Vec::new();
        recent_classes.push(det.class_id);
        assert(recent_classes@ =~= seq![det.class_id]);
        Track {
            id,
            class_id: det.class_id,
            is_drone: det.class_id == self.drone_class_index,
            confidence: det.confidence,
            x: det.x,
            y: det.y,
            w: det.w,
            h: det.h,
            vx: Real::zero(),
            vy: Real::zero(),
            hits: 1,
            misses: 0,
            confirmed: self.confirm_hits <= 1,
            recent_classes,
        }
    }

    /// The tracks that are kept after a frame.
    fn step(
        &self,
        detections: &[Detection],
        estimates: &FrameEstimates,
        matched: &Vec<Option<usize>>,
        moving: bool,
    ) -> (kept: Vec<Track>)
        requires
            estimates.covers(self@.tracks.len(), detections@.len()),
            self@.room(detections@.len()),
            matched@.len() == self@.tracks.len(),
            forall|t: int|
                0 <= t < matched@.len() ==> (#[trigger] matched@[t] matches Some(d) ==> d
                    < detections@.len()),
        ensures
            values(kept@) == self@.survivors(
                detections@,
                *estimates,
                matched@,
                moving,
                self@.tracks.len() as int,
            ),
    {
        let mut kept: Vec<Track> = Vec::new();
        assert(values(kept@) =~= Seq::<TrackView>::empty());
        let mut t: usize = 0;
        while t < self.tracks.len()
            invariant
                t <= self.tracks@.len(),
                estimates.covers(self@.tracks.len(), detections@.len()),
                self@.room(detections@.len()),
                matched@.len() == self@.tracks.len(),
                forall|t: int|
                    0 <= t < matched@.len() ==> (#[trigger] matched@[t] matches Some(d) ==> d
                        < detections@.len()),
                values(kept@) == self@.survivors(
                    detections@,
                    *estimates,
                    matched@,
                    moving,
                    t as int,
                ),
            decreases self.tracks@.len() - t,
        {
            let ghost was = kept@;
            let track = &self.tracks[t];
            assert(self@.tracks[t as int] == track@);
            let (next, center): (Track, Center) = match matched[t] {
                Some(d) => (
                    self.absorb(
                        track,
                        &detections[d],
                        &estimates.pairs[t][d],
                        estimates.max_speed,
                        moving,
                    ),
                    estimates.centers[d],
                ),
                None => (
                    self.coast(track, &estimates.coasts[t], moving),
                    estimates.coasts[t].center,
                ),
            };
            if next.misses <= self.max_misses && estimates.bounds.contains(center) {
                kept.push(next);
                assert(values(kept@) =~= values(was).push(next@));
            }
            t = t + 1;
        }
        kept
    }

    /// Takes in one processed frame, and gives the tracks to report. `now` is the time at
    /// which the frame was captured, not that of the call, so that velocities stay right
    /// when frames are dropped.
    pub fn update(&mut self, detections: &[Detection], now: u128, estimates: &FrameEstimates) -> (
        report: Vec<Track>)
        requires
            old(self)@.wf(),
            old(self)@.room(detections@.len()),
            estimates.covers(old(self)@.tracks.len(), detections@.len()),
        ensures
            exists|matched: Seq<Option<usize>>|
                is_greedy(old(self)@.scores(*estimates), detections@.len(), matched)
                    && final(self)@ == #[trigger] old(self)@.advanced(
                    detections@,
                    now,
                    *estimates,
                    matched,
                ),
            final(self)@.wf(),
            values(report@) == final(self)@.reported(),
    {
        let ghost before = self@;
        let moving = self.elapsed(now) > 0;
        let scores = self.score_pairs(estimates);
        proof {
            assert(table(scores@).len() == estimates.pairs@.len());
            assert forall|t: int| 0 <= t < scores@.len() implies (#[trigger] scores@[t])@.len()
                == detections@.len() by {
                assert(table(scores@)[t] == scores@[t]@);
                assert(table(scores@)[t].len() == estimates.pairs@[t]@.len());
            }
        }
        let assignment = assign(&scores, detections.len());
        let ghost matched = assignment.matched@;
        let mut tracks = self.step(detections, estimates, &assignment.matched, moving);
        let ghost kept = values(tracks@);
        let mut next_id: u64 = self.next_id;
        let mut d: usize = 0;
        while d < detections.len()
            invariant
                d <= detections@.len(),
                self@ == before,
                before.room(detections@.len()),
                assignment.taken@.len() == detections@.len(),
                matched == assignment.matched@,
                forall|e: int|
                    0 <= e < detections@.len() ==> #[trigger] assignment.taken@[e] == is_taken(
                        matched,
                        e,
                    ),
                before.newcomers(detections@, matched, d as int).len() <= d,
                next_id == before.next_id + before.newcomers(
                    detections@,
                    matched,
                    d as int,
                ).len(),
                values(tracks@) == kept + before.newcomers(detections@, matched, d as int),
            decreases detections@.len() - d,
        {
            let ghost was = tracks@;
            if !assignment.taken[d] {
                let track = self.start(&detections[d], next_id);
                tracks.push(track);
                next_id = next_id + 1;
                assert(values(tracks@) =~= values(was).push(track@));
                assert(values(tracks@) =~= kept + before.newcomers(
                    detections@,
                    matched,
                    d + 1,
                ));
            }
            d = d + 1;
        }
        self.tracks = tracks;
        self.next_id = next_id;
        self.last_update = Some(now);
        proof {
            assert(self@ =~= before.advanced(detections@, now, *estimates, matched));
            lemma_advance_keeps_wf(before, detections@, now, *estimates, matched);
        }
        self.report()
    }

    /// The tracks to report.
    fn report(&self) -> (report: Vec<Track>)
        ensures
            values(report@) == self@.reported(),
    {
        let mut report: Vec<Track> = Vec::new();
        let mut t: usize = 0;
        proof {
            assert(self@.tracks.take(0) =~= Seq::<TrackView>::empty());
            assert(values(report@) =~= Seq::<TrackView>::empty());
            reveal(Seq::filter);
        }
        while t < self.tracks.len()
            invariant
                t <= self.tracks@.len(),
                values(report@) == self@.tracks.take(t as int).filter(
                    |t: TrackView| reportable(t),
                ),
            decreases self.tracks@.len() - t,
        {
            let ghost was = report@;
            proof {
                reveal(Seq::filter);
                assert(self@.tracks.take(t + 1).drop_last() =~= self@.tracks.take(t as int));
                assert(self@.tracks.take(t + 1).last() == self.tracks@[t as int]@);
            }
            if self.tracks[t].confirmed && self.tracks[t].misses < COAST_REPORT_LIMIT {
                let copy = self.tracks[t].clone();
                report.push(copy);
                assert(values(report@) =~= values(was).push(copy@));
            }
            t = t + 1;
        }
        assert(self@.tracks.take(t as int) =~= self@.tracks);
        report
    }
}

/// A frame keeps what holds of the tracker.
pub(crate) proof fn lemma_advance_keeps_wf(
    state: TrackerState,
    detections: Seq<Detection>,
    now: u128,
    estimates: FrameEstimates,
    matched: Seq<Option<usize>>,
)
    requires
        state.wf(),
        state.room(detections.len()),
        matched.len() == state.tracks.len(),
    ensures
        state.advanced(detections, now, estimates, matched).wf(),
{
    let moving = state.since(now) > 0;
    let after = state.advanced(detections, now, estimates, matched);
    let kept = state.survivors(
        detections,
        estimates,
        matched,
        moving,
        state.tracks.len() as int,
    );
    let new = state.newcomers(detections, matched, detections.len() as int);
    lemma_survivors(state, detections, estimates, matched, moving, state.tracks.len() as int);
    lemma_newcomers(state, detections, matched, detections.len() as int);
    assert forall|t: int| 0 <= t < after.tracks.len() implies after.sound(
        #[trigger] after.tracks[t],
    ) by {
        if t < kept.len() {
            assert(after.tracks[t] == kept[t]);
            assert(state.sound(kept[t]));
        } else {
            assert(after.tracks[t] == new[t - kept.len()]);
        }
    }
    assert forall|t: int, u: int| 0 <= t < u < after.tracks.len() implies (
    #[trigger] after.tracks[t]).id < (#[trigger] after.tracks[u]).id by {
        if u < kept.len() {
            assert(kept[t].id < kept[u].id);
        } else if t < kept.len() {
            assert(state.sound(kept[t]));
            assert(after.tracks[u] == new[u - kept.len()]);
        } else {
            assert(after.tracks[t] == new[t - kept.len()]);
            assert(after.tracks[u] == new[u - kept.len()]);
        }
    }
}

/// Kept tracks stay sound, and stay older than the tracks after them.
pub(crate) proof fn lemma_survivors(
    state: TrackerState,
    detections: Seq<Detection>,
    estimates: FrameEstimates,
    matched: Seq<Option<usize>>,
    moving: bool,
    n: int,
)
    requires
        state.wf(),
        state.room(detections.len()),
        matched.len() == state.tracks.len(),
        0 <= n <= state.tracks.len(),
    ensures
        ({
            let kept = state.survivors(detections, estimates, matched, moving, n);
            &&& forall|i: int|
                0 <= i < kept.len() ==> state.sound(#[trigger] kept[i])
            &&& forall|i: int, j: int|
                0 <= i < j < kept.len() ==> (#[trigger] kept[i]).id < (#[trigger] kept[j]).id
            &&& forall|i: int, t: int|
                0 <= i < kept.len() && n <= t < state.tracks.len() ==> (#[trigger] kept[i]).id < (
                #[trigger] state.tracks[t]).id
        }),
    decreases n,
{
    if n > 0 {
        lemma_survivors(state, detections, estimates, matched, moving, n - 1);
        let earlier = state.survivors(detections, estimates, matched, moving, n - 1);
        let kept = state.survivors(detections, estimates, matched, moving, n);
        let old_track = state.tracks[n - 1];
        assert(state.sound(old_track));
        assert forall|i: int| 0 <= i < kept.len() implies state.sound(#[trigger] kept[i]) by {
            if i < earlier.len() {
                assert(kept[i] == earlier[i]);
                assert(state.sound(earlier[i]));
            }
        }
        assert forall|i: int, j: int| 0 <= i < j < kept.len() implies (#[trigger] kept[i]).id < (
        #[trigger] kept[j]).id by {
            assert(kept[i] == earlier[i]);
            if j < earlier.len() {
                assert(kept[j] == earlier[j]);
            } else {
                assert(kept[j].id == state.tracks[n - 1].id);
            }
        }
        assert forall|i: int, t: int|
            0 <= i < kept.len() && n <= t < state.tracks.len() implies (#[trigger] kept[i]).id < (
        #[trigger] state.tracks[t]).id by {
            if i < earlier.len() {
                assert(kept[i] == earlier[i]);
            } else {
                assert(kept[i].id == state.tracks[n - 1].id);
            }
        }
    }
}

/// New tracks are numbered on from the next free identity.
pub(crate) proof fn lemma_newcomers(
    state: TrackerState,
    detections: Seq<Detection>,
    matched: Seq<Option<usize>>,
    n: int,
)
    requires
        state.wf(),
        state.room(detections.len()),
        0 <= n <= detections.len(),
    ensures
        ({
            let new = state.newcomers(detections, matched, n);
            &&& new.len() <= n
            &&& forall|i: int|
                0 <= i < new.len() ==> {
                    let track = #[trigger] new[i];
                    &&& track.id == state.next_id + i
                    &&& track.recent_classes.len() == 1
                    &&& track.class_id == majority(track.recent_classes)
                    &&& track.is_drone == (track.class_id == state.drone_class_index)
                    &&& track.hits == 1
                    &&& track.misses == 0
                    &&& track.confirmed == (track.hits >= state.confirm_hits)
                }
        }),
    decreases n,
{
    if n > 0 {
        lemma_newcomers(state, detections, matched, n - 1);
    }
}

} // verus!
