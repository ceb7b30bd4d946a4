//! What the stages of the pipeline hand to one another.

use vstd::prelude::*;

use crate::number::{Real, Real64};

verus! {

/// One captured frame: tightly packed RGB, row by row, without padding between rows.
pub struct Frame {
    pub width: usize,
    pub height: usize,
    pub data: Vec<u8>,
    /// The index of the frame in its video: frame 75 of the video has `seq == 75`.
    pub seq: u64,
    /// When the frame was captured, in nanoseconds since the source started.
    pub captured_at: u128,
}

impl Frame {
    /// Whether the data is exactly one byte for each channel of each pixel.
    pub open spec fn packed(self) -> bool {
        self.data@.len() == self.width * self.height * 3
    }
}

impl Clone for Frame {
    fn clone(&self) -> (copy: Frame)
        ensures
            copy.width == self.width,
            copy.height == self.height,
            copy.data@ == self.data@,
            copy.seq == self.seq,
            copy.captured_at == self.captured_at,
    {
        let data = self.data.clone();
        assert(data@ =~= self.data@);
        Frame {
            width: self.width,
            height: self.height,
            data,
            seq: self.seq,
            captured_at: self.captured_at,
        }
    }
}

/// A single object that the model found, in pixel coordinates of the frame.
#[derive(Clone, Copy, Debug)]
pub struct Detection {
    pub class_id: usize,
    pub confidence: Real,
    pub x: Real,
    pub y: Real,
    pub w: Real,
    pub h: Real,
    pub is_drone: bool,
}

/// A detection whose identity is kept across frames.
#[derive(Debug)]
pub struct Track {
    pub id: u64,
    pub class_id: usize,
    pub is_drone: bool,
    pub confidence: Real,
    pub x: Real,
    pub y: Real,
    pub w: Real,
    pub h: Real,
    pub vx: Real,
    pub vy: Real,
    /// In how many frames the object was detected.
    pub hits: u32,
    /// In how many frames in a row it has gone undetected.
    pub misses: u32,
    /// Whether it was detected often enough to be reported.
    pub confirmed: bool,
    /// The classes of its latest detections, oldest first.
    pub recent_classes: Vec<usize>,
}

/// A track as a mathematical value.
pub struct TrackView {
    pub id: u64,
    pub class_id: usize,
    pub is_drone: bool,
    pub confidence: Real,
    pub x: Real,
    pub y: Real,
    pub w: Real,
    pub h: Real,
    pub vx: Real,
    pub vy: Real,
    pub hits: u32,
    pub misses: u32,
    pub confirmed: bool,
    pub recent_classes: Seq<usize>,
}

impl View for Track {
    type V = TrackView;

    open spec fn view(&self) -> TrackView {
        TrackView {
            id: self.id,
            class_id: self.class_id,
            is_drone: self.is_drone,
            confidence: self.confidence,
            x: self.x,
            y: self.y,
            w: self.w,
            h: self.h,
            vx: self.vx,
            vy: self.vy,
            hits: self.hits,
            misses: self.misses,
            confirmed: self.confirmed,
            recent_classes: self.recent_classes@,
        }
    }
}

impl Clone for Track {
    fn clone(&self) -> (copy: Track)
        ensures
            copy@ == self@,
    {
        let recent_classes = self.recent_classes.clone();
        assert(recent_classes@ =~= self.recent_classes@);
        Track {
            id: self.id,
            class_id: self.class_id,
            is_drone: self.is_drone,
            confidence: self.confidence,
            x: self.x,
            y: self.y,
            w: self.w,
            h: self.h,
            vx: self.vx,
            vy: self.vy,
            hits: self.hits,
            misses: self.misses,
            confirmed: self.confirmed,
            recent_classes,
        }
    }
}

/// The values of a list of tracks.
pub open spec fn values(tracks: Seq<Track>) -> Seq<TrackView> {
    tracks.map_values(|t: Track| t@)
}

/// A location given by the GPS receiver, or by hand.
#[derive(Clone, Copy, Debug)]
pub struct GpsFix {
    pub lat: Real64,
    pub lon: Real64,
    pub altitude_m: Option<Real64>,
    pub satellites: Option<u32>,
}

/// Everything that is known of one processed frame. The frame rides along so that footage
/// can be saved.
pub struct DetectionResult {
    pub seq: u64,
    pub captured_at: u128,
    pub detections: Vec<Detection>,
    pub tracks: Vec<Track>,
    pub total_objects: usize,
    pub drone_count: usize,
    pub frame: Frame,
}

/// How many of the tracks are drones.
pub open spec fn drones(tracks: Seq<Track>) -> nat
    decreases tracks.len(),
{
    if tracks.len() == 0 {
        0
    } else {
        drones(tracks.drop_last()) + (if tracks.last().is_drone {
            1nat
        } else {
            0nat
        })
    }
}

impl DetectionResult {
    /// The result for a frame, from what was detected in it and the tracks reported after
    /// it: every track is an object, and those classified as drones are counted apart.
    pub fn new(frame: Frame, detections: Vec<Detection>, tracks: Vec<Track>) -> (result:
        DetectionResult)
        ensures
            result.seq == frame.seq,
            result.captured_at == frame.captured_at,
            result.detections == detections,
            result.tracks == tracks,
            result.total_objects == tracks@.len(),
            result.drone_count == drones(tracks@),
            result.frame == frame,
    {
        let mut drone_count: usize = 0;
        let mut i: usize = 0;
        while i < tracks.len()
            invariant
                i <= tracks@.len(),
                drone_count <= i,
                drone_count == drones(tracks@.take(i as int)),
            decreases tracks@.len() - i,
        {
            assert(tracks@.take(i + 1).drop_last() =~= tracks@.take(i as int));
            if tracks[i].is_drone {
                drone_count = drone_count + 1;
            }
            i = i + 1;
        }
        assert(tracks@.take(i as int) =~= tracks@);
        DetectionResult {
            seq: frame.seq,
            captured_at: frame.captured_at,
            total_objects: tracks.len(),
            drone_count,
            detections,
            tracks,
            frame,
        }
    }
}

/// The drones are some of the objects: never more than all of them, and each of them is
/// counted.
pub proof fn law_drones_are_objects(tracks: Seq<Track>)
    ensures
        drones(tracks) <= tracks.len(),
        drones(tracks) == 0 <==> forall|i: int|
            0 <= i < tracks.len() ==> !(#[trigger] tracks[i]).is_drone,
        drones(tracks) == tracks.len() <==> forall|i: int|
            0 <= i < tracks.len() ==> (#[trigger] tracks[i]).is_drone,
    decreases tracks.len(),
{
    if tracks.len() > 0 {
        let rest = tracks.drop_last();
        law_drones_are_objects(rest);
        let last = tracks.len() - 1;
        assert(tracks[last] == tracks.last());
        assert(forall|i: int| 0 <= i < rest.len() ==> rest[i] == tracks[i]);
        if forall|i: int| 0 <= i < tracks.len() ==> !(#[trigger] tracks[i]).is_drone {
            assert forall|i: int| 0 <= i < rest.len() implies !(#[trigger] rest[i]).is_drone by {
                assert(rest[i] == tracks[i]);
            }
        }
        if forall|i: int| 0 <= i < tracks.len() ==> (#[trigger] tracks[i]).is_drone {
            assert forall|i: int| 0 <= i < rest.len() implies (#[trigger] rest[i]).is_drone by {
                assert(rest[i] == tracks[i]);
            }
        }
    }
}

/// The drones are the tracks that are marked as such, over the whole list.
pub proof fn law_every_drone_counts(tracks: Seq<Track>)
    ensures
        drones(tracks) == tracks.filter(|t: Track| t.is_drone).len(),
    decreases tracks.len(),
{
    reveal(Seq::filter);
    if tracks.len() > 0 {
        law_every_drone_counts(tracks.drop_last());
    }
}

} // verus!
