use drone_detection_pipeline::assign::assign;
use drone_detection_pipeline::number::Real;
use drone_detection_pipeline::track::{
    Bounds, Center, Coast, FrameEstimates, PairEstimate, Tracker, CLASS_VOTE_WINDOW,
    COAST_REPORT_LIMIT,
};
use drone_detection_pipeline::types::{Detection, DetectionResult, Frame, Track};
use drone_detection_pipeline::vote::majority_class;

fn num(x: f32) -> Real {
    Real { bits: x.to_bits() }
}

fn float(x: Real) -> f32 {
    f32::from_bits(x.bits)
}

fn det(class_id: usize, x: f32, y: f32) -> Detection {
    Detection {
        class_id,
        confidence: num(0.8),
        x: num(x),
        y: num(y),
        w: num(10.0),
        h: num(10.0),
        is_drone: class_id == 2,
    }
}

fn pair(score: f32, speed: f32) -> PairEstimate {
    PairEstimate {
        iou: num(0.0),
        overlap_score: num(0.0),
        distance: num(1.0),
        gate: num(20.0),
        near_score: num(score),
        speed: num(speed),
        vx: num(7.0),
        vy: num(-7.0),
    }
}

fn center(x: Real, y: Real) -> Center {
    Center { x: num(float(x) + 5.0), y: num(float(y) + 5.0) }
}

fn estimates(tracker: &Tracker, dets: &[Detection], scores: &[&[f32]]) -> FrameEstimates {
    let mut pairs = Vec::new();
    let mut coasts = Vec::new();
    for (t, track) in tracker.tracks().iter().enumerate() {
        pairs.push((0..dets.len()).map(|d| pair(scores[t][d], 1.0)).collect());
        coasts.push(Coast {
            x: num(float(track.x) + 3.0),
            y: num(float(track.y) + 4.0),
            center: center(track.x, track.y),
        });
    }
    FrameEstimates {
        pairs,
        coasts,
        centers: dets.iter().map(|d| center(d.x, d.y)).collect(),
        max_speed: num(300.0),
        bounds: Bounds {
            left: num(-25.0),
            right: num(125.0),
            top: num(-25.0),
            bottom: num(125.0),
        },
    }
}

fn step(tracker: &mut Tracker, dets: &[Detection], now: u128, scores: &[&[f32]]) -> Vec<Track> {
    let e = estimates(tracker, dets, scores);
    assert!(tracker.has_room(dets.len()));
    tracker.update(dets, now, &e)
}

fn ids(tracks: &[Track]) -> Vec<u64> {
    tracks.iter().map(|t| t.id).collect()
}

#[test]
fn majority_of_equal_counts_is_the_first() {
    assert_eq!(majority_class(&[1, 2, 2, 1]), 1);
    assert_eq!(majority_class(&[3]), 3);
    assert_eq!(majority_class(&[2, 1, 1, 2, 1]), 1);
    assert_eq!(majority_class(&[0, 1, 2, 2]), 2);
}

#[test]
fn assignment_takes_the_best_pair_first() {
    let scores = vec![
        vec![num(0.5), num(0.9)],
        vec![num(0.4), num(1.3)],
    ];
    let a = assign(&scores, 2);
    assert_eq!(a.matched, vec![Some(0), Some(1)]);
    assert_eq!(a.taken, vec![true, true]);
}

#[test]
fn assignment_of_equal_scores_prefers_the_earlier() {
    let scores = vec![vec![num(0.5), num(0.5)], vec![num(0.5), num(0.5)]];
    assert_eq!(assign(&scores, 2).matched, vec![Some(0), Some(1)]);
}

#[test]
fn assignment_leaves_out_pairs_without_a_score() {
    let scores = vec![vec![num(0.0), num(-1.0), num(f32::NAN)]];
    let a = assign(&scores, 3);
    assert_eq!(a.matched, vec![None]);
    assert_eq!(a.taken, vec![false, false, false]);
}

#[test]
fn match_score_prefers_overlap_over_nearness() {
    let tracker = Tracker::new(num(0.3), 15, 3, 2);
    let mut p = pair(0.25, 0.0);
    p.overlap_score = num(1.3);
    p.iou = num(0.3);
    assert_eq!(tracker.match_score(&p), num(1.3));
    p.iou = num(0.29);
    assert_eq!(tracker.match_score(&p), num(0.25));
    p.distance = num(20.0);
    assert_eq!(tracker.match_score(&p), num(0.25));
    p.distance = num(20.5);
    assert_eq!(tracker.match_score(&p), Real::zero());
    p.distance = num(f32::NAN);
    assert_eq!(tracker.match_score(&p), Real::zero());
}

#[test]
fn identity_is_kept_and_confirmed_after_enough_hits() {
    let mut tracker = Tracker::new(num(0.3), 15, 3, 2);
    assert!(step(&mut tracker, &[det(2, 10.0, 10.0)], 0, &[]).is_empty());
    assert!(step(&mut tracker, &[det(2, 12.0, 10.0)], 100, &[&[0.9]]).is_empty());
    let report = step(&mut tracker, &[det(2, 14.0, 10.0)], 200, &[&[0.9]]);
    assert_eq!(ids(&report), vec![1]);
    assert_eq!(report[0].hits, 3);
    assert!(report[0].confirmed && report[0].is_drone);
    assert_eq!(report[0].x, num(14.0));
    assert_eq!(report[0].vx, num(7.0));
    assert_eq!(report[0].recent_classes, vec![2, 2, 2]);
}

#[test]
fn first_detection_confirms_where_one_hit_is_enough() {
    let mut tracker = Tracker::new(num(0.3), 15, 1, 2);
    let report = step(&mut tracker, &[det(1, 0.0, 0.0), det(2, 50.0, 50.0)], 5, &[]);
    assert_eq!(ids(&report), vec![1, 2]);
    assert_eq!((report[0].is_drone, report[1].is_drone), (false, true));
    assert_eq!((report[0].vx, report[0].hits, report[0].misses), (Real::zero(), 1, 0));
}

#[test]
fn missed_track_coasts_and_is_given_up() {
    let mut tracker = Tracker::new(num(0.3), 2, 1, 2);
    step(&mut tracker, &[det(2, 10.0, 10.0)], 0, &[]);
    let report = step(&mut tracker, &[], 100, &[&[]]);
    assert_eq!((report[0].misses, report[0].x, report[0].y), (1, num(13.0), num(14.0)));
    assert_eq!((report[0].w, report[0].class_id, report[0].hits), (num(10.0), 2, 1));
    assert_eq!(step(&mut tracker, &[], 200, &[&[]])[0].misses, 2);
    assert!(step(&mut tracker, &[], 300, &[&[]]).is_empty());
    assert!(tracker.tracks().is_empty());
    let report = step(&mut tracker, &[det(2, 10.0, 10.0)], 400, &[]);
    assert_eq!(ids(&report), vec![2]);
}

#[test]
fn coasting_track_is_kept_but_not_reported_for_ever() {
    let mut tracker = Tracker::new(num(0.3), 15, 1, 2);
    step(&mut tracker, &[det(2, 10.0, 10.0)], 0, &[]);
    for miss in 1..=15u32 {
        let report = step(&mut tracker, &[], 0, &[&[]]);
        assert_eq!(report.len(), if miss < COAST_REPORT_LIMIT { 1 } else { 0 });
        assert_eq!(tracker.tracks()[0].misses, miss);
    }
}

#[test]
fn nothing_moves_where_no_time_passes() {
    let mut tracker = Tracker::new(num(0.3), 15, 1, 2);
    step(&mut tracker, &[det(2, 10.0, 10.0)], 100, &[]);
    assert_eq!(tracker.elapsed(100), 0);
    assert_eq!(tracker.elapsed(99), 0);
    assert_eq!(tracker.elapsed(130), 30);
    let report = step(&mut tracker, &[], 50, &[&[]]);
    assert_eq!((report[0].x, report[0].y), (num(10.0), num(10.0)));
    let report = step(&mut tracker, &[det(2, 12.0, 10.0)], 50, &[&[0.9]]);
    assert_eq!((report[0].x, report[0].vx), (num(12.0), Real::zero()));
}

#[test]
fn wild_jump_does_not_steer() {
    let mut tracker = Tracker::new(num(0.3), 15, 1, 2);
    step(&mut tracker, &[det(2, 10.0, 10.0)], 0, &[]);
    let dets = [det(2, 90.0, 10.0)];
    let mut e = estimates(&tracker, &dets, &[&[0.5]]);
    e.pairs[0][0].speed = num(300.5);
    let report = tracker.update(&dets, 1, &e);
    assert_eq!((report[0].x, report[0].vx, report[0].vy), (num(90.0), num(0.0), num(0.0)));
    let mut e = estimates(&tracker, &dets, &[&[0.5]]);
    e.pairs[0][0].speed = num(300.0);
    let report = tracker.update(&dets, 2, &e);
    assert_eq!((report[0].vx, report[0].vy), (num(7.0), num(-7.0)));
}

#[test]
fn track_outside_the_margin_is_dropped() {
    let mut tracker = Tracker::new(num(0.3), 15, 1, 2);
    step(&mut tracker, &[det(2, 10.0, 10.0)], 0, &[]);
    assert!(step(&mut tracker, &[det(2, 120.0, 10.0)], 1, &[&[0.9]]).is_empty());
    assert!(tracker.tracks().is_empty());
}

#[test]
fn class_is_voted_over_a_window() {
    let mut tracker = Tracker::new(num(0.3), 15, 1, 2);
    step(&mut tracker, &[det(2, 10.0, 10.0)], 0, &[]);
    for i in 1..CLASS_VOTE_WINDOW + 1 {
        let class_id = if i < 9 { 2 } else { 1 };
        step(&mut tracker, &[det(class_id, 10.0, 10.0)], i as u128, &[&[0.9]]);
    }
    let track = &tracker.tracks()[0];
    assert_eq!(track.recent_classes.len(), CLASS_VOTE_WINDOW);
    assert_eq!((track.class_id, track.is_drone), (2, true));
    step(&mut tracker, &[det(1, 10.0, 10.0)], 99, &[&[0.9]]);
    let track = &tracker.tracks()[0];
    assert_eq!((track.class_id, track.is_drone, track.hits), (1, false, 17));
}

#[test]
fn every_detection_is_used_once() {
    let mut tracker = Tracker::new(num(0.3), 15, 1, 2);
    step(&mut tracker, &[det(2, 10.0, 10.0), det(1, 60.0, 60.0)], 0, &[]);
    let dets = [det(1, 61.0, 60.0), det(0, 90.0, 5.0), det(2, 11.0, 10.0)];
    let report = step(&mut tracker, &dets, 10, &[&[0.0, 0.0, 0.8], &[0.9, 0.2, 0.0]]);
    assert_eq!(ids(&report), vec![1, 2, 3]);
    assert_eq!(report.iter().map(|t| t.x).collect::<Vec<_>>(), vec![
        num(11.0),
        num(61.0),
        num(90.0)
    ]);
}

#[test]
fn copied_track_is_the_same() {
    let mut tracker = Tracker::new(num(0.3), 15, 1, 2);
    let report = step(&mut tracker, &[det(2, 10.0, 10.0)], 0, &[]);
    let copy = report[0].clone();
    assert_eq!(format!("{copy:?}"), format!("{:?}", tracker.tracks()[0]));
}

#[test]
fn result_counts_objects_and_drones() {
    let mut tracker = Tracker::new(num(0.3), 15, 1, 2);
    let dets = vec![det(2, 10.0, 10.0), det(1, 50.0, 50.0), det(2, 80.0, 80.0)];
    let tracks = step(&mut tracker, &dets, 0, &[]);
    let frame = Frame { width: 1, height: 1, data: vec![0, 0, 0], seq: 75, captured_at: 12 };
    let result = DetectionResult::new(frame, dets, tracks);
    assert_eq!((result.seq, result.captured_at), (75, 12));
    assert_eq!((result.total_objects, result.drone_count), (3, 2));
    assert_eq!((result.detections.len(), result.frame.data.len()), (3, 3));
}

#[test]
fn only_drones_are_counted() {
    let mut tracker = Tracker::new(num(0.3), 15, 1, 2);
    let dets = [det(1, 0.0, 0.0), det(2, 50.0, 50.0), det(0, 90.0, 0.0)];
    let tracks = step(&mut tracker, &dets, 0, &[]);
    let frame = Frame { width: 0, height: 0, data: Vec::new(), seq: 0, captured_at: 0 };
    let result = DetectionResult::new(frame, dets.to_vec(), tracks);
    assert_eq!((result.total_objects, result.drone_count), (3, 1));
}

#[test]
fn identities_are_never_given_twice() {
    let mut tracker = Tracker::new(num(0.3), 0, 1, 2);
    assert_eq!(ids(&step(&mut tracker, &[det(2, 0.0, 0.0)], 0, &[])), vec![1]);
    assert!(step(&mut tracker, &[], 1, &[&[]]).is_empty());
    assert!(tracker.tracks().is_empty());
    assert_eq!(ids(&step(&mut tracker, &[det(2, 0.0, 0.0)], 2, &[])), vec![2]);
}

#[test]
fn track_holds_the_classes_of_its_latest_detections() {
    let mut tracker = Tracker::new(num(0.3), 15, 1, 2);
    let classes: Vec<usize> = (0..20).map(|i| (i * i + 3) % 4).collect();
    for (i, class_id) in classes.iter().enumerate() {
        let scores: &[&[f32]] = if i == 0 { &[] } else { &[&[0.9]] };
        step(&mut tracker, &[det(*class_id, 10.0, 10.0)], i as u128, scores);
        let track = &tracker.tracks()[0];
        let seen = i + 1;
        assert_eq!(track.hits as usize, seen);
        assert_eq!(track.recent_classes, classes[seen.saturating_sub(CLASS_VOTE_WINDOW)..seen]);
    }
}
