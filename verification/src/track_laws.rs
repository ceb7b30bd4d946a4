//! What the tracker promises of a whole frame.

use vstd::prelude::*;

use crate::assign::{is_greedy, is_taken};
use crate::number::Real;
use crate::track::{
    lemma_advance_keeps_wf, lemma_newcomers, lemma_survivors, reportable, voters, voting, Bounds,
    Center, FrameEstimates, TrackerState, COAST_REPORT_LIMIT,
};
use crate::types::{drones, values, Detection, Track, TrackView};
use crate::vote::majority;

verus! {

/// Whether `track` is track `t` of `state` after the frame.
pub open spec fn continues(
    state: TrackerState,
    detections: Seq<Detection>,
    now: u128,
    estimates: FrameEstimates,
    matched: Seq<Option<usize>>,
    t: int,
    track: TrackView,
) -> bool {
    &&& 0 <= t < state.tracks.len()
    &&& state.keeps(estimates, matched, t)
    &&& track == state.stepped(detections, estimates, matched, state.since(now) > 0, t)
}

/// Whether `track` was started by detection `d`, which no track was given.
pub open spec fn starts(
    state: TrackerState,
    detections: Seq<Detection>,
    matched: Seq<Option<usize>>,
    d: int,
    track: TrackView,
) -> bool {
    &&& 0 <= d < detections.len()
    &&& !is_taken(matched, d)
    &&& track == state.started(detections[d], track.id)
    &&& state.next_id <= track.id
}

/// Identities are kept: every track after a frame is a kept track of before, under its
/// identity, or was started by a detection, under an identity never given before.
pub proof fn law_identities_are_kept(
    state: TrackerState,
    detections: Seq<Detection>,
    now: u128,
    estimates: FrameEstimates,
    matched: Seq<Option<usize>>,
    i: int,
)
    requires
        state.wf(),
        state.room(detections.len()),
        is_greedy(state.scores(estimates), detections.len(), matched),
        estimates.covers(state.tracks.len(), detections.len()),
        0 <= i < state.advanced(detections, now, estimates, matched).tracks.len(),
    ensures
        ({
            let after = state.advanced(detections, now, estimates, matched);
            let track = after.tracks[i];
            &&& state.next_id <= after.next_id
            &&& track.id < after.next_id
            &&& track.id < state.next_id ==> exists|t: int|
                #[trigger] continues(state, detections, now, estimates, matched, t, track)
                    && state.tracks[t].id == track.id
            &&& track.id >= state.next_id ==> exists|d: int| #[trigger]
                starts(state, detections, matched, d, track)
        }),
{
    let moving = state.since(now) > 0;
    let n = state.tracks.len() as int;
    let kept = state.survivors(detections, estimates, matched, moving, n);
    let new = state.newcomers(detections, matched, detections.len() as int);
    let after = state.advanced(detections, now, estimates, matched);
    lemma_survivors(state, detections, estimates, matched, moving, n);
    lemma_newcomers(state, detections, matched, detections.len() as int);
    if i < kept.len() {
        assert(after.tracks[i] == kept[i]);
        assert(state.sound(kept[i]));
        let t = lemma_survivor_was_a_track(state, detections, now, estimates, matched, n, i);
        assert(continues(state, detections, now, estimates, matched, t, kept[i]));
    } else {
        assert(after.tracks[i] == new[i - kept.len()]);
        let d = lemma_newcomer_was_a_detection(
            state,
            detections,
            matched,
            detections.len() as int,
            i - kept.len(),
        );
        assert(starts(state, detections, matched, d, new[i - kept.len()]));
    }
}

proof fn lemma_survivor_was_a_track(
    state: TrackerState,
    detections: Seq<Detection>,
    now: u128,
    estimates: FrameEstimates,
    matched: Seq<Option<usize>>,
    n: int,
    i: int,
) -> (t: int)
    requires
        0 <= n <= state.tracks.len(),
        0 <= i < state.survivors(detections, estimates, matched, state.since(now) > 0, n).len(),
    ensures
        t < n,
        continues(
            state,
            detections,
            now,
            estimates,
            matched,
            t,
            state.survivors(detections, estimates, matched, state.since(now) > 0, n)[i],
        ),
        state.tracks[t].id == state.survivors(
            detections,
            estimates,
            matched,
            state.since(now) > 0,
            n,
        )[i].id,
    decreases n,
{
    let earlier = state.survivors(detections, estimates, matched, state.since(now) > 0, n - 1);
    if i < earlier.len() {
        lemma_survivor_was_a_track(state, detections, now, estimates, matched, n - 1, i)
    } else {
        n - 1
    }
}

proof fn lemma_newcomer_was_a_detection(
    state: TrackerState,
    detections: Seq<Detection>,
    matched: Seq<Option<usize>>,
    n: int,
    i: int,
) -> (d: int)
    requires
        state.room(detections.len()),
        state.wf(),
        0 <= n <= detections.len(),
        0 <= i < state.newcomers(detections, matched, n).len(),
    ensures
        starts(state, detections, matched, d, state.newcomers(detections, matched, n)[i]),
    decreases n,
{
    lemma_newcomers(state, detections, matched, n);
    let earlier = state.newcomers(detections, matched, n - 1);
    if i < earlier.len() {
        lemma_newcomer_was_a_detection(state, detections, matched, n - 1, i)
    } else {
        n - 1
    }
}

/// A track that is kept is there after the frame.
pub proof fn law_kept_tracks_stay(
    state: TrackerState,
    detections: Seq<Detection>,
    now: u128,
    estimates: FrameEstimates,
    matched: Seq<Option<usize>>,
    t: int,
)
    requires
        0 <= t < state.tracks.len(),
        state.keeps(estimates, matched, t),
    ensures
        state.advanced(detections, now, estimates, matched).tracks.contains(
            state.stepped(detections, estimates, matched, state.since(now) > 0, t),
        ),
        state.stepped(detections, estimates, matched, state.since(now) > 0, t).id
            == state.tracks[t].id,
{
    let n = state.tracks.len() as int;
    let kept = state.survivors(detections, estimates, matched, state.since(now) > 0, n);
    let i = lemma_kept_track_survives(state, detections, now, estimates, matched, n, t);
    let after = state.advanced(detections, now, estimates, matched);
    assert(after.tracks[i] == kept[i]);
}

proof fn lemma_kept_track_survives(
    state: TrackerState,
    detections: Seq<Detection>,
    now: u128,
    estimates: FrameEstimates,
    matched: Seq<Option<usize>>,
    n: int,
    t: int,
) -> (i: int)
    requires
        0 <= t < n <= state.tracks.len(),
        state.keeps(estimates, matched, t),
    ensures
        0 <= i < state.survivors(detections, estimates, matched, state.since(now) > 0, n).len(),
        state.survivors(detections, estimates, matched, state.since(now) > 0, n)[i]
            == state.stepped(detections, estimates, matched, state.since(now) > 0, t),
    decreases n,
{
    let earlier = state.survivors(detections, estimates, matched, state.since(now) > 0, n - 1);
    if t == n - 1 {
        earlier.len() as int
    } else {
        lemma_kept_track_survives(state, detections, now, estimates, matched, n - 1, t)
    }
}

/// No detection is lost and none is used twice: it was given to exactly one track, or to
/// none and has started one of its own.
pub proof fn law_every_detection_is_used_once(
    state: TrackerState,
    detections: Seq<Detection>,
    now: u128,
    estimates: FrameEstimates,
    matched: Seq<Option<usize>>,
    d: int,
)
    requires
        state.wf(),
        state.room(detections.len()),
        is_greedy(state.scores(estimates), detections.len(), matched),
        estimates.covers(state.tracks.len(), detections.len()),
        0 <= d < detections.len(),
    ensures
        forall|t: int, u: int|
            0 <= t < matched.len() && 0 <= u < matched.len() && #[trigger] matched[t] == Some(
                d as usize,
            ) && #[trigger] matched[u] == Some(d as usize) ==> t == u,
        is_taken(matched, d) || exists|i: int|
            0 <= i < state.advanced(detections, now, estimates, matched).tracks.len() && starts(
                state,
                detections,
                matched,
                d,
                #[trigger] state.advanced(detections, now, estimates, matched).tracks[i],
            ),
{
    if !is_taken(matched, d) {
        let after = state.advanced(detections, now, estimates, matched);
        let n = state.tracks.len() as int;
        let kept = state.survivors(detections, estimates, matched, state.since(now) > 0, n);
        let new = state.newcomers(detections, matched, detections.len() as int);
        let j = lemma_free_detection_starts(
            state,
            detections,
            matched,
            detections.len() as int,
            d,
        );
        assert(after.tracks[kept.len() + j] == new[j]);
    }
}

proof fn lemma_free_detection_starts(
    state: TrackerState,
    detections: Seq<Detection>,
    matched: Seq<Option<usize>>,
    n: int,
    d: int,
) -> (j: int)
    requires
        state.wf(),
        state.room(detections.len()),
        0 <= d < n <= detections.len(),
        !is_taken(matched, d),
    ensures
        0 <= j < state.newcomers(detections, matched, n).len(),
        starts(state, detections, matched, d, state.newcomers(detections, matched, n)[j]),
    decreases n,
{
    lemma_newcomers(state, detections, matched, n);
    let earlier = state.newcomers(detections, matched, n - 1);
    if d == n - 1 {
        earlier.len() as int
    } else {
        lemma_free_detection_starts(state, detections, matched, n - 1, d)
    }
}

/// A track that was missed as often as is allowed, and is missed again, is given up: its
/// identity is gone.
pub proof fn law_missed_too_often_is_given_up(
    state: TrackerState,
    detections: Seq<Detection>,
    now: u128,
    estimates: FrameEstimates,
    matched: Seq<Option<usize>>,
    t: int,
)
    requires
        state.wf(),
        state.room(detections.len()),
        is_greedy(state.scores(estimates), detections.len(), matched),
        estimates.covers(state.tracks.len(), detections.len()),
        0 <= t < state.tracks.len(),
        matched[t] is None,
        state.tracks[t].misses >= state.max_misses,
    ensures
        forall|i: int|
            0 <= i < state.advanced(detections, now, estimates, matched).tracks.len() ==> (
            #[trigger] state.advanced(detections, now, estimates, matched).tracks[i]).id
                != state.tracks[t].id,
{
    let after = state.advanced(detections, now, estimates, matched);
    assert forall|i: int| 0 <= i < after.tracks.len() implies (#[trigger] after.tracks[i]).id
        != state.tracks[t].id by {
        law_identities_are_kept(state, detections, now, estimates, matched, i);
        assert(state.sound(state.tracks[t]));
        if after.tracks[i].id == state.tracks[t].id {
            let u = choose|u: int| #[trigger]
                continues(state, detections, now, estimates, matched, u, after.tracks[i])
                    && state.tracks[u].id == after.tracks[i].id;
            if u < t {
                assert(state.tracks[u].id < state.tracks[t].id);
            }
            if t < u {
                assert(state.tracks[t].id < state.tracks[u].id);
            }
        }
    }
}

/// An identity that is gone stays gone: if it was given before and no track has it, no track
/// has it after the frame either.
pub proof fn law_gone_identities_stay_gone(
    state: TrackerState,
    detections: Seq<Detection>,
    now: u128,
    estimates: FrameEstimates,
    matched: Seq<Option<usize>>,
    id: u64,
)
    requires
        state.wf(),
        state.room(detections.len()),
        is_greedy(state.scores(estimates), detections.len(), matched),
        estimates.covers(state.tracks.len(), detections.len()),
        id < state.next_id,
        forall|t: int| 0 <= t < state.tracks.len() ==> (#[trigger] state.tracks[t]).id != id,
    ensures
        id < state.advanced(detections, now, estimates, matched).next_id,
        forall|i: int|
            0 <= i < state.advanced(detections, now, estimates, matched).tracks.len() ==> (
            #[trigger] state.advanced(detections, now, estimates, matched).tracks[i]).id != id,
{
    lemma_newcomers(state, detections, matched, detections.len() as int);
    let after = state.advanced(detections, now, estimates, matched);
    assert forall|i: int| 0 <= i < after.tracks.len() implies (#[trigger] after.tracks[i]).id
        != id by {
        law_identities_are_kept(state, detections, now, estimates, matched, i);
    }
}

/// A dropout is bridged: a track that goes undetected keeps its identity, class, size,
/// velocity and confidence, and one that was confirmed stays so, whether detected or not.
pub proof fn law_dropouts_are_bridged(
    state: TrackerState,
    detections: Seq<Detection>,
    estimates: FrameEstimates,
    matched: Seq<Option<usize>>,
    moving: bool,
    t: int,
)
    requires
        0 <= t < state.tracks.len(),
        state.tracks[t].misses < u32::MAX,
    ensures
        ({
            let before = state.tracks[t];
            let after = state.stepped(detections, estimates, matched, moving, t);
            &&& before.confirmed ==> after.confirmed
            &&& matched[t] is None ==> {
                &&& after.misses == before.misses + 1
                &&& after.hits == before.hits
                &&& after.class_id == before.class_id
                &&& after.is_drone == before.is_drone
                &&& after.confidence == before.confidence
                &&& after.w == before.w && after.h == before.h
                &&& after.vx == before.vx && after.vy == before.vy
                &&& after.recent_classes == before.recent_classes
            }
        }),
{
}

/// Where no time has passed since the last frame, nothing moves: no velocity changes, and
/// an undetected track stays where it is.
pub proof fn law_no_time_no_motion(
    state: TrackerState,
    detections: Seq<Detection>,
    now: u128,
    estimates: FrameEstimates,
    matched: Seq<Option<usize>>,
    t: int,
)
    requires
        0 <= t < state.tracks.len(),
        state.last_update matches Some(then) ==> now <= then,
    ensures
        ({
            let before = state.tracks[t];
            let after = state.stepped(
                detections,
                estimates,
                matched,
                state.since(now) > 0,
                t,
            );
            &&& after.vx == before.vx && after.vy == before.vy
            &&& matched[t] is None ==> after.x == before.x && after.y == before.y
        }),
{
}

/// A jump faster than is believed, or of no known speed, takes the detection's place but
/// leaves the velocity as it was.
pub proof fn law_wild_jumps_do_not_steer(
    state: TrackerState,
    detections: Seq<Detection>,
    estimates: FrameEstimates,
    matched: Seq<Option<usize>>,
    moving: bool,
    t: int,
    d: int,
)
    requires
        0 <= t < state.tracks.len(),
        0 <= d < detections.len() <= usize::MAX,
        matched[t] == Some(d as usize),
        !estimates.pairs@[t]@[d].speed.within(estimates.max_speed),
    ensures
        ({
            let before = state.tracks[t];
            let after = state.stepped(detections, estimates, matched, moving, t);
            &&& after.vx == before.vx && after.vy == before.vy
            &&& after.x == detections[d].x && after.y == detections[d].y
        }),
{
}

/// The report holds exactly the tracks that are confirmed and were missed in fewer than the
/// limit of frames in a row.
pub proof fn law_report_is_exact(state: TrackerState, track: TrackView)
    ensures
        state.reported().contains(track) <==> state.tracks.contains(track) && reportable(track),
{
    lemma_filter(state.tracks, track);
}

/// How many tracks are of a class.
pub open spec fn of_class(tracks: Seq<Track>, class: usize) -> nat
    decreases tracks.len(),
{
    if tracks.len() == 0 {
        0
    } else {
        of_class(tracks.drop_last(), class) + (if tracks.last().class_id == class {
            1nat
        } else {
            0nat
        })
    }
}

/// Other objects are rejected rather than counted: the drones of a report are exactly its
/// tracks whose class, as voted by their latest detections, is that of drones.
pub proof fn law_only_drones_are_counted(state: TrackerState, report: Seq<Track>)
    requires
        state.wf(),
        values(report) == state.reported(),
    ensures
        drones(report) == of_class(report, state.drone_class_index),
        forall|i: int|
            0 <= i < report.len() ==> (#[trigger] report[i]).class_id == majority(
                report[i].recent_classes@,
            ),
{
    assert forall|i: int| 0 <= i < report.len() implies state.sound((#[trigger] report[i])@) by {
        assert(values(report)[i] == report[i]@);
        assert(state.reported().contains(report[i]@));
        law_report_is_exact(state, report[i]@);
        let t = choose|t: int| 0 <= t < state.tracks.len() && state.tracks[t] == report[i]@;
        assert(state.sound(state.tracks[t]));
    }
    lemma_drones_are_of_their_class(report, state.drone_class_index);
}

proof fn lemma_drones_are_of_their_class(tracks: Seq<Track>, class: usize)
    requires
        forall|i: int|
            0 <= i < tracks.len() ==> (#[trigger] tracks[i]).is_drone == (tracks[i].class_id
                == class),
    ensures
        drones(tracks) == of_class(tracks, class),
    decreases tracks.len(),
{
    if tracks.len() > 0 {
        let rest = tracks.drop_last();
        assert(forall|i: int| 0 <= i < rest.len() ==> rest[i] == tracks[i]);
        lemma_drones_are_of_their_class(rest, class);
        assert(tracks[tracks.len() - 1] == tracks.last());
    }
}

/// One frame in the life of a tracker: what was detected in it and when, what was measured,
/// and which detection each track was given.
pub struct Step {
    pub detections: Seq<Detection>,
    pub now: u128,
    pub estimates: FrameEstimates,
    pub matched: Seq<Option<usize>>,
}

/// Whether a tracker takes in the frame in this way.
pub open spec fn takes(state: TrackerState, step: Step) -> bool {
    &&& state.room(step.detections.len())
    &&& step.estimates.covers(state.tracks.len(), step.detections.len())
    &&& is_greedy(state.scores(step.estimates), step.detections.len(), step.matched)
}

/// The tracker after a frame.
pub open spec fn stepped_on(state: TrackerState, step: Step) -> TrackerState {
    state.advanced(step.detections, step.now, step.estimates, step.matched)
}

/// The tracker after a run of frames.
pub open spec fn after_run(start: TrackerState, steps: Seq<Step>) -> TrackerState
    decreases steps.len(),
{
    if steps.len() == 0 {
        start
    } else {
        stepped_on(after_run(start, steps.drop_last()), steps.last())
    }
}

/// Whether a tracker takes in a run of frames.
pub open spec fn runs(start: TrackerState, steps: Seq<Step>) -> bool
    decreases steps.len(),
{
    steps.len() == 0 || (runs(start, steps.drop_last()) && takes(
        after_run(start, steps.drop_last()),
        steps.last(),
    ))
}

/// Whether a detection of the frame is that of the track with the identity `id`: track `t`
/// of before has the identity and was given detection `d`.
pub open spec fn sees(state: TrackerState, step: Step, id: u64, t: int, d: int) -> bool {
    &&& 0 <= t < state.tracks.len()
    &&& state.tracks[t].id == id
    &&& step.matched[t] matches Some(e) && e == d
}

/// The classes of the detections, none or one, that a frame has for the track with the
/// identity `id`: the one that the track was given, or the one that started it.
pub open spec fn class_seen(state: TrackerState, step: Step, id: u64) -> Seq<usize> {
    let new = state.newcomers(step.detections, step.matched, step.detections.len() as int);
    if exists|t: int, d: int| #[trigger] sees(state, step, id, t, d) {
        let (t, d) = choose|t: int, d: int| #[trigger] sees(state, step, id, t, d);
        seq![step.detections[d].class_id]
    } else if state.next_id <= id < state.next_id + new.len() {
        seq![new[id - state.next_id].class_id]
    } else {
        seq![]
    }
}

/// The classes of all detections that a run of frames had for the track with the identity
/// `id`, oldest first.
pub open spec fn classes_seen(start: TrackerState, steps: Seq<Step>, id: u64) -> Seq<usize>
    decreases steps.len(),
{
    if steps.len() == 0 {
        seq![]
    } else {
        classes_seen(start, steps.drop_last(), id) + class_seen(
            after_run(start, steps.drop_last()),
            steps.last(),
            id,
        )
    }
}

/// The latest of all classes, as many as take part in the vote, oldest first.
pub open spec fn latest(all: Seq<usize>) -> Seq<usize> {
    all.skip(all.len() - voting(all.len()))
}

/// A track votes over the classes of its latest detections: at any time in the life of a
/// tracker a track was detected as often as it counts, and the classes that it holds are
/// those of its latest detections, oldest first.
pub proof fn law_vote_is_over_the_latest_detections(
    start: TrackerState,
    steps: Seq<Step>,
    i: int,
)
    requires
        start.wf(),
        start.tracks.len() == 0,
        runs(start, steps),
        0 <= i < after_run(start, steps).tracks.len(),
    ensures
        ({
            let track = after_run(start, steps).tracks[i];
            let all = classes_seen(start, steps, track.id);
            &&& all.len() == track.hits
            &&& track.recent_classes == latest(all)
        }),
    decreases steps.len(),
{
    let rest = steps.drop_last();
    let step = steps.last();
    let before = after_run(start, rest);
    let after = after_run(start, steps);
    let track = after.tracks[i];
    lemma_run_keeps_wf(start, rest);
    law_identities_are_kept(
        before,
        step.detections,
        step.now,
        step.estimates,
        step.matched,
        i,
    );
    let earlier = classes_seen(start, rest, track.id);
    if track.id < before.next_id {
        let t = choose|t: int| #[trigger]
            continues(
                before,
                step.detections,
                step.now,
                step.estimates,
                step.matched,
                t,
                track,
            ) && before.tracks[t].id == track.id;
        law_vote_is_over_the_latest_detections(start, rest, t);
        lemma_track_sees(before, step, t);
        if let Some(d) = step.matched[t] {
            let class = step.detections[d as int].class_id;
            assert(class_seen(before, step, track.id) == seq![class]);
            assert(earlier + seq![class] =~= earlier.push(class));
            assert(voters(latest(earlier), class) =~= latest(earlier.push(class)));
        } else {
            assert(class_seen(before, step, track.id) =~= seq![]);
            assert(earlier + seq![] =~= earlier);
        }
    } else {
        let new = before.newcomers(step.detections, step.matched, step.detections.len() as int);
        let moving = before.since(step.now) > 0;
        let n = before.tracks.len() as int;
        let kept = before.survivors(step.detections, step.estimates, step.matched, moving, n);
        lemma_survivors(before, step.detections, step.estimates, step.matched, moving, n);
        lemma_newcomers(before, step.detections, step.matched, step.detections.len() as int);
        if i < kept.len() {
            assert(after.tracks[i] == kept[i]);
            assert(before.sound(kept[i]));
        }
        assert(track == new[i - kept.len()]);
        lemma_unborn_is_unseen(start, rest, track.id);
        assert forall|t: int, d: int| !#[trigger] sees(before, step, track.id, t, d) by {
            if 0 <= t < before.tracks.len() {
                assert(before.sound(before.tracks[t]));
            }
        }
        let d = choose|d: int| #[trigger]
            starts(before, step.detections, step.matched, d, track);
        assert(track.recent_classes == seq![track.class_id]);
        assert(class_seen(before, step, track.id) == seq![track.class_id]);
        assert(earlier + seq![track.class_id] =~= seq![track.class_id]);
        assert(latest(seq![track.class_id]) =~= seq![track.class_id]);
    }
}

/// Every track that is ever reported is what it is reported to be: its class is that of the
/// majority of its latest detections, of which as many are counted as there were, up to the
/// window of the vote; it is called a drone if that class is the drones'; it was detected
/// often enough; and it has neither been missed for too long to be reported, nor too often
/// to be kept.
pub proof fn law_every_report_holds(start: TrackerState, steps: Seq<Step>, track: TrackView)
    requires
        start.wf(),
        start.tracks.len() == 0,
        runs(start, steps),
        after_run(start, steps).reported().contains(track),
    ensures
        track.recent_classes == latest(classes_seen(start, steps, track.id)),
        track.recent_classes.len() == voting(track.hits as nat),
        track.hits < 15 ==> track.recent_classes.len() == track.hits,
        track.hits >= 15 ==> track.recent_classes.len() == 15,
        track.class_id == majority(track.recent_classes),
        track.is_drone == (track.class_id == start.drone_class_index),
        track.confirmed,
        track.hits >= start.confirm_hits,
        track.misses < COAST_REPORT_LIMIT,
        track.misses < 7,
        track.misses <= start.max_misses,
{
    let after = after_run(start, steps);
    lemma_run_keeps_wf(start, steps);
    law_report_is_exact(after, track);
    let i = choose|i: int| 0 <= i < after.tracks.len() && after.tracks[i] == track;
    assert(after.sound(after.tracks[i]));
    law_vote_is_over_the_latest_detections(start, steps, i);
}

/// A run of frames keeps what holds of a tracker, and its settings.
proof fn lemma_run_keeps_wf(start: TrackerState, steps: Seq<Step>)
    requires
        start.wf(),
        runs(start, steps),
    ensures
        after_run(start, steps).wf(),
        after_run(start, steps).drone_class_index == start.drone_class_index,
        after_run(start, steps).confirm_hits == start.confirm_hits,
        after_run(start, steps).max_misses == start.max_misses,
    decreases steps.len(),
{
    if steps.len() > 0 {
        let step = steps.last();
        let before = after_run(start, steps.drop_last());
        lemma_run_keeps_wf(start, steps.drop_last());
        lemma_advance_keeps_wf(before, step.detections, step.now, step.estimates, step.matched);
    }
}

/// What a frame has for a track of before is the detection that the track was given.
proof fn lemma_track_sees(state: TrackerState, step: Step, t: int)
    requires
        state.wf(),
        takes(state, step),
        0 <= t < state.tracks.len(),
    ensures
        class_seen(state, step, state.tracks[t].id) == (match step.matched[t] {
            Some(d) => seq![step.detections[d as int].class_id],
            None => Seq::<usize>::empty(),
        }),
{
    let id = state.tracks[t].id;
    assert(state.sound(state.tracks[t]));
    assert forall|u: int, d: int| #[trigger] sees(state, step, id, u, d) implies u == t
        && step.matched[t].unwrap() == d by {
        if u < t {
            assert(state.tracks[u].id < state.tracks[t].id);
        }
        if t < u {
            assert(state.tracks[t].id < state.tracks[u].id);
        }
    }
    if let Some(d) = step.matched[t] {
        assert(sees(state, step, id, t, d as int));
    } else {
        assert(forall|u: int, d: int| !#[trigger] sees(state, step, id, u, d));
    }
}

/// An identity that was not given yet was never seen.
proof fn lemma_unborn_is_unseen(start: TrackerState, steps: Seq<Step>, id: u64)
    requires
        start.wf(),
        runs(start, steps),
        id >= after_run(start, steps).next_id,
    ensures
        classes_seen(start, steps, id) == Seq::<usize>::empty(),
    decreases steps.len(),
{
    if steps.len() > 0 {
        let rest = steps.drop_last();
        let step = steps.last();
        let before = after_run(start, rest);
        lemma_run_keeps_wf(start, rest);
        lemma_newcomers(before, step.detections, step.matched, step.detections.len() as int);
        lemma_unborn_is_unseen(start, rest, id);
        assert forall|t: int, d: int| !#[trigger] sees(before, step, id, t, d) by {
            if 0 <= t < before.tracks.len() {
                assert(before.sound(before.tracks[t]));
            }
        }
        assert(class_seen(before, step, id) =~= seq![]);
    }
}

/// Whether time has passed since the last frame.
pub open spec fn later(state: TrackerState, now: u128) -> bool {
    state.last_update matches Some(then) && now > then
}

/// Whether a point lies strictly between the edges of the bounds.
pub open spec fn between(bounds: Bounds, center: Center) -> bool {
    &&& bounds.left.below(center.x)
    &&& center.x.below(bounds.right)
    &&& bounds.top.below(center.y)
    &&& center.y.below(bounds.bottom)
}

/// Whether some track of the list has the identity `id`.
pub open spec fn known(tracks: Seq<TrackView>, id: u64) -> bool {
    exists|i: int| 0 <= i < tracks.len() && (#[trigger] tracks[i]).id == id
}

/// Whether no track was given detection `d`.
pub open spec fn unclaimed(matched: Seq<Option<usize>>, d: int) -> bool {
    forall|t: int| 0 <= t < matched.len() ==> (#[trigger] matched[t] matches Some(e) ==> e != d)
}

/// A track that was given a detection, whose middle lies within the bounds, follows it: after
/// the frame it has the place, the size and the confidence of the detection, whatever the
/// speed, one more hit and no miss, and the class of the detection as the latest of at most
/// fifteen. Its velocity is the one that was measured if time has passed and the speed is
/// believed, and else that of before.
pub proof fn law_matched_track_follows_its_detection(
    state: TrackerState,
    detections: Seq<Detection>,
    now: u128,
    estimates: FrameEstimates,
    matched: Seq<Option<usize>>,
    t: int,
    d: int,
)
    requires
        state.wf(),
        state.room(detections.len()),
        is_greedy(state.scores(estimates), detections.len(), matched),
        estimates.covers(state.tracks.len(), detections.len()),
        0 <= t < state.tracks.len(),
        matched[t] matches Some(e) && e == d,
        between(estimates.bounds, estimates.centers@[d]),
    ensures
        ({
            let before = state.tracks[t];
            let det = detections[d];
            let pair = estimates.pairs@[t]@[d];
            exists|i: int|
                0 <= i < state.advanced(detections, now, estimates, matched).tracks.len() && {
                    let after = #[trigger] state.advanced(
                        detections,
                        now,
                        estimates,
                        matched,
                    ).tracks[i];
                    &&& after.id == before.id
                    &&& after.x == det.x
                    &&& after.y == det.y
                    &&& after.w == det.w
                    &&& after.h == det.h
                    &&& after.confidence == det.confidence
                    &&& after.hits == before.hits + 1
                    &&& after.misses == 0
                    &&& after.confirmed <==> before.confirmed || before.hits + 1
                        >= state.confirm_hits
                    &&& after.recent_classes == (if before.recent_classes.len() < 15 {
                        before.recent_classes.push(det.class_id)
                    } else {
                        before.recent_classes.drop_first().push(det.class_id)
                    })
                    &&& after.class_id == majority(after.recent_classes)
                    &&& after.is_drone <==> after.class_id == state.drone_class_index
                    &&& later(state, now) && pair.speed.within(estimates.max_speed) ==> after.vx
                        == pair.vx && after.vy == pair.vy
                    &&& !(later(state, now) && pair.speed.within(estimates.max_speed)) ==> after.vx
                        == before.vx && after.vy == before.vy
                }
        }),
{
    let after = state.advanced(detections, now, estimates, matched);
    let moving = state.since(now) > 0;
    assert(state.keeps(estimates, matched, t));
    law_kept_tracks_stay(state, detections, now, estimates, matched, t);
    let next = state.stepped(detections, estimates, matched, moving, t);
    let i = choose|i: int| 0 <= i < after.tracks.len() && after.tracks[i] == next;
    assert(after.tracks[i] == next);
    let before = state.tracks[t];
    assert(state.sound(before));
    assert(before.recent_classes.len() <= 15);
    if before.recent_classes.len() == 15 {
        assert(before.recent_classes.push(detections[d].class_id).drop_first()
            =~= before.recent_classes.drop_first().push(detections[d].class_id));
    }
}

/// A track that goes undetected, not too often, and whose middle stays within the bounds,
/// coasts: it has one more miss, moves on to where it is expected if time has passed and else
/// stays, and is otherwise as it was.
pub proof fn law_missed_track_coasts(
    state: TrackerState,
    detections: Seq<Detection>,
    now: u128,
    estimates: FrameEstimates,
    matched: Seq<Option<usize>>,
    t: int,
)
    requires
        state.wf(),
        state.room(detections.len()),
        is_greedy(state.scores(estimates), detections.len(), matched),
        estimates.covers(state.tracks.len(), detections.len()),
        0 <= t < state.tracks.len(),
        matched[t] is None,
        state.tracks[t].misses < state.max_misses,
        between(estimates.bounds, estimates.coasts@[t].center),
    ensures
        ({
            let before = state.tracks[t];
            let coast = estimates.coasts@[t];
            exists|i: int|
                0 <= i < state.advanced(detections, now, estimates, matched).tracks.len() && {
                    let after = #[trigger] state.advanced(
                        detections,
                        now,
                        estimates,
                        matched,
                    ).tracks[i];
                    &&& after.id == before.id
                    &&& later(state, now) ==> after.x == coast.x && after.y == coast.y
                    &&& !later(state, now) ==> after.x == before.x && after.y == before.y
                    &&& after.w == before.w
                    &&& after.h == before.h
                    &&& after.confidence == before.confidence
                    &&& after.vx == before.vx
                    &&& after.vy == before.vy
                    &&& after.hits == before.hits
                    &&& after.misses == before.misses + 1
                    &&& after.confirmed == before.confirmed
                    &&& after.class_id == before.class_id
                    &&& after.is_drone == before.is_drone
                    &&& after.recent_classes == before.recent_classes
                }
        }),
{
    let after = state.advanced(detections, now, estimates, matched);
    let moving = state.since(now) > 0;
    assert(state.keeps(estimates, matched, t));
    law_kept_tracks_stay(state, detections, now, estimates, matched, t);
    let next = state.stepped(detections, estimates, matched, moving, t);
    let i = choose|i: int| 0 <= i < after.tracks.len() && after.tracks[i] == next;
    assert(after.tracks[i] == next);
}

/// A track is there after the frame exactly if its middle lies within the bounds and, where
/// it went undetected, it had been missed fewer times than is allowed.
pub proof fn law_track_is_kept_exactly_if_in_sight(
    state: TrackerState,
    detections: Seq<Detection>,
    now: u128,
    estimates: FrameEstimates,
    matched: Seq<Option<usize>>,
    t: int,
)
    requires
        state.wf(),
        state.room(detections.len()),
        is_greedy(state.scores(estimates), detections.len(), matched),
        estimates.covers(state.tracks.len(), detections.len()),
        0 <= t < state.tracks.len(),
    ensures
        known(state.advanced(detections, now, estimates, matched).tracks, state.tracks[t].id) <==> (
        match matched[t] {
            Some(d) => between(estimates.bounds, estimates.centers@[d as int]),
            None => state.tracks[t].misses < state.max_misses && between(
                estimates.bounds,
                estimates.coasts@[t].center,
            ),
        }),
{
    let after = state.advanced(detections, now, estimates, matched);
    let id = state.tracks[t].id;
    assert(state.sound(state.tracks[t]));
    if state.keeps(estimates, matched, t) {
        law_kept_tracks_stay(state, detections, now, estimates, matched, t);
        let next = state.stepped(detections, estimates, matched, state.since(now) > 0, t);
        let i = choose|i: int| 0 <= i < after.tracks.len() && after.tracks[i] == next;
        assert(after.tracks[i].id == id);
    }
    if known(after.tracks, id) {
        let i = choose|i: int| 0 <= i < after.tracks.len() && (#[trigger] after.tracks[i]).id == id;
        law_identities_are_kept(state, detections, now, estimates, matched, i);
        let u = choose|u: int| #[trigger]
            continues(state, detections, now, estimates, matched, u, after.tracks[i])
                && state.tracks[u].id == after.tracks[i].id;
        if u < t {
            assert(state.tracks[u].id < state.tracks[t].id);
        }
        if t < u {
            assert(state.tracks[t].id < state.tracks[u].id);
        }
    }
}

/// How many of the first `n` detections no track was given.
pub open spec fn unclaimed_before(matched: Seq<Option<usize>>, n: int) -> nat
    decreases n,
{
    if n <= 0 {
        0
    } else {
        unclaimed_before(matched, n - 1) + (if unclaimed(matched, n - 1) {
            1nat
        } else {
            0nat
        })
    }
}

/// A detection that no track was given starts a track at its place, of its size, class and
/// confidence, at rest, with one hit. New identities are given in the order of the
/// detections, without a gap.
pub proof fn law_unclaimed_detection_starts_a_track(
    state: TrackerState,
    detections: Seq<Detection>,
    now: u128,
    estimates: FrameEstimates,
    matched: Seq<Option<usize>>,
    d: int,
)
    requires
        state.wf(),
        state.room(detections.len()),
        is_greedy(state.scores(estimates), detections.len(), matched),
        estimates.covers(state.tracks.len(), detections.len()),
        0 <= d < detections.len() <= usize::MAX,
        unclaimed(matched, d),
    ensures
        state.advanced(detections, now, estimates, matched).next_id == state.next_id
            + unclaimed_before(matched, detections.len() as int),
        exists|i: int|
            0 <= i < state.advanced(detections, now, estimates, matched).tracks.len() && {
                let track = #[trigger] state.advanced(
                    detections,
                    now,
                    estimates,
                    matched,
                ).tracks[i];
                let det = detections[d];
                &&& track.id == state.next_id + unclaimed_before(matched, d)
                &&& track.class_id == det.class_id
                &&& track.is_drone <==> det.class_id == state.drone_class_index
                &&& track.confidence == det.confidence
                &&& track.x == det.x
                &&& track.y == det.y
                &&& track.w == det.w
                &&& track.h == det.h
                &&& track.vx == (Real { bits: 0 })
                &&& track.vy == (Real { bits: 0 })
                &&& track.hits == 1
                &&& track.misses == 0
                &&& track.confirmed <==> state.confirm_hits <= 1
                &&& track.recent_classes == seq![det.class_id]
            },
{
    let n = detections.len() as int;
    let after = state.advanced(detections, now, estimates, matched);
    let kept = state.survivors(
        detections,
        estimates,
        matched,
        state.since(now) > 0,
        state.tracks.len() as int,
    );
    let new = state.newcomers(detections, matched, n);
    lemma_newcomers(state, detections, matched, n);
    lemma_newcomer_places(state, detections, matched, n, d);
    let j = unclaimed_before(matched, d) as int;
    assert(after.tracks[kept.len() + j] == new[j]);
}

proof fn lemma_newcomer_places(
    state: TrackerState,
    detections: Seq<Detection>,
    matched: Seq<Option<usize>>,
    n: int,
    d: int,
)
    requires
        state.wf(),
        state.room(detections.len()),
        0 <= n <= detections.len() <= usize::MAX,
    ensures
        state.newcomers(detections, matched, n).len() == unclaimed_before(matched, n),
        0 <= d < n && unclaimed(matched, d) ==> unclaimed_before(matched, d) < unclaimed_before(
            matched,
            n,
        ) && state.newcomers(detections, matched, n)[unclaimed_before(matched, d) as int]
            == state.started(
            detections[d],
            (state.next_id + unclaimed_before(matched, d)) as u64,
        ),
    decreases n,
{
    if n > 0 {
        lemma_newcomer_places(state, detections, matched, n - 1, d);
        lemma_unclaimed(matched, n - 1);
        lemma_newcomers(state, detections, matched, n - 1);
    }
}

proof fn lemma_unclaimed(matched: Seq<Option<usize>>, d: int)
    requires
        0 <= d <= usize::MAX,
    ensures
        unclaimed(matched, d) == !is_taken(matched, d),
{
    if is_taken(matched, d) {
        let t = choose|t: int| 0 <= t < matched.len() && #[trigger] matched[t] == Some(d as usize);
        assert(matched[t] matches Some(e) && e == d);
    }
}

/// Nothing else comes of a frame: every track after it has the identity of a track before it
/// or is new, new tracks are as many as unclaimed detections, the tracks stand in the order
/// of their identities, the settings stay, and the time of the frame is kept.
pub proof fn law_nothing_else_comes_of_a_frame(
    state: TrackerState,
    detections: Seq<Detection>,
    now: u128,
    estimates: FrameEstimates,
    matched: Seq<Option<usize>>,
)
    requires
        state.wf(),
        state.room(detections.len()),
        is_greedy(state.scores(estimates), detections.len(), matched),
        estimates.covers(state.tracks.len(), detections.len()),
        detections.len() <= usize::MAX,
    ensures
        ({
            let after = state.advanced(detections, now, estimates, matched);
            &&& after.last_update == Some(now)
            &&& after.next_id == state.next_id + unclaimed_before(
                matched,
                detections.len() as int,
            )
            &&& after.iou_thresh == state.iou_thresh
            &&& after.max_misses == state.max_misses
            &&& after.confirm_hits == state.confirm_hits
            &&& after.drone_class_index == state.drone_class_index
            &&& forall|i: int|
                0 <= i < after.tracks.len() ==> known(state.tracks, (#[trigger] after.tracks[i]).id)
                    || state.next_id <= after.tracks[i].id < after.next_id
            &&& forall|i: int, j: int|
                0 <= i < j < after.tracks.len() ==> (#[trigger] after.tracks[i]).id < (
                #[trigger] after.tracks[j]).id
        }),
{
    let after = state.advanced(detections, now, estimates, matched);
    lemma_newcomers(state, detections, matched, detections.len() as int);
    lemma_newcomer_places(state, detections, matched, detections.len() as int, 0);
    lemma_advance_keeps_wf(state, detections, now, estimates, matched);
    assert forall|i: int| 0 <= i < after.tracks.len() implies known(
        state.tracks,
        (#[trigger] after.tracks[i]).id,
    ) || state.next_id <= after.tracks[i].id < after.next_id by {
        law_identities_are_kept(state, detections, now, estimates, matched, i);
        if after.tracks[i].id < state.next_id {
            let t = choose|t: int| #[trigger]
                continues(state, detections, now, estimates, matched, t, after.tracks[i])
                    && state.tracks[t].id == after.tracks[i].id;
            assert(state.tracks[t].id == after.tracks[i].id);
        }
    }
}

/// The time that counts is that between the two frames, and none where the clock ran
/// backwards or there was no frame before.
pub proof fn law_time_is_that_between_frames(state: TrackerState, now: u128)
    ensures
        later(state, now) ==> state.last_update.unwrap() + state.since(now) == now,
        !later(state, now) ==> state.since(now) == 0,
{
}

/// There is room for a frame exactly as long as no identity and no counter would run over.
pub proof fn law_room_lasts_until_a_counter_is_full(state: TrackerState, n: nat)
    ensures
        state.room(n) <==> state.next_id + n <= 0xffff_ffff_ffff_ffff && forall|t: int|
            0 <= t < state.tracks.len() ==> (#[trigger] state.tracks[t]).hits != 0xffff_ffff
                && state.tracks[t].misses != 0xffff_ffff,
{
}

/// A pair scores by its overlap where that reaches the threshold, else by its nearness where
/// the detection lies within reach, and else nothing; so the pair of every track with every
/// detection is scored.
pub proof fn law_pairs_are_scored_by_overlap_then_nearness(
    state: TrackerState,
    estimates: FrameEstimates,
    t: int,
    d: int,
)
    requires
        0 <= t < estimates.pairs@.len(),
        0 <= d < estimates.pairs@[t]@.len(),
    ensures
        ({
            let pair = estimates.pairs@[t]@[d];
            let score = state.scores(estimates)[t][d];
            let overlaps = state.iou_thresh.within(pair.iou);
            let near = pair.distance.within(pair.gate);
            &&& state.score(pair) == score
            &&& overlaps ==> score == pair.overlap_score
            &&& !overlaps && near ==> score == pair.near_score
            &&& !overlaps && !near ==> score == (Real { bits: 0 })
        }),
{
}

/// A report holds the tracks that were detected often enough and missed in fewer than seven
/// frames in a row, each once and unchanged, in the order of their identities.
pub proof fn law_report_is_the_confirmed_tracks_in_order(state: TrackerState)
    requires
        state.wf(),
    ensures
        forall|i: int|
            0 <= i < state.tracks.len() ==> ((#[trigger] state.tracks[i]).confirmed
                && state.tracks[i].misses < 7 <==> state.reported().contains(state.tracks[i])),
        forall|i: int|
            0 <= i < state.reported().len() ==> state.tracks.contains(
                #[trigger] state.reported()[i],
            ),
        forall|i: int, j: int|
            0 <= i < j < state.reported().len() ==> (#[trigger] state.reported()[i]).id < (
            #[trigger] state.reported()[j]).id,
{
    let report = state.reported();
    assert forall|i: int| 0 <= i < state.tracks.len() implies ((
    #[trigger] state.tracks[i]).confirmed && state.tracks[i].misses < 7 <==> report.contains(
        state.tracks[i],
    )) by {
        law_report_is_exact(state, state.tracks[i]);
        assert(state.tracks.contains(state.tracks[i]));
    }
    assert forall|i: int| 0 <= i < report.len() implies state.tracks.contains(
        #[trigger] report[i],
    ) by {
        law_report_is_exact(state, report[i]);
        assert(report.contains(report[i]));
    }
    lemma_filter_keeps_order(state.tracks);
}

proof fn lemma_filter_keeps_order(tracks: Seq<TrackView>)
    requires
        forall|t: int, u: int|
            0 <= t < u < tracks.len() ==> (#[trigger] tracks[t]).id < (#[trigger] tracks[u]).id,
    ensures
        ({
            let kept = tracks.filter(|t: TrackView| reportable(t));
            forall|i: int, j: int|
                0 <= i < j < kept.len() ==> (#[trigger] kept[i]).id < (#[trigger] kept[j]).id
        }),
    decreases tracks.len(),
{
    reveal(Seq::filter);
    let keep = |t: TrackView| reportable(t);
    if tracks.len() > 0 {
        let rest = tracks.drop_last();
        lemma_filter_keeps_order(rest);
        let kept = rest.filter(keep);
        let all = tracks.filter(keep);
        assert forall|i: int, j: int| 0 <= i < j < all.len() implies (#[trigger] all[i]).id < (
        #[trigger] all[j]).id by {
            assert(all[i] == kept[i]);
            if j == kept.len() {
                lemma_filter(rest, kept[i]);
                assert(kept.contains(kept[i]));
                let t = choose|t: int| 0 <= t < rest.len() && rest[t] == kept[i];
                assert(tracks[t] == kept[i]);
                assert(tracks[tracks.len() - 1] == all[j]);
            } else {
                assert(all[j] == kept[j]);
            }
        }
    }
}

proof fn lemma_filter(tracks: Seq<TrackView>, track: TrackView)
    ensures
        tracks.filter(|t: TrackView| reportable(t)).contains(track) <==> tracks.contains(track)
            && reportable(track),
    decreases tracks.len(),
{
    reveal(Seq::filter);
    let keep = |t: TrackView| reportable(t);
    if tracks.len() > 0 {
        let rest = tracks.drop_last();
        lemma_filter(rest, track);
        let kept = rest.filter(keep);
        let all = tracks.filter(keep);
        if rest.contains(track) {
            let i = choose|i: int| 0 <= i < rest.len() && rest[i] == track;
            assert(tracks[i] == track);
        }
        if tracks.contains(track) && !rest.contains(track) {
            let i = choose|i: int| 0 <= i < tracks.len() && tracks[i] == track;
            if i < rest.len() {
                assert(rest[i] == track);
            }
            assert(track == tracks.last());
        }
        if kept.contains(track) {
            let i = choose|i: int| 0 <= i < kept.len() && kept[i] == track;
            assert(all[i] == track);
        }
        if keep(tracks.last()) {
            assert(all == kept.push(tracks.last()));
            assert(all[kept.len() as int] == tracks.last());
            if all.contains(track) && !kept.contains(track) {
                let i = choose|i: int| 0 <= i < all.len() && all[i] == track;
                if i < kept.len() {
                    assert(kept[i] == track);
                }
                assert(track == tracks.last());
                assert(tracks[tracks.len() - 1] == track);
            }
        }
    }
}

} // verus!
