//! What the program prints.

use vstd::prelude::*;
use vstd::string::StringExecFns;

use crate::text::{
    decimal, left_aligned, push_decimal, push_left_aligned, push_right_aligned, right_aligned,
};
use crate::types::DetectionResult;

verus! {

/// The class of drones.
pub const DRONE_CLASS_INDEX: usize = 2;

/// The numbers of one track as text: its confidence with two places after the point, and
/// in whole pixels the middle of its box, its velocity, and where it is expected to be at
/// the horizon of two seconds.
pub struct TrackNumbers {
    pub confidence: String,
    pub cx: String,
    pub cy: String,
    pub vx: String,
    pub vy: String,
    pub px: String,
    pub py: String,
}

/// The name of a class.
pub open spec fn class_text(class_id: usize) -> Seq<char> {
    match class_id {
        0 => "airplane"@,
        1 => "bird"@,
        2 => "drone"@,
        3 => "helicopter"@,
        _ => "?"@,
    }
}

/// The name of a class, or a question mark for one that the model does not have.
pub fn class_name(class_id: usize) -> (name: &'static str)
    ensures
        name@ == class_text(class_id),
{
    match class_id {
        0 => "airplane",
        1 => "bird",
        2 => "drone",
        3 => "helicopter",
        _ => "?",
    }
}

/// The line for a frame.
pub open spec fn summary_text(seq: u64, total_objects: usize, drone_count: usize) -> Seq<char> {
    "seq "@ + right_aligned(decimal(seq as nat), 6) + " | "@ + decimal(total_objects as nat)
        + " object(s), "@ + decimal(drone_count as nat) + " drone(s)"@
}

/// The line for a track.
pub open spec fn track_text(id: u64, class_id: usize, is_drone: bool, n: TrackNumbers) -> Seq<
    char,
> {
    "    #"@ + left_aligned(decimal(id as nat), 3) + " "@ + left_aligned(class_text(class_id), 10)
        + " ["@ + (if is_drone {
        "DRONE"@
    } else {
        "not-drone"@
    }) + "] conf="@ + n.confidence@ + " at=("@ + n.cx@ + ","@ + n.cy@ + ") v=("@ + n.vx@ + ","@
        + n.vy@ + ")px/s pred@2s=("@ + n.px@ + ","@ + n.py@ + ")"@
}

/// A number in decimal.
fn decimal_text(n: u64) -> (text: String)
    ensures
        text@ == decimal(n as nat),
{
    let mut text = String::new();
    push_decimal(&mut text, n);
    assert(text@ =~= decimal(n as nat));
    text
}

/// The line for a frame.
fn summary_line(seq: u64, total_objects: usize, drone_count: usize) -> (line: String)
    ensures
        line@ == summary_text(seq, total_objects, drone_count),
{
    let mut line = String::new();
    line.append("seq ");
    push_right_aligned(&mut line, decimal_text(seq).as_str(), 6);
    line.append(" | ");
    push_decimal(&mut line, total_objects as u64);
    line.append(" object(s), ");
    push_decimal(&mut line, drone_count as u64);
    line.append(" drone(s)");
    assert(line@ =~= summary_text(seq, total_objects, drone_count));
    line
}

/// The line for a track.
fn track_line(id: u64, class_id: usize, is_drone: bool, n: &TrackNumbers) -> (line: String)
    ensures
        line@ == track_text(id, class_id, is_drone, *n),
{
    let mut line = String::new();
    line.append("    #");
    push_left_aligned(&mut line, decimal_text(id).as_str(), 3);
    line.append(" ");
    push_left_aligned(&mut line, class_name(class_id), 10);
    line.append(" [");
    if is_drone {
        line.append("DRONE");
    } else {
        line.append("not-drone");
    }
    line.append("] conf=");
    line.append(n.confidence.as_str());
    line.append(" at=(");
    line.append(n.cx.as_str());
    line.append(",");
    line.append(n.cy.as_str());
    line.append(") v=(");
    line.append(n.vx.as_str());
    line.append(",");
    line.append(n.vy.as_str());
    line.append(")px/s pred@2s=(");
    line.append(n.px.as_str());
    line.append(",");
    line.append(n.py.as_str());
    line.append(")");
    assert(line@ =~= track_text(id, class_id, is_drone, *n));
    line
}

/// The lines that are printed for a frame: none if there is no object, else one for the
/// frame and one for each track.
pub open spec fn report_texts(result: DetectionResult, numbers: Seq<TrackNumbers>) -> Seq<
    Seq<char>,
> {
    if result.total_objects == 0 {
        Seq::empty()
    } else {
        seq![summary_text(result.seq, result.total_objects, result.drone_count)] + Seq::new(
            result.tracks@.len(),
            |i: int|
                track_text(
                    result.tracks@[i].id,
                    result.tracks@[i].class_id,
                    result.tracks@[i].is_drone,
                    numbers[i],
                ),
        )
    }
}

/// The texts of lines.
pub open spec fn line_texts(lines: Seq<String>) -> Seq<Seq<char>> {
    lines.map_values(|l: String| l@)
}

/// The lines that are printed for a frame.
pub fn report_lines(result: &DetectionResult, numbers: &Vec<TrackNumbers>) -> (lines: Vec<String>)
    requires
        numbers@.len() == result.tracks@.len(),
    ensures
        line_texts(lines@) == report_texts(*result, numbers@),
{
    let mut lines: Vec<String> = Vec::new();
    assert(line_texts(lines@) =~= Seq::empty());
    if result.total_objects == 0 {
        return lines;
    }
    let ghost whole = report_texts(*result, numbers@);
    lines.push(summary_line(result.seq, result.total_objects, result.drone_count));
    let mut i: usize = 0;
    while i < result.tracks.len()
        invariant
            i <= result.tracks@.len(),
            numbers@.len() == result.tracks@.len(),
            result.total_objects != 0,
            whole == report_texts(*result, numbers@),
            lines@.len() == i + 1,
            forall|j: int| 0 <= j <= i ==> (#[trigger] lines@[j])@ == whole[j],
        decreases result.tracks@.len() - i,
    {
        let t = &result.tracks[i];
        lines.push(track_line(t.id, t.class_id, t.is_drone, &numbers[i]));
        i = i + 1;
    }
    assert(line_texts(lines@) =~= whole);
    lines
}

/// The line about the position of the camera.
pub open spec fn position_text(position: Option<(Seq<char>, Seq<char>, Option<u32>)>) -> Seq<char> {
    match position {
        Some(p) => "position: "@ + p.0 + ", "@ + p.1 + (match p.2 {
            Some(n) => " ("@ + decimal(n as nat) + " satellites)"@,
            None => " (manual)"@,
        }),
        None => "postion: unknown -- detection runs, dashboard has no anchor"@,
    }
}

/// The line about a position: latitude and longitude as text, and the satellites that it
/// rests on, if it was not given by hand.
pub fn position_line(lat: &str, lon: &str, satellites: Option<u32>) -> (line: String)
    ensures
        line@ == position_text(Some((lat@, lon@, satellites))),
{
    let mut line = String::new();
    line.append("position: ");
    line.append(lat);
    line.append(", ");
    line.append(lon);
    match satellites {
        Some(n) => {
            line.append(" (");
            push_decimal(&mut line, n as u64);
            line.append(" satellites)");
        },
        None => {
            line.append(" (manual)");
        },
    }
    assert(line@ =~= position_text(Some((lat@, lon@, satellites))));
    line
}

/// The line about a position that is not known.
pub fn no_position_line() -> (line: &'static str)
    ensures
        line@ == position_text(None),
{
    "postion: unknown -- detection runs, dashboard has no anchor"
}

/// How the frames of a source are treated.
pub fn mode_text(drop_stale: bool) -> (text: &'static str)
    ensures
        text@ == (if drop_stale {
            "live (dropping stale frames)"@
        } else {
            "backtest (every frame, backpressured)"@
        }),
{
    if drop_stale {
        "live (dropping stale frames)"
    } else {
        "backtest (every frame, backpressured)"
    }
}

/// A frame without objects prints nothing; any other prints one line for itself and one for
/// each object.
pub proof fn law_quiet_frames_print_nothing(result: DetectionResult, numbers: Seq<TrackNumbers>)
    requires
        result.total_objects == result.tracks@.len(),
    ensures
        report_texts(result, numbers).len() == (if result.tracks@.len() == 0 {
            0
        } else {
            result.tracks@.len() + 1
        }),
{
}

} // verus!
