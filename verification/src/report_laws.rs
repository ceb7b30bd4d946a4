//! What the lines that are printed and sent promise.

use vstd::prelude::*;

use crate::capture::occurs_at;
use crate::net::{header_text, line_text, object_text, objects_text, Rendered, Telementry};
use crate::report::{class_text, position_text, report_texts, track_text, TrackNumbers};
use crate::text::{decimal, has_suffix, left_aligned, right_aligned};
use crate::text_laws::{has_prefix, lemma_ends_cancel, lemma_starts_cancel};
use crate::types::DetectionResult;

verus! {

/// The line of a frame says its index, how many objects there are and how many drones.
pub proof fn law_first_line_is_that_of_the_frame(
    result: DetectionResult,
    numbers: Seq<TrackNumbers>,
)
    requires
        result.total_objects != 0,
    ensures
        ({
            let line = report_texts(result, numbers)[0];
            &&& report_texts(result, numbers).len() == result.tracks@.len() + 1
            &&& has_prefix(line, "seq "@ + right_aligned(decimal(result.seq as nat), 6) + " | "@)
            &&& has_suffix(
                line,
                " | "@ + decimal(result.total_objects as nat) + " object(s), "@ + decimal(
                    result.drone_count as nat,
                ) + " drone(s)"@,
            )
            &&& line.len() == 4 + right_aligned(decimal(result.seq as nat), 6).len() + 3 + decimal(
                result.total_objects as nat,
            ).len() + 12 + decimal(result.drone_count as nat).len() + 9
        }),
{
    reveal_strlit("seq ");
    reveal_strlit(" | ");
    reveal_strlit(" object(s), ");
    reveal_strlit(" drone(s)");
    let line = report_texts(result, numbers)[0];
    let front = "seq "@ + right_aligned(decimal(result.seq as nat), 6) + " | "@;
    let back = " | "@ + decimal(result.total_objects as nat) + " object(s), "@ + decimal(
        result.drone_count as nat,
    ) + " drone(s)"@;
    assert(line.take(front.len() as int) =~= front);
    assert(line.skip(line.len() - back.len()) =~= back);
}

/// Line `i + 1` of a report is that of track `i`: it starts with the identity, the class and
/// the kind of that track, and goes on with the numbers at place `i`, each in its own place,
/// to the end.
pub proof fn law_every_track_has_its_own_line(
    result: DetectionResult,
    numbers: Seq<TrackNumbers>,
    i: int,
)
    requires
        result.total_objects != 0,
        numbers.len() == result.tracks@.len(),
        0 <= i < numbers.len(),
    ensures
        ({
            let line = report_texts(result, numbers)[i + 1];
            let track = result.tracks@[i];
            let n = numbers[i];
            let front = "    #"@ + left_aligned(decimal(track.id as nat), 3) + " "@ + left_aligned(
                class_text(track.class_id),
                10,
            ) + (if track.is_drone {
                " [DRONE"@
            } else {
                " [not-drone"@
            });
            let back = "] conf="@ + n.confidence@ + " at=("@ + n.cx@ + ","@ + n.cy@ + ") v=("@
                + n.vx@ + ","@ + n.vy@ + ")px/s pred@2s=("@ + n.px@ + ","@ + n.py@ + ")"@;
            line == front + back
        }),
{
    reveal_strlit(" [DRONE");
    reveal_strlit(" [not-drone");
    reveal_strlit(" [");
    reveal_strlit("DRONE");
    reveal_strlit("not-drone");
    assert(" [DRONE"@ =~= " ["@ + "DRONE"@);
    assert(" [not-drone"@ =~= " ["@ + "not-drone"@);
    let line = report_texts(result, numbers)[i + 1];
    let track = result.tracks@[i];
    let n = numbers[i];
    let front = "    #"@ + left_aligned(decimal(track.id as nat), 3) + " "@ + left_aligned(
        class_text(track.class_id),
        10,
    ) + (if track.is_drone {
        " [DRONE"@
    } else {
        " [not-drone"@
    });
    let back = "] conf="@ + n.confidence@ + " at=("@ + n.cx@ + ","@ + n.cy@ + ") v=("@ + n.vx@
        + ","@ + n.vy@ + ")px/s pred@2s=("@ + n.px@ + ","@ + n.py@ + ")"@;
    assert(line =~= front + back);
}

/// The names of the classes.
pub proof fn law_classes_have_their_names(class_id: usize)
    ensures
        class_id == 0 ==> class_text(class_id) == "airplane"@,
        class_id == 1 ==> class_text(class_id) == "bird"@,
        class_id == 2 ==> class_text(class_id) == "drone"@,
        class_id == 3 ==> class_text(class_id) == "helicopter"@,
        class_id > 3 ==> class_text(class_id) == "?"@,
{
}

/// Whether two sets of numbers differ in one number alone.
pub open spec fn differ_in_one(a: TrackNumbers, b: TrackNumbers) -> bool {
    let c = a.confidence@ == b.confidence@;
    let (cx, cy) = (a.cx@ == b.cx@, a.cy@ == b.cy@);
    let (vx, vy) = (a.vx@ == b.vx@, a.vy@ == b.vy@);
    let (px, py) = (a.px@ == b.px@, a.py@ == b.py@);
    ||| !c && cx && cy && vx && vy && px && py
    ||| c && !cx && cy && vx && vy && px && py
    ||| c && cx && !cy && vx && vy && px && py
    ||| c && cx && cy && !vx && vy && px && py
    ||| c && cx && cy && vx && !vy && px && py
    ||| c && cx && cy && vx && vy && !px && py
    ||| c && cx && cy && vx && vy && px && !py
}

/// The numbers of a track show in its own line and in no other: where one number of track `i`
/// changes, line `i + 1` changes, and every other line stays.
pub proof fn law_numbers_show_in_their_own_line(
    result: DetectionResult,
    a: Seq<TrackNumbers>,
    b: Seq<TrackNumbers>,
    i: int,
)
    requires
        result.total_objects != 0,
        a.len() == result.tracks@.len(),
        b.len() == a.len(),
        0 <= i < a.len(),
        forall|j: int| 0 <= j < a.len() && j != i ==> #[trigger] a[j] == b[j],
        differ_in_one(a[i], b[i]),
    ensures
        report_texts(result, a)[i + 1] != report_texts(result, b)[i + 1],
        forall|k: int|
            0 <= k <= a.len() && k != i + 1 ==> #[trigger] report_texts(result, a)[k]
                == report_texts(result, b)[k],
{
    assert forall|k: int| 0 <= k <= a.len() && k != i + 1 implies #[trigger] report_texts(
        result,
        a,
    )[k] == report_texts(result, b)[k] by {
        if k > 0 {
            assert(a[k - 1] == b[k - 1]);
        }
    }
    let t = result.tracks@[i];
    lemma_number_shows(t.id, t.class_id, t.is_drone, a[i], b[i]);
    assert(report_texts(result, a)[i + 1] == track_text(t.id, t.class_id, t.is_drone, a[i]));
    assert(report_texts(result, b)[i + 1] == track_text(t.id, t.class_id, t.is_drone, b[i]));
}

proof fn lemma_number_shows(
    id: u64,
    class_id: usize,
    is_drone: bool,
    a: TrackNumbers,
    b: TrackNumbers,
)
    requires
        differ_in_one(a, b),
    ensures
        track_text(id, class_id, is_drone, a) != track_text(id, class_id, is_drone, b),
{
    let x = track_text(id, class_id, is_drone, a);
    let y = track_text(id, class_id, is_drone, b);
    if x == y {
        let head = "    #"@ + left_aligned(decimal(id as nat), 3) + " "@ + left_aligned(
            class_text(class_id),
            10,
        ) + " ["@ + (if is_drone {
            "DRONE"@
        } else {
            "not-drone"@
        }) + "] conf="@;
        let (s, t) = (head + a.confidence@, head + b.confidence@);
        let (s1, t1) = (s + " at=("@ + a.cx@, t + " at=("@ + b.cx@);
        let (s2, t2) = (s1 + ","@ + a.cy@, t1 + ","@ + b.cy@);
        let (s3, t3) = (s2 + ") v=("@ + a.vx@, t2 + ") v=("@ + b.vx@);
        let (s4, t4) = (s3 + ","@ + a.vy@, t3 + ","@ + b.vy@);
        let (s5, t5) = (s4 + ")px/s pred@2s=("@ + a.px@, t4 + ")px/s pred@2s=("@ + b.px@);
        let (s6, t6) = (s5 + ","@ + a.py@, t5 + ","@ + b.py@);
        assert(x == s6 + ")"@ && y == t6 + ")"@);
        lemma_ends_cancel(s6, t6, ")"@);
        if a.py@ != b.py@ {
            lemma_starts_cancel(s5 + ","@, a.py@, b.py@);
        } else {
            lemma_ends_cancel(s5 + ","@, t5 + ","@, a.py@);
            lemma_ends_cancel(s5, t5, ","@);
            if a.px@ != b.px@ {
                lemma_starts_cancel(s4 + ")px/s pred@2s=("@, a.px@, b.px@);
            } else {
                lemma_ends_cancel(s4 + ")px/s pred@2s=("@, t4 + ")px/s pred@2s=("@, a.px@);
                lemma_ends_cancel(s4, t4, ")px/s pred@2s=("@);
                if a.vy@ != b.vy@ {
                    lemma_starts_cancel(s3 + ","@, a.vy@, b.vy@);
                } else {
                    lemma_ends_cancel(s3 + ","@, t3 + ","@, a.vy@);
                    lemma_ends_cancel(s3, t3, ","@);
                    if a.vx@ != b.vx@ {
                        lemma_starts_cancel(s2 + ") v=("@, a.vx@, b.vx@);
                    } else {
                        lemma_ends_cancel(s2 + ") v=("@, t2 + ") v=("@, a.vx@);
                        lemma_ends_cancel(s2, t2, ") v=("@);
                        if a.cy@ != b.cy@ {
                            lemma_starts_cancel(s1 + ","@, a.cy@, b.cy@);
                        } else {
                            lemma_ends_cancel(s1 + ","@, t1 + ","@, a.cy@);
                            lemma_ends_cancel(s1, t1, ","@);
                            if a.cx@ != b.cx@ {
                                lemma_starts_cancel(s + " at=("@, a.cx@, b.cx@);
                            } else {
                                lemma_ends_cancel(s + " at=("@, t + " at=("@, a.cx@);
                                lemma_ends_cancel(s, t, " at=("@);
                                lemma_starts_cancel(head, a.confidence@, b.confidence@);
                            }
                        }
                    }
                }
            }
        }
    }
}

/// The line about a position shows the latitude before the longitude, and the satellites it
/// rests on, or that it was given by hand.
pub proof fn law_position_shows_latitude_first(
    lat: Seq<char>,
    lon: Seq<char>,
    satellites: Option<u32>,
)
    ensures
        ({
            let line = position_text(Some((lat, lon, satellites)));
            &&& has_prefix(line, "position: "@ + lat + ", "@ + lon + " ("@)
            &&& satellites is None ==> has_suffix(line, lon + " (manual)"@)
            &&& satellites matches Some(n) ==> has_suffix(
                line,
                lon + " ("@ + decimal(n as nat) + " satellites)"@,
            )
        }),
{
    reveal_strlit(" (manual)");
    reveal_strlit(" (");
    let line = position_text(Some((lat, lon, satellites)));
    let front = "position: "@ + lat + ", "@ + lon + " ("@;
    match satellites {
        Some(n) => {
            let back = lon + " ("@ + decimal(n as nat) + " satellites)"@;
            assert(line.skip(line.len() - back.len()) =~= back);
        },
        None => {
            let back = lon + " (manual)"@;
            assert(line.skip(line.len() - back.len()) =~= back);
        },
    }
    assert(line.take(front.len() as int) =~= front);
}

/// The header is an object with the latitude, the longitude, the width and the height, each
/// under its own name.
pub proof fn law_header_names_its_values(
    lat: Seq<char>,
    lon: Seq<char>,
    frame_w: u32,
    frame_h: u32,
)
    ensures
        ({
            let line = header_text(lat, lon, frame_w, frame_h);
            let w = decimal(frame_w as nat);
            let h = decimal(frame_h as nat);
            &&& has_prefix(line, "{\"lat\":"@ + lat + ",\"lon\":"@ + lon + ",\"w\":"@)
            &&& has_suffix(line, ",\"w\":"@ + w + ",\"h\":"@ + h + "}\n"@)
            &&& line.len() == ("{\"lat\":"@ + lat + ",\"lon\":"@ + lon).len() + (",\"w\":"@ + w
                + ",\"h\":"@ + h + "}\n"@).len()
        }),
{
    let line = header_text(lat, lon, frame_w, frame_h);
    let front = "{\"lat\":"@ + lat + ",\"lon\":"@ + lon + ",\"w\":"@;
    let back = ",\"w\":"@ + decimal(frame_w as nat) + ",\"h\":"@ + decimal(frame_h as nat)
        + "}\n"@;
    assert(line.take(front.len() as int) =~= front);
    assert(line.skip(line.len() - back.len()) =~= back);
}

/// A line of telemetry counts the objects and the drones, and lists the objects.
pub proof fn law_telemetry_counts_and_lists(t: Telementry, numbers: Seq<Rendered>)
    ensures
        ({
            let line = line_text(t, numbers);
            let front = "{\"n\":"@ + decimal(t.total_objects as nat) + ",\"d\":"@ + decimal(
                t.drone_count as nat,
            ) + ",\"o\":["@;
            let list = objects_text(t, numbers, t.objects@.len() as int);
            &&& has_prefix(line, front)
            &&& has_suffix(line, "]}\n"@)
            &&& line.len() == front.len() + list.len() + 3
            &&& line.skip(front.len() as int) == list + "]}\n"@
            &&& t.objects@.len() == 0 ==> list.len() == 0
        }),
{
    reveal_strlit("]}\n");
    let line = line_text(t, numbers);
    let front = "{\"n\":"@ + decimal(t.total_objects as nat) + ",\"d\":"@ + decimal(
        t.drone_count as nat,
    ) + ",\"o\":["@;
    let list = objects_text(t, numbers, t.objects@.len() as int);
    assert(line.take(front.len() as int) =~= front);
    assert(line.skip(line.len() - 3) =~= "]}\n"@);
    assert(line.skip(front.len() as int) =~= list + "]}\n"@);
}

/// Object `i` of a line of telemetry: its identity, one for a drone and zero for another
/// object, and the numbers at place `i`, each in its own place.
pub open spec fn entry(t: Telementry, numbers: Seq<Rendered>, i: int) -> Seq<char> {
    let n = numbers[i];
    "["@ + decimal(t.objects@[i].0 as nat) + ","@ + decimal(
        if t.objects@[i].1 {
            1
        } else {
            0
        },
    ) + ","@ + n.px@ + ","@ + n.py@ + ","@ + n.vx@ + ","@ + n.vy@ + "]"@
}

/// Where object `i` stands among the objects of a line: behind all that come before it, and
/// a comma after each of them.
pub open spec fn entry_place(t: Telementry, numbers: Seq<Rendered>, i: int) -> int
    decreases i,
{
    if i <= 0 {
        0
    } else {
        entry_place(t, numbers, i - 1) + entry(t, numbers, i - 1).len() + 1
    }
}

/// Every object stands in the list, in its order and in its own place, with its own identity,
/// kind and numbers, and one comma after each but the last; and there is nothing else.
pub proof fn law_every_object_is_listed(
    t: Telementry,
    numbers: Seq<Rendered>,
    n: int,
    i: int,
)
    requires
        numbers.len() == t.objects@.len(),
        0 <= i < n <= numbers.len(),
    ensures
        occurs_at(objects_text(t, numbers, n), entry(t, numbers, i), entry_place(t, numbers, i)),
        i > 0 ==> objects_text(t, numbers, n)[entry_place(t, numbers, i) - 1] == ',',
        objects_text(t, numbers, n).len() + 1 == entry_place(t, numbers, n),
        0 <= entry_place(t, numbers, i),
    decreases n,
{
    reveal_strlit(",");
    reveal_strlit("[");
    reveal_strlit(",1,");
    reveal_strlit(",0,");
    lemma_flag_text();
    lemma_places_rise(t, numbers, i);
    let all = objects_text(t, numbers, n);
    let earlier = objects_text(t, numbers, n - 1);
    let object = object_text(t.objects@[n - 1].0, t.objects@[n - 1].1, numbers[n - 1]);
    assert(object =~= entry(t, numbers, n - 1));
    if n == 1 {
        assert(all =~= object);
        assert(all.subrange(0, object.len() as int) =~= object);
        assert(entry_place(t, numbers, 1) == entry_place(t, numbers, 0) + object.len() + 1);
    } else {
        law_every_object_is_listed(t, numbers, n - 1, n - 2);
        assert(all =~= earlier + ","@ + object);
        assert(entry_place(t, numbers, n) == entry_place(t, numbers, n - 1) + object.len() + 1);
        if i < n - 1 {
            law_every_object_is_listed(t, numbers, n - 1, i);
            let p = entry_place(t, numbers, i);
            let own = entry(t, numbers, i);
            assert(all.subrange(p, p + own.len()) =~= earlier.subrange(p, p + own.len()));
            if i > 0 {
                assert(all[p - 1] == earlier[p - 1]);
            }
        } else {
            let p = entry_place(t, numbers, i);
            assert(p == earlier.len() + 1);
            assert(all[p - 1] == ","@[0]);
            assert(all.subrange(p, p + object.len()) =~= object);
        }
    }
}

proof fn lemma_places_rise(t: Telementry, numbers: Seq<Rendered>, i: int)
    ensures
        0 <= entry_place(t, numbers, i),
        i > 0 ==> 0 < entry_place(t, numbers, i),
    decreases i,
{
    if i > 0 {
        lemma_places_rise(t, numbers, i - 1);
    }
}

proof fn lemma_flag_text()
    ensures
        ",1,"@ == ","@ + decimal(1) + ","@,
        ",0,"@ == ","@ + decimal(0) + ","@,
{
    reveal_strlit(",");
    reveal_strlit(",1,");
    reveal_strlit(",0,");
    assert(decimal(1) =~= seq!['1']);
    assert(decimal(0) =~= seq!['0']);
    assert(",1,"@ =~= ","@ + decimal(1) + ","@);
    assert(",0,"@ =~= ","@ + decimal(0) + ","@);
}

} // verus!
