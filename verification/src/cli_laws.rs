//! What the command line promises: how one more argument changes what is asked for.

use vstd::prelude::*;

use crate::capture::SourceView;
use crate::cli::{
    default_options, error_text, first_comma, has_comma, law_position_is_cut_at_the_first_comma,
    lemma_first_comma, meaning, sides, source_named, ArgErrorView, OptionsView, OutcomeView,
};
use crate::letterbox::fitted;
use crate::text::{has_suffix, trimmed};

verus! {

/// What comes of a command line.
pub open spec fn outcome(args: Seq<Seq<char>>) -> OutcomeView {
    meaning(args, 0, default_options(), Seq::empty()).1
}

/// The positions that a command line gives.
pub open spec fn positions(args: Seq<Seq<char>>) -> Seq<(Seq<char>, Seq<char>)> {
    meaning(args, 0, default_options(), Seq::empty()).0
}

/// Whether text is one of the flags.
pub open spec fn is_flag(text: Seq<char>) -> bool {
    ||| text == "--source"@
    ||| text == "--model"@
    ||| text == "--at"@
    ||| text == "--jetson-cam"@
    ||| text == "--gps"@
    ||| text == "--cuda"@
    ||| text == "--profile"@
    ||| text == "--help"@
    ||| text == "-h"@
}

/// Without arguments the program runs on the camera of a desk computer, with the model that
/// comes with it, on the processor, without a position and without timing.
pub proof fn law_nothing_asked_for()
    ensures
        positions(Seq::empty()).len() == 0,
        outcome(Seq::empty()) == OutcomeView::Run(
            OptionsView {
                source: "camera"@,
                model: "models/drone_yolov8s.onnx"@,
                jetson_cam: false,
                gps: false,
                cuda: false,
                profile: false,
            },
        ),
{
}

/// A flag behind a command line that runs switches on what it is named after, and changes
/// nothing else.
pub proof fn law_flag_switches_on_its_own_option(args: Seq<Seq<char>>, flag: Seq<char>)
    requires
        outcome(args) is Run,
        flag == "--jetson-cam"@ || flag == "--gps"@ || flag == "--cuda"@ || flag == "--profile"@,
    ensures
        ({
            let o = outcome(args)->Run_0;
            let p = outcome(args.push(flag))->Run_0;
            &&& outcome(args.push(flag)) is Run
            &&& positions(args.push(flag)) == positions(args)
            &&& p.source == o.source
            &&& p.model == o.model
            &&& p.jetson_cam == (o.jetson_cam || flag == "--jetson-cam"@)
            &&& p.gps == (o.gps || flag == "--gps"@)
            &&& p.cuda == (o.cuda || flag == "--cuda"@)
            &&& p.profile == (o.profile || flag == "--profile"@)
        }),
{
    lemma_flags_differ();
    let more = seq![flag];
    lemma_reading_goes_on(args, more, 0, default_options(), Seq::empty());
    assert(args + more =~= args.push(flag));
    let n = args.len() as int;
    let all = args.push(flag);
    assert(all[n] == flag);
    let o = outcome(args)->Run_0;
    let p = OptionsView {
        jetson_cam: o.jetson_cam || flag == "--jetson-cam"@,
        gps: o.gps || flag == "--gps"@,
        cuda: o.cuda || flag == "--cuda"@,
        profile: o.profile || flag == "--profile"@,
        ..o
    };
    assert(meaning(all, n + 1, p, positions(args)) == (positions(args), OutcomeView::Run(p)));
}

/// A source or a model behind a command line that runs takes the place of the one before,
/// and changes nothing else.
pub proof fn law_last_source_and_model_count(
    args: Seq<Seq<char>>,
    flag: Seq<char>,
    value: Seq<char>,
)
    requires
        outcome(args) is Run,
        flag == "--source"@ || flag == "--model"@,
    ensures
        ({
            let o = outcome(args)->Run_0;
            let p = outcome(args.push(flag).push(value))->Run_0;
            &&& outcome(args.push(flag).push(value)) is Run
            &&& positions(args.push(flag).push(value)) == positions(args)
            &&& p.source == (if flag == "--source"@ {
                value
            } else {
                o.source
            })
            &&& p.model == (if flag == "--model"@ {
                value
            } else {
                o.model
            })
            &&& p.jetson_cam == o.jetson_cam
            &&& p.gps == o.gps
            &&& p.cuda == o.cuda
            &&& p.profile == o.profile
        }),
{
    lemma_flags_differ();
    let more = seq![flag, value];
    lemma_reading_goes_on(args, more, 0, default_options(), Seq::empty());
    let all = args.push(flag).push(value);
    assert(args + more =~= all);
    let n = args.len() as int;
    assert(all[n] == flag && all[n + 1] == value);
    let o = outcome(args)->Run_0;
    let p = if flag == "--source"@ {
        OptionsView { source: value, ..o }
    } else {
        OptionsView { model: value, ..o }
    };
    assert(meaning(all, n + 2, p, positions(args)) == (positions(args), OutcomeView::Run(p)));
}

/// A position behind a command line that runs is added behind those before it: what stands
/// before its first comma is the latitude, what stands after it the longitude, both without
/// white space around them. Without a comma it is refused.
pub proof fn law_position_is_latitude_comma_longitude(
    args: Seq<Seq<char>>,
    lat: Seq<char>,
    lon: Seq<char>,
)
    requires
        outcome(args) is Run,
        !has_comma(lat),
    ensures
        outcome(args.push("--at"@).push(lat + seq![','] + lon)) == outcome(args),
        positions(args.push("--at"@).push(lat + seq![','] + lon)) == positions(args).push(
            (trimmed(lat), trimmed(lon)),
        ),
        outcome(args.push("--at"@).push(lat)) == OutcomeView::Refused(
            ArgErrorView::PositionMalformed,
        ),
{
    lemma_flags_differ();
    let value = lat + seq![','] + lon;
    let n = args.len() as int;
    let o = outcome(args)->Run_0;
    lemma_cut(lat, lon);
    lemma_reading_goes_on(args, seq!["--at"@, value], 0, default_options(), Seq::empty());
    let all = args.push("--at"@).push(value);
    assert(args + seq!["--at"@, value] =~= all);
    assert(all[n] == "--at"@ && all[n + 1] == value);
    let after = positions(args).push((trimmed(lat), trimmed(lon)));
    assert(meaning(all, n + 2, o, after) == (after, OutcomeView::Run(o)));
    lemma_reading_goes_on(args, seq!["--at"@, lat], 0, default_options(), Seq::empty());
    let bare = args.push("--at"@).push(lat);
    assert(args + seq!["--at"@, lat] =~= bare);
    assert(bare[n] == "--at"@ && bare[n + 1] == lat);
    law_position_is_cut_at_the_first_comma(lat);
}

proof fn lemma_cut(lat: Seq<char>, lon: Seq<char>)
    requires
        !has_comma(lat),
    ensures
        sides(lat + seq![','] + lon) == Some((trimmed(lat), trimmed(lon))),
{
    let value = lat + seq![','] + lon;
    let n = lat.len() as int;
    law_position_is_cut_at_the_first_comma(value);
    lemma_first_comma(value);
    assert(value[n] == ',');
    assert(has_comma(value));
    let p = first_comma(value);
    if p < n {
        assert(lat[p] == value[p]);
    }
    if p > n {
        assert(value.take(p)[n] == ',');
    }
    assert(value.take(n) =~= lat);
    assert(value.skip(n + 1) =~= lon);
}

/// A flag that needs a value and stands last is refused, for its own reason.
pub proof fn law_missing_value_is_refused(args: Seq<Seq<char>>)
    requires
        outcome(args) is Run,
    ensures
        outcome(args.push("--source"@)) == OutcomeView::Refused(ArgErrorView::SourceNeedsValue),
        outcome(args.push("--model"@)) == OutcomeView::Refused(ArgErrorView::ModelNeedsValue),
        outcome(args.push("--at"@)) == OutcomeView::Refused(ArgErrorView::PositionMissing),
{
    lemma_flags_differ();
    let n = args.len() as int;
    lemma_reading_goes_on(args, seq!["--source"@], 0, default_options(), Seq::empty());
    assert(args + seq!["--source"@] =~= args.push("--source"@));
    assert(args.push("--source"@)[n] == "--source"@);
    lemma_reading_goes_on(args, seq!["--model"@], 0, default_options(), Seq::empty());
    assert(args + seq!["--model"@] =~= args.push("--model"@));
    assert(args.push("--model"@)[n] == "--model"@);
    lemma_reading_goes_on(args, seq!["--at"@], 0, default_options(), Seq::empty());
    assert(args + seq!["--at"@] =~= args.push("--at"@));
    assert(args.push("--at"@)[n] == "--at"@);
}

/// A request for help behind a command line that runs is granted, and what is no flag is
/// refused by its name.
pub proof fn law_help_and_unknown_arguments(args: Seq<Seq<char>>, arg: Seq<char>)
    requires
        outcome(args) is Run,
    ensures
        arg == "--help"@ || arg == "-h"@ ==> outcome(args.push(arg)) == OutcomeView::Help,
        !is_flag(arg) ==> outcome(args.push(arg)) == OutcomeView::Refused(
            ArgErrorView::Unknown(arg),
        ),
        arg == "--help"@ || arg == "-h"@ || !is_flag(arg) ==> positions(args.push(arg))
            == positions(args),
{
    lemma_flags_differ();
    let n = args.len() as int;
    lemma_reading_goes_on(args, seq![arg], 0, default_options(), Seq::empty());
    let all = args.push(arg);
    assert(args + seq![arg] =~= all);
    assert(all[n] == arg);
}

/// Whether reading ended before the end: with a request for help, an argument that is no
/// flag, or a position without a comma.
pub open spec fn settled(outcome: OutcomeView) -> bool {
    match outcome {
        OutcomeView::Run(_) => false,
        OutcomeView::Help => true,
        OutcomeView::Refused(e) => e is Unknown || e is PositionMalformed,
    }
}

/// Reading stops at the first request for help and at the first error: what comes after it
/// changes nothing.
pub proof fn law_reading_stops_where_it_is_settled(args: Seq<Seq<char>>, more: Seq<Seq<char>>)
    requires
        settled(outcome(args)),
    ensures
        outcome(args + more) == outcome(args),
        positions(args + more) == positions(args),
{
    lemma_reading_goes_on(args, more, 0, default_options(), Seq::empty());
}

/// Reading more arguments goes on where it ended, or is over.
proof fn lemma_reading_goes_on(
    args: Seq<Seq<char>>,
    more: Seq<Seq<char>>,
    i: int,
    options: OptionsView,
    before: Seq<(Seq<char>, Seq<char>)>,
)
    requires
        0 <= i <= args.len(),
    ensures
        ({
            let (p, out) = meaning(args, i, options, before);
            &&& out matches OutcomeView::Run(o) ==> meaning(args + more, i, options, before)
                == meaning(args + more, args.len() as int, o, p)
            &&& settled(out) ==> meaning(args + more, i, options, before) == (p, out)
        }),
    decreases args.len() - i,
{
    let all = args + more;
    if i < args.len() {
        assert(all[i] == args[i]);
        if i + 1 < args.len() {
            assert(all[i + 1] == args[i + 1]);
        }
        let (a, o) = (args[i], options);
        if a == "--source"@ {
            if i + 1 < args.len() {
                let o = OptionsView { source: args[i + 1], ..o };
                lemma_reading_goes_on(args, more, i + 2, o, before);
            }
        } else if a == "--model"@ {
            if i + 1 < args.len() {
                let o = OptionsView { model: args[i + 1], ..o };
                lemma_reading_goes_on(args, more, i + 2, o, before);
            }
        } else if a == "--at"@ {
            if i + 1 < args.len() && sides(args[i + 1]) is Some {
                let position = sides(args[i + 1]).unwrap();
                lemma_reading_goes_on(args, more, i + 2, o, before.push(position));
            }
        } else if a == "--jetson-cam"@ {
            let o = OptionsView { jetson_cam: true, ..o };
            lemma_reading_goes_on(args, more, i + 1, o, before);
        } else if a == "--gps"@ {
            lemma_reading_goes_on(args, more, i + 1, OptionsView { gps: true, ..o }, before);
        } else if a == "--cuda"@ {
            lemma_reading_goes_on(args, more, i + 1, OptionsView { cuda: true, ..o }, before);
        } else if a == "--profile"@ {
            lemma_reading_goes_on(args, more, i + 1, OptionsView { profile: true, ..o }, before);
        }
    }
}

/// No two flags are the same.
proof fn lemma_flags_differ()
    ensures
        "--source"@.len() == 8,
        "--model"@.len() == 7,
        "--at"@.len() == 4,
        "--jetson-cam"@.len() == 12,
        "--gps"@.len() == 5,
        "--cuda"@.len() == 6,
        "--profile"@.len() == 9,
        "--help"@.len() == 6,
        "-h"@.len() == 2,
        "--cuda"@[2] != "--help"@[2],
{
    reveal_strlit("--source");
    reveal_strlit("--model");
    reveal_strlit("--at");
    reveal_strlit("--jetson-cam");
    reveal_strlit("--gps");
    reveal_strlit("--cuda");
    reveal_strlit("--profile");
    reveal_strlit("--help");
    reveal_strlit("-h");
}

/// The camera is the first of the machine, at thirty frames a second: that of a desk computer
/// as it comes, or that of the board with its own size and format, scaled by the hardware so
/// that the longer side is that of the model's input.
pub proof fn law_camera_is_that_of_the_machine(lower: Seq<char>, jetson_cam: bool)
    ensures
        source_named("camera"@, lower, jetson_cam) == (if jetson_cam {
            SourceView::Camera {
                device: "/dev/video0"@,
                width: 1920,
                height: 1200,
                fps: 30,
                format: Some("UYVY"@),
                scale_to: Some((640, 400)),
            }
        } else {
            SourceView::Camera {
                device: "/dev/video0"@,
                width: 1280,
                height: 720,
                fps: 30,
                format: None,
                scale_to: None,
            }
        }),
{
    assert(1537920int / 3840int == 400);
    assert(fitted(1920, 1200) == (640int, 400int));
}

/// Any other name is that of a file, taken over as it is: a picture exactly if it ends, in
/// whatever case, in one of three ways, and else a video. Which camera there is does not
/// matter.
pub proof fn law_other_names_are_files(name: Seq<char>, lower: Seq<char>, jetson_cam: bool)
    requires
        name != "camera"@,
    ensures
        source_named(name, lower, jetson_cam) == (if has_suffix(lower, ".png"@) || has_suffix(
            lower,
            ".jpg"@,
        ) || has_suffix(lower, ".jpeg"@) {
            SourceView::Image(name)
        } else {
            SourceView::VideoFile(name)
        }),
{
}

/// An argument that is no flag is named in the error, whole and at its end.
pub proof fn law_unknown_argument_is_named(arg: Seq<char>)
    ensures
        has_suffix(error_text(ArgErrorView::Unknown(arg)), ": "@ + arg),
        error_text(ArgErrorView::Unknown(arg)).len() == 18 + arg.len(),
{
    reveal_strlit("unknown argument: ");
    reveal_strlit(": ");
    let text = error_text(ArgErrorView::Unknown(arg));
    let back = ": "@ + arg;
    assert(text.skip(text.len() - back.len()) =~= back);
}

} // verus!
