//! The command line: its flags, and the source and position that they ask for.

use vstd::prelude::*;
use vstd::string::StrSliceExecFns;

use crate::capture::{Source, SourceView};
use crate::letterbox::{capture_target, fitted};
use crate::number::Real64;
use crate::text::{ends_with, has_suffix, same, trim, trimmed};
use crate::types::GpsFix;

verus! {

/// What the program was asked to do.
pub struct Options {
    /// `camera`, or the path of a file.
    pub source: String,
    /// The path of the model.
    pub model: String,
    /// Whether the camera is that of the board.
    pub jetson_cam: bool,
    /// Whether to acquire a position at startup.
    pub gps: bool,
    /// Whether to run the model on the graphics processor.
    pub cuda: bool,
    /// Whether to time the stages.
    pub profile: bool,
}

/// Options as a mathematical value.
pub struct OptionsView {
    pub source: Seq<char>,
    pub model: Seq<char>,
    pub jetson_cam: bool,
    pub gps: bool,
    pub cuda: bool,
    pub profile: bool,
}

/// Why the command line was refused.
pub enum ArgError {
    /// `--source` stands last.
    SourceNeedsValue,
    /// `--model` stands last.
    ModelNeedsValue,
    /// `--at` stands last.
    PositionMissing,
    /// What follows `--at` has no comma.
    PositionMalformed,
    /// There is no such flag.
    Unknown(String),
}

/// An error as a mathematical value.
pub enum ArgErrorView {
    SourceNeedsValue,
    ModelNeedsValue,
    PositionMissing,
    PositionMalformed,
    Unknown(Seq<char>),
}

/// What came of the command line.
pub enum Outcome {
    Run(Options),
    Help,
    Refused(ArgError),
}

/// An outcome as a mathematical value.
pub enum OutcomeView {
    Run(OptionsView),
    Help,
    Refused(ArgErrorView),
}

/// A position given by hand: latitude and longitude as text.
pub struct Position {
    pub lat: String,
    pub lon: String,
}

/// The command line, read from left to right.
pub struct Parsed {
    /// The positions that were given before the outcome was clear. Each has to be a pair of
    /// numbers; the last one counts.
    pub positions: Vec<Position>,
    pub outcome: Outcome,
}

impl View for Options {
    type V = OptionsView;

    open spec fn view(&self) -> OptionsView {
        OptionsView {
            source: self.source@,
            model: self.model@,
            jetson_cam: self.jetson_cam,
            gps: self.gps,
            cuda: self.cuda,
            profile: self.profile,
        }
    }
}

impl View for ArgError {
    type V = ArgErrorView;

    open spec fn view(&self) -> ArgErrorView {
        match *self {
            ArgError::SourceNeedsValue => ArgErrorView::SourceNeedsValue,
            ArgError::ModelNeedsValue => ArgErrorView::ModelNeedsValue,
            ArgError::PositionMissing => ArgErrorView::PositionMissing,
            ArgError::PositionMalformed => ArgErrorView::PositionMalformed,
            ArgError::Unknown(arg) => ArgErrorView::Unknown(arg@),
        }
    }
}

impl View for Outcome {
    type V = OutcomeView;

    open spec fn view(&self) -> OutcomeView {
        match *self {
            Outcome::Run(options) => OutcomeView::Run(options@),
            Outcome::Help => OutcomeView::Help,
            Outcome::Refused(error) => OutcomeView::Refused(error@),
        }
    }
}

impl View for Position {
    type V = (Seq<char>, Seq<char>);

    open spec fn view(&self) -> (Seq<char>, Seq<char>) {
        (self.lat@, self.lon@)
    }
}

/// The texts of positions.
pub open spec fn position_texts(positions: Seq<Position>) -> Seq<(Seq<char>, Seq<char>)> {
    positions.map_values(|p: Position| p@)
}

/// The texts of arguments.
pub open spec fn arg_texts(args: Seq<String>) -> Seq<Seq<char>> {
    args.map_values(|a: String| a@)
}

/// The place of the first comma, or the length of the text where there is none.
pub open spec fn first_comma(text: Seq<char>) -> int
    decreases text.len(),
{
    if text.len() == 0 || text[0] == ',' {
        0
    } else {
        1 + first_comma(text.skip(1))
    }
}

/// The two sides of the first comma, without white space around them.
pub open spec fn sides(text: Seq<char>) -> Option<(Seq<char>, Seq<char>)> {
    let comma = first_comma(text);
    if comma < text.len() {
        Some((trimmed(text.take(comma)), trimmed(text.skip(comma + 1))))
    } else {
        None
    }
}

/// What the program does if nothing is asked of it.
pub open spec fn default_options() -> OptionsView {
    OptionsView {
        source: "camera"@,
        model: "models/drone_yolov8s.onnx"@,
        jetson_cam: false,
        gps: false,
        cuda: false,
        profile: false,
    }
}

/// What comes of the arguments from the one at `i` on, after those before it set `options`
/// and gave `positions`.
pub open spec fn meaning(
    args: Seq<Seq<char>>,
    i: int,
    options: OptionsView,
    positions: Seq<(Seq<char>, Seq<char>)>,
) -> (Seq<(Seq<char>, Seq<char>)>, OutcomeView)
    decreases args.len() - i,
{
    if i >= args.len() {
        (positions, OutcomeView::Run(options))
    } else if args[i] == "--source"@ {
        if i + 1 < args.len() {
            meaning(args, i + 2, OptionsView { source: args[i + 1], ..options }, positions)
        } else {
            (positions, OutcomeView::Refused(ArgErrorView::SourceNeedsValue))
        }
    } else if args[i] == "--model"@ {
        if i + 1 < args.len() {
            meaning(args, i + 2, OptionsView { model: args[i + 1], ..options }, positions)
        } else {
            (positions, OutcomeView::Refused(ArgErrorView::ModelNeedsValue))
        }
    } else if args[i] == "--at"@ {
        if i + 1 < args.len() {
            match sides(args[i + 1]) {
                Some(position) => meaning(args, i + 2, options, positions.push(position)),
                None => (positions, OutcomeView::Refused(ArgErrorView::PositionMalformed)),
            }
        } else {
            (positions, OutcomeView::Refused(ArgErrorView::PositionMissing))
        }
    } else if args[i] == "--jetson-cam"@ {
        meaning(args, i + 1, OptionsView { jetson_cam: true, ..options }, positions)
    } else if args[i] == "--gps"@ {
        meaning(args, i + 1, OptionsView { gps: true, ..options }, positions)
    } else if args[i] == "--cuda"@ {
        meaning(args, i + 1, OptionsView { cuda: true, ..options }, positions)
    } else if args[i] == "--profile"@ {
        meaning(args, i + 1, OptionsView { profile: true, ..options }, positions)
    } else if args[i] == "--help"@ || args[i] == "-h"@ {
        (positions, OutcomeView::Help)
    } else {
        (positions, OutcomeView::Refused(ArgErrorView::Unknown(args[i])))
    }
}

/// The two sides of the first comma, without white space around them.
fn split_position(text: &str) -> (position: Option<Position>)
    ensures
        position is Some <==> sides(text@) is Some,
        position matches Some(p) ==> Some(p@) == sides(text@),
{
    let n: usize = text.unicode_len();
    let mut i: usize = 0;
    assert(text@.skip(0) =~= text@);
    while i < n && text.get_char(i) != ','
        invariant
            i <= n,
            n == text@.len(),
            first_comma(text@) == i + first_comma(text@.skip(i as int)),
        decreases n - i,
    {
        assert(text@.skip(i as int).skip(1) =~= text@.skip(i + 1));
        i = i + 1;
    }
    assert(first_comma(text@) == i);
    if i == n {
        return None;
    }
    let lat = text.substring_char(0, i);
    let lon = text.substring_char(i + 1, n);
    assert(lat@ =~= text@.take(i as int));
    assert(lon@ =~= text@.skip(i + 1));
    Some(Position { lat: trim(lat).to_owned(), lon: trim(lon).to_owned() })
}

/// Reads the command line, without the program's name. It is read from left to right, and
/// reading stops at the first request for help and at the first error.
pub fn parse_args(args: &Vec<String>) -> (parsed: Parsed)
    ensures
        (position_texts(parsed.positions@), parsed.outcome@) == meaning(
            arg_texts(args@),
            0,
            default_options(),
            Seq::empty(),
        ),
{
    let mut options = Options {
        source: "camera".to_owned(),
        model: "models/drone_yolov8s.onnx".to_owned(),
        jetson_cam: false,
        gps: false,
        cuda: false,
        profile: false,
    };
    let mut positions: Vec<Position> = Vec::new();
    let mut i: usize = 0;
    let ghost texts = arg_texts(args@);
    let ghost whole = meaning(texts, 0, default_options(), Seq::empty());
    assert(position_texts(positions@) =~= Seq::empty());
    while i < args.len()
        invariant
            i <= args@.len(),
            texts == arg_texts(args@),
            whole == meaning(texts, i as int, options@, position_texts(positions@)),
            whole == meaning(texts, 0, default_options(), Seq::empty()),
        decreases args@.len() - i,
    {
        let arg = args[i].as_str();
        let last = args.len() - i == 1;
        assert(texts[i as int] == arg@);
        assert(!last ==> texts[i + 1] == args@[i + 1]@);
        if same(arg, "--source") {
            if last {
                return Parsed {
                    positions,
                    outcome: Outcome::Refused(ArgError::SourceNeedsValue),
                };
            }
            options.source = args[i + 1].clone();
            i = i + 2;
        } else if same(arg, "--model") {
            if last {
                return Parsed {
                    positions,
                    outcome: Outcome::Refused(ArgError::ModelNeedsValue),
                };
            }
            options.model = args[i + 1].clone();
            i = i + 2;
        } else if same(arg, "--at") {
            if last {
                return Parsed {
                    positions,
                    outcome: Outcome::Refused(ArgError::PositionMissing),
                };
            }
            match split_position(args[i + 1].as_str()) {
                Some(position) => {
                    let ghost was = positions@;
                    positions.push(position);
                    assert(position_texts(positions@) =~= position_texts(was).push(position@));
                },
                None => {
                    return Parsed {
                        positions,
                        outcome: Outcome::Refused(ArgError::PositionMalformed),
                    };
                },
            }
            i = i + 2;
        } else if same(arg, "--jetson-cam") {
            options.jetson_cam = true;
            i = i + 1;
        } else if same(arg, "--gps") {
            options.gps = true;
            i = i + 1;
        } else if same(arg, "--cuda") {
            options.cuda = true;
            i = i + 1;
        } else if same(arg, "--profile") {
            options.profile = true;
            i = i + 1;
        } else if same(arg, "--help") || same(arg, "-h") {
            return Parsed { positions, outcome: Outcome::Help };
        } else {
            return Parsed {
                positions,
                outcome: Outcome::Refused(ArgError::Unknown(arg.to_owned())),
            };
        }
    }
    Parsed { positions, outcome: Outcome::Run(options) }
}

/// An error in words.
pub open spec fn error_text(error: ArgErrorView) -> Seq<char> {
    match error {
        ArgErrorView::SourceNeedsValue => "--source needs a value"@,
        ArgErrorView::ModelNeedsValue => "--model needs a value"@,
        ArgErrorView::PositionMissing => "--at needs <lat>,<lon>"@,
        ArgErrorView::PositionMalformed => "--at expects <lat>,<lon>"@,
        ArgErrorView::Unknown(arg) => "unknown argument: "@ + arg,
    }
}

impl ArgError {
    /// The error in words.
    pub fn message(&self) -> (text: String)
        ensures
            text@ == error_text(self@),
    {
        match self {
            ArgError::SourceNeedsValue => "--source needs a value".to_owned(),
            ArgError::ModelNeedsValue => "--model needs a value".to_owned(),
            ArgError::PositionMissing => "--at needs <lat>,<lon>".to_owned(),
            ArgError::PositionMalformed => "--at expects <lat>,<lon>".to_owned(),
            ArgError::Unknown(arg) => concat("unknown argument: ", arg.as_str()),
        }
    }
}

/// One text after the other.
fn concat(a: &str, b: &str) -> (r: String)
    ensures
        r@ == a@ + b@,
{
    let mut r = a.to_owned();
    vstd::string::StringExecFns::append(&mut r, b);
    r
}

/// Text in lower case, as Unicode maps it.
pub uninterp spec fn lowercased(text: Seq<char>) -> Seq<char>;

/// A letter of ASCII in lower case; any other character as it is.
pub open spec fn ascii_lower(c: char) -> char {
    if 'A' <= c <= 'Z' {
        (c as u32 + 32) as char
    } else {
        c
    }
}

/// Calls `str::to_lowercase`, which maps every character as Unicode does. The result is a
/// function of the text; of text in ASCII it changes the letters `A` to `Z` and nothing
/// else.
#[verifier::external_body]
fn lowercase(text: &str) -> (r: String)
    ensures
        r@ == lowercased(text@),
        vstd::utf8::is_ascii_chars(text@) ==> r@ == text@.map_values(|c: char| ascii_lower(c)),
{
    text.to_lowercase()
}

/// The camera of a desk computer, or that of the board. The latter delivers UYVY, and its
/// hardware scales the picture to what the model takes.
pub open spec fn camera(jetson_cam: bool) -> SourceView {
    if jetson_cam {
        SourceView::Camera {
            device: "/dev/video0"@,
            width: 1920,
            height: 1200,
            fps: 30,
            format: Some("UYVY"@),
            scale_to: Some((fitted(1920, 1200).0 as u32, fitted(1920, 1200).1 as u32)),
        }
    } else {
        SourceView::Camera {
            device: "/dev/video0"@,
            width: 1280,
            height: 720,
            fps: 30,
            format: None,
            scale_to: None,
        }
    }
}

/// Whether the name of a file, in lower case, is that of a picture.
pub open spec fn is_picture(lower: Seq<char>) -> bool {
    has_suffix(lower, ".png"@) || has_suffix(lower, ".jpg"@) || has_suffix(lower, ".jpeg"@)
}

/// The source that is asked for by `name`, which is `lower` in lower case.
pub open spec fn source_named(name: Seq<char>, lower: Seq<char>, jetson_cam: bool) -> SourceView {
    if name == "camera"@ {
        camera(jetson_cam)
    } else if is_picture(lower) {
        SourceView::Image(name)
    } else {
        SourceView::VideoFile(name)
    }
}

/// The source that is asked for by `name`, which is `lower` in lower case: the camera, or
/// a file, which its ending tells to be a picture or a video.
pub fn classify_source(name: &str, lower: &str, jetson_cam: bool) -> (source: Source)
    ensures
        source@ == source_named(name@, lower@, jetson_cam),
{
    if same(name, "camera") {
        if jetson_cam {
            Source::Camera {
                device: "/dev/video0".to_owned(),
                width: 1920,
                height: 1200,
                fps: 30,
                format: Some("UYVY".to_owned()),
                scale_to: Some(capture_target(1920, 1200)),
            }
        } else {
            Source::Camera {
                device: "/dev/video0".to_owned(),
                width: 1280,
                height: 720,
                fps: 30,
                format: None,
                scale_to: None,
            }
        }
    } else if ends_with(lower, ".png") || ends_with(lower, ".jpg") || ends_with(lower, ".jpeg") {
        Source::Image(name.to_owned())
    } else {
        Source::VideoFile(name.to_owned())
    }
}

/// The source that is asked for by `name`.
pub fn select_source(name: &str, jetson_cam: bool) -> (source: Source)
    ensures
        source@ == source_named(name@, lowercased(name@), jetson_cam),
        vstd::utf8::is_ascii_chars(name@) ==> source@ == source_named(
            name@,
            name@.map_values(|c: char| ascii_lower(c)),
            jetson_cam,
        ),
{
    let lower = lowercase(name);
    classify_source(name, lower.as_str(), jetson_cam)
}

/// How the position of the camera is to be had.
pub enum Anchor {
    /// It is known.
    Known(GpsFix),
    /// The receiver has to be asked.
    Acquire,
    /// It stays unknown.
    Unknown,
}

/// How the position is to be had: one given by hand wins over the receiver, which is asked
/// only on request.
pub fn plan_position(manual: Option<(Real64, Real64)>, gps: bool) -> (anchor: Anchor)
    ensures
        anchor == (match manual {
            Some(p) => Anchor::Known(
                GpsFix { lat: p.0, lon: p.1, altitude_m: None, satellites: None },
            ),
            None => if gps {
                Anchor::Acquire
            } else {
                Anchor::Unknown
            },
        }),
{
    match manual {
        Some(p) => Anchor::Known(
            GpsFix { lat: p.0, lon: p.1, altitude_m: None, satellites: None },
        ),
        None => if gps {
            Anchor::Acquire
        } else {
            Anchor::Unknown
        },
    }
}

/// Whether text holds a comma.
pub open spec fn has_comma(text: Seq<char>) -> bool {
    exists|i: int| 0 <= i < text.len() && #[trigger] text[i] == ','
}

/// A position is cut at its first comma: there is a comma where it is cut, and none before.
pub proof fn law_position_is_cut_at_the_first_comma(text: Seq<char>)
    ensures
        sides(text) is Some <==> has_comma(text),
        sides(text) is Some ==> text[first_comma(text)] == ',' && !has_comma(
            text.take(first_comma(text)),
        ),
{
    lemma_first_comma(text);
    if has_comma(text) {
        let i = choose|i: int| 0 <= i < text.len() && #[trigger] text[i] == ',';
        assert(i >= first_comma(text));
    }
    if sides(text) is Some {
        assert(text[first_comma(text)] == ',');
    }
}

pub(crate) proof fn lemma_first_comma(text: Seq<char>)
    ensures
        0 <= first_comma(text) <= text.len(),
        first_comma(text) < text.len() ==> text[first_comma(text)] == ',',
        forall|i: int| 0 <= i < first_comma(text) ==> #[trigger] text[i] != ',',
    decreases text.len(),
{
    if text.len() > 0 && text[0] != ',' {
        let rest = text.skip(1);
        lemma_first_comma(rest);
        assert forall|i: int| 0 <= i < first_comma(text) implies #[trigger] text[i] != ',' by {
            if i > 0 {
                assert(rest[i - 1] == text[i]);
            }
        }
    }
}

/// Whether the model runs on the graphics processor is decided by the command line alone:
/// it does so only if `--cuda` stands there.
pub proof fn law_graphics_processor_is_a_runtime_choice(
    args: Seq<Seq<char>>,
    i: int,
    options: OptionsView,
    positions: Seq<(Seq<char>, Seq<char>)>,
)
    requires
        0 <= i,
        !options.cuda,
        meaning(args, i, options, positions).1 is Run,
        (meaning(args, i, options, positions).1->Run_0).cuda,
    ensures
        exists|k: int| i <= k < args.len() && #[trigger] args[k] == "--cuda"@,
    decreases args.len() - i,
{
    if i < args.len() {
        if args[i] == "--source"@ {
            if i + 1 < args.len() {
                law_graphics_processor_is_a_runtime_choice(
                    args,
                    i + 2,
                    OptionsView { source: args[i + 1], ..options },
                    positions,
                );
            }
        } else if args[i] == "--model"@ {
            if i + 1 < args.len() {
                law_graphics_processor_is_a_runtime_choice(
                    args,
                    i + 2,
                    OptionsView { model: args[i + 1], ..options },
                    positions,
                );
            }
        } else if args[i] == "--at"@ {
            if i + 1 < args.len() && sides(args[i + 1]) is Some {
                law_graphics_processor_is_a_runtime_choice(
                    args,
                    i + 2,
                    options,
                    positions.push(sides(args[i + 1]).unwrap()),
                );
            }
        } else if args[i] == "--jetson-cam"@ {
            law_graphics_processor_is_a_runtime_choice(
                args,
                i + 1,
                OptionsView { jetson_cam: true, ..options },
                positions,
            );
        } else if args[i] == "--gps"@ {
            law_graphics_processor_is_a_runtime_choice(
                args,
                i + 1,
                OptionsView { gps: true, ..options },
                positions,
            );
        } else if args[i] == "--cuda"@ {
            assert(args[i] == "--cuda"@);
        } else if args[i] == "--profile"@ {
            law_graphics_processor_is_a_runtime_choice(
                args,
                i + 1,
                OptionsView { profile: true, ..options },
                positions,
            );
        }
    }
}

} // verus!
