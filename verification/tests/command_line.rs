use drone_detection_pipeline::capture::Source;
use drone_detection_pipeline::cli::{
    classify_source, parse_args, plan_position, select_source, Anchor, ArgError, Options, Outcome,
};
use drone_detection_pipeline::number::Real64;

fn args(list: &[&str]) -> Vec<String> {
    list.iter().map(|a| a.to_string()).collect()
}

fn run(list: &[&str]) -> Options {
    match parse_args(&args(list)).outcome {
        Outcome::Run(options) => options,
        _ => panic!("not run"),
    }
}

fn refused(list: &[&str]) -> String {
    match parse_args(&args(list)).outcome {
        Outcome::Refused(error) => error.message(),
        _ => panic!("not refused"),
    }
}

#[test]
fn defaults() {
    let o = run(&[]);
    assert_eq!(o.source, "camera");
    assert_eq!(o.model, "models/drone_yolov8s.onnx");
    assert!(!o.jetson_cam && !o.gps && !o.cuda && !o.profile);
}

#[test]
fn flags_of_the_board() {
    let o = run(&["--source", "camera", "--jetson-cam", "--cuda", "--profile"]);
    assert!(o.jetson_cam && o.cuda && o.profile && !o.gps);
    assert_eq!(o.source, "camera");
}

#[test]
fn values_are_taken_and_the_last_counts() {
    let o = run(&["--model", "a", "--source", "--cuda", "--model", "b", "--gps"]);
    assert_eq!((o.model.as_str(), o.source.as_str()), ("b", "--cuda"));
    assert!(o.gps && !o.cuda);
}

#[test]
fn values_have_to_be_there() {
    assert_eq!(refused(&["--source"]), "--source needs a value");
    assert_eq!(refused(&["--gps", "--model"]), "--model needs a value");
    assert_eq!(refused(&["--at"]), "--at needs <lat>,<lon>");
    assert_eq!(refused(&["--at", "48.1"]), "--at expects <lat>,<lon>");
}

#[test]
fn unknown_flags_are_named() {
    assert_eq!(refused(&["--gps", "--bogus", "--help"]), "unknown argument: --bogus");
    match parse_args(&args(&["x"])).outcome {
        Outcome::Refused(ArgError::Unknown(arg)) => assert_eq!(arg, "x"),
        _ => panic!("not refused"),
    }
}

#[test]
fn help_stops_reading() {
    assert!(matches!(parse_args(&args(&["--help", "--bogus"])).outcome, Outcome::Help));
    assert!(matches!(parse_args(&args(&["-h"])).outcome, Outcome::Help));
}

#[test]
fn positions_are_cut_at_the_first_comma_and_trimmed() {
    let p = parse_args(&args(&["--at", " 48.1 , 11.5,x ", "--at", "1,2"]));
    assert_eq!(p.positions.len(), 2);
    assert_eq!((p.positions[0].lat.as_str(), p.positions[0].lon.as_str()), ("48.1", "11.5,x"));
    assert_eq!((p.positions[1].lat.as_str(), p.positions[1].lon.as_str()), ("1", "2"));
    assert!(matches!(p.outcome, Outcome::Run(_)));
}

#[test]
fn positions_before_an_error_are_kept() {
    let p = parse_args(&args(&["--at", "x,y", "--bogus"]));
    assert_eq!(p.positions[0].lat, "x");
    assert!(matches!(p.outcome, Outcome::Refused(_)));
}

#[test]
fn camera_is_that_of_the_desk_or_of_the_board() {
    match select_source("camera", false) {
        Source::Camera { device, width, height, fps, format, scale_to } => {
            assert_eq!((device.as_str(), width, height, fps), ("/dev/video0", 1280, 720, 30));
            assert!(format.is_none() && scale_to.is_none());
        }
        _ => panic!("not a camera"),
    }
    match select_source("camera", true) {
        Source::Camera { width, height, format, scale_to, .. } => {
            assert_eq!((width, height), (1920, 1200));
            assert_eq!(format.as_deref(), Some("UYVY"));
            assert_eq!(scale_to, Some((640, 400)));
        }
        _ => panic!("not a camera"),
    }
}

#[test]
fn files_are_told_apart_by_their_ending() {
    for name in ["a.png", "b.JPG", "c.JpEg", ".png", "\u{c9}t\u{e9}.PNG"] {
        match select_source(name, false) {
            Source::Image(path) => assert_eq!(path, name),
            _ => panic!("{name} is a picture"),
        }
    }
    for name in ["a.mp4", "png", "a.png.mp4", "CAMERA", ""] {
        match select_source(name, true) {
            Source::VideoFile(path) => assert_eq!(path, name),
            _ => panic!("{name} is a video"),
        }
    }
}

#[test]
fn ending_is_looked_for_in_the_lower_case_name() {
    assert!(matches!(classify_source("X", "x.jpeg", false), Source::Image(_)));
    assert!(matches!(classify_source("X.png", "X.PNG", false), Source::VideoFile(_)));
}

#[test]
fn position_by_hand_wins() {
    let here = (Real64 { bits: 1 }, Real64 { bits: 2 });
    match plan_position(Some(here), true) {
        Anchor::Known(fix) => {
            assert_eq!((fix.lat, fix.lon), here);
            assert!(fix.altitude_m.is_none() && fix.satellites.is_none());
        }
        _ => panic!("the position is known"),
    }
    assert!(matches!(plan_position(None, true), Anchor::Acquire));
    assert!(matches!(plan_position(None, false), Anchor::Unknown));
}
