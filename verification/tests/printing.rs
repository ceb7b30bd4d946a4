use drone_detection_pipeline::number::Real;
use drone_detection_pipeline::report::{
    class_name, mode_text, no_position_line, position_line, report_lines, TrackNumbers,
    DRONE_CLASS_INDEX,
};
use drone_detection_pipeline::text::{ends_with, is_blank, push_decimal, same, trim};
use drone_detection_pipeline::types::{DetectionResult, Frame, Track};

fn track(id: u64, class_id: usize) -> Track {
    let zero = Real::zero();
    Track {
        id,
        class_id,
        is_drone: class_id == DRONE_CLASS_INDEX,
        confidence: zero,
        x: zero,
        y: zero,
        w: zero,
        h: zero,
        vx: zero,
        vy: zero,
        hits: 1,
        misses: 0,
        confirmed: true,
        recent_classes: vec![class_id],
    }
}

fn numbers() -> TrackNumbers {
    let n = |x: f32| format!("{x:.0}");
    TrackNumbers {
        confidence: format!("{:.2}", 0.876f32),
        cx: n(320.0),
        cy: n(200.25),
        vx: n(-12.0),
        vy: n(3.0),
        px: n(296.0),
        py: n(206.0),
    }
}

fn result(seq: u64, tracks: Vec<Track>) -> DetectionResult {
    let frame = Frame { width: 1, height: 1, data: vec![0, 0, 0], seq, captured_at: 0 };
    DetectionResult::new(frame, Vec::new(), tracks)
}

#[test]
fn quiet_frames_print_nothing() {
    assert!(report_lines(&result(5, Vec::new()), &Vec::new()).is_empty());
}

#[test]
fn objects_are_listed() {
    let lines = report_lines(
        &result(75, vec![track(3, 2), track(1234, 7)]),
        &vec![numbers(), numbers()],
    );
    assert_eq!(lines, vec![
        "seq     75 | 2 object(s), 1 drone(s)",
        "    #3   drone      [DRONE] conf=0.88 at=(320,200) v=(-12,3)px/s pred@2s=(296,206)",
        "    #1234 ?          [not-drone] conf=0.88 at=(320,200) v=(-12,3)px/s pred@2s=(296,206)",
    ]);
}

#[test]
fn long_numbers_are_not_cut() {
    let lines = report_lines(&result(1234567, vec![track(1, 3)]), &vec![numbers()]);
    assert_eq!(lines[0], "seq 1234567 | 1 object(s), 0 drone(s)");
    assert!(lines[1].starts_with("    #1   helicopter [not-drone]"));
}

#[test]
fn classes_have_names() {
    let names: Vec<&str> = (0..5).map(class_name).collect();
    assert_eq!(names, vec!["airplane", "bird", "drone", "helicopter", "?"]);
    assert_eq!(class_name(DRONE_CLASS_INDEX), "drone");
}

#[test]
fn positions_are_printed() {
    assert_eq!(
        position_line("48.117300", "11.516600", Some(8)),
        "position: 48.117300, 11.516600 (8 satellites)"
    );
    assert_eq!(position_line("1.000000", "2.000000", None), "position: 1.000000, 2.000000 (manual)");
    assert_eq!(no_position_line(), "postion: unknown -- detection runs, dashboard has no anchor");
    assert_eq!(mode_text(true), "live (dropping stale frames)");
    assert_eq!(mode_text(false), "backtest (every frame, backpressured)");
}

#[test]
fn decimals_agree_with_the_formatter() {
    for n in [0u64, 7, 10, 99, 100, 1920, 4294967296, u64::MAX] {
        let mut text = String::from("n=");
        push_decimal(&mut text, n);
        assert_eq!(text, format!("n={n}"));
    }
}

#[test]
fn white_space_is_that_of_unicode() {
    for u in 0..=0x10ffffu32 {
        if let Some(c) = char::from_u32(u) {
            assert_eq!(is_blank(c), c.is_whitespace(), "{u:x}");
        }
    }
}

#[test]
fn trimming_agrees_with_the_standard() {
    for text in ["", " ", "a", " a b\t\r\n", "\u{2003}x\u{85}", "\u{200b} y"] {
        assert_eq!(trim(text), text.trim());
    }
}

#[test]
fn endings_and_equality() {
    assert!(ends_with("a.png", ".png") && ends_with(".png", ".png") && ends_with("x", ""));
    assert!(!ends_with("png", ".png") && !ends_with("a.pnG", ".png"));
    assert!(same("caf\u{e9}", "caf\u{e9}") && !same("a", "b") && !same("a", "ab"));
}
