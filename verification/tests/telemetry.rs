use crossbeam_channel::bounded;
use drone_detection_pipeline::net::{
    extract, header, telementry_line, Admission, ClientSlot, Rendered, Telementry,
    TelementrySink,
};
use drone_detection_pipeline::number::Real;
use drone_detection_pipeline::track::Center;
use drone_detection_pipeline::types::{DetectionResult, Frame, Track};

fn num(x: f32) -> Real {
    Real { bits: x.to_bits() }
}

fn track(id: u64, is_drone: bool) -> Track {
    Track {
        id,
        class_id: if is_drone { 2 } else { 1 },
        is_drone,
        confidence: num(0.9),
        x: num(1.0),
        y: num(2.0),
        w: num(3.0),
        h: num(4.0),
        vx: num(5.0),
        vy: num(-6.0),
        hits: 3,
        misses: 0,
        confirmed: true,
        recent_classes: vec![2],
    }
}

fn telemetry(n: usize) -> Telementry {
    Telementry { total_objects: n, drone_count: 0, objects: Vec::new() }
}

fn rendered(px: &str, py: &str, vx: &str, vy: &str) -> Rendered {
    Rendered {
        px: px.to_string(),
        py: py.to_string(),
        vx: vx.to_string(),
        vy: vy.to_string(),
    }
}

#[test]
fn extract_takes_what_the_dashboard_draws() {
    let frame = Frame { width: 1, height: 1, data: vec![0, 0, 0], seq: 1, captured_at: 2 };
    let result =
        DetectionResult::new(frame, Vec::new(), vec![track(4, true), track(9, false)]);
    let centers =
        vec![Center { x: num(2.5), y: num(4.0) }, Center { x: num(7.0), y: num(8.0) }];
    let t = extract(&result, &centers);
    assert_eq!((t.total_objects, t.drone_count), (2, 1));
    assert_eq!(
        t.objects,
        vec![
            (4, true, num(2.5), num(4.0), num(5.0), num(-6.0)),
            (9, false, num(7.0), num(8.0), num(5.0), num(-6.0)),
        ]
    );
}

#[test]
fn offer_never_blocks() {
    let (tx, rx) = bounded::<Telementry>(1);
    let sink = TelementrySink::new(tx);
    sink.offer(telemetry(1));
    assert_eq!(rx.len(), 1);
    // The channel is full: the second piece is dropped, and the first stays.
    sink.offer(telemetry(2));
    assert_eq!(rx.len(), 1);
    assert_eq!(rx.try_recv().unwrap().total_objects, 1);
    assert!(rx.try_recv().is_err());
    sink.offer(telemetry(3));
    assert_eq!(rx.try_recv().unwrap().total_objects, 3);
    // Nobody receives any more.
    drop(rx);
    sink.offer(telemetry(4));
}

#[test]
fn header_is_one_line_of_json() {
    let line = header("48.117300", "-11.516600", 640, 400);
    assert_eq!(line, "{\"lat\":48.117300,\"lon\":-11.516600,\"w\":640,\"h\":400}\n");
}

#[test]
fn telemetry_is_one_line_of_json() {
    let t = Telementry {
        total_objects: 2,
        drone_count: 1,
        objects: vec![
            (4, true, num(0.0), num(0.0), num(0.0), num(0.0)),
            (u64::MAX, false, num(0.0), num(0.0), num(0.0), num(0.0)),
        ],
    };
    let numbers = vec![rendered("12", "34", "-5", "0"), rendered("1", "2", "3", "4")];
    assert_eq!(
        telementry_line(&t, &numbers),
        "{\"n\":2,\"d\":1,\"o\":[[4,1,12,34,-5,0],[18446744073709551615,0,1,2,3,4]]}\n"
    );
}

#[test]
fn telemetry_without_objects() {
    assert_eq!(telementry_line(&telemetry(0), &Vec::new()), "{\"n\":0,\"d\":0,\"o\":[]}\n");
}

#[test]
fn second_client_is_refused() {
    let mut slot = ClientSlot::new();
    let header = header("1.000000", "2.000000", 640, 400);
    assert!(matches!(slot.receive(&header), Admission::Served(first) if first == header));
    for _ in 0..2 {
        let refused = slot.receive(&header);
        assert!(matches!(refused, Admission::Refused(r) if r == "{\"error\":\"busy\"}\n"));
    }
    assert!(slot.drained(None));
    assert!(matches!(slot.receive(&header), Admission::Served(first) if first == header));
}

#[test]
fn next_client_starts_clean() {
    let (tx, rx) = bounded::<Telementry>(4);
    let sink = TelementrySink::new(tx);
    let mut slot = ClientSlot::new();
    assert!(matches!(slot.receive("h\n"), Admission::Served(_)));
    for n in 0..3 {
        sink.offer(telemetry(n));
    }
    assert_eq!(rx.try_recv().unwrap().total_objects, 0);
    // The session ends with two pieces left over.
    assert!(!slot.clean(&rx));
    assert!(matches!(slot.receive("h\n"), Admission::Refused(_)));
    assert!(!slot.clean(&rx));
    assert!(slot.busy);
    assert!(slot.clean(&rx));
    assert!(!slot.busy);
    sink.offer(telemetry(7));
    assert!(matches!(slot.receive("h\n"), Admission::Served(first) if first == "h\n"));
    assert_eq!(rx.try_recv().unwrap().total_objects, 7);
    drop(sink);
    assert!(slot.clean(&rx));
}

#[test]
fn leftover_telemetry_keeps_the_slot() {
    let mut slot = ClientSlot { busy: true };
    assert!(!slot.drained(Some(telemetry(1))));
    assert!(slot.busy);
    assert!(slot.drained(None));
    assert!(!slot.busy);
}
