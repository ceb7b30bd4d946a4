use drone_detection_pipeline::detect::{nms, Detector, Output, Placement, Provider};
use drone_detection_pipeline::letterbox::{
    capture_target, compose, letterbox, LetterboxError, INPUT_SIZE, PAD_VALUE,
};
use drone_detection_pipeline::number::Real;
use drone_detection_pipeline::types::{Detection, Frame};

fn num(x: f32) -> Real {
    Real { bits: x.to_bits() }
}

fn detector() -> Detector {
    Detector::new(num(0.35), num(0.45), 2, false, false, false)
}

fn det(class_id: usize, confidence: f32) -> Detection {
    Detection {
        class_id,
        confidence: num(confidence),
        x: num(0.0),
        y: num(0.0),
        w: num(1.0),
        h: num(1.0),
        is_drone: class_id == 2,
    }
}

fn table(rows: &[&[f32]]) -> Vec<Vec<Real>> {
    rows.iter().map(|r| r.iter().map(|x| num(*x)).collect()).collect()
}

#[test]
fn providers_end_with_the_processor() {
    let providers =
        |cuda, trt| Detector::new(num(0.0), num(0.0), 2, cuda, trt, false).providers;
    assert_eq!(providers(false, false), vec![Provider::Cpu]);
    assert_eq!(providers(true, false), vec![Provider::Cuda, Provider::Cpu]);
    assert_eq!(providers(false, true), vec![Provider::TensorRt, Provider::Cpu]);
    assert_eq!(
        providers(true, true),
        vec![Provider::TensorRt, Provider::Cuda, Provider::Cpu]
    );
}

#[test]
fn candidates_have_the_best_class() {
    let rows: Vec<Vec<f32>> = vec![
        vec![100.0, 200.0, 300.0],
        vec![101.0, 201.0, 301.0],
        vec![10.0, 20.0, 30.0],
        vec![11.0, 21.0, 31.0],
        vec![0.2, 0.35, 0.1],
        vec![0.1, 0.2, f32::NAN],
        vec![0.9, 0.35, 0.34],
    ];
    let values: Vec<Real> = rows.iter().flatten().map(|x| num(*x)).collect();
    let output = Output { values, rows: 7, anchors: 3 };
    let found = detector().candidates(&output);
    assert_eq!(found.len(), 2);
    assert_eq!((found[0].class_id, found[0].confidence), (2, num(0.9)));
    assert_eq!((found[1].class_id, found[1].confidence), (0, num(0.35)));
    assert_eq!((found[1].cx, found[1].cy), (num(200.0), num(201.0)));
    assert_eq!((found[1].bw, found[1].bh), (num(20.0), num(21.0)));
}

#[test]
fn anchors_without_a_positive_score_fall_to_class_zero() {
    let values: Vec<Real> =
        [1.0, 2.0, 3.0, 4.0, -0.5, -0.25].iter().map(|x| num(*x)).collect();
    let output = Output { values, rows: 6, anchors: 1 };
    let keep_all = Detector::new(num(0.0), num(0.45), 2, false, false, false);
    let found = keep_all.candidates(&output);
    assert_eq!((found[0].class_id, found[0].confidence), (0, num(0.0)));
    assert!(detector().candidates(&output).is_empty());
}

#[test]
fn suppression_drops_the_weaker_of_one_class() {
    let mut dets = vec![det(2, 0.5), det(2, 0.9), det(2, 0.7)];
    let overlaps = table(&[&[1.0, 0.6, 0.0], &[0.6, 1.0, 0.2], &[0.0, 0.2, 1.0]]);
    nms(&mut dets, &overlaps, num(0.45));
    let left: Vec<Real> = dets.iter().map(|d| d.confidence).collect();
    assert_eq!(left, vec![num(0.9), num(0.7)]);
}

#[test]
fn suppression_spares_other_classes() {
    let mut dets = vec![det(1, 0.6), det(2, 0.9)];
    let overlaps = table(&[&[1.0, 1.0], &[1.0, 1.0]]);
    nms(&mut dets, &overlaps, num(0.45));
    assert_eq!(dets.iter().map(|d| d.class_id).collect::<Vec<_>>(), vec![2, 1]);
}

#[test]
fn dropped_detection_suppresses_nothing() {
    let mut dets = vec![det(2, 0.9), det(2, 0.8), det(2, 0.7)];
    let overlaps = table(&[&[1.0, 0.6, 0.1], &[0.6, 1.0, 0.6], &[0.1, 0.6, 1.0]]);
    nms(&mut dets, &overlaps, num(0.45));
    let left: Vec<Real> = dets.iter().map(|d| d.confidence).collect();
    assert_eq!(left, vec![num(0.9), num(0.7)]);
}

#[test]
fn overlap_at_the_threshold_is_kept() {
    let mut dets = vec![det(2, 0.9), det(2, 0.8)];
    let overlaps = table(&[&[1.0, 0.45], &[0.45, 1.0]]);
    nms(&mut dets, &overlaps, num(0.45));
    assert_eq!(dets.len(), 2);
}

#[test]
fn suppression_of_nothing_and_of_one() {
    let mut none: Vec<Detection> = Vec::new();
    nms(&mut none, &Vec::new(), num(0.45));
    assert!(none.is_empty());
    let mut one = vec![det(2, f32::NAN)];
    nms(&mut one, &table(&[&[1.0]]), num(0.45));
    assert_eq!(one.len(), 1);
}

#[test]
fn detections_are_located_and_marked() {
    let values: Vec<Real> = [5.0, 6.0, 5.0, 6.0, 2.0, 2.0, 2.0, 2.0, 0.4, 0.1, 0.1, 0.2, 0.1, 0.9]
        .iter()
        .map(|x| num(*x))
        .collect();
    let output = Output { values, rows: 7, anchors: 2 };
    let d = detector();
    let found = d.candidates(&output);
    let places: Vec<Placement> = (0..found.len())
        .map(|i| Placement {
            x: num(i as f32),
            y: num(10.0 + i as f32),
            w: num(2.0),
            h: num(3.0),
        })
        .collect();
    let dets = d.detect(&found, &places, &table(&[&[1.0, 0.9], &[0.9, 1.0]]));
    assert_eq!(dets.len(), 2);
    assert_eq!((dets[0].class_id, dets[0].is_drone), (2, true));
    assert_eq!((dets[0].x, dets[0].y), (num(1.0), num(11.0)));
    assert_eq!((dets[1].class_id, dets[1].is_drone), (0, false));
    assert_eq!((dets[1].w, dets[1].h), (num(2.0), num(3.0)));
}

fn frame(width: usize, height: usize) -> Frame {
    let data = (0..width * height * 3).map(|i| (i % 251) as u8).collect();
    Frame { width, height, data, seq: 0, captured_at: 0 }
}

fn place(c: usize, y: usize, x: usize) -> usize {
    (c * INPUT_SIZE + y) * INPUT_SIZE + x
}

#[test]
fn composed_picture_lies_in_the_middle() {
    let picture: Vec<u8> = vec![1, 2, 3, 4, 5, 6];
    let l = compose(&picture, 2, 1);
    assert_eq!((l.pad_x, l.pad_y), (319, 319));
    assert_eq!(l.pixels.len(), 3 * 640 * 640);
    for c in 0..3 {
        assert_eq!(l.pixels[place(c, 319, 319)], 1 + c as u8);
        assert_eq!(l.pixels[place(c, 319, 320)], 4 + c as u8);
        assert_eq!(l.pixels[place(c, 319, 321)], PAD_VALUE);
        assert_eq!(l.pixels[place(c, 318, 319)], 114);
    }
    assert_eq!(l.pixels.iter().filter(|p| **p != 114).count(), 6);
}

#[test]
fn frame_in_model_size_is_not_resampled() {
    let f = frame(640, 400);
    let l = letterbox(&f, 640, 400).unwrap();
    assert_eq!((l.pad_x, l.pad_y), (0, 120));
    for (y, x) in [(0usize, 0usize), (17, 3), (399, 639), (200, 320)] {
        for c in 0..3 {
            assert_eq!(l.pixels[place(c, y + 120, x)], f.data[(y * 640 + x) * 3 + c]);
        }
    }
    assert_eq!(l.pixels[place(0, 119, 0)], PAD_VALUE);
    assert_eq!(l.pixels[place(0, 520, 0)], PAD_VALUE);
}

#[test]
fn frame_is_resampled_with_a_triangle_filter() {
    let f = frame(1280, 720);
    let l = letterbox(&f, 640, 360).unwrap();
    let source = image::RgbImage::from_raw(1280, 720, f.data.clone()).unwrap();
    let expected =
        image::imageops::resize(&source, 640, 360, image::imageops::FilterType::Triangle);
    for y in 0..360u32 {
        for x in 0..640u32 {
            let p = expected.get_pixel(x, y);
            for c in 0..3 {
                assert_eq!(l.pixels[place(c, y as usize + 140, x as usize)], p[c]);
            }
        }
    }
}

#[test]
fn uniform_frame_stays_uniform() {
    let f = Frame { width: 100, height: 50, data: vec![200; 15000], seq: 0, captured_at: 0 };
    let l = letterbox(&f, 640, 320).unwrap();
    assert_eq!(l.pixels.iter().filter(|p| **p == 200).count(), 3 * 640 * 320);
    assert_eq!(l.pixels.iter().filter(|p| **p == 114).count(), 3 * 640 * 320);
}

#[test]
fn short_frame_is_refused() {
    let mut f = frame(4, 4);
    f.data.pop();
    let error = match letterbox(&f, 640, 640) {
        Ok(_) => panic!("a byte is missing"),
        Err(e) => e,
    };
    assert_eq!(error, LetterboxError::ShortFrame);
    assert_eq!(error.message(), "frame data did not match width*height*3");
}

#[test]
fn bytes_beyond_the_frame_are_not_looked_at() {
    let f = frame(640, 2);
    let mut longer = f.clone();
    longer.data.push(9);
    let a = letterbox(&f, 640, 2).unwrap();
    let b = letterbox(&longer, 640, 2).unwrap();
    assert_eq!(a.pixels, b.pixels);
}

#[test]
fn capture_target_fills_the_longer_side() {
    assert_eq!(capture_target(1920, 1200), (640, 400));
    assert_eq!(capture_target(1280, 720), (640, 360));
    assert_eq!(capture_target(1200, 1920), (400, 640));
    assert_eq!(capture_target(500, 500), (640, 640));
    assert_eq!(capture_target(3, 2), (640, 427));
    assert_eq!(capture_target(u32::MAX, 1), (640, 0));
}
