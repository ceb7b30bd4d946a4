use drone_detection_pipeline::capture::{
    capture_time, pipeline_for, rgba_to_rgb, CaptureLoop, Idle, Source,
};
use drone_detection_pipeline::cli::select_source;

fn webcam() -> Source {
    Source::Camera {
        device: "/dev/video0".to_string(),
        width: 1280,
        height: 720,
        fps: 30,
        format: None,
        scale_to: None,
    }
}

#[test]
fn only_cameras_drop_stale_frames() {
    assert!(webcam().drop_stale());
    assert!(!Source::VideoFile("a.mp4".to_string()).drop_stale());
    assert!(!Source::Image("a.png".to_string()).drop_stale());
}

#[test]
fn pipeline_of_a_webcam() {
    assert_eq!(
        pipeline_for(&webcam()),
        "v4l2src device=/dev/video0 ! video/x-raw,width=1280,height=720,framerate=30/1 \
         ! videoconvert ! video/x-raw,format=RGBA \
         ! appsink name=sink drop=true max-buffers=1 sync=false"
    );
}

#[test]
fn pipeline_of_a_camera_with_a_format() {
    let source = Source::Camera {
        device: "/dev/video1".to_string(),
        width: 1920,
        height: 1200,
        fps: 60,
        format: Some("UYVY".to_string()),
        scale_to: None,
    };
    assert_eq!(
        pipeline_for(&source),
        "v4l2src device=/dev/video1 \
         ! video/x-raw,format=UYVY,width=1920,height=1200,framerate=60/1 \
         ! videoconvert ! video/x-raw,format=RGBA \
         ! appsink name=sink drop=true max-buffers=1 sync=false"
    );
}

#[test]
fn pipeline_of_the_board_camera_scales_in_hardware() {
    assert_eq!(
        pipeline_for(&select_source("camera", true)),
        "v4l2src device=/dev/video0 \
         ! video/x-raw,format=UYVY,width=1920,height=1200,framerate=30/1 \
         ! nvvidconv ! video/x-raw(memory:NVMM),format=NV12,width=640,height=400 \
         ! nvvidconv ! video/x-raw,format=RGBA \
         ! appsink name=sink drop=true max-buffers=1 sync=false"
    );
}

#[test]
fn caps_have_no_white_space() {
    let text = pipeline_for(&select_source("camera", true));
    let elements: Vec<&str> = text.split(" ! ").collect();
    assert_eq!(elements.len(), 7);
    for caps in [elements[1], elements[3], elements[5]] {
        assert!(caps.starts_with("video/x-raw") && !caps.contains(char::is_whitespace));
    }
}

#[test]
fn pipeline_of_a_video() {
    assert_eq!(
        pipeline_for(&Source::VideoFile("flights/a b.mp4".to_string())),
        "filesrc location=\"flights/a b.mp4\" ! decodebin ! videoconvert \
         ! video/x-raw,format=RGBA \
         ! appsink name=sink drop=false max-buffers=4 sync=false"
    );
}

#[test]
fn pipeline_of_a_picture() {
    assert_eq!(
        pipeline_for(&Source::Image("x.png".to_string())),
        "filesrc location=\"x.png\" ! decodebin ! imagefreeze ! videoconvert \
         ! video/x-raw,format=RGBA \
         ! appsink name=sink drop=false max-buffers=1 sync=false"
    );
}

#[test]
fn only_live_pipelines_drop_frames() {
    for name in ["camera", "a.mp4", "a.png", "b.JPG", "c.jpeg"] {
        for board in [false, true] {
            let source = select_source(name, board);
            let text = pipeline_for(&source);
            assert_eq!(text.contains("drop=true"), source.drop_stale());
            assert_eq!(text.contains("drop=false"), !source.drop_stale());
        }
    }
}

#[test]
fn alpha_is_stripped() {
    let rgba = [1, 2, 3, 255, 4, 5, 6, 0, 7, 8, 9, 10];
    assert_eq!(rgba_to_rgb(&rgba, 3), vec![1, 2, 3, 4, 5, 6, 7, 8, 9]);
    assert_eq!(rgba_to_rgb(&rgba, 1), vec![1, 2, 3]);
    assert!(rgba_to_rgb(&rgba, 0).is_empty());
}

#[test]
fn presented_time_wins_over_elapsed_time() {
    assert_eq!(capture_time(Some(40_000_000), 7), 40_000_000);
    assert_eq!(capture_time(None, 7), 7);
}

#[test]
fn silence_is_given_up_after_fifteen_seconds() {
    let mut state = CaptureLoop::new();
    for _ in 0..149 {
        assert_eq!(state.on_idle(false), Idle::Retry);
    }
    assert_eq!(state.on_idle(false), Idle::GiveUp);
}

#[test]
fn sample_resets_the_wait() {
    let mut state = CaptureLoop::new();
    for _ in 0..149 {
        state.on_idle(false);
    }
    assert!(state.on_sample(1, 1, 0, &[1, 2, 3, 4]).is_some());
    assert_eq!(state.on_idle(false), Idle::Retry);
    assert_eq!(state.waited_ms, 100);
}

#[test]
fn end_of_stream_finishes() {
    let mut state = CaptureLoop::new();
    assert_eq!(state.on_idle(true), Idle::Finish);
}

#[test]
fn frames_keep_their_index_in_the_video() {
    let mut state = CaptureLoop::new();
    let rgba = [9u8; 24];
    for i in 0..76u64 {
        let frame = if i == 40 {
            state.on_sample(2, 3, 0, &rgba[..23])
        } else {
            state.on_sample(2, 3, i as u128, &rgba)
        };
        match frame {
            Some(f) => {
                assert_eq!((f.seq, f.captured_at), (i, i as u128));
                assert_eq!((f.width, f.height, f.data.len()), (2, 3, 18));
            }
            None => assert_eq!(i, 40),
        }
    }
    assert_eq!(state.seq, 76);
}

#[test]
fn longer_buffers_are_cut() {
    let mut state = CaptureLoop::new();
    let f = state.on_sample(1, 1, 5, &[1, 2, 3, 4, 5, 6]).unwrap();
    assert_eq!(f.data, vec![1, 2, 3]);
}
