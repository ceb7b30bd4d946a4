use drone_detection_pipeline::queue::{FrameQueue, Put, Take};
use drone_detection_pipeline::types::Frame;

fn frame(seq: u64) -> Frame {
    Frame { width: 1, height: 1, data: vec![1, 2, 3], seq, captured_at: seq as u128 * 10 }
}

fn taken(queue: &mut FrameQueue) -> Option<u64> {
    match queue.take() {
        Take::Ready(f) => Some(f.seq),
        _ => None,
    }
}

#[test]
fn fresh_queue_is_empty_and_open() {
    let mut queue = FrameQueue::new(true);
    assert!(matches!(queue.take(), Take::Empty));
}

#[test]
fn live_queue_replaces_a_stale_frame() {
    let mut queue = FrameQueue::new(true);
    assert!(matches!(queue.put(frame(1)), Put::Stored));
    assert!(matches!(queue.put(frame(2)), Put::Stored));
    assert_eq!(taken(&mut queue), Some(2));
    assert!(matches!(queue.take(), Take::Empty));
}

#[test]
fn backpressured_queue_hands_the_frame_back() {
    let mut queue = FrameQueue::new(false);
    assert!(matches!(queue.put(frame(1)), Put::Stored));
    match queue.put(frame(2)) {
        Put::Full(f) => assert_eq!(f.seq, 2),
        Put::Stored => panic!("the slot was occupied"),
    }
    assert_eq!(taken(&mut queue), Some(1));
    assert!(matches!(queue.put(frame(2)), Put::Stored));
    assert_eq!(taken(&mut queue), Some(2));
}

#[test]
fn backpressure_loses_nothing() {
    let mut queue = FrameQueue::new(false);
    let mut out: Vec<u64> = Vec::new();
    for seq in 0..20 {
        let mut pending = frame(seq);
        loop {
            match queue.put(pending) {
                Put::Stored => break,
                Put::Full(f) => {
                    pending = f;
                    out.push(taken(&mut queue).unwrap());
                }
            }
        }
    }
    out.push(taken(&mut queue).unwrap());
    assert_eq!(out, (0..20).collect::<Vec<u64>>());
}

#[test]
fn closing_keeps_the_waiting_frame() {
    let mut queue = FrameQueue::new(false);
    queue.put(frame(9));
    queue.close();
    assert!(matches!(queue.put(frame(10)), Put::Full(_)));
    assert_eq!(taken(&mut queue), Some(9));
    assert!(matches!(queue.take(), Take::Ended));
    assert!(matches!(queue.take(), Take::Ended));
}

#[test]
fn closed_queue_still_stores_into_a_free_slot() {
    let mut queue = FrameQueue::new(true);
    queue.close();
    assert!(matches!(queue.put(frame(3)), Put::Stored));
    assert_eq!(taken(&mut queue), Some(3));
    assert!(matches!(queue.take(), Take::Ended));
}

#[test]
fn frames_are_handed_over_unchanged() {
    let mut queue = FrameQueue::new(true);
    let sent = frame(75);
    let copy = sent.clone();
    queue.put(sent);
    match queue.take() {
        Take::Ready(f) => {
            assert_eq!((f.width, f.height, f.seq), (copy.width, copy.height, copy.seq));
            assert_eq!(f.captured_at, 750);
            assert_eq!(f.data, copy.data);
        }
        _ => panic!("a frame was waiting"),
    }
}
