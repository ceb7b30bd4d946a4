//! The single-slot handoff between capture and inference.
//!
//! The queue itself never waits: [`FrameQueue::put`] and [`FrameQueue::take`] say when
//! their caller has to, and the caller sleeps and tries again.

use vstd::prelude::*;

use crate::types::Frame;

verus! {

/// What became of a frame that was put into the queue.
pub enum Put {
    /// The frame is in the slot.
    Stored,
    /// The slot is occupied and must be drained first. The frame comes back.
    Full(Frame),
}

/// What a consumer finds in the queue.
pub enum Take {
    /// The waiting frame.
    Ready(Frame),
    /// Nothing is waiting, and nothing more is coming.
    Ended,
    /// Nothing is waiting yet.
    Empty,
}

/// The state of a queue.
pub struct QueueState {
    /// The waiting frame.
    pub slot: Option<Frame>,
    /// Whether the source has ended.
    pub closed: bool,
    /// Whether a new frame replaces one that is still waiting.
    pub drop_stale: bool,
}

/// A slot for one frame, so that no backlog of stale frames can build up.
///
/// A live source drops stale frames: a new frame replaces one that was not taken in time.
/// Any other source waits for the slot to be drained, and loses nothing.
pub struct FrameQueue {
    slot: Option<Frame>,
    closed: bool,
    drop_stale: bool,
}

impl View for FrameQueue {
    type V = QueueState;

    closed spec fn view(&self) -> QueueState {
        QueueState { slot: self.slot, closed: self.closed, drop_stale: self.drop_stale }
    }
}

impl QueueState {
    /// An open queue with nothing in it.
    pub open spec fn fresh(drop_stale: bool) -> QueueState {
        QueueState { slot: None, closed: false, drop_stale }
    }

    /// Whether a frame can be put in without waiting.
    pub open spec fn accepts(self) -> bool {
        self.drop_stale || self.slot is None
    }

    /// The queue after a frame was offered to it.
    pub open spec fn after_put(self, frame: Frame) -> QueueState {
        if self.accepts() {
            QueueState { slot: Some(frame), ..self }
        } else {
            self
        }
    }

    /// The queue after its slot was drained.
    pub open spec fn after_take(self) -> QueueState {
        QueueState { slot: None, ..self }
    }

    /// The queue after its source ended.
    pub open spec fn after_close(self) -> QueueState {
        QueueState { closed: true, ..self }
    }
}

impl FrameQueue {
    /// An empty queue. `drop_stale` says whether a new frame replaces a waiting one.
    pub fn new(drop_stale: bool) -> (queue: FrameQueue)
        ensures
            queue@ == QueueState::fresh(drop_stale),
    {
        FrameQueue { slot: None, closed: false, drop_stale }
    }

    /// Offers a frame. A queue that drops stale frames always stores it; any other hands it
    /// back for as long as an earlier frame is waiting, whether the queue is closed or not.
    pub fn put(&mut self, frame: Frame) -> (outcome: Put)
        ensures
            final(self)@ == old(self)@.after_put(frame),
            old(self)@.accepts() ==> outcome == Put::Stored,
            !old(self)@.accepts() ==> outcome == Put::Full(frame),
    {
        if !self.drop_stale && self.slot.is_some() {
            return Put::Full(frame);
        }
        self.slot = Some(frame);
        Put::Stored
    }

    /// Takes the waiting frame, even out of a closed queue. An empty queue says whether
    /// more is to come.
    pub fn take(&mut self) -> (outcome: Take)
        ensures
            final(self)@ == old(self)@.after_take(),
            outcome == (match old(self)@.slot {
                Some(frame) => Take::Ready(frame),
                None => if old(self)@.closed {
                    Take::Ended
                } else {
                    Take::Empty
                },
            }),
    {
        match self.slot.take() {
            Some(frame) => Take::Ready(frame),
            None => if self.closed {
                Take::Ended
            } else {
                Take::Empty
            },
        }
    }

    /// Signals that no more frames are coming. A waiting frame stays.
    pub fn close(&mut self)
        ensures
            final(self)@ == old(self)@.after_close(),
    {
        self.closed = true;
    }
}

/// One call of a queue's method.
pub enum QueueOp {
    Put(Frame),
    Take,
    Close,
}

/// The state of a queue after a run of calls on a fresh one.
pub open spec fn state_after(drop_stale: bool, ops: Seq<QueueOp>) -> QueueState
    decreases ops.len(),
{
    if ops.len() == 0 {
        QueueState::fresh(drop_stale)
    } else {
        let before = state_after(drop_stale, ops.drop_last());
        match ops.last() {
            QueueOp::Put(frame) => before.after_put(frame),
            QueueOp::Take => before.after_take(),
            QueueOp::Close => before.after_close(),
        }
    }
}

/// The frames that a run of calls stored, in the order of their storing.
pub open spec fn stored(drop_stale: bool, ops: Seq<QueueOp>) -> Seq<Frame>
    decreases ops.len(),
{
    if ops.len() == 0 {
        Seq::empty()
    } else {
        let earlier = stored(drop_stale, ops.drop_last());
        let before = state_after(drop_stale, ops.drop_last());
        match ops.last() {
            QueueOp::Put(frame) if before.accepts() => earlier.push(frame),
            _ => earlier,
        }
    }
}

/// The positions, among the stored frames, of those that a run of calls took out.
pub open spec fn taken(drop_stale: bool, ops: Seq<QueueOp>) -> Seq<int>
    decreases ops.len(),
{
    if ops.len() == 0 {
        Seq::empty()
    } else {
        let earlier = taken(drop_stale, ops.drop_last());
        let before = state_after(drop_stale, ops.drop_last());
        match (ops.last(), before.slot) {
            (QueueOp::Take, Some(_)) => earlier.push(
                stored(drop_stale, ops.drop_last()).len() - 1,
            ),
            _ => earlier,
        }
    }
}

/// What is waiting is always the frame stored last. Frames come out in the order in which
/// they were stored, and none comes out twice.
pub proof fn law_frames_come_out_in_order(drop_stale: bool, ops: Seq<QueueOp>)
    ensures
        state_after(drop_stale, ops).slot matches Some(frame) ==> {
            &&& stored(drop_stale, ops).len() > 0
            &&& frame == stored(drop_stale, ops).last()
            &&& forall|i: int|
                0 <= i < taken(drop_stale, ops).len() ==> #[trigger] taken(drop_stale, ops)[i]
                    < stored(drop_stale, ops).len() - 1
        },
        forall|i: int|
            0 <= i < taken(drop_stale, ops).len() ==> 0 <= #[trigger] taken(drop_stale, ops)[i]
                < stored(drop_stale, ops).len(),
        forall|i: int, j: int|
            0 <= i < j < taken(drop_stale, ops).len() ==> #[trigger] taken(drop_stale, ops)[i]
                < #[trigger] taken(drop_stale, ops)[j],
    decreases ops.len(),
{
    if ops.len() > 0 {
        let rest = ops.drop_last();
        law_frames_come_out_in_order(drop_stale, rest);
        let before = taken(drop_stale, rest);
        let after = taken(drop_stale, ops);
        assert forall|i: int| 0 <= i < after.len() implies #[trigger] after[i] == (if i
            < before.len() {
            before[i]
        } else {
            stored(drop_stale, rest).len() - 1
        }) by {}
    }
}

/// A queue that does not drop stale frames loses none: every stored frame was taken, in
/// order, but for the one that is waiting.
pub proof fn law_backpressure_loses_nothing(ops: Seq<QueueOp>)
    ensures
        taken(false, ops).len() + (if state_after(false, ops).slot is Some {
            1int
        } else {
            0int
        }) == stored(false, ops).len(),
        forall|i: int| 0 <= i < taken(false, ops).len() ==> #[trigger] taken(false, ops)[i] == i,
    decreases ops.len(),
{
    if ops.len() > 0 {
        law_backpressure_loses_nothing(ops.drop_last());
        law_mode_is_kept(false, ops.drop_last());
    }
}

/// A queue that drops stale frames stores every frame it is offered, and the next take
/// gives the newest.
pub proof fn law_live_take_gives_the_newest(ops: Seq<QueueOp>, frame: Frame)
    ensures
        state_after(true, ops.push(QueueOp::Put(frame))).slot == Some(frame),
        stored(true, ops.push(QueueOp::Put(frame))) == stored(true, ops).push(frame),
{
    assert(ops.push(QueueOp::Put(frame)).drop_last() =~= ops);
    law_mode_is_kept(true, ops);
}

/// No call changes whether a queue drops stale frames, and a closed queue stays closed.
pub proof fn law_mode_is_kept(drop_stale: bool, ops: Seq<QueueOp>)
    ensures
        state_after(drop_stale, ops).drop_stale == drop_stale,
        state_after(drop_stale, ops).closed <==> exists|i: int|
            0 <= i < ops.len() && #[trigger] ops[i] == QueueOp::Close,
    decreases ops.len(),
{
    if ops.len() > 0 {
        let rest = ops.drop_last();
        law_mode_is_kept(drop_stale, rest);
        if state_after(drop_stale, rest).closed {
            let i = choose|i: int| 0 <= i < rest.len() && #[trigger] rest[i] == QueueOp::Close;
            assert(ops[i] == QueueOp::Close);
        }
        if state_after(drop_stale, ops).closed && ops.last() == QueueOp::Close {
            assert(ops[ops.len() - 1] == QueueOp::Close);
        }
        if exists|i: int| 0 <= i < ops.len() && #[trigger] ops[i] == QueueOp::Close {
            let i = choose|i: int| 0 <= i < ops.len() && #[trigger] ops[i] == QueueOp::Close;
            if i < ops.len() - 1 {
                assert(rest[i] == QueueOp::Close);
            }
        }
    }
}

/// Closing discards nothing: a frame that was waiting when the source ended is still
/// handed out, and only then does the queue report the end.
pub proof fn law_closing_keeps_the_waiting_frame(state: QueueState)
    ensures
        state.after_close().slot == state.slot,
        state.after_close().after_take().slot is None,
        state.after_close().after_take().closed,
{
}

} // verus!
