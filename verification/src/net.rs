//! Telemetry for a dashboard: what is sent of a frame, in which text, and to whom.

use vstd::prelude::*;
use vstd::string::StringExecFns;

use crate::number::Real;
use crate::text::{decimal, push_decimal};
use crate::track::Center;
use crate::types::DetectionResult;

verus! {

/// What the dashboard is told of one frame. The frame itself stays behind.
pub struct Telementry {
    pub total_objects: usize,
    pub drone_count: usize,
    /// For each object its identity, whether it is a drone, its position and its velocity.
    pub objects: Vec<(u64, bool, Real, Real, Real, Real)>,
}

/// The numbers of one object as text, rounded to whole pixels.
pub struct Rendered {
    pub px: String,
    pub py: String,
    pub vx: String,
    pub vy: String,
}

/// What can become of telemetry that is offered.
pub enum Offered {
    /// It is on its way.
    Sent,
    /// The dashboard is behind; the telemetry is dropped.
    Full(Telementry),
    /// Nobody sends telemetry any more; it is dropped.
    Disconnected(Telementry),
}

/// The sending side of a channel of the `crossbeam_channel` crate.
#[verifier::external_type_specification]
#[verifier::external_body]
#[verifier::reject_recursive_types(T)]
pub struct ExSender<T>(crossbeam_channel::Sender<T>);

/// The receiving side of a channel of the `crossbeam_channel` crate.
#[verifier::external_type_specification]
#[verifier::external_body]
#[verifier::reject_recursive_types(T)]
pub struct ExReceiver<T>(crossbeam_channel::Receiver<T>);

/// Takes telemetry without ever blocking: detection must not wait for a slow or absent
/// dashboard.
pub struct TelementrySink {
    tx: crossbeam_channel::Sender<Telementry>,
}

/// Calls `crossbeam_channel::Sender::try_send`, which never blocks. Whether there is room
/// in the channel and whether anybody receives is up to other threads; telemetry that was
/// not sent comes back as it was.
#[verifier::external_body]
fn try_send(tx: &crossbeam_channel::Sender<Telementry>, t: Telementry) -> (outcome: Offered)
    ensures
        outcome matches Offered::Full(back) ==> back == t,
        outcome matches Offered::Disconnected(back) ==> back == t,
{
    match tx.try_send(t) {
        Ok(()) => Offered::Sent,
        Err(crossbeam_channel::TrySendError::Full(t)) => Offered::Full(t),
        Err(crossbeam_channel::TrySendError::Disconnected(t)) => Offered::Disconnected(t),
    }
}

/// Calls `crossbeam_channel::Receiver::try_recv`, which never blocks: it takes a message
/// out of the channel, or says that there is none. What it finds is up to other threads, so
/// nothing is said of it.
#[verifier::external_body]
fn try_recv(rx: &crossbeam_channel::Receiver<Telementry>) -> (left: Option<Telementry>) {
    rx.try_recv().ok()
}

/// Whether `left` is what a call gives which takes one piece of telemetry, if there is any,
/// out of the channel.
pub closed spec fn polled(
    channel: crossbeam_channel::Receiver<Telementry>,
    left: Option<Telementry>,
) -> bool {
    call_ensures(try_recv, (&channel,), left)
}

/// Whether `outcome` is one that a call gives which tries, once and without blocking, to
/// send `t` on `channel`. Which of them it is rests on the other threads.
pub closed spec fn tried(
    channel: crossbeam_channel::Sender<Telementry>,
    t: Telementry,
    outcome: Offered,
) -> bool {
    call_ensures(try_send, (&channel, t), outcome)
}

impl TelementrySink {
    /// A sink that feeds a channel.
    pub fn new(tx: crossbeam_channel::Sender<Telementry>) -> (sink: TelementrySink)
        ensures
            sink.channel() == tx,
    {
        TelementrySink { tx }
    }

    /// The channel that the sink feeds.
    pub closed spec fn channel(self) -> crossbeam_channel::Sender<Telementry> {
        self.tx
    }

    /// Offers telemetry to the channel of the sink, as well as may be: it is tried once, and
    /// whatever came of that, `offer` returns silently. Telemetry that the channel does not
    /// take at once is dropped.
    pub fn offer(&self, t: Telementry)
        ensures
            exists|outcome: Offered| #[trigger]
                tried(self.channel(), t, outcome) && (outcome is Sent || outcome == Offered::Full(t)
                    || outcome == Offered::Disconnected(t)),
    {
        let outcome = try_send(&self.tx, t);
        assert(tried(self.channel(), t, outcome));
    }
}

/// The telemetry of a result: for each track its identity, kind and velocity, and the
/// middle of its box, which `centers` holds.
pub fn extract(result: &DetectionResult, centers: &Vec<Center>) -> (t: Telementry)
    requires
        centers@.len() == result.tracks@.len(),
    ensures
        t.total_objects == result.total_objects,
        t.drone_count == result.drone_count,
        t.objects@.len() == result.tracks@.len(),
        forall|i: int|
            0 <= i < result.tracks@.len() ==> #[trigger] t.objects@[i] == (
                result.tracks@[i].id,
                result.tracks@[i].is_drone,
                centers@[i].x,
                centers@[i].y,
                result.tracks@[i].vx,
                result.tracks@[i].vy,
            ),
{
    let mut objects: Vec<(u64, bool, Real, Real, Real, Real)> = Vec::with_capacity(
        result.tracks.len(),
    );
    let mut i: usize = 0;
    while i < result.tracks.len()
        invariant
            i <= result.tracks@.len(),
            centers@.len() == result.tracks@.len(),
            objects@.len() == i,
            forall|j: int|
                0 <= j < i ==> #[trigger] objects@[j] == (
                    result.tracks@[j].id,
                    result.tracks@[j].is_drone,
                    centers@[j].x,
                    centers@[j].y,
                    result.tracks@[j].vx,
                    result.tracks@[j].vy,
                ),
        decreases result.tracks@.len() - i,
    {
        let t = &result.tracks[i];
        objects.push((t.id, t.is_drone, centers[i].x, centers[i].y, t.vx, t.vy));
        i = i + 1;
    }
    Telementry {
        total_objects: result.total_objects,
        drone_count: result.drone_count,
        objects,
    }
}

/// The line that every client gets first: the anchor of the picture, and its size.
pub open spec fn header_text(lat: Seq<char>, lon: Seq<char>, frame_w: u32, frame_h: u32) -> Seq<
    char,
> {
    "{\"lat\":"@ + lat + ",\"lon\":"@ + lon + ",\"w\":"@ + decimal(frame_w as nat) + ",\"h\":"@
        + decimal(frame_h as nat) + "}\n"@
}

/// The line that every client gets first, from the coordinates as text.
pub fn header(lat: &str, lon: &str, frame_w: u32, frame_h: u32) -> (line: String)
    ensures
        line@ == header_text(lat@, lon@, frame_w, frame_h),
{
    let mut line = String::new();
    line.append("{\"lat\":");
    line.append(lat);
    line.append(",\"lon\":");
    line.append(lon);
    line.append(",\"w\":");
    push_decimal(&mut line, frame_w as u64);
    line.append(",\"h\":");
    push_decimal(&mut line, frame_h as u64);
    line.append("}\n");
    assert(line@ =~= header_text(lat@, lon@, frame_w, frame_h));
    line
}

/// One object in a line of telemetry.
pub open spec fn object_text(id: u64, drone: bool, numbers: Rendered) -> Seq<char> {
    "["@ + decimal(id as nat) + (if drone {
        ",1,"@
    } else {
        ",0,"@
    }) + numbers.px@ + ","@ + numbers.py@ + ","@ + numbers.vx@ + ","@ + numbers.vy@ + "]"@
}

/// The first `n` objects of telemetry, with commas between them.
pub open spec fn objects_text(t: Telementry, numbers: Seq<Rendered>, n: int) -> Seq<char>
    decreases n,
{
    if n <= 0 {
        Seq::empty()
    } else {
        objects_text(t, numbers, n - 1) + (if n > 1 {
            ","@
        } else {
            Seq::empty()
        }) + object_text(t.objects@[n - 1].0, t.objects@[n - 1].1, numbers[n - 1])
    }
}

/// A line of telemetry.
pub open spec fn line_text(t: Telementry, numbers: Seq<Rendered>) -> Seq<char> {
    "{\"n\":"@ + decimal(t.total_objects as nat) + ",\"d\":"@ + decimal(t.drone_count as nat)
        + ",\"o\":["@ + objects_text(t, numbers, t.objects@.len() as int) + "]}\n"@
}

/// Appends one object.
fn push_object(line: &mut String, id: u64, drone: bool, numbers: &Rendered)
    ensures
        final(line)@ == old(line)@ + object_text(id, drone, *numbers),
{
    line.append("[");
    push_decimal(line, id);
    if drone {
        line.append(",1,");
    } else {
        line.append(",0,");
    }
    line.append(numbers.px.as_str());
    line.append(",");
    line.append(numbers.py.as_str());
    line.append(",");
    line.append(numbers.vx.as_str());
    line.append(",");
    line.append(numbers.vy.as_str());
    line.append("]");
    assert(line@ =~= old(line)@ + object_text(id, drone, *numbers));
}

/// A line of telemetry, with the numbers of its objects as text.
pub fn telementry_line(t: &Telementry, numbers: &Vec<Rendered>) -> (line: String)
    requires
        numbers@.len() == t.objects@.len(),
    ensures
        line@ == line_text(*t, numbers@),
{
    let mut line = String::new();
    line.append("{\"n\":");
    push_decimal(&mut line, t.total_objects as u64);
    line.append(",\"d\":");
    push_decimal(&mut line, t.drone_count as u64);
    line.append(",\"o\":[");
    let ghost start = line@;
    let mut i: usize = 0;
    assert(start =~= start + objects_text(*t, numbers@, 0));
    while i < t.objects.len()
        invariant
            i <= t.objects@.len(),
            numbers@.len() == t.objects@.len(),
            line@ == start + objects_text(*t, numbers@, i as int),
        decreases t.objects@.len() - i,
    {
        if i > 0 {
            line.append(",");
        }
        push_object(&mut line, t.objects[i].0, t.objects[i].1, &numbers[i]);
        i = i + 1;
        assert(line@ =~= start + objects_text(*t, numbers@, i as int));
    }
    line.append("]}\n");
    assert(line@ =~= line_text(*t, numbers@));
    line
}

/// What a client is told while another is connected.
pub open spec fn busy_text() -> Seq<char> {
    "{\"error\":\"busy\"}\n"@
}

/// The one connection that is served.
pub struct ClientSlot {
    pub busy: bool,
}

/// What becomes of a client that connects.
pub enum Admission {
    /// It is served, and gets this text first.
    Served(String),
    /// It is refused, and gets this text only.
    Refused(String),
}

/// An admission as a mathematical value.
pub enum AdmissionView {
    Served(Seq<char>),
    Refused(Seq<char>),
}

impl View for Admission {
    type V = AdmissionView;

    open spec fn view(&self) -> AdmissionView {
        match *self {
            Admission::Served(text) => AdmissionView::Served(text@),
            Admission::Refused(text) => AdmissionView::Refused(text@),
        }
    }
}

impl AdmissionView {
    /// What the client gets at once.
    pub open spec fn text(self) -> Seq<char> {
        match self {
            AdmissionView::Served(text) => text,
            AdmissionView::Refused(text) => text,
        }
    }
}

impl ClientSlot {
    /// A free slot.
    pub fn new() -> (slot: ClientSlot)
        ensures
            slot == ClientSlot::free(),
    {
        ClientSlot { busy: false }
    }

    /// A slot that nobody has.
    pub open spec fn free() -> ClientSlot {
        ClientSlot { busy: false }
    }

    /// The slot after a client connected, whether it is served or not.
    pub open spec fn claimed(self) -> ClientSlot {
        ClientSlot { busy: true }
    }

    /// What becomes of a client that connects: if nobody is served it is, and gets the
    /// header first; otherwise it is told so.
    pub open spec fn answer(self, header: Seq<char>) -> AdmissionView {
        if self.busy {
            AdmissionView::Refused(busy_text())
        } else {
            AdmissionView::Served(header)
        }
    }

    /// Receives a client: serves it, or refuses it where another is served.
    pub fn receive(&mut self, header: &str) -> (admission: Admission)
        ensures
            admission@ == old(self).answer(header@),
            *final(self) == old(self).claimed(),
    {
        if self.busy {
            Admission::Refused("{\"error\":\"busy\"}\n".to_owned())
        } else {
            self.busy = true;
            Admission::Served(header.to_owned())
        }
    }

    /// Whether a client that connects would be served.
    pub open spec fn grants(self) -> bool {
        !self.busy
    }

    /// The slot after the channel was polled once after a session: it is freed when nothing
    /// is left in the channel.
    pub open spec fn cleaned(self, left: bool) -> ClientSlot {
        if left {
            self
        } else {
            ClientSlot::free()
        }
    }

    /// Takes note of what a poll of the channel after a session brought. Telemetry that was
    /// left over from the session is dropped; once there is none, the slot is freed.
    pub fn drained(&mut self, left: Option<Telementry>) -> (freed: bool)
        ensures
            freed == left is None,
            *final(self) == old(self).cleaned(left is Some),
    {
        match left {
            Some(_) => false,
            None => {
                self.busy = false;
                true
            },
        }
    }

    /// Cleans up after a session by one step, so that the next client starts clean: polls
    /// the channel, drops what is left over, and frees the slot once nothing is. How many
    /// steps it takes is up to the threads that send.
    pub fn clean(&mut self, rx: &crossbeam_channel::Receiver<Telementry>) -> (freed: bool)
        ensures
            exists|left: Option<Telementry>| #[trigger]
                polled(*rx, left) && freed == left is None && *final(self) == old(self).cleaned(
                    left is Some,
                ),
    {
        let left = try_recv(rx);
        assert(polled(*rx, left));
        self.drained(left)
    }
}

/// What happens between the clients, the sink and the slot.
pub enum Event {
    /// A client connects.
    Connects,
    /// The channel takes in telemetry.
    Queues(Telementry),
    /// The client that is served is sent what has waited longest.
    Sends,
    /// The session of the client that is served ends.
    Ends,
    /// The channel is polled once after a session.
    Polls,
}

/// The slot, whether a client is served, and the telemetry that waits in the channel: for
/// each piece, at which event it was queued. The channel hands out what has waited longest,
/// and is found empty only when nothing waits.
pub struct Desk {
    pub slot: ClientSlot,
    pub serving: bool,
    pub waiting: Seq<int>,
}

impl Desk {
    /// What waits after the longest waiting piece was taken, if there was one.
    pub open spec fn taken(self) -> Seq<int> {
        if self.waiting.len() > 0 {
            self.waiting.drop_first()
        } else {
            self.waiting
        }
    }

    /// The desk after one more event, the one at place `at`.
    pub open spec fn after(self, event: Event, at: int) -> Desk {
        match event {
            Event::Connects => Desk {
                slot: self.slot.claimed(),
                serving: self.serving || self.slot.grants(),
                ..self
            },
            Event::Queues(_) => Desk { waiting: self.waiting.push(at), ..self },
            Event::Sends => Desk { waiting: self.taken(), ..self },
            Event::Ends => Desk { serving: false, ..self },
            Event::Polls => Desk {
                slot: self.slot.cleaned(self.waiting.len() > 0),
                waiting: self.taken(),
                ..self
            },
        }
    }

    /// Whether an event can happen: telemetry is sent, and a session ends, only while a
    /// client is served; the channel is polled only between the end of a session and the
    /// freeing of the slot.
    pub open spec fn allows(self, event: Event) -> bool {
        match event {
            Event::Sends => self.serving && self.waiting.len() > 0,
            Event::Ends => self.serving,
            Event::Polls => self.slot.busy && !self.serving,
            _ => true,
        }
    }
}

/// The desk after the events.
pub open spec fn desk_after(events: Seq<Event>) -> Desk
    decreases events.len(),
{
    if events.len() == 0 {
        Desk { slot: ClientSlot::free(), serving: false, waiting: Seq::empty() }
    } else {
        desk_after(events.drop_last()).after(events.last(), events.len() - 1)
    }
}

/// Whether every event could happen when it did.
pub open spec fn orderly(events: Seq<Event>) -> bool
    decreases events.len(),
{
    events.len() == 0 || (orderly(events.drop_last()) && desk_after(events.drop_last()).allows(
        events.last(),
    ))
}

/// How many clients were served.
pub open spec fn served(events: Seq<Event>, header: Seq<char>) -> int
    decreases events.len(),
{
    if events.len() == 0 {
        0
    } else {
        served(events.drop_last(), header) + (if events.last() is Connects && desk_after(
            events.drop_last(),
        ).slot.answer(header) is Served {
            1int
        } else {
            0int
        })
    }
}

/// How many sessions ended.
pub open spec fn ended(events: Seq<Event>) -> int
    decreases events.len(),
{
    if events.len() == 0 {
        0
    } else {
        ended(events.drop_last()) + (if events.last() is Ends {
            1int
        } else {
            0int
        })
    }
}

/// At which event the latest session ended, or -1 where none has.
pub open spec fn last_end(events: Seq<Event>) -> int
    decreases events.len(),
{
    if events.len() == 0 {
        -1
    } else if events.last() is Ends {
        events.len() - 1
    } else {
        last_end(events.drop_last())
    }
}

/// At most one client is served at any time, and while one is, every other is refused.
pub proof fn law_one_client_at_a_time(events: Seq<Event>, header: Seq<char>)
    requires
        orderly(events),
    ensures
        served(events, header) - ended(events) == (if desk_after(events).serving {
            1int
        } else {
            0int
        }),
        desk_after(events).serving ==> desk_after(events).slot.answer(header)
            == AdmissionView::Refused(busy_text()),
    decreases events.len(),
{
    if events.len() > 0 {
        law_one_client_at_a_time(events.drop_last(), header);
    }
}

/// The next client starts clean: whatever a client is sent was queued after every earlier
/// session had ended, and so is whatever waits while the slot is free.
pub proof fn law_next_client_starts_clean(events: Seq<Event>)
    requires
        orderly(events),
    ensures
        desk_after(events).allows(Event::Sends) ==> last_end(events) < desk_after(
            events,
        ).waiting[0],
        !desk_after(events).slot.busy || desk_after(events).serving ==> forall|i: int|
            0 <= i < desk_after(events).waiting.len() ==> last_end(events)
                < #[trigger] desk_after(events).waiting[i],
        forall|i: int|
            0 <= i < desk_after(events).waiting.len() ==> 0 <= #[trigger] desk_after(
                events,
            ).waiting[i] < events.len() && events[desk_after(events).waiting[i]] is Queues,
        -1 <= last_end(events) < events.len(),
        desk_after(events).serving ==> desk_after(events).slot.busy,
    decreases events.len(),
{
    if events.len() > 0 {
        let rest = events.drop_last();
        let before = desk_after(rest);
        let after = desk_after(events);
        law_next_client_starts_clean(rest);
        assert forall|i: int| 0 <= i < after.waiting.len() implies 0 <= #[trigger] after.waiting[i]
            < events.len() && events[after.waiting[i]] is Queues by {
            match events.last() {
                Event::Queues(_) => {
                    if i < before.waiting.len() {
                        assert(after.waiting[i] == before.waiting[i]);
                        assert(rest[before.waiting[i]] == events[before.waiting[i]]);
                    }
                },
                Event::Sends | Event::Polls => {
                    assert(after.waiting[i] == before.waiting[i + 1]);
                    assert(rest[before.waiting[i + 1]] == events[before.waiting[i + 1]]);
                },
                _ => {
                    assert(after.waiting[i] == before.waiting[i]);
                    assert(rest[before.waiting[i]] == events[before.waiting[i]]);
                },
            }
        }
        if !after.slot.busy || after.serving {
            assert forall|i: int| 0 <= i < after.waiting.len() implies last_end(events)
                < #[trigger] after.waiting[i] by {
                match events.last() {
                    Event::Queues(_) => {
                        if i < before.waiting.len() {
                            assert(last_end(rest) < before.waiting[i]);
                        }
                    },
                    Event::Sends => {
                        assert(last_end(rest) < before.waiting[i + 1]);
                    },
                    Event::Connects => {
                        assert(last_end(rest) < before.waiting[i]);
                    },
                    _ => {},
                }
            }
        }
    }
}

/// Once a session has ended, and the channel was found empty, the next client to connect is
/// served, and gets the header first.
pub proof fn law_clean_slot_serves_the_next(slot: ClientSlot, header: Seq<char>)
    ensures
        slot.cleaned(false).answer(header) == AdmissionView::Served(header),
        slot.busy ==> slot.cleaned(true).answer(header) == AdmissionView::Refused(busy_text()),
{
}

/// Whether text has no line break.
pub open spec fn unbroken(text: Seq<char>) -> bool {
    forall|i: int| 0 <= i < text.len() ==> #[trigger] text[i] != '\n'
}

/// Whether text is one line: a line break at its end, and none before.
pub open spec fn one_line(text: Seq<char>) -> bool {
    text.len() > 0 && text.last() == '\n' && unbroken(text.drop_last())
}

/// Telemetry is delimited by line breaks: a message is exactly one line, as long as the
/// numbers in it have no line breaks.
pub proof fn law_telemetry_is_one_line(t: Telementry, numbers: Seq<Rendered>)
    requires
        numbers.len() == t.objects@.len(),
        forall|i: int|
            0 <= i < numbers.len() ==> unbroken((#[trigger] numbers[i]).px@) && unbroken(
                numbers[i].py@,
            ) && unbroken(numbers[i].vx@) && unbroken(numbers[i].vy@),
    ensures
        one_line(line_text(t, numbers)),
{
    reveal_strlit("{\"n\":");
    reveal_strlit(",\"d\":");
    reveal_strlit(",\"o\":[");
    reveal_strlit("]}\n");
    lemma_decimal_is_unbroken(t.total_objects as nat);
    lemma_decimal_is_unbroken(t.drone_count as nat);
    lemma_objects_are_unbroken(t, numbers, t.objects@.len() as int);
    let text = line_text(t, numbers);
    let body = "{\"n\":"@ + decimal(t.total_objects as nat) + ",\"d\":"@ + decimal(
        t.drone_count as nat,
    ) + ",\"o\":["@ + objects_text(t, numbers, t.objects@.len() as int);
    assert(unbroken("{\"n\":"@));
    assert(unbroken(",\"d\":"@));
    assert(unbroken(",\"o\":["@));
    assert(unbroken(body));
    let whole = body + seq![']', '}'];
    assert(unbroken(seq![']', '}']));
    assert(text.drop_last() =~= whole);
}

/// The header is exactly one line, as long as the coordinates have no line breaks.
pub proof fn law_header_is_one_line(
    lat: Seq<char>,
    lon: Seq<char>,
    frame_w: u32,
    frame_h: u32,
)
    requires
        unbroken(lat),
        unbroken(lon),
    ensures
        one_line(header_text(lat, lon, frame_w, frame_h)),
{
    reveal_strlit("{\"lat\":");
    reveal_strlit(",\"lon\":");
    reveal_strlit(",\"w\":");
    reveal_strlit(",\"h\":");
    reveal_strlit("}\n");
    lemma_decimal_is_unbroken(frame_w as nat);
    lemma_decimal_is_unbroken(frame_h as nat);
    let text = header_text(lat, lon, frame_w, frame_h);
    let body = "{\"lat\":"@ + lat + ",\"lon\":"@ + lon + ",\"w\":"@ + decimal(frame_w as nat)
        + ",\"h\":"@ + decimal(frame_h as nat);
    assert(unbroken("{\"lat\":"@));
    assert(unbroken(",\"lon\":"@));
    assert(unbroken(",\"w\":"@));
    assert(unbroken(",\"h\":"@));
    assert(unbroken(body));
    assert(text.drop_last() =~= body + seq!['}']);
}

/// Every client is answered with exactly one line at once: a served one with the header, a
/// refused one with the news that another is connected. A refusal changes nothing for the
/// client that is served.
pub proof fn law_every_client_is_answered(
    slot: ClientSlot,
    lat: Seq<char>,
    lon: Seq<char>,
    frame_w: u32,
    frame_h: u32,
)
    requires
        unbroken(lat),
        unbroken(lon),
    ensures
        one_line(slot.answer(header_text(lat, lon, frame_w, frame_h)).text()),
        slot.answer(header_text(lat, lon, frame_w, frame_h)) is Refused ==> slot.claimed() == slot,
{
    law_header_is_one_line(lat, lon, frame_w, frame_h);
    reveal_strlit("{\"error\":\"busy\"}\n");
    assert(one_line(busy_text()));
}

proof fn lemma_decimal_is_unbroken(n: nat)
    ensures
        unbroken(decimal(n)),
    decreases n,
{
    if n >= 10 {
        lemma_decimal_is_unbroken(n / 10);
    }
}

proof fn lemma_objects_are_unbroken(t: Telementry, numbers: Seq<Rendered>, n: int)
    requires
        numbers.len() == t.objects@.len(),
        0 <= n <= numbers.len(),
        forall|i: int|
            0 <= i < numbers.len() ==> unbroken((#[trigger] numbers[i]).px@) && unbroken(
                numbers[i].py@,
            ) && unbroken(numbers[i].vx@) && unbroken(numbers[i].vy@),
    ensures
        unbroken(objects_text(t, numbers, n)),
    decreases n,
{
    if n > 0 {
        lemma_objects_are_unbroken(t, numbers, n - 1);
        reveal_strlit(",");
        reveal_strlit("[");
        reveal_strlit("]");
        reveal_strlit(",1,");
        reveal_strlit(",0,");
        assert(unbroken(","@));
        assert(unbroken("["@));
        assert(unbroken("]"@));
        assert(unbroken(",1,"@));
        assert(unbroken(",0,"@));
        lemma_decimal_is_unbroken(t.objects@[n - 1].0 as nat);
        let object = object_text(t.objects@[n - 1].0, t.objects@[n - 1].1, numbers[n - 1]);
        assert(unbroken(numbers[n - 1].px@));
        assert(unbroken(object));
    }
}

} // verus!
