//! Capture: where frames come from, the pipeline that brings them, and the decisions of
//! the loop that pulls them.

use vstd::prelude::*;
use vstd::string::StringExecFns;

use crate::text::{blank, decimal, has_suffix, push_decimal};
use crate::text_laws::has_prefix;
use crate::types::Frame;

verus! {

/// How long one poll for a sample waits, in milliseconds.
pub const POLL_MS: u64 = 100;

/// After how much waiting in a row the source is given up, in milliseconds.
pub const IDLE_LIMIT_MS: u64 = 15_000;

/// Where frames come from.
#[derive(Clone, Debug)]
pub enum Source {
    /// A live camera.
    Camera {
        device: String,
        width: u32,
        height: u32,
        fps: u32,
        /// The pixel format that the camera delivers, where it has to be asked for.
        format: Option<String>,
        /// The size to which the hardware scales the picture, where the hardware does so.
        scale_to: Option<(u32, u32)>,
    },
    /// A video, of which every frame is processed.
    VideoFile(String),
    /// A still picture, which is held.
    Image(String),
}

/// A source as a mathematical value.
pub enum SourceView {
    Camera {
        device: Seq<char>,
        width: u32,
        height: u32,
        fps: u32,
        format: Option<Seq<char>>,
        scale_to: Option<(u32, u32)>,
    },
    VideoFile(Seq<char>),
    Image(Seq<char>),
}

impl View for Source {
    type V = SourceView;

    open spec fn view(&self) -> SourceView {
        match *self {
            Source::Camera { device, width, height, fps, format, scale_to } => SourceView::Camera {
                device: device@,
                width,
                height,
                fps,
                format: format_text(format),
                scale_to,
            },
            Source::VideoFile(path) => SourceView::VideoFile(path@),
            Source::Image(path) => SourceView::Image(path@),
        }
    }
}

impl SourceView {
    /// Whether the source is live.
    pub open spec fn live(self) -> bool {
        self is Camera
    }
}

impl Source {
    /// Live sources drop stale frames; files must not.
    pub fn drop_stale(&self) -> (r: bool)
        ensures
            r == self@.live(),
    {
        matches!(self, Source::Camera { .. })
    }
}

/// The capabilities that are asked of a camera.
pub open spec fn camera_caps(
    width: u32,
    height: u32,
    fps: u32,
    format: Option<Seq<char>>,
) -> Seq<char> {
    "video/x-raw,"@ + (match format {
        Some(f) => "format="@ + f + ","@,
        None => Seq::empty(),
    }) + "width="@ + decimal(width as nat) + ",height="@ + decimal(height as nat) + ",framerate="@
        + decimal(fps as nat) + "/1"@
}

/// The capabilities of the picture while the hardware holds it.
pub open spec fn hardware_caps(width: u32, height: u32) -> Seq<char> {
    "video/x-raw(memory:NVMM),format=NV12,width="@ + decimal(width as nat) + ",height="@ + decimal(
        height as nat,
    )
}

/// How the picture of a camera becomes RGBA: by the processor, or scaled by the hardware on
/// the way.
pub open spec fn conversion(scale_to: Option<(u32, u32)>) -> Seq<char> {
    match scale_to {
        Some(size) => "nvvidconv ! "@ + hardware_caps(size.0, size.1) + " ! nvvidconv"@,
        None => "videoconvert"@,
    }
}

/// How the frames of a source come into being, as far as their conversion to RGBA.
pub open spec fn origin_text(source: SourceView) -> Seq<char> {
    match source {
        SourceView::Camera { device, width, height, fps, format, scale_to } => "v4l2src device="@
            + device + " ! "@ + camera_caps(width, height, fps, format) + " ! "@ + conversion(
            scale_to,
        ),
        SourceView::VideoFile(path) => "filesrc location=\""@ + path
            + "\" ! decodebin ! videoconvert"@,
        SourceView::Image(path) => "filesrc location=\""@ + path
            + "\" ! decodebin ! imagefreeze ! videoconvert"@,
    }
}

/// Whether the sink drops frames that were not pulled in time, as text.
pub open spec fn drop_text(source: SourceView) -> Seq<char> {
    if source.live() {
        "true"@
    } else {
        "false"@
    }
}

/// How many frames the sink holds, as text: one, and of a video more.
pub open spec fn buffers_text(source: SourceView) -> Seq<char> {
    match source {
        SourceView::VideoFile(_) => "4"@,
        _ => "1"@,
    }
}

/// The sink from which frames are pulled.
pub open spec fn sink_text(source: SourceView) -> Seq<char> {
    "appsink name=sink drop="@ + drop_text(source) + " max-buffers="@ + buffers_text(source)
        + " sync=false"@
}

/// The description of the pipeline that brings the frames of a source as RGBA.
pub open spec fn pipeline_text(source: SourceView) -> Seq<char> {
    origin_text(source) + " ! video/x-raw,format=RGBA ! "@ + sink_text(source)
}

/// The text of a pixel format.
pub open spec fn format_text(format: Option<String>) -> Option<Seq<char>> {
    match format {
        Some(f) => Some(f@),
        None => None,
    }
}

/// Appends the capabilities that are asked of a camera.
fn push_caps(out: &mut String, width: u32, height: u32, fps: u32, format: &Option<String>)
    ensures
        final(out)@ == old(out)@ + camera_caps(width, height, fps, format_text(*format)),
{
    out.append("video/x-raw,");
    match format {
        Some(f) => {
            out.append("format=");
            out.append(f.as_str());
            out.append(",");
        },
        None => {},
    }
    out.append("width=");
    push_decimal(out, width as u64);
    out.append(",height=");
    push_decimal(out, height as u64);
    out.append(",framerate=");
    push_decimal(out, fps as u64);
    out.append("/1");
    assert(out@ =~= old(out)@ + camera_caps(width, height, fps, format_text(*format)));
}

/// Appends how the picture of a camera becomes RGBA.
fn push_conversion(out: &mut String, scale_to: &Option<(u32, u32)>)
    ensures
        final(out)@ == old(out)@ + conversion(*scale_to),
{
    match scale_to {
        Some(size) => {
            out.append("nvvidconv ! ");
            out.append("video/x-raw(memory:NVMM),format=NV12,width=");
            push_decimal(out, size.0 as u64);
            out.append(",height=");
            push_decimal(out, size.1 as u64);
            out.append(" ! nvvidconv");
        },
        None => {
            out.append("videoconvert");
        },
    }
    assert(out@ =~= old(out)@ + conversion(*scale_to));
}

/// Appends the sink from which frames are pulled.
fn push_sink(out: &mut String, source: &Source)
    ensures
        final(out)@ == old(out)@ + sink_text(source@),
{
    out.append("appsink name=sink drop=");
    if source.drop_stale() {
        out.append("true");
    } else {
        out.append("false");
    }
    out.append(" max-buffers=");
    match source {
        Source::VideoFile(_) => out.append("4"),
        _ => out.append("1"),
    }
    out.append(" sync=false");
    assert(out@ =~= old(out)@ + sink_text(source@));
}

/// The description of the pipeline that brings the frames of a source. Every source comes
/// out as RGBA, so that rows have no padding.
pub fn pipeline_for(source: &Source) -> (text: String)
    ensures
        text@ == pipeline_text(source@),
{
    let mut out = String::new();
    match source {
        Source::Camera { device, width, height, fps, format, scale_to } => {
            out.append("v4l2src device=");
            out.append(device.as_str());
            out.append(" ! ");
            push_caps(&mut out, *width, *height, *fps, format);
            out.append(" ! ");
            push_conversion(&mut out, scale_to);
        },
        Source::VideoFile(path) => {
            out.append("filesrc location=\"");
            out.append(path.as_str());
            out.append("\" ! decodebin ! videoconvert");
        },
        Source::Image(path) => {
            out.append("filesrc location=\"");
            out.append(path.as_str());
            out.append("\" ! decodebin ! imagefreeze ! videoconvert");
        },
    }
    assert(out@ =~= origin_text(source@));
    out.append(" ! video/x-raw,format=RGBA ! ");
    push_sink(&mut out, source);
    assert(out@ =~= pipeline_text(source@));
    out
}

/// The color channels of `pixels` RGBA pixels, without their alpha.
pub open spec fn without_alpha(rgba: Seq<u8>, pixels: nat) -> Seq<u8> {
    Seq::new(3 * pixels, |i: int| rgba[(i / 3) * 4 + i % 3])
}

/// Strips the alpha channel.
pub fn rgba_to_rgb(rgba: &[u8], pixels: usize) -> (rgb: Vec<u8>)
    requires
        pixels * 4 <= rgba@.len(),
    ensures
        rgb@ == without_alpha(rgba@, pixels as nat),
{
    let len: usize = rgba.len();
    let mut rgb: Vec<u8> = Vec::with_capacity(pixels * 3);
    let mut i: usize = 0;
    while i < pixels
        invariant
            i <= pixels,
            pixels * 4 <= len,
            len == rgba@.len(),
            rgb@.len() == 3 * i,
            forall|j: int| 0 <= j < 3 * i ==> #[trigger] rgb@[j] == rgba@[(j / 3) * 4 + j % 3],
        decreases pixels - i,
    {
        let o: usize = i * 4;
        rgb.push(rgba[o]);
        rgb.push(rgba[o + 1]);
        rgb.push(rgba[o + 2]);
        i = i + 1;
    }
    assert(rgb@ =~= without_alpha(rgba@, pixels as nat));
    rgb
}

/// When a frame was captured: the time that its buffer carries, or else the time since the
/// start, both in nanoseconds.
pub fn capture_time(presented: Option<u64>, elapsed: u128) -> (nanos: u128)
    ensures
        nanos == (match presented {
            Some(pts) => pts as u128,
            None => elapsed,
        }),
{
    match presented {
        Some(pts) => pts as u128,
        None => elapsed,
    }
}

/// What to do after a poll that brought no sample.
#[derive(Clone, Copy, Debug, PartialEq, Eq, Structural)]
pub enum Idle {
    /// The stream has ended.
    Finish,
    /// Poll again.
    Retry,
    /// No sample has come for too long.
    GiveUp,
}

/// The state of the loop that pulls samples.
pub struct CaptureLoop {
    /// The index of the next sample.
    pub seq: u64,
    /// For how long no sample has come.
    pub waited_ms: u64,
}

impl CaptureLoop {
    /// The state before the first poll.
    pub fn new() -> (state: CaptureLoop)
        ensures
            state.seq == 0,
            state.waited_ms == 0,
    {
        CaptureLoop { seq: 0, waited_ms: 0 }
    }

    /// The loop after a poll that brought no sample. At the end of the stream it finishes;
    /// before it, it gives up as soon as it has waited for the limit.
    pub open spec fn waiting(self, eos: bool) -> (Idle, CaptureLoop) {
        let waited_ms = (self.waited_ms + POLL_MS) as u64;
        if eos {
            (Idle::Finish, self)
        } else if waited_ms >= IDLE_LIMIT_MS {
            (Idle::GiveUp, CaptureLoop { waited_ms, ..self })
        } else {
            (Idle::Retry, CaptureLoop { waited_ms, ..self })
        }
    }

    /// Takes note of a poll that brought no sample.
    pub fn on_idle(&mut self, eos: bool) -> (next: Idle)
        requires
            old(self).waited_ms < IDLE_LIMIT_MS,
        ensures
            (next, *final(self)) == old(self).waiting(eos),
    {
        if eos {
            return Idle::Finish;
        }
        self.waited_ms = self.waited_ms + POLL_MS;
        if self.waited_ms >= IDLE_LIMIT_MS {
            Idle::GiveUp
        } else {
            Idle::Retry
        }
    }

    /// The loop after a sample.
    pub open spec fn pulled(self) -> CaptureLoop {
        CaptureLoop { seq: (self.seq + 1) as u64, waited_ms: 0 }
    }

    /// Takes note of a sample, and makes a frame of it. A sample with fewer bytes than its
    /// size calls for is skipped; it counts all the same, so that frames keep their index
    /// in the video.
    pub fn on_sample(
        &mut self,
        width: usize,
        height: usize,
        captured_at: u128,
        rgba: &[u8],
    ) -> (frame: Option<Frame>)
        requires
            width * height * 4 <= usize::MAX,
            old(self).seq < u64::MAX,
        ensures
            *final(self) == old(self).pulled(),
            frame is Some <==> rgba@.len() >= width * height * 4,
            frame matches Some(f) ==> {
                &&& f.width == width
                &&& f.height == height
                &&& f.data@ == without_alpha(rgba@, (width * height) as nat)
                &&& f.seq == old(self).seq
                &&& f.captured_at == captured_at
                &&& f.packed()
            },
    {
        self.waited_ms = 0;
        let seq: u64 = self.seq;
        self.seq = seq + 1;
        assert(0 <= width * height) by (nonlinear_arith)
            requires
                0 <= width,
                0 <= height,
        ;
        let pixels: usize = width * height;
        if rgba.len() < pixels * 4 {
            return None;
        }
        Some(Frame { width, height, data: rgba_to_rgb(rgba, pixels), seq, captured_at })
    }
}

/// The loop after `n` polls in a row without a sample, as long as it does not end.
pub open spec fn after_idles(state: CaptureLoop, n: nat) -> CaptureLoop
    decreases n,
{
    if n == 0 {
        state
    } else {
        after_idles(state, (n - 1) as nat).waiting(false).1
    }
}

/// A source that stays silent is given up at the poll that makes fifteen seconds full, and
/// not before.
pub proof fn law_silence_is_given_up_after_the_limit(state: CaptureLoop, n: nat)
    requires
        state.waited_ms == 0,
        n < IDLE_LIMIT_MS / POLL_MS,
    ensures
        after_idles(state, n).waited_ms == n * POLL_MS,
        after_idles(state, n).waiting(false).0 == (if (n + 1) * POLL_MS == IDLE_LIMIT_MS {
            Idle::GiveUp
        } else {
            Idle::Retry
        }),
    decreases n,
{
    if n > 0 {
        law_silence_is_given_up_after_the_limit(state, (n - 1) as nat);
    }
}

/// The loop after a run of polls, of which `polls` says whether they brought a sample.
pub open spec fn after_polls(polls: Seq<bool>) -> CaptureLoop
    decreases polls.len(),
{
    if polls.len() == 0 {
        CaptureLoop { seq: 0, waited_ms: 0 }
    } else if polls.last() {
        after_polls(polls.drop_last()).pulled()
    } else {
        after_polls(polls.drop_last()).waiting(false).1
    }
}

/// How many of the polls brought a sample.
pub open spec fn samples(polls: Seq<bool>) -> nat
    decreases polls.len(),
{
    if polls.len() == 0 {
        0
    } else {
        samples(polls.drop_last()) + (if polls.last() {
            1nat
        } else {
            0nat
        })
    }
}

/// The next sample gets the index that it has in the video: as many samples as came before
/// it, whether frames were made of them or not.
pub proof fn law_seq_is_the_index_in_the_video(polls: Seq<bool>)
    requires
        polls.len() <= u64::MAX,
    ensures
        after_polls(polls).seq == samples(polls),
        samples(polls) <= polls.len(),
    decreases polls.len(),
{
    if polls.len() > 0 {
        law_seq_is_the_index_in_the_video(polls.drop_last());
    }
}

/// Whether text is free of white space.
pub open spec fn solid(text: Seq<char>) -> bool {
    forall|i: int| 0 <= i < text.len() ==> !blank(#[trigger] text[i])
}

/// Capabilities never hold white space, at which the description would be split, unless the
/// pixel format that was asked for does.
pub proof fn law_caps_have_no_white_space(
    width: u32,
    height: u32,
    fps: u32,
    format: Option<Seq<char>>,
)
    requires
        format matches Some(f) ==> solid(f),
    ensures
        solid(camera_caps(width, height, fps, format)),
        solid(hardware_caps(width, height)),
{
    reveal_strlit("video/x-raw(memory:NVMM),format=NV12,width=");
    assert(solid("video/x-raw(memory:NVMM),format=NV12,width="@));
    reveal_strlit("video/x-raw,");
    reveal_strlit("format=");
    reveal_strlit(",");
    reveal_strlit("width=");
    reveal_strlit(",height=");
    reveal_strlit(",framerate=");
    reveal_strlit("/1");
    lemma_decimal_is_solid(width as nat);
    lemma_decimal_is_solid(height as nat);
    lemma_decimal_is_solid(fps as nat);
    assert(solid("video/x-raw,"@));
    assert(solid("width="@));
    assert(solid(",height="@));
    assert(solid(",framerate="@));
    assert(solid("/1"@));
    assert(solid("format="@));
    assert(solid(","@));
}

proof fn lemma_decimal_is_solid(n: nat)
    ensures
        solid(decimal(n)),
    decreases n,
{
    if n >= 10 {
        lemma_decimal_is_solid(n / 10);
    }
}

/// Whether `pattern` stands in the text at place `p`.
pub open spec fn occurs_at(text: Seq<char>, pattern: Seq<char>, p: int) -> bool {
    &&& 0 <= p
    &&& p + pattern.len() <= text.len()
    &&& text.subrange(p, p + pattern.len()) == pattern
}

/// Whether `pattern` stands anywhere in the text.
pub open spec fn occurs(text: Seq<char>, pattern: Seq<char>) -> bool {
    exists|p: int| #[trigger] occurs_at(text, pattern, p)
}

/// Whether the names in a source, which are taken over as they are, set no `drop=`.
pub open spec fn plainly_named(source: SourceView) -> bool {
    match source {
        SourceView::Camera { device, format, .. } => !occurs(device, "drop="@) && (
        format matches Some(f) ==> !occurs(f, "drop="@)),
        SourceView::VideoFile(path) => !occurs(path, "drop="@),
        SourceView::Image(path) => !occurs(path, "drop="@),
    }
}

/// Live sources drop stale frames, and files, still pictures among them, do not: the
/// description ends in a sink that drops frames if and only if the source is live, and no
/// other element sets whether it drops any.
pub proof fn law_only_live_sources_drop_frames(source: SourceView)
    ensures
        has_suffix(pipeline_text(source), sink_text(source)),
        occurs(sink_text(source), "drop=true"@) <==> source.live(),
        occurs(sink_text(source), "drop=false"@) <==> !source.live(),
        plainly_named(source) ==> (occurs(pipeline_text(source), "drop=true"@) <==> source.live()),
        plainly_named(source) ==> (occurs(pipeline_text(source), "drop=false"@)
            <==> !source.live()),
{
    let text = pipeline_text(source);
    let sink = sink_text(source);
    assert(text.skip(text.len() - sink.len()) =~= sink);
    reveal_strlit("appsink name=sink ");
    reveal_strlit("appsink name=sink drop=");
    reveal_strlit("drop=");
    assert("appsink name=sink drop="@ =~= "appsink name=sink "@ + "drop="@);
    let rest = drop_text(source) + " max-buffers="@ + buffers_text(source) + " sync=false"@;
    assert(sink =~= "appsink name=sink "@ + "drop="@ + rest);
    lemma_sink_is_clear(source);
    lemma_one_drop("appsink name=sink "@, source);
    if plainly_named(source) {
        lemma_origin_is_clear(source);
        let middle = " ! video/x-raw,format=RGBA ! "@;
        reveal_strlit(" ! video/x-raw,format=RGBA ! ");
        assert(clear(middle));
        lemma_join(origin_text(source), middle);
        lemma_join(origin_text(source) + middle, "appsink name=sink "@);
        let front = origin_text(source) + middle + "appsink name=sink "@;
        assert(text =~= front + "drop="@ + rest);
        lemma_one_drop(front, source);
    }
}

/// Whether `drop=` stands in the text at place `p`.
spec fn drop_at(text: Seq<char>, p: int) -> bool {
    &&& 0 <= p
    &&& p + 5 <= text.len()
    &&& text[p] == 'd'
    &&& text[p + 1] == 'r'
    &&& text[p + 2] == 'o'
    &&& text[p + 3] == 'p'
    &&& text[p + 4] == '='
}

/// Whether `drop=` stands nowhere in the text.
spec fn clear(text: Seq<char>) -> bool {
    forall|p: int| !#[trigger] drop_at(text, p)
}

/// Whether `drop=` cannot run over the seam of two texts.
spec fn seam(a: Seq<char>, b: Seq<char>) -> bool {
    ||| a.len() == 0
    ||| b.len() == 0
    ||| !(a.last() == 'd' || a.last() == 'r' || a.last() == 'o' || a.last() == 'p')
    ||| !(b[0] == 'r' || b[0] == 'o' || b[0] == 'p' || b[0] == '=')
}

proof fn lemma_join(a: Seq<char>, b: Seq<char>)
    requires
        clear(a),
        clear(b),
        seam(a, b),
    ensures
        clear(a + b),
{
    let n = a.len() as int;
    assert forall|p: int| !#[trigger] drop_at(a + b, p) by {
        if drop_at(a + b, p) {
            if p + 5 <= n {
                assert(drop_at(a, p));
            } else if n <= p {
                assert(drop_at(b, p - n));
            } else {
                assert((a + b)[n - 1] == a.last());
                assert((a + b)[n] == b[0]);
                assert(n - 1 == p || n - 1 == p + 1 || n - 1 == p + 2 || n - 1 == p + 3);
            }
        }
    }
}

proof fn lemma_clear(text: Seq<char>)
    ensures
        clear(text) <==> !occurs(text, "drop="@),
{
    reveal_strlit("drop=");
    if !clear(text) {
        let p = choose|p: int| #[trigger] drop_at(text, p);
        assert(text.subrange(p, p + 5) =~= "drop="@);
        assert(occurs_at(text, "drop="@, p));
    }
    if occurs(text, "drop="@) {
        let p = choose|p: int| #[trigger] occurs_at(text, "drop="@, p);
        let part = text.subrange(p, p + 5);
        assert(part[0] == text[p] && part[1] == text[p + 1] && part[2] == text[p + 2] && part[3]
            == text[p + 3] && part[4] == text[p + 4]);
        assert(drop_at(text, p));
    }
}

/// No digit belongs to `drop=`.
proof fn lemma_decimal_is_clear(n: nat)
    ensures
        clear(decimal(n)),
        decimal(n).len() > 0,
        forall|i: int|
            0 <= i < decimal(n).len() ==> '0' <= #[trigger] decimal(n)[i] && decimal(n)[i] <= '9',
    decreases n,
{
    if n >= 10 {
        lemma_decimal_is_clear(n / 10);
    }
    assert forall|p: int| !#[trigger] drop_at(decimal(n), p) by {
        if 0 <= p < decimal(n).len() {
            assert(decimal(n)[p] <= '9');
        }
    }
}

proof fn lemma_caps_are_clear(width: u32, height: u32, fps: u32, format: Option<Seq<char>>)
    requires
        format matches Some(f) ==> clear(f),
    ensures
        clear(camera_caps(width, height, fps, format)),
        camera_caps(width, height, fps, format).len() > 0,
        camera_caps(width, height, fps, format)[0] == 'v',
        camera_caps(width, height, fps, format).last() == '1',
        clear(hardware_caps(width, height)),
        hardware_caps(width, height).len() > 0,
        hardware_caps(width, height)[0] == 'v',
{
    reveal_strlit("video/x-raw(memory:NVMM),format=NV12,width=");
    reveal_strlit("video/x-raw,");
    reveal_strlit("format=");
    reveal_strlit(",");
    reveal_strlit("width=");
    reveal_strlit(",height=");
    reveal_strlit(",framerate=");
    reveal_strlit("/1");
    let (w, h, f) = (decimal(width as nat), decimal(height as nat), decimal(fps as nat));
    lemma_decimal_is_clear(width as nat);
    lemma_decimal_is_clear(height as nat);
    lemma_decimal_is_clear(fps as nat);
    let hard = "video/x-raw(memory:NVMM),format=NV12,width="@;
    lemma_join(hard, w);
    lemma_join(hard + w, ",height="@);
    lemma_join(hard + w + ",height="@, h);
    let kind = match format {
        Some(f) => "format="@ + f + ","@,
        None => Seq::empty(),
    };
    if let Some(f) = format {
        lemma_join("format="@, f);
        lemma_join("format="@ + f, ","@);
    }
    let a = "video/x-raw,"@;
    lemma_join(a, kind);
    lemma_join(a + kind, "width="@);
    lemma_join(a + kind + "width="@, w);
    lemma_join(a + kind + "width="@ + w, ",height="@);
    lemma_join(a + kind + "width="@ + w + ",height="@, h);
    lemma_join(a + kind + "width="@ + w + ",height="@ + h, ",framerate="@);
    lemma_join(a + kind + "width="@ + w + ",height="@ + h + ",framerate="@, f);
    lemma_join(a + kind + "width="@ + w + ",height="@ + h + ",framerate="@ + f, "/1"@);
}

proof fn lemma_conversion_is_clear(scale_to: Option<(u32, u32)>)
    ensures
        clear(conversion(scale_to)),
        conversion(scale_to).len() > 0,
        conversion(scale_to)[0] == 'n' || conversion(scale_to)[0] == 'v',
{
    reveal_strlit("nvvidconv ! ");
    reveal_strlit(" ! nvvidconv");
    reveal_strlit("videoconvert");
    if let Some(size) = scale_to {
        let caps = hardware_caps(size.0, size.1);
        lemma_caps_are_clear(size.0, size.1, 0, None);
        lemma_join("nvvidconv ! "@, caps);
        lemma_join("nvvidconv ! "@ + caps, " ! nvvidconv"@);
    }
}

proof fn lemma_origin_is_clear(source: SourceView)
    requires
        plainly_named(source),
    ensures
        clear(origin_text(source)),
{
    match source {
        SourceView::Camera { device, width, height, fps, format, scale_to } => {
            reveal_strlit("v4l2src device=");
            reveal_strlit(" ! ");
            lemma_clear(device);
            if let Some(f) = format {
                lemma_clear(f);
            }
            let caps = camera_caps(width, height, fps, format);
            let ours = conversion(scale_to);
            lemma_caps_are_clear(width, height, fps, format);
            lemma_conversion_is_clear(scale_to);
            let a = "v4l2src device="@;
            lemma_join(a, device);
            lemma_join(a + device, " ! "@);
            lemma_join(a + device + " ! "@, caps);
            lemma_join(a + device + " ! "@ + caps, " ! "@);
            lemma_join(a + device + " ! "@ + caps + " ! "@, ours);
        },
        SourceView::VideoFile(path) => {
            reveal_strlit("filesrc location=\"");
            reveal_strlit("\" ! decodebin ! videoconvert");
            lemma_clear(path);
            lemma_join("filesrc location=\""@, path);
            lemma_join("filesrc location=\""@ + path, "\" ! decodebin ! videoconvert"@);
        },
        SourceView::Image(path) => {
            reveal_strlit("filesrc location=\"");
            reveal_strlit("\" ! decodebin ! imagefreeze ! videoconvert");
            lemma_clear(path);
            lemma_join("filesrc location=\""@, path);
            lemma_join(
                "filesrc location=\""@ + path,
                "\" ! decodebin ! imagefreeze ! videoconvert"@,
            );
        },
    }
}

/// Before and behind the one `drop=` of the sink there is no other.
proof fn lemma_sink_is_clear(source: SourceView)
    ensures
        clear("appsink name=sink "@),
        clear(drop_text(source) + " max-buffers="@ + buffers_text(source) + " sync=false"@),
{
    reveal_strlit("appsink name=sink ");
    reveal_strlit("true");
    reveal_strlit("false");
    reveal_strlit(" max-buffers=");
    reveal_strlit("1");
    reveal_strlit("4");
    reveal_strlit(" sync=false");
    lemma_join(drop_text(source), " max-buffers="@);
    lemma_join(drop_text(source) + " max-buffers="@, buffers_text(source));
    lemma_join(drop_text(source) + " max-buffers="@ + buffers_text(source), " sync=false"@);
}

/// A text with one `drop=`, that of the sink, says what the sink does.
proof fn lemma_one_drop(front: Seq<char>, source: SourceView)
    requires
        clear(front),
        front.len() > 0,
        front.last() == ' ',
    ensures
        ({
            let text = front + "drop="@ + (drop_text(source) + " max-buffers="@ + buffers_text(
                source,
            ) + " sync=false"@);
            &&& occurs(text, "drop=true"@) <==> source.live()
            &&& occurs(text, "drop=false"@) <==> !source.live()
        }),
{
    let rest = drop_text(source) + " max-buffers="@ + buffers_text(source) + " sync=false"@;
    let text = front + "drop="@ + rest;
    let n = front.len() as int;
    lemma_sink_is_clear(source);
    reveal_strlit("drop=");
    reveal_strlit("drop=true");
    reveal_strlit("drop=false");
    reveal_strlit("true");
    reveal_strlit("false");
    assert forall|p: int| #[trigger] drop_at(text, p) implies p == n by {
        if p + 5 <= n {
            assert(drop_at(front, p));
        } else if n + 5 <= p {
            assert(drop_at(rest, p - n - 5));
        } else if p < n {
            assert(text[n - 1] == ' ');
        } else if p > n {
            assert(text[p] == "drop="@[p - n]);
        }
    }
    assert(text[n + 5] == drop_text(source)[0]);
    if source.live() {
        assert(text.subrange(n, n + 9) =~= "drop=true"@);
        assert(occurs_at(text, "drop=true"@, n));
    } else {
        assert(text.subrange(n, n + 10) =~= "drop=false"@);
        assert(occurs_at(text, "drop=false"@, n));
    }
    if occurs(text, "drop=true"@) {
        let p = choose|p: int| #[trigger] occurs_at(text, "drop=true"@, p);
        lemma_starts_with_drop(text, "drop=true"@, p);
        assert(text.subrange(p, p + 9)[5] == text[p + 5]);
    }
    if occurs(text, "drop=false"@) {
        let p = choose|p: int| #[trigger] occurs_at(text, "drop=false"@, p);
        lemma_starts_with_drop(text, "drop=false"@, p);
        assert(text.subrange(p, p + 10)[5] == text[p + 5]);
    }
}

proof fn lemma_starts_with_drop(text: Seq<char>, pattern: Seq<char>, p: int)
    requires
        occurs_at(text, pattern, p),
        drop_at(pattern, 0),
    ensures
        drop_at(text, p),
{
    let part = text.subrange(p, p + pattern.len());
    assert(part[0] == text[p] && part[1] == text[p + 1] && part[2] == text[p + 2] && part[3]
        == text[p + 3] && part[4] == text[p + 4]);
}

/// Stripping alpha keeps the pixels in place: channel `c` of pixel `p` comes from channel
/// `c` of pixel `p`.
pub proof fn law_pixels_stay_in_place(rgba: Seq<u8>, pixels: nat, p: int, c: int)
    requires
        0 <= p < pixels,
        0 <= c < 3,
    ensures
        without_alpha(rgba, pixels).len() == 3 * pixels,
        without_alpha(rgba, pixels)[3 * p + c] == rgba[4 * p + c],
{
    assert((3 * p + c) / 3 == p);
    assert((3 * p + c) % 3 == c);
}

/// What is asked of a camera: raw video, in the format that was asked for, if any, and with
/// its own width, height and frames in a second, each under its own name.
pub proof fn law_caps_name_what_is_asked_for(
    width: u32,
    height: u32,
    fps: u32,
    format: Option<Seq<char>>,
)
    ensures
        ({
            let caps = camera_caps(width, height, fps, format);
            let w = decimal(width as nat);
            let h = decimal(height as nat);
            let size = "width="@ + w + ",height="@ + h;
            let front = match format {
                Some(f) => "video/x-raw,format="@ + f + ",width="@,
                None => "video/x-raw,width="@,
            };
            let back = ",width="@ + w + ",height="@ + h + ",framerate="@ + decimal(fps as nat)
                + "/1"@;
            &&& has_prefix(caps, front)
            &&& has_suffix(caps, back)
            &&& caps.len() + 7 == front.len() + back.len()
            &&& hardware_caps(width, height) == "video/x-raw(memory:NVMM),format=NV12,"@ + size
        }),
{
    reveal_strlit("video/x-raw,");
    reveal_strlit("format=");
    reveal_strlit(",");
    reveal_strlit("width=");
    reveal_strlit(",width=");
    reveal_strlit("video/x-raw,format=");
    reveal_strlit("video/x-raw,width=");
    reveal_strlit("video/x-raw(memory:NVMM),format=NV12,width=");
    reveal_strlit("video/x-raw(memory:NVMM),format=NV12,");
    let caps = camera_caps(width, height, fps, format);
    let w = decimal(width as nat);
    let h = decimal(height as nat);
    let back = ",width="@ + w + ",height="@ + h + ",framerate="@ + decimal(fps as nat) + "/1"@;
    assert(",width="@ =~= ","@ + "width="@);
    assert("video/x-raw(memory:NVMM),format=NV12,width="@
        =~= "video/x-raw(memory:NVMM),format=NV12,"@ + "width="@);
    assert(hardware_caps(width, height) =~= "video/x-raw(memory:NVMM),format=NV12,"@ + ("width="@
        + w + ",height="@ + h));
    match format {
        Some(f) => {
            assert("video/x-raw,format="@ =~= "video/x-raw,"@ + "format="@);
            let front = "video/x-raw,format="@ + f + ",width="@;
            assert(caps.take(front.len() as int) =~= front);
        },
        None => {
            assert("video/x-raw,width="@ =~= "video/x-raw,"@ + "width="@);
            assert(caps.take("video/x-raw,width="@.len() as int) =~= "video/x-raw,width="@);
        },
    }
    assert(caps.skip(caps.len() - back.len()) =~= back);
}

/// Every pipeline starts at its own device or file, and hands out RGBA. A camera is asked for
/// its capabilities, and its picture is scaled by the hardware exactly if a size is given; a
/// file is decoded, and a still picture is held.
pub proof fn law_pipeline_leads_from_its_source(source: SourceView)
    ensures
        has_suffix(pipeline_text(source), " ! video/x-raw,format=RGBA ! "@ + sink_text(source)),
        source matches SourceView::Camera { device, width, height, fps, format, scale_to } ==> {
            let caps = camera_caps(width, height, fps, format);
            let front = "v4l2src device="@ + device + " ! "@ + caps + " ! "@;
            &&& scale_to is None ==> pipeline_text(source) == front
                + "videoconvert ! video/x-raw,format=RGBA ! "@ + sink_text(source)
            &&& scale_to matches Some(size) ==> pipeline_text(source) == front + "nvvidconv ! "@
                + hardware_caps(size.0, size.1) + " ! nvvidconv ! video/x-raw,format=RGBA ! "@
                + sink_text(source)
        },
        source matches SourceView::VideoFile(path) ==> pipeline_text(source)
            == "filesrc location=\""@ + path
            + "\" ! decodebin ! videoconvert ! video/x-raw,format=RGBA ! "@ + sink_text(source),
        source matches SourceView::Image(path) ==> pipeline_text(source) == "filesrc location=\""@
            + path + "\" ! decodebin ! imagefreeze ! videoconvert ! video/x-raw,format=RGBA ! "@
            + sink_text(source),
{
    let text = pipeline_text(source);
    let middle = " ! video/x-raw,format=RGBA ! "@;
    let back = middle + sink_text(source);
    assert(text.skip(text.len() - back.len()) =~= back);
    reveal_strlit(" ! video/x-raw,format=RGBA ! ");
    match source {
        SourceView::Camera { device, width, height, fps, format, scale_to } => {
            let front = "v4l2src device="@ + device + " ! "@ + camera_caps(
                width,
                height,
                fps,
                format,
            ) + " ! "@;
            match scale_to {
                Some(size) => {
                    reveal_strlit(" ! nvvidconv");
                    reveal_strlit(" ! nvvidconv ! video/x-raw,format=RGBA ! ");
                    assert(" ! nvvidconv ! video/x-raw,format=RGBA ! "@ =~= " ! nvvidconv"@
                        + middle);
                    assert(text =~= front + "nvvidconv ! "@ + hardware_caps(size.0, size.1)
                        + " ! nvvidconv ! video/x-raw,format=RGBA ! "@ + sink_text(source));
                },
                None => {
                    reveal_strlit("videoconvert");
                    reveal_strlit("videoconvert ! video/x-raw,format=RGBA ! ");
                    assert("videoconvert ! video/x-raw,format=RGBA ! "@ =~= "videoconvert"@
                        + middle);
                    assert(text =~= front + "videoconvert ! video/x-raw,format=RGBA ! "@
                        + sink_text(source));
                },
            }
        },
        SourceView::VideoFile(path) => {
            reveal_strlit("\" ! decodebin ! videoconvert");
            reveal_strlit("\" ! decodebin ! videoconvert ! video/x-raw,format=RGBA ! ");
            assert("\" ! decodebin ! videoconvert ! video/x-raw,format=RGBA ! "@
                =~= "\" ! decodebin ! videoconvert"@ + middle);
            assert(text =~= "filesrc location=\""@ + path
                + "\" ! decodebin ! videoconvert ! video/x-raw,format=RGBA ! "@ + sink_text(
                source,
            ));
        },
        SourceView::Image(path) => {
            reveal_strlit("\" ! decodebin ! imagefreeze ! videoconvert");
            reveal_strlit("\" ! decodebin ! imagefreeze ! videoconvert ! video/x-raw,format=RGBA ! ");
            assert("\" ! decodebin ! imagefreeze ! videoconvert ! video/x-raw,format=RGBA ! "@
                =~= "\" ! decodebin ! imagefreeze ! videoconvert"@ + middle);
            assert(text =~= "filesrc location=\""@ + path
                + "\" ! decodebin ! imagefreeze ! videoconvert ! video/x-raw,format=RGBA ! "@
                + sink_text(source));
        },
    }
}

/// The sink holds one frame, and four of a video, and waits for no clock.
pub proof fn law_sink_holds_few_frames(source: SourceView)
    ensures
        source.live() <==> source is Camera,
        has_prefix(sink_text(source), "appsink name=sink drop="@),
        source is VideoFile ==> has_suffix(sink_text(source), " max-buffers=4 sync=false"@),
        !(source is VideoFile) ==> has_suffix(sink_text(source), " max-buffers=1 sync=false"@),
{
    reveal_strlit("appsink name=sink drop=");
    reveal_strlit(" max-buffers=");
    reveal_strlit("1");
    reveal_strlit("4");
    reveal_strlit(" sync=false");
    reveal_strlit(" max-buffers=1 sync=false");
    reveal_strlit(" max-buffers=4 sync=false");
    let text = sink_text(source);
    let front = "appsink name=sink drop="@;
    assert(text.take(front.len() as int) =~= front);
    assert(" max-buffers=1 sync=false"@ =~= " max-buffers="@ + "1"@ + " sync=false"@);
    assert(" max-buffers=4 sync=false"@ =~= " max-buffers="@ + "4"@ + " sync=false"@);
    let back = if source is VideoFile {
        " max-buffers=4 sync=false"@
    } else {
        " max-buffers=1 sync=false"@
    };
    assert(text.skip(text.len() - back.len()) =~= back);
}

/// How many polls without a sample stand at the end.
pub open spec fn idle_at_the_end(polls: Seq<bool>) -> nat
    decreases polls.len(),
{
    if polls.len() == 0 || polls.last() {
        0
    } else {
        idle_at_the_end(polls.drop_last()) + 1
    }
}

/// The loop counts the time since the last sample, a tenth of a second for each poll: a
/// sample sets it back to nothing. It gives up at fifteen seconds of silence and not before,
/// and the end of the stream always finishes it, whatever was waited.
pub proof fn law_wait_counts_from_the_last_sample(polls: Seq<bool>)
    requires
        polls.len() <= 100_000_000_000_000,
    ensures
        after_polls(polls).waited_ms == 100 * idle_at_the_end(polls),
        idle_at_the_end(polls) <= polls.len(),
        after_polls(polls).waiting(false).0 == (if idle_at_the_end(polls) + 1 >= 150 {
            Idle::GiveUp
        } else {
            Idle::Retry
        }),
        after_polls(polls).waiting(false).1.seq == after_polls(polls).seq,
        after_polls(polls).waiting(true) == (Idle::Finish, after_polls(polls)),
    decreases polls.len(),
{
    if polls.len() > 0 {
        law_wait_counts_from_the_last_sample(polls.drop_last());
    }
}

} // verus!
