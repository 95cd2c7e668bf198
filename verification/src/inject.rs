//! Synthetic pen strokes: the events that make a digitizer draw.
//!
//! Events that are written to a digitizer's node reach every reader of the device as if the
//! hardware had produced them. A stroke is planned here as frames of events with a pause after
//! each; the pauses keep the cadence of a real pen.
use crate::evdev::{
    pen_in_use, AbsInfo, InputEvent, ABS_DISTANCE, ABS_PRESSURE, ABS_X, ABS_Y, BTN_TOOL_PEN,
    BTN_TOOL_RUBBER, BTN_TOUCH, EV_ABS, EV_KEY, EV_SYN, SYN_REPORT,
};
use crate::float::{num, F32};
use crate::stroke::ONE;
use crate::transform::Transform;
use vstd::prelude::*;

verus! {

/// The part of the pressure range that a stroke is drawn with: 0.6.
pub const PRESS: u32 = 0x3f19_999a;

/// The largest distance between two samples: 1 / 300 of the screen.
pub const MAX_HOP: u32 = 0x3b5a_740e;

/// The pause between two samples, in microseconds.
pub const DWELL_US: u64 = 5000;

/// The pause between two strokes, in microseconds.
pub const STROKE_PAUSE_US: u64 = 80_000;

/// Which end of the pen.
#[derive(Debug, Clone, Copy, PartialEq, Eq, Structural)]
pub enum Tool {
    Pen,
    Rubber,
}

/// Events to send at once, and how long to wait after them.
#[derive(Debug)]
pub struct Frame {
    pub events: Vec<InputEvent>,
    pub pause_us: u64,
}

/// What a [`Frame`] holds.
#[verifier::ext_equal]
pub struct FrameView {
    pub events: Seq<InputEvent>,
    pub pause_us: u64,
}

impl View for Frame {
    type V = FrameView;

    open spec fn view(&self) -> FrameView {
        FrameView { events: self.events@, pause_us: self.pause_us }
    }
}

/// What a list of frames holds.
pub open spec fn frame_views(frames: Seq<Frame>) -> Seq<FrameView> {
    Seq::new(frames.len(), |i: int| frames[i]@)
}

/// An event without a time.
pub open spec fn event(kind: u16, code: u16, value: i32) -> InputEvent {
    InputEvent { tv_sec: 0, tv_usec: 0, kind, code, value }
}

/// The report that ends a sample.
pub open spec fn report() -> InputEvent {
    event(EV_SYN, SYN_REPORT, 0)
}

/// The key of an end of the pen.
pub open spec fn tool_key(tool: Tool) -> u16 {
    match tool {
        Tool::Pen => BTN_TOOL_PEN,
        Tool::Rubber => BTN_TOOL_RUBBER,
    }
}

/// The pressure that a stroke is drawn with.
pub open spec fn full_press(pressure: AbsInfo) -> i32 {
    F32::from_i32(pressure.maximum).times(num(PRESS)).to_i32()
}

/// A third, rounded toward zero.
pub open spec fn third(v: int) -> int {
    if v >= 0 {
        v / 3
    } else {
        -((-v) / 3)
    }
}

// ---------------------------------------------------------------------------------------------
// Waiting for the pen
// ---------------------------------------------------------------------------------------------
/// What to do before a stroke.
#[derive(Debug, Clone, Copy, PartialEq, Eq, Structural)]
pub enum Wait {
    Go,
    Again,
    GiveUp,
}

/// What to do before a stroke, by a snapshot of the key state: go as soon as the pen is out of
/// range, and give up once it has been waited for longer than `max_ms`.
pub fn clear_step(keys: &[u8], waited_ms: u64, max_ms: u64) -> (r: Wait)
    ensures
        r == if !crate::evdev::pen_present(keys@) {
            Wait::Go
        } else if waited_ms > max_ms {
            Wait::GiveUp
        } else {
            Wait::Again
        },
{
    if !pen_in_use(keys) {
        Wait::Go
    } else if waited_ms > max_ms {
        Wait::GiveUp
    } else {
        Wait::Again
    }
}

// ---------------------------------------------------------------------------------------------
// Intermediate points
// ---------------------------------------------------------------------------------------------
/// The number of steps from `a` to `b`.
pub open spec fn step_count(a: (F32, F32), b: (F32, F32), max_hop: F32) -> usize {
    b.0.minus(a.0).hypot(b.1.minus(a.1)).over(max_hop).ceil().max(num(ONE)).to_usize()
}

/// The points from `a` (not included) to `b`, in steps no longer than `max_hop`.
pub open spec fn densified(a: (F32, F32), b: (F32, F32), max_hop: F32) -> Seq<(F32, F32)> {
    let n = step_count(a, b, max_hop);
    Seq::new(
        n as nat,
        |i: int|
            {
                let t = crate::float::convert::of_int(i + 1).over(
                    crate::float::convert::of_int(n as int),
                );
                (a.0.plus(b.0.minus(a.0).times(t)), a.1.plus(b.1.minus(a.1).times(t)))
            },
    )
}

/// Intermediate points from `a` (not included) to `b`, in steps no longer than `max_hop`.
pub fn densify(a: (F32, F32), b: (F32, F32), max_hop: F32) -> (r: Vec<(F32, F32)>)
    ensures
        r@ == densified(a, b, max_hop),
{
    let dx = b.0.minus(a.0);
    let dy = b.1.minus(a.1);
    let dist = dx.hypot(dy);
    let n: usize = dist.over(max_hop).ceil().max(num(ONE)).to_usize();
    let mut out: Vec<(F32, F32)> = Vec::new();
    let mut i: usize = 0;
    while i < n
        invariant
            i <= n,
            n == step_count(a, b, max_hop),
            dx == b.0.minus(a.0),
            dy == b.1.minus(a.1),
            out@ == densified(a, b, max_hop).take(i as int),
        decreases n - i,
    {
        let t = F32::from_usize(i + 1).over(F32::from_usize(n));
        let p = (a.0.plus(dx.times(t)), a.1.plus(dy.times(t)));
        assert(densified(a, b, max_hop)[i as int] == p);
        assert(densified(a, b, max_hop).take(i + 1) =~= densified(a, b, max_hop).take(
            i as int,
        ).push(p));
        out.push(p);
        i = i + 1;
    }
    assert(densified(a, b, max_hop).take(i as int) =~= densified(a, b, max_hop));
    out
}

// ---------------------------------------------------------------------------------------------
// A stroke
// ---------------------------------------------------------------------------------------------
/// The pen comes in range above the first point and approaches like a hand, then touches down
/// with rising pressure.
pub open spec fn landing(tf: Transform, press: i32, tool: Tool, p: (F32, F32), dwell: u64) -> Seq<
    FrameView,
> {
    let (x, y) = tf.on_digitizer(p.0, p.1);
    seq![
        FrameView {
            events: seq![
                event(EV_KEY, tool_key(tool), 1),
                event(EV_ABS, ABS_X, x as i32),
                event(EV_ABS, ABS_Y, y as i32),
                event(EV_ABS, ABS_DISTANCE, 70),
                report(),
            ],
            pause_us: dwell,
        },
        FrameView { events: seq![event(EV_ABS, ABS_DISTANCE, 50), report()], pause_us: dwell },
        FrameView { events: seq![event(EV_ABS, ABS_DISTANCE, 30), report()], pause_us: dwell },
        FrameView { events: seq![event(EV_ABS, ABS_DISTANCE, 15), report()], pause_us: dwell },
        FrameView { events: seq![event(EV_ABS, ABS_DISTANCE, 5), report()], pause_us: dwell },
        FrameView {
            events: seq![
                event(EV_ABS, ABS_DISTANCE, 0),
                event(EV_KEY, BTN_TOUCH, 1),
                event(EV_ABS, ABS_PRESSURE, third(press as int) as i32),
                report(),
            ],
            pause_us: dwell,
        },
        FrameView { events: seq![event(EV_ABS, ABS_PRESSURE, press), report()], pause_us: 0 },
    ]
}

/// The sample of one point under the tip.
pub open spec fn sample_frame(tf: Transform, press: i32, p: (F32, F32), dwell: u64) -> FrameView {
    let (x, y) = tf.on_digitizer(p.0, p.1);
    FrameView {
        events: seq![
            event(EV_ABS, ABS_X, x as i32),
            event(EV_ABS, ABS_Y, y as i32),
            event(EV_ABS, ABS_PRESSURE, press),
            report(),
        ],
        pause_us: dwell,
    }
}

pub open spec fn sample_frames(
    tf: Transform,
    press: i32,
    points: Seq<(F32, F32)>,
    dwell: u64,
) -> Seq<FrameView> {
    Seq::new(points.len(), |i: int| sample_frame(tf, press, points[i], dwell))
}

/// The pen glides through the first `n` points of a polyline, and through points between them
/// where they are far apart.
pub open spec fn gliding(
    tf: Transform,
    press: i32,
    pts: Seq<(F32, F32)>,
    n: nat,
    dwell: u64,
) -> Seq<FrameView>
    decreases n,
{
    if n == 0 {
        Seq::empty()
    } else {
        let from = if n == 1 {
            pts[0]
        } else {
            pts[n - 2]
        };
        gliding(tf, press, pts, (n - 1) as nat, dwell) + sample_frames(
            tf,
            press,
            densified(from, pts[n - 1], num(MAX_HOP)),
            dwell,
        )
    }
}

/// The pen lifts with falling pressure, hovers a moment, and leaves.
pub open spec fn leaving(press: i32, tool: Tool, dwell: u64) -> Seq<FrameView> {
    seq![
        FrameView {
            events: seq![event(EV_ABS, ABS_PRESSURE, third(press as int) as i32), report()],
            pause_us: dwell,
        },
        FrameView {
            events: seq![
                event(EV_ABS, ABS_PRESSURE, 0),
                event(EV_KEY, BTN_TOUCH, 0),
                event(EV_ABS, ABS_DISTANCE, 30),
                report(),
            ],
            pause_us: (dwell * 2) as u64,
        },
        FrameView {
            events: seq![event(EV_KEY, tool_key(tool), 0), report()],
            pause_us: STROKE_PAUSE_US,
        },
    ]
}

/// The frames of a stroke. A polyline without a point draws nothing.
pub open spec fn stroke_frames(
    tf: Transform,
    pressure: AbsInfo,
    tool: Tool,
    pts: Seq<(F32, F32)>,
    dwell: u64,
) -> Seq<FrameView> {
    let press = full_press(pressure);
    if pts.len() == 0 {
        Seq::empty()
    } else {
        landing(tf, press, tool, pts[0], dwell) + gliding(tf, press, pts, pts.len(), dwell)
            + leaving(press, tool, dwell)
    }
}

fn divide_by_three(v: i32) -> (r: i32)
    ensures
        r == third(v as int),
{
    if v >= 0 {
        v / 3
    } else {
        let m: i64 = -(v as i64);
        (-(m / 3)) as i32
    }
}

fn button(tool: Tool) -> (r: u16)
    ensures
        r == tool_key(tool),
{
    match tool {
        Tool::Pen => BTN_TOOL_PEN,
        Tool::Rubber => BTN_TOOL_RUBBER,
    }
}

/// A frame of one event and a report.
fn one(kind: u16, code: u16, value: i32, pause_us: u64) -> (r: Frame)
    ensures
        r@ == (FrameView { events: seq![event(kind, code, value), report()], pause_us }),
{
    let mut events: Vec<InputEvent> = Vec::new();
    events.push(InputEvent::untimed(kind, code, value));
    events.push(InputEvent::untimed(EV_SYN, SYN_REPORT, 0));
    assert(events@ =~= seq![event(kind, code, value), report()]);
    Frame { events, pause_us }
}

/// A frame of three events and a report.
pub(crate) fn three(a: InputEvent, b: InputEvent, c: InputEvent, pause_us: u64) -> (r: Frame)
    ensures
        r@ == (FrameView { events: seq![a, b, c, report()], pause_us }),
{
    let mut events: Vec<InputEvent> = Vec::new();
    events.push(a);
    events.push(b);
    events.push(c);
    events.push(InputEvent::untimed(EV_SYN, SYN_REPORT, 0));
    assert(events@ =~= seq![a, b, c, report()]);
    Frame { events, pause_us }
}

pub(crate) proof fn lemma_frame_push(frames: Seq<Frame>, f: Frame)
    ensures
        frame_views(frames.push(f)) == frame_views(frames).push(f@),
{
    assert(frame_views(frames.push(f)) =~= frame_views(frames).push(f@));
}

fn land(tf: &Transform, press: i32, tool: Tool, p: (F32, F32), dwell: u64) -> (r: Vec<Frame>)
    ensures
        frame_views(r@) == landing(*tf, press, tool, p, dwell),
{
    let (x, y) = tf.to_raw(p.0, p.1);
    let mut events: Vec<InputEvent> = Vec::new();
    events.push(InputEvent::untimed(EV_KEY, button(tool), 1));
    events.push(InputEvent::untimed(EV_ABS, ABS_X, x));
    events.push(InputEvent::untimed(EV_ABS, ABS_Y, y));
    events.push(InputEvent::untimed(EV_ABS, ABS_DISTANCE, 70));
    events.push(InputEvent::untimed(EV_SYN, SYN_REPORT, 0));
    let first = Frame { events, pause_us: dwell };
    let ghost want = landing(*tf, press, tool, p, dwell);
    assert(first@.events =~= want[0].events);
    let mut out: Vec<Frame> = Vec::new();
    out.push(first);
    out.push(one(EV_ABS, ABS_DISTANCE, 50, dwell));
    out.push(one(EV_ABS, ABS_DISTANCE, 30, dwell));
    out.push(one(EV_ABS, ABS_DISTANCE, 15, dwell));
    out.push(one(EV_ABS, ABS_DISTANCE, 5, dwell));
    out.push(
        three(
            InputEvent::untimed(EV_ABS, ABS_DISTANCE, 0),
            InputEvent::untimed(EV_KEY, BTN_TOUCH, 1),
            InputEvent::untimed(EV_ABS, ABS_PRESSURE, divide_by_three(press)),
            dwell,
        ),
    );
    out.push(one(EV_ABS, ABS_PRESSURE, press, 0));
    assert(frame_views(out@) =~= want);
    out
}

fn sample(tf: &Transform, press: i32, p: (F32, F32), dwell: u64) -> (r: Frame)
    ensures
        r@ == sample_frame(*tf, press, p, dwell),
{
    let (x, y) = tf.to_raw(p.0, p.1);
    three(
        InputEvent::untimed(EV_ABS, ABS_X, x),
        InputEvent::untimed(EV_ABS, ABS_Y, y),
        InputEvent::untimed(EV_ABS, ABS_PRESSURE, press),
        dwell,
    )
}

fn glide(
    out: &mut Vec<Frame>,
    tf: &Transform,
    press: i32,
    from: (F32, F32),
    to: (F32, F32),
    dwell: u64,
)
    ensures
        frame_views(final(out)@) == frame_views(old(out)@) + sample_frames(
            *tf,
            press,
            densified(from, to, num(MAX_HOP)),
            dwell,
        ),
{
    let ghost start = frame_views(out@);
    let points = densify(from, to, num(MAX_HOP));
    let ghost want = sample_frames(*tf, press, points@, dwell);
    let mut i: usize = 0;
    assert(frame_views(out@) =~= start + want.take(0));
    while i < points.len()
        invariant
            i <= points.len(),
            want == sample_frames(*tf, press, points@, dwell),
            frame_views(out@) == start + want.take(i as int),
        decreases points.len() - i,
    {
        let f = sample(tf, press, points[i], dwell);
        proof {
            lemma_frame_push(out@, f);
            assert(want[i as int] == f@);
            assert(start + want.take(i + 1) =~= (start + want.take(i as int)).push(f@));
        }
        out.push(f);
        i = i + 1;
    }
    assert(want.take(i as int) =~= want);
}

/// Plan the stroke that traces a polyline, given in normalized screen coordinates: approach,
/// touch, glide, lift.
pub fn plan_stroke(
    tf: &Transform,
    pressure: &AbsInfo,
    tool: Tool,
    pts: &Vec<(F32, F32)>,
    dwell_us: u64,
) -> (r: Vec<Frame>)
    requires
        dwell_us * 2 <= u64::MAX,
    ensures
        frame_views(r@) == stroke_frames(*tf, *pressure, tool, pts@, dwell_us),
{
    if pts.len() == 0 {
        let none: Vec<Frame> = Vec::new();
        assert(frame_views(none@) =~= Seq::<FrameView>::empty());
        return none;
    }
    let press = F32::from_i32(pressure.maximum).times(num(PRESS)).to_i32();
    let mut out = land(tf, press, tool, pts[0], dwell_us);
    let ghost start = frame_views(out@);
    let mut last = pts[0];
    let mut i: usize = 0;
    assert(frame_views(out@) =~= start + gliding(*tf, press, pts@, 0, dwell_us));
    while i < pts.len()
        invariant
            i <= pts.len(),
            pts.len() > 0,
            last == if i <= 1 {
                pts@[0]
            } else {
                pts@[i - 1]
            },
            frame_views(out@) == start + gliding(*tf, press, pts@, i as nat, dwell_us),
        decreases pts.len() - i,
    {
        glide(&mut out, tf, press, last, pts[i], dwell_us);
        assert(frame_views(out@) =~= start + gliding(*tf, press, pts@, (i + 1) as nat, dwell_us));
        last = pts[i];
        i = i + 1;
    }
    let ghost before = out@;
    let a = one(EV_ABS, ABS_PRESSURE, divide_by_three(press), dwell_us);
    let b = three(
        InputEvent::untimed(EV_ABS, ABS_PRESSURE, 0),
        InputEvent::untimed(EV_KEY, BTN_TOUCH, 0),
        InputEvent::untimed(EV_ABS, ABS_DISTANCE, 30),
        dwell_us * 2,
    );
    let c = one(EV_KEY, button(tool), 0, STROKE_PAUSE_US);
    assert(seq![a@, b@, c@] =~~= leaving(press, tool, dwell_us));
    out.push(a);
    out.push(b);
    out.push(c);
    assert(frame_views(out@) =~= frame_views(before) + seq![a@, b@, c@]);
    out
}

/// The events that release everything a stroke holds down, for when it is cut short: a key that
/// stayed down would swallow the next touch.
pub fn release_events(tool: Tool) -> (r: Vec<InputEvent>)
    ensures
        r@ == seq![
            event(EV_ABS, ABS_PRESSURE, 0),
            event(EV_KEY, BTN_TOUCH, 0),
            event(EV_KEY, tool_key(tool), 0),
            report(),
        ],
{
    let mut out: Vec<InputEvent> = Vec::new();
    out.push(InputEvent::untimed(EV_ABS, ABS_PRESSURE, 0));
    out.push(InputEvent::untimed(EV_KEY, BTN_TOUCH, 0));
    out.push(InputEvent::untimed(EV_KEY, button(tool), 0));
    out.push(InputEvent::untimed(EV_SYN, SYN_REPORT, 0));
    assert(out@ =~= seq![
        event(EV_ABS, ABS_PRESSURE, 0),
        event(EV_KEY, BTN_TOUCH, 0),
        event(EV_KEY, tool_key(tool), 0),
        report(),
    ]);
    out
}

// ---------------------------------------------------------------------------------------------
// Laws
// ---------------------------------------------------------------------------------------------
/// The events of some frames, one after the other.
pub open spec fn all_events(frames: Seq<FrameView>) -> Seq<InputEvent>
    decreases frames.len(),
{
    if frames.len() == 0 {
        Seq::empty()
    } else {
        all_events(frames.drop_last()) + frames.last().events
    }
}

/// The last value that a key was given.
pub open spec fn last_value(events: Seq<InputEvent>, code: u16) -> Option<i32>
    decreases events.len(),
{
    if events.len() == 0 {
        None
    } else if events.last().kind == EV_KEY && events.last().code == code {
        Some(events.last().value)
    } else {
        last_value(events.drop_last(), code)
    }
}

proof fn lemma_events_concat(a: Seq<FrameView>, b: Seq<FrameView>)
    ensures
        all_events(a + b) == all_events(a) + all_events(b),
    decreases b.len(),
{
    if b.len() == 0 {
        assert(a + b =~= a);
        assert(all_events(a) + all_events(b) =~= all_events(a));
    } else {
        assert((a + b).drop_last() =~= a + b.drop_last());
        lemma_events_concat(a, b.drop_last());
        assert(all_events(a + b) =~= all_events(a) + all_events(b));
    }
}

proof fn lemma_last_value_concat(a: Seq<InputEvent>, b: Seq<InputEvent>, code: u16)
    ensures
        last_value(a + b, code) == match last_value(b, code) {
            Some(v) => Some(v),
            None => last_value(a, code),
        },
    decreases b.len(),
{
    if b.len() == 0 {
        assert(a + b =~= a);
    } else {
        assert((a + b).drop_last() =~= a + b.drop_last());
        lemma_last_value_concat(a, b.drop_last(), code);
    }
}

/// A stroke leaves nothing held down: at its end the tip is up and the tool out of range.
pub proof fn law_a_stroke_releases_what_it_holds(
    tf: Transform,
    pressure: AbsInfo,
    tool: Tool,
    pts: Seq<(F32, F32)>,
    dwell: u64,
)
    requires
        pts.len() > 0,
    ensures
        last_value(all_events(stroke_frames(tf, pressure, tool, pts, dwell)), BTN_TOUCH) == Some(
            0i32,
        ),
        last_value(all_events(stroke_frames(tf, pressure, tool, pts, dwell)), tool_key(tool))
            == Some(0i32),
{
    let press = full_press(pressure);
    let head = landing(tf, press, tool, pts[0], dwell) + gliding(
        tf,
        press,
        pts,
        pts.len(),
        dwell,
    );
    let tail = leaving(press, tool, dwell);
    lemma_events_concat(head, tail);
    lemma_leaving_events(press, tool, dwell);
    lemma_last_value_concat(all_events(head), all_events(tail), BTN_TOUCH);
    lemma_last_value_concat(all_events(head), all_events(tail), tool_key(tool));
}

proof fn lemma_leaving_events(press: i32, tool: Tool, dwell: u64)
    ensures
        last_value(all_events(leaving(press, tool, dwell)), BTN_TOUCH) == Some(0i32),
        last_value(all_events(leaving(press, tool, dwell)), tool_key(tool)) == Some(0i32),
{
    let tail = leaving(press, tool, dwell);
    let last = tail[2].events;
    let mid = tail[1].events;
    assert(tail.drop_last().last() == tail[1]);
    let rest = all_events(tail.drop_last().drop_last());
    assert(all_events(tail.drop_last()) == rest + mid);
    assert(all_events(tail) == rest + mid + last);
    lemma_last_value_concat(rest + mid, last, BTN_TOUCH);
    lemma_last_value_concat(rest + mid, last, tool_key(tool));
    lemma_last_value_concat(rest, mid, BTN_TOUCH);
    reveal_with_fuel(last_value, 5);
    assert(last.last() == report());
    assert(last.drop_last().last() == event(EV_KEY, tool_key(tool), 0));
    assert(last.drop_last().drop_last() =~= Seq::<InputEvent>::empty());
    assert(mid.last() == report());
    assert(mid.drop_last().last() == event(EV_ABS, ABS_DISTANCE, 30));
    assert(mid.drop_last().drop_last().last() == event(EV_KEY, BTN_TOUCH, 0));
}

/// Does no event take the eraser out of range?
pub open spec fn keeps_rubber(events: Seq<InputEvent>) -> bool {
    forall|i: int|
        0 <= i < events.len() ==> !((#[trigger] events[i]).kind == EV_KEY && events[i].code
            == BTN_TOOL_RUBBER && events[i].value == 0)
}

proof fn lemma_keeps_concat(a: Seq<InputEvent>, b: Seq<InputEvent>)
    requires
        keeps_rubber(a),
        keeps_rubber(b),
    ensures
        keeps_rubber(a + b),
{
}

proof fn lemma_frames_keep(frames: Seq<FrameView>)
    requires
        forall|i: int| 0 <= i < frames.len() ==> keeps_rubber(#[trigger] frames[i].events),
    ensures
        keeps_rubber(all_events(frames)),
    decreases frames.len(),
{
    if frames.len() > 0 {
        let rest = frames.drop_last();
        assert forall|i: int| 0 <= i < rest.len() implies keeps_rubber(
            #[trigger] rest[i].events,
        ) by {
            assert(rest[i] == frames[i]);
        }
        lemma_frames_keep(rest);
        assert(keeps_rubber(frames[frames.len() - 1].events));
        lemma_keeps_concat(all_events(rest), frames.last().events);
    }
}

proof fn lemma_gliding_keeps(
    tf: Transform,
    press: i32,
    pts: Seq<(F32, F32)>,
    n: nat,
    dwell: u64,
)
    ensures
        forall|i: int|
            0 <= i < gliding(tf, press, pts, n, dwell).len() ==> keeps_rubber(
                #[trigger] gliding(tf, press, pts, n, dwell)[i].events,
            ),
    decreases n,
{
    if n > 0 {
        lemma_gliding_keeps(tf, press, pts, (n - 1) as nat, dwell);
        let from = if n == 1 {
            pts[0]
        } else {
            pts[n - 2]
        };
        let head = gliding(tf, press, pts, (n - 1) as nat, dwell);
        let tail = sample_frames(tf, press, densified(from, pts[n - 1], num(MAX_HOP)), dwell);
        let all = gliding(tf, press, pts, n, dwell);
        assert forall|i: int| 0 <= i < all.len() implies keeps_rubber(#[trigger] all[i].events) by {
            if i < head.len() {
                assert(all[i] == head[i]);
            } else {
                assert(all[i] == tail[i - head.len()]);
            }
        }
    }
}

proof fn lemma_replay_concat(
    c: crate::capture::CaptureView,
    a: Seq<InputEvent>,
    b: Seq<InputEvent>,
)
    ensures
        crate::capture::replayed(c, a + b) == crate::capture::replayed(
            crate::capture::replayed(c, a),
            b,
        ),
    decreases b.len(),
{
    if b.len() == 0 {
        assert(a + b =~= a);
    } else {
        assert((a + b).drop_last() =~= a + b.drop_last());
        lemma_replay_concat(c, a, b.drop_last());
    }
}

/// Erasing is not drawing: a capture that reads back an injected stroke of the rubber has the
/// same drawing as before.
pub proof fn law_a_rubber_stroke_adds_no_ink(
    c: crate::capture::CaptureView,
    tf: Transform,
    pressure: AbsInfo,
    pts: Seq<(F32, F32)>,
    dwell: u64,
)
    requires
        crate::capture::consistent(c),
    ensures
        crate::capture::drawing(
            crate::capture::replayed(
                c,
                all_events(stroke_frames(tf, pressure, Tool::Rubber, pts, dwell)),
            ),
        ) == crate::capture::drawing(c),
{
    if pts.len() > 0 {
        let press = full_press(pressure);
        let tool = Tool::Rubber;
        let land = landing(tf, press, tool, pts[0], dwell);
        let glide = gliding(tf, press, pts, pts.len(), dwell);
        let leave = leaving(press, tool, dwell);
        let frames = land + glide + leave;
        let body = land + glide + leave.drop_last();
        assert(frames.drop_last() =~= body);
        lemma_gliding_keeps(tf, press, pts, pts.len(), dwell);
        assert forall|i: int| 0 <= i < body.len() implies keeps_rubber(
            #[trigger] body[i].events,
        ) by {
            if i < land.len() {
                assert(body[i] == land[i]);
            } else if i < land.len() + glide.len() {
                assert(body[i] == glide[i - land.len()]);
            } else {
                assert(body[i] == leave[i - land.len() - glide.len()]);
            }
        }
        lemma_frames_keep(body);
        // the first event brings the eraser in range
        let events = all_events(body);
        lemma_first_event(body);
        let first = events[0];
        assert(first == land[0].events[0]);
        let rest = events.skip(1);
        assert(events =~= seq![first] + rest);
        lemma_replay_concat(c, seq![first], rest);
        let on = crate::capture::after(c, first);
        assert(seq![first].drop_last() =~= Seq::<InputEvent>::empty());
        reveal_with_fuel(crate::capture::replayed, 2);
        assert(crate::capture::replayed(c, seq![first]) == on);
        crate::capture::law_erasing_adds_no_ink(on, rest);
        // the last frame takes it out of range
        let held = crate::capture::replayed(c, events);
        let last = leave[2].events;
        assert(frames.last() == leave[2]);
        assert(all_events(frames) == events + last);
        lemma_replay_concat(c, events, last);
        assert(last.drop_last().drop_last() =~= Seq::<InputEvent>::empty());
        assert(last.drop_last().last() == event(EV_KEY, BTN_TOOL_RUBBER, 0));
        assert(last.last() == report());
        reveal_with_fuel(crate::capture::replayed, 3);
        assert(crate::capture::replayed(held, last) == crate::capture::after(
            crate::capture::after(held, event(EV_KEY, BTN_TOOL_RUBBER, 0)),
            report(),
        ));
    }
}

proof fn lemma_first_event(frames: Seq<FrameView>)
    requires
        frames.len() > 0,
        frames[0].events.len() > 0,
    ensures
        all_events(frames).len() > 0,
        all_events(frames)[0] == frames[0].events[0],
    decreases frames.len(),
{
    if frames.len() > 1 {
        lemma_first_event(frames.drop_last());
    } else {
        assert(all_events(frames.drop_last()) =~= Seq::<InputEvent>::empty());
    }
}

// ---------------------------------------------------------------------------------------------
// Hops
// ---------------------------------------------------------------------------------------------
/// The bits of 2 to the power of -20.
pub const LEAST_HOP: u32 = 0x3580_0000;

/// Is the place at most twice the size of the screen away from its corner, along both edges?
pub open spec fn near_screen(p: (F32, F32)) -> bool {
    p.0.magnitude() <= crate::float::bound::TWO_BITS && p.1.magnitude()
        <= crate::float::bound::TWO_BITS
}

/// The points of the way from `a` to `b`, with `a` itself.
pub open spec fn way(a: (F32, F32), b: (F32, F32), max_hop: F32) -> Seq<(F32, F32)> {
    seq![a] + densified(a, b, max_hop)
}

proof fn lemma_square_of_product(a: int, b: int)
    ensures
        (a * b) * (a * b) == (a * a) * (b * b),
{
    assert((a * b) * (a * b) == (a * a) * (b * b)) by (nonlinear_arith);
}

/// Two vectors together are no longer than one behind the other.
proof fn lemma_triangle(a: int, b: int, c: int, d: int, r: int, s: int)
    requires
        a * a + b * b <= r * r,
        c * c + d * d <= s * s,
        r >= 0,
        s >= 0,
    ensures
        (a + c) * (a + c) + (b + d) * (b + d) <= (r + s) * (r + s),
{
    let dot = a * c + b * d;
    let (x, y) = (a * a + b * b, c * c + d * d);
    assert(x >= 0 && y >= 0) by (nonlinear_arith)
        requires
            x == a * a + b * b,
            y == c * c + d * d,
    ;
    assert(dot * dot <= x * y) by {
        let (ac, bd, ad, bc) = (a * c, b * d, a * d, b * c);
        let (aa, bb, cc, dd) = (a * a, b * b, c * c, d * d);
        let turn = ad - bc;
        assert(ac * bd == ad * bc) by (nonlinear_arith)
            requires
                ac == a * c,
                bd == b * d,
                ad == a * d,
                bc == b * c,
        ;
        lemma_square_of_product(a, c);
        lemma_square_of_product(b, d);
        lemma_square_of_product(a, d);
        lemma_square_of_product(b, c);
        assert((aa + bb) * (cc + dd) == aa * cc + aa * dd + bb * cc + bb * dd) by (nonlinear_arith);
        assert((ac + bd) * (ac + bd) == ac * ac + 2 * (ac * bd) + bd * bd) by (nonlinear_arith);
        assert(turn * turn == ad * ad - 2 * (ad * bc) + bc * bc && turn * turn >= 0)
            by (nonlinear_arith)
            requires
                turn == ad - bc,
        ;
    }
    assert(x * y <= (r * r) * (s * s)) by (nonlinear_arith)
        requires
            0 <= x <= r * r,
            0 <= y <= s * s,
    ;
    assert((r * r) * (s * s) == (r * s) * (r * s)) by (nonlinear_arith);
    let area = r * s;
    assert(area >= 0) by (nonlinear_arith)
        requires
            area == r * s,
            r >= 0,
            s >= 0,
    ;
    assert(dot <= area) by (nonlinear_arith)
        requires
            dot * dot <= area * area,
            area >= 0,
    ;
    assert((a + c) * (a + c) + (b + d) * (b + d) == x + y + 2 * dot) by (nonlinear_arith)
        requires
            dot == a * c + b * d,
            x == a * a + b * b,
            y == c * c + d * d,
    ;
    assert((r + s) * (r + s) == r * r + s * s + 2 * area) by (nonlinear_arith)
        requires
            area == r * s,
    ;
}

/// Point `i` of `n` lies near its place on the way from `a` over the distance `d`.
proof fn lemma_spot(a: F32, d: F32, i: int, n: int)
    requires
        a.magnitude() <= crate::float::bound::TWO_BITS,
        d.magnitude() <= crate::float::bound::FOUR_BITS,
        0 <= i <= n < 0x100_0000,
        n > 0,
    ensures
        ({
            let t = crate::float::convert::of_int(i).over(crate::float::convert::of_int(n));
            let off = n * (a.plus(d.times(t)).units() - a.units()) - i * d.units();
            -(n * vstd::arithmetic::power2::pow2(128)) <= off <= n
                * vstd::arithmetic::power2::pow2(128)
        }),
{
    let one = crate::float::arith::one_units() as int;
    let t = crate::float::convert::of_int(i).over(crate::float::convert::of_int(n));
    let w = d.times(t);
    let p = a.plus(w);
    crate::float::error::lemma_ratio(i, n);
    crate::float::error::lemma_product_error(d, t);
    crate::float::error::lemma_sum_error(a, w);
    crate::float::monotone::lemma_power(crate::float::bound::FOUR_BITS as int, 2);
    vstd::arithmetic::power2::lemma2_to64();
    vstd::arithmetic::power2::lemma_pow2_pos(149);
    vstd::arithmetic::power2::lemma_pow2_pos(124);
    vstd::arithmetic::power2::lemma_pow2_adds(124, 1);
    vstd::arithmetic::power2::lemma_pow2_adds(124, 2);
    vstd::arithmetic::power2::lemma_pow2_adds(124, 3);
    vstd::arithmetic::power2::lemma_pow2_adds(124, 4);
    crate::float::bound::lemma_size_ordered(
        d.magnitude(),
        crate::float::bound::FOUR_BITS as int,
    );
    let u = vstd::arithmetic::power2::pow2(124) as int;
    let (av, dv, tv, wv, pv) = (a.units(), d.units(), t.units(), w.units(), p.units());
    // the three roundings, each scaled to the same measure
    let e1 = pv - (av + wv);
    let e2 = wv * one - dv * tv;
    let e3 = tv * n - i * one;
    assert(-(8 * u) <= e1 <= 8 * u);
    assert(-(4 * (u * one)) <= e2 <= 4 * (u * one)) by {
        assert((8 * u) * one == 8 * (u * one)) by (nonlinear_arith);
    }
    assert(-(n * u) <= e3 <= n * u) by {
        assert(n * (2 * u) == 2 * (n * u)) by (nonlinear_arith);
    }
    let off = n * (pv - av) - i * dv;
    assert(off * one == (n * one) * e1 + n * e2 + dv * e3) by {
        let step = pv - av;
        assert(off * one == (n * step) * one - (i * dv) * one) by (nonlinear_arith)
            requires
                off == n * step - i * dv,
        ;
        assert((n * one) * e1 == (n * one) * step - (n * one) * wv) by (nonlinear_arith)
            requires
                e1 == step - wv,
        ;
        assert(n * e2 == n * (wv * one) - n * (dv * tv)) by (nonlinear_arith)
            requires
                e2 == wv * one - dv * tv,
        ;
        assert(dv * e3 == dv * (tv * n) - dv * (i * one)) by (nonlinear_arith)
            requires
                e3 == tv * n - i * one,
        ;
        assert((n * step) * one == (n * one) * step) by (nonlinear_arith);
        assert((n * one) * wv == n * (wv * one)) by (nonlinear_arith);
        assert(n * (dv * tv) == dv * (tv * n)) by (nonlinear_arith);
        assert((i * dv) * one == dv * (i * one)) by (nonlinear_arith);
    }
    let unit = (n * u) * one;
    assert(-(8 * unit) <= (n * one) * e1 <= 8 * unit) by (nonlinear_arith)
        requires
            -(8 * u) <= e1 <= 8 * u,
            unit == (n * u) * one,
            n > 0,
            one > 0,
    ;
    assert(-(4 * unit) <= n * e2 <= 4 * unit) by (nonlinear_arith)
        requires
            -(4 * (u * one)) <= e2 <= 4 * (u * one),
            unit == (n * u) * one,
            n > 0,
    ;
    let far = n * u;
    assert(-(4 * unit) <= dv * e3 <= 4 * unit) by (nonlinear_arith)
        requires
            -(4 * one) <= dv <= 4 * one,
            -far <= e3 <= far,
            unit == far * one,
            far >= 0,
            one > 0,
    ;
    assert(-(16 * far) <= off <= 16 * far) by (nonlinear_arith)
        requires
            -(16 * (far * one)) <= off * one <= 16 * (far * one),
            one > 0,
    ;
    assert(n * (16 * u) == 16 * far) by (nonlinear_arith)
        requires
            far == n * u,
    ;
}

/// The number of steps, and the distance that they cover.
proof fn lemma_step_count(dist: F32, max_hop: F32)
    requires
        !dist.negative(),
        dist.magnitude() < crate::float::bound::EIGHT_BITS,
        !max_hop.negative(),
        LEAST_HOP <= max_hop.magnitude() <= ONE,
    ensures
        ({
            let n = dist.over(max_hop).ceil().max(num(ONE)).to_usize();
            &&& 1 <= n <= 0x80_0001
            &&& 0x100_0000 * dist.units() <= 0x100_0001 * (n * max_hop.units())
            &&& 0 <= max_hop.units() <= crate::float::arith::one_units()
        }),
{
    reveal(F32::over_spec);
    let one = crate::float::arith::one_units() as int;
    let h = crate::float::HIDDEN as int;
    let (d, m) = (dist.size() as int, max_hop.size() as int);
    let r = dist.over(max_hop);
    vstd::arithmetic::power2::lemma2_to64();
    vstd::arithmetic::power2::lemma_pow2_pos(149);
    crate::float::monotone::lemma_power(ONE as int, 0);
    crate::float::monotone::lemma_power(crate::float::bound::EIGHT_BITS as int, 3);
    crate::float::monotone::lemma_power(150 * h, 23);
    vstd::arithmetic::div_mod::lemma_fundamental_div_mod_converse(LEAST_HOP as int, h, 107, 0);
    vstd::arithmetic::power2::lemma_pow2_adds(23, 106);
    vstd::arithmetic::power2::lemma_pow2_adds(20, 129);
    crate::float::bound::lemma_size_ordered(
        dist.magnitude(),
        crate::float::bound::EIGHT_BITS as int,
    );
    crate::float::bound::lemma_size_ordered(LEAST_HOP as int, max_hop.magnitude());
    crate::float::bound::lemma_size_ordered(max_hop.magnitude(), ONE as int);
    assert(one <= 0x10_0000 * m && m > 0);
    let x = d * one;
    let b = crate::float::nearest(x as nat, m as nat);
    assert(x >= 0) by (nonlinear_arith)
        requires
            x == d * one,
            d >= 0,
            one > 0,
    ;
    crate::float::monotone::lemma_nearest(x as nat, m as nat);
    // the quotient is at most 2^23
    let top = 0x80_0000 * one;
    assert(x <= top * m) by (nonlinear_arith)
        requires
            x == d * one,
            d <= 8 * one,
            one <= 0x10_0000 * m,
            top == 0x80_0000 * one,
            one > 0,
    ;
    crate::float::monotone::lemma_nearest_multiple(150 * h, m as nat);
    crate::float::monotone::lemma_nearest_monotone(x as nat, (top * m) as nat, m as nat);
    crate::float::bound::lemma_size_ordered(b, 150 * h);
    crate::float::error::lemma_steps_reach(r);
    let n = r.ceil().max(num(ONE)).to_usize() as int;
    let nm = n * m;
    if b < ONE {
        // less than one step
        if d >= m {
            assert(one * m <= x) by (nonlinear_arith)
                requires
                    x == d * one,
                    d >= m,
                    one > 0,
            ;
            crate::float::monotone::lemma_nearest_multiple(ONE as int, m as nat);
            crate::float::monotone::lemma_nearest_monotone((one * m) as nat, x as nat, m as nat);
        }
        assert(m <= nm) by (nonlinear_arith)
            requires
                nm == n * m,
                n >= 1,
                m > 0,
        ;
    } else {
        crate::float::error::lemma_relative(x as nat, m as nat);
        let v = crate::float::mag(b);
        assert(v * m <= nm * one) by (nonlinear_arith)
            requires
                v <= n * one,
                nm == n * m,
                m > 0,
        ;
        assert(0x100_0000 * d <= 0x100_0001 * nm) by (nonlinear_arith)
            requires
                0x100_0000 * (d * one) <= 0x100_0001 * (nm * one),
                one > 0,
        ;
    }
}

/// A hop on the way from `a` to `b` is longer than `max_hop` by at most 2 to the power of -18, and
/// the way ends at most 2 to the power of -20 from `b` along each edge. Rounding accounts for both.
pub proof fn law_hops_stay_short(a: (F32, F32), b: (F32, F32), max_hop: F32, i: int)
    requires
        near_screen(a),
        near_screen(b),
        !max_hop.negative(),
        LEAST_HOP <= max_hop.magnitude() <= ONE,
        0 <= i < densified(a, b, max_hop).len(),
    ensures
        ({
            let points = way(a, b, max_hop);
            let hx = points[i + 1].0.units() - points[i].0.units();
            let hy = points[i + 1].1.units() - points[i].1.units();
            let reach = max_hop.units() + vstd::arithmetic::power2::pow2(131);
            hx * hx + hy * hy <= reach * reach
        }),
        ({
            let end = way(a, b, max_hop).last();
            let miss = vstd::arithmetic::power2::pow2(129);
            &&& -miss <= end.0.units() - b.0.units() <= miss
            &&& -miss <= end.1.units() - b.1.units() <= miss
        }),
{
    let points = way(a, b, max_hop);
    let (dx, dy) = (b.0.minus(a.0), b.1.minus(a.1));
    let n = step_count(a, b, max_hop) as int;
    let two = crate::float::bound::TWO_BITS as int;
    crate::float::scale::lemma_plus_within(a.0, a.0, two);
    crate::float::scale::lemma_plus_within(a.1, a.1, two);
    crate::float::scale::lemma_plus_within(b.0, a.0.neg(), two);
    crate::float::scale::lemma_plus_within(b.1, a.1.neg(), two);
    crate::float::monotone::lemma_opposite(a.0);
    crate::float::monotone::lemma_opposite(a.1);
    crate::float::error::lemma_sum_error(b.0, a.0.neg());
    crate::float::error::lemma_sum_error(b.1, a.1.neg());
    crate::float::error::lemma_hypotenuse_error(dx, dy);
    let dist = dx.hypot(dy);
    lemma_step_count(dist, max_hop);
    lemma_point(a, b, max_hop, i);
    lemma_point(a, b, max_hop, i + 1);
    lemma_point(a, b, max_hop, n);
    vstd::arithmetic::power2::lemma2_to64();
    vstd::arithmetic::power2::lemma_pow2_pos(125);
    vstd::arithmetic::power2::lemma_pow2_adds(125, 2);
    vstd::arithmetic::power2::lemma_pow2_adds(125, 3);
    vstd::arithmetic::power2::lemma_pow2_adds(125, 4);
    vstd::arithmetic::power2::lemma_pow2_adds(125, 5);
    vstd::arithmetic::power2::lemma_pow2_adds(125, 6);
    vstd::arithmetic::power2::lemma_pow2_adds(125, 24);
    let u = vstd::arithmetic::power2::pow2(125) as int;
    let (x, y) = (dx.units(), dy.units());
    // one hop
    let hx = points[i + 1].0.units() - points[i].0.units();
    let hy = points[i + 1].1.units() - points[i].1.units();
    let (ex, ey) = (n * hx - x, n * hy - y);
    let (p, q) = (points[i], points[i + 1]);
    assert(ex == (n * (q.0.units() - a.0.units()) - (i + 1) * x) - (n * (p.0.units() - a.0.units())
        - i * x)) by (nonlinear_arith)
        requires
            ex == n * hx - x,
            hx == q.0.units() - p.0.units(),
    ;
    assert(ey == (n * (q.1.units() - a.1.units()) - (i + 1) * y) - (n * (p.1.units() - a.1.units())
        - i * y)) by (nonlinear_arith)
        requires
            ey == n * hy - y,
            hy == q.1.units() - p.1.units(),
    ;
    let nu = n * u;
    assert(n * (8 * u) == 8 * nu) by (nonlinear_arith)
        requires
            nu == n * u,
    ;
    assert(-(16 * nu) <= ex <= 16 * nu && -(16 * nu) <= ey <= 16 * nu);
    assert(nu >= u) by (nonlinear_arith)
        requires
            nu == n * u,
            n >= 1,
            u > 0,
    ;
    let slack = 32 * nu;
    assert(ex * ex + ey * ey <= slack * slack) by (nonlinear_arith)
        requires
            -(16 * nu) <= ex <= 16 * nu,
            -(16 * nu) <= ey <= 16 * nu,
            slack == 32 * nu,
    ;
    let length = dist.units() + 4 * u;
    lemma_triangle(x, y, ex, ey, length, slack);
    // against the distance that the steps cover
    let m = max_hop.units();
    let nm = n * m;
    assert(nm <= 0x100_0000 * nu) by (nonlinear_arith)
        requires
            nm == n * m,
            nu == n * u,
            m <= 0x100_0000 * u,
            n >= 1,
    ;
    assert(dist.units() <= nm + nu);
    let reach = m + 64 * u;
    assert(n * reach == nm + 64 * nu) by (nonlinear_arith)
        requires
            reach == m + 64 * u,
            nm == n * m,
            nu == n * u,
    ;
    let (sum, most) = (length + slack, n * reach);
    assert(0 <= sum <= most);
    assert(sum * sum <= most * most) by (nonlinear_arith)
        requires
            0 <= sum <= most,
    ;
    assert((n * hx) * (n * hx) + (n * hy) * (n * hy) <= most * most);
    let square = n * n;
    assert((n * hx) * (n * hx) + (n * hy) * (n * hy) == square * (hx * hx + hy * hy)
        && most * most == square * (reach * reach) && square > 0) by (nonlinear_arith)
        requires
            square == n * n,
            most == n * reach,
            n >= 1,
    ;
    let (l, r) = (hx * hx + hy * hy, reach * reach);
    assert(l <= r) by (nonlinear_arith)
        requires
            square * l <= square * r,
            square > 0,
    ;
    // the end
    let end = points[n];
    assert(points.last() == end);
    let (fx, fy) = (end.0.units() - a.0.units() - x, end.1.units() - a.1.units() - y);
    assert(n * fx == n * (end.0.units() - a.0.units()) - n * x) by (nonlinear_arith)
        requires
            fx == end.0.units() - a.0.units() - x,
    ;
    assert(n * fy == n * (end.1.units() - a.1.units()) - n * y) by (nonlinear_arith)
        requires
            fy == end.1.units() - a.1.units() - y,
    ;
    assert(-(8 * u) <= fx <= 8 * u) by (nonlinear_arith)
        requires
            -(n * (8 * u)) <= n * fx <= n * (8 * u),
            n >= 1,
    ;
    assert(-(8 * u) <= fy <= 8 * u) by (nonlinear_arith)
        requires
            -(n * (8 * u)) <= n * fy <= n * (8 * u),
            n >= 1,
    ;
}

/// Point `k` of the way lies near its place.
proof fn lemma_point(a: (F32, F32), b: (F32, F32), max_hop: F32, k: int)
    requires
        near_screen(a),
        0 <= k <= step_count(a, b, max_hop) < 0x100_0000,
        step_count(a, b, max_hop) > 0,
        b.0.minus(a.0).magnitude() <= crate::float::bound::FOUR_BITS,
        b.1.minus(a.1).magnitude() <= crate::float::bound::FOUR_BITS,
    ensures
        ({
            let n = step_count(a, b, max_hop) as int;
            let p = way(a, b, max_hop)[k];
            let x = n * (p.0.units() - a.0.units()) - k * b.0.minus(a.0).units();
            let y = n * (p.1.units() - a.1.units()) - k * b.1.minus(a.1).units();
            let miss = n * vstd::arithmetic::power2::pow2(128);
            -miss <= x <= miss && -miss <= y <= miss
        }),
{
    let n = step_count(a, b, max_hop) as int;
    let p = way(a, b, max_hop)[k];
    if k == 0 {
        vstd::arithmetic::power2::lemma_pow2_pos(128);
        assert(p == a);
        assert(n * vstd::arithmetic::power2::pow2(128) >= 0) by (nonlinear_arith)
            requires
                n > 0,
        ;
        assert(0 * b.0.minus(a.0).units() == 0);
        assert(n * 0 == 0);
    } else {
        assert(p == densified(a, b, max_hop)[k - 1]);
        lemma_spot(a.0, b.0.minus(a.0), k, n);
        lemma_spot(a.1, b.1.minus(a.1), k, n);
    }
}

} // verus!
