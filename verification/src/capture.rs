//! The ink-capture state machine: input events to ink.
//!
//! A device does not deliver points. It delivers a stream of independent axis updates and key
//! presses, and then a report that makes everything since the last one a coherent sample. So the
//! latest raw values are kept as they arrive, and a point is emitted on a report only, while the
//! tip is down.
use crate::evdev::{
    AbsInfo, InputEvent, ABS_PRESSURE, ABS_TILT_X, ABS_TILT_Y, ABS_X, ABS_Y, BTN_TOOL_PEN,
    BTN_TOOL_RUBBER, BTN_TOUCH, EV_ABS, EV_KEY, EV_SYN, SYN_REPORT,
};
use crate::float::{num, F32};
use crate::stroke::{Ink, InkView, Point, Stroke, ONE};
use crate::transform::{signed_frac, Transform, MINUS_ONE};
use vstd::prelude::*;

verus! {

/// The width of the display in pixels: 1404.
pub const DISPLAY_WIDTH: u32 = 0x44af_8000;

/// The height of the display in pixels: 1872.
pub const DISPLAY_HEIGHT: u32 = 0x44ea_0000;

/// A hint for drawing along, given when a sample is latched under the tip. `from` is the previous
/// point of the stroke, if there is one.
#[derive(Debug, Clone, Copy)]
pub struct Segment {
    pub from: Option<(F32, F32)>,
    pub to: (F32, F32),
    pub pressure: F32,
}

/// A capture in progress.
pub struct Capture {
    tf: Transform,
    pressure: AbsInfo,
    tilt_x: AbsInfo,
    tilt_y: AbsInfo,
    raw_x: i32,
    raw_y: i32,
    raw_p: i32,
    raw_tx: i32,
    raw_ty: i32,
    tip_down: bool,
    eraser: bool,
    t0_us: Option<u64>,
    last_norm: Option<(F32, F32)>,
    stroke: Stroke,
    ink: Ink,
}

/// What a [`Capture`] knows: the axes, the latest raw values, what the pen does, the time of the
/// first sample, the last point of the stroke in progress, that stroke, and the finished strokes.
#[verifier::ext_equal]
pub struct CaptureView {
    pub tf: Transform,
    pub pressure: AbsInfo,
    pub tilt_x: AbsInfo,
    pub tilt_y: AbsInfo,
    pub raw_x: i32,
    pub raw_y: i32,
    pub raw_p: i32,
    pub raw_tx: i32,
    pub raw_ty: i32,
    pub tip_down: bool,
    pub eraser: bool,
    pub t0_us: Option<u64>,
    pub last_norm: Option<(F32, F32)>,
    pub stroke: Seq<Point>,
    pub ink: InkView,
}

impl View for Capture {
    type V = CaptureView;

    closed spec fn view(&self) -> CaptureView {
        CaptureView {
            tf: self.tf,
            pressure: self.pressure,
            tilt_x: self.tilt_x,
            tilt_y: self.tilt_y,
            raw_x: self.raw_x,
            raw_y: self.raw_y,
            raw_p: self.raw_p,
            raw_tx: self.raw_tx,
            raw_ty: self.raw_ty,
            tip_down: self.tip_down,
            eraser: self.eraser,
            t0_us: self.t0_us,
            last_norm: self.last_norm,
            stroke: self.stroke@,
            ink: self.ink@,
        }
    }
}

/// A capture that has seen nothing yet.
pub open spec fn fresh(
    x: AbsInfo,
    y: AbsInfo,
    pressure: AbsInfo,
    tilt_x: AbsInfo,
    tilt_y: AbsInfo,
) -> CaptureView {
    CaptureView {
        tf: Transform { x, y },
        pressure,
        tilt_x,
        tilt_y,
        raw_x: 0,
        raw_y: 0,
        raw_p: 0,
        raw_tx: 0,
        raw_ty: 0,
        tip_down: false,
        eraser: false,
        t0_us: None,
        last_norm: None,
        stroke: Seq::empty(),
        ink: InkView {
            source_width: num(DISPLAY_WIDTH),
            source_height: num(DISPLAY_HEIGHT),
            strokes: Seq::empty(),
        },
    }
}

/// The stroke in progress is finished, if it has a point.
pub open spec fn ended(c: CaptureView) -> CaptureView {
    if c.stroke.len() > 0 {
        CaptureView {
            stroke: Seq::empty(),
            ink: InkView { strokes: c.ink.strokes.push(c.stroke), ..c.ink },
            last_norm: None,
            ..c
        }
    } else {
        CaptureView { last_norm: None, ..c }
    }
}

/// The time of the first sample, once a sample at `t` has come.
pub open spec fn start_time(c: CaptureView, t: int) -> int {
    match c.t0_us {
        Some(t0) => t0 as int,
        None => t,
    }
}

/// The point of the latest raw values, at time `t`. Its time counts from the first sample.
pub open spec fn latched(c: CaptureView, t: int) -> Point {
    let (x, y) = c.tf.on_screen(c.raw_x as int, c.raw_y as int);
    let t0 = start_time(c, t);
    Point {
        x,
        y,
        pressure: crate::transform::fraction(c.raw_p as int, c.pressure),
        tilt_x: crate::transform::signed_fraction(c.raw_tx as int, c.tilt_x),
        tilt_y: crate::transform::signed_fraction(c.raw_ty as int, c.tilt_y),
        t_us: (if t >= t0 {
            t - t0
        } else {
            0
        }) as u64,
    }
}

/// Does the event latch a sample under the tip?
pub open spec fn latches(c: CaptureView, ev: InputEvent) -> bool {
    ev.kind == EV_SYN && ev.code == SYN_REPORT && c.tip_down
}

/// What an event makes of a capture.
pub open spec fn after(c: CaptureView, ev: InputEvent) -> CaptureView {
    if ev.kind == EV_ABS {
        if ev.code == ABS_X {
            CaptureView { raw_x: ev.value, ..c }
        } else if ev.code == ABS_Y {
            CaptureView { raw_y: ev.value, ..c }
        } else if ev.code == ABS_PRESSURE {
            CaptureView { raw_p: ev.value, ..c }
        } else if ev.code == ABS_TILT_X {
            CaptureView { raw_tx: ev.value, ..c }
        } else if ev.code == ABS_TILT_Y {
            CaptureView { raw_ty: ev.value, ..c }
        } else {
            c
        }
    } else if ev.kind == EV_KEY && ev.code == BTN_TOOL_RUBBER {
        // the eraser comes in range: what was drawn stays, and nothing is drawn from here on
        if ev.value != 0 {
            ended(CaptureView { eraser: true, tip_down: false, ..c })
        } else {
            CaptureView { eraser: false, ..c }
        }
    } else if ev.kind == EV_KEY && ev.code == BTN_TOUCH {
        // erasing is not drawing
        if ev.value != 0 && !c.eraser {
            CaptureView { tip_down: true, ..c }
        } else {
            ended(CaptureView { tip_down: false, ..c })
        }
    } else if ev.kind == EV_KEY && ev.code == BTN_TOOL_PEN && ev.value == 0 {
        ended(CaptureView { tip_down: false, ..c })
    } else if latches(c, ev) {
        let p = latched(c, ev.micros());
        CaptureView {
            t0_us: Some(start_time(c, ev.micros()) as u64),
            last_norm: Some((p.x, p.y)),
            stroke: c.stroke.push(p),
            ..c
        }
    } else {
        c
    }
}

/// The hint for drawing along that an event gives.
pub open spec fn hint(c: CaptureView, ev: InputEvent) -> Option<Segment> {
    if latches(c, ev) {
        let p = latched(c, ev.micros());
        Some(Segment { from: c.last_norm, to: (p.x, p.y), pressure: p.pressure })
    } else {
        None
    }
}

impl Capture {
    /// A capture for the given axes.
    pub fn from_axes(
        x: AbsInfo,
        y: AbsInfo,
        pressure: AbsInfo,
        tilt_x: AbsInfo,
        tilt_y: AbsInfo,
    ) -> (r: Self)
        ensures
            r@ == fresh(x, y, pressure, tilt_x, tilt_y),
    {
        Capture {
            tf: Transform::new(x, y),
            pressure,
            tilt_x,
            tilt_y,
            raw_x: 0,
            raw_y: 0,
            raw_p: 0,
            raw_tx: 0,
            raw_ty: 0,
            tip_down: false,
            eraser: false,
            t0_us: None,
            last_norm: None,
            stroke: Stroke::new(),
            ink: Ink::new().with_source(num(DISPLAY_WIDTH), num(DISPLAY_HEIGHT)),
        }
    }

    /// Feed one event. Returns a hint when a point is latched under the tip.
    pub fn process(&mut self, ev: &InputEvent) -> (r: Option<Segment>)
        ensures
            final(self)@ == after(old(self)@, *ev),
            r == hint(old(self)@, *ev),
    {
        if ev.kind == EV_ABS {
            if ev.code == ABS_X {
                self.raw_x = ev.value;
            } else if ev.code == ABS_Y {
                self.raw_y = ev.value;
            } else if ev.code == ABS_PRESSURE {
                self.raw_p = ev.value;
            } else if ev.code == ABS_TILT_X {
                self.raw_tx = ev.value;
            } else if ev.code == ABS_TILT_Y {
                self.raw_ty = ev.value;
            }
            None
        } else if ev.kind == EV_KEY && ev.code == BTN_TOOL_RUBBER {
            self.eraser = ev.value != 0;
            if self.eraser {
                self.tip_down = false;
                self.end_stroke();
            }
            None
        } else if ev.kind == EV_KEY && ev.code == BTN_TOUCH {
            let down = ev.value != 0 && !self.eraser;
            self.tip_down = down;
            if !down {
                self.end_stroke();
            }
            None
        } else if ev.kind == EV_KEY && ev.code == BTN_TOOL_PEN && ev.value == 0 {
            self.tip_down = false;
            self.end_stroke();
            None
        } else if ev.kind == EV_SYN && ev.code == SYN_REPORT && self.tip_down {
            Some(self.commit_point(ev.t_us()))
        } else {
            None
        }
    }

    fn commit_point(&mut self, t_us: u64) -> (r: Segment)
        ensures
            ({
                let c = old(self)@;
                let p = latched(c, t_us as int);
                &&& final(self)@ == (CaptureView {
                    t0_us: Some(start_time(c, t_us as int) as u64),
                    last_norm: Some((p.x, p.y)),
                    stroke: c.stroke.push(p),
                    ..c
                })
                &&& r == (Segment { from: c.last_norm, to: (p.x, p.y), pressure: p.pressure })
            }),
    {
        let t0 = match self.t0_us {
            Some(t0) => t0,
            None => t_us,
        };
        self.t0_us = Some(t0);
        let (nx, ny) = self.tf.to_norm(self.raw_x, self.raw_y);
        let pressure = self.tf.norm_pressure(self.raw_p, &self.pressure);
        let tilt_x = signed_frac(self.raw_tx, &self.tilt_x);
        let tilt_y = signed_frac(self.raw_ty, &self.tilt_y);
        let since: u64 = if t_us >= t0 {
            t_us - t0
        } else {
            0
        };
        self.stroke.push(Point::new(nx, ny, pressure, tilt_x, tilt_y, since));
        let from = self.last_norm;
        self.last_norm = Some((nx, ny));
        Segment { from, to: (nx, ny), pressure }
    }

    fn end_stroke(&mut self)
        ensures
            final(self)@ == ended(old(self)@),
    {
        if !self.stroke.is_empty() {
            let mut done = Stroke::new();
            std::mem::swap(&mut done, &mut self.stroke);
            self.ink.push(done);
        }
        self.last_norm = None;
    }

    /// Is the tip down?
    pub fn touching(&self) -> (r: bool)
        ensures
            r == self@.tip_down,
    {
        self.tip_down
    }

    /// Finish the stroke in progress and return the captured drawing.
    pub fn finish(self) -> (r: Ink)
        ensures
            r@ == ended(self@).ink,
    {
        let mut last = self;
        last.end_stroke();
        last.ink
    }
}

// ---------------------------------------------------------------------------------------------
// Laws
// ---------------------------------------------------------------------------------------------
/// What a sequence of events makes of a capture.
pub open spec fn replayed(c: CaptureView, events: Seq<InputEvent>) -> CaptureView
    decreases events.len(),
{
    if events.len() == 0 {
        c
    } else {
        after(replayed(c, events.drop_last()), events.last())
    }
}

/// The drawing that a capture would give if it were finished.
pub open spec fn drawing(c: CaptureView) -> Seq<Seq<Point>> {
    ended(c).ink.strokes
}

/// While the eraser is in range, the tip is not taken to be down.
pub open spec fn consistent(c: CaptureView) -> bool {
    c.eraser ==> !c.tip_down
}

/// Every event keeps a capture consistent.
pub proof fn law_the_eraser_never_draws(c: CaptureView, ev: InputEvent)
    requires
        consistent(c),
    ensures
        consistent(after(c, ev)),
{
}

/// Erasing is not drawing: from when the eraser comes in range until it leaves, nothing that the
/// pen does changes the drawing.
pub proof fn law_erasing_adds_no_ink(c: CaptureView, events: Seq<InputEvent>)
    requires
        c.eraser,
        consistent(c),
        forall|i: int|
            0 <= i < events.len() ==> !((#[trigger] events[i]).kind == EV_KEY && events[i].code
                == BTN_TOOL_RUBBER && events[i].value == 0),
    ensures
        drawing(replayed(c, events)) == drawing(c),
        replayed(c, events).eraser,
        consistent(replayed(c, events)),
    decreases events.len(),
{
    if events.len() > 0 {
        let rest = events.drop_last();
        assert forall|i: int| 0 <= i < rest.len() implies !((#[trigger] rest[i]).kind == EV_KEY
            && rest[i].code == BTN_TOOL_RUBBER && rest[i].value == 0) by {
            assert(rest[i] == events[i]);
        }
        law_erasing_adds_no_ink(c, rest);
        let ev = events[events.len() - 1];
        assert(ev == events.last());
    }
}

/// A pen that does not touch the glass adds no ink.
pub proof fn law_hovering_adds_no_ink(c: CaptureView, events: Seq<InputEvent>)
    requires
        !c.tip_down,
        forall|i: int|
            0 <= i < events.len() ==> !((#[trigger] events[i]).kind == EV_KEY && events[i].code
                == BTN_TOUCH && events[i].value != 0),
    ensures
        drawing(replayed(c, events)) == drawing(c),
        !replayed(c, events).tip_down,
    decreases events.len(),
{
    if events.len() > 0 {
        let rest = events.drop_last();
        assert forall|i: int| 0 <= i < rest.len() implies !((#[trigger] rest[i]).kind == EV_KEY
            && rest[i].code == BTN_TOUCH && rest[i].value != 0) by {
            assert(rest[i] == events[i]);
        }
        law_hovering_adds_no_ink(c, rest);
        let ev = events[events.len() - 1];
        assert(ev == events.last());
    }
}

/// No event takes back a finished stroke.
pub proof fn law_finished_strokes_stay(c: CaptureView, ev: InputEvent)
    ensures
        c.ink.strokes.len() <= after(c, ev).ink.strokes.len() <= c.ink.strokes.len() + 1,
        after(c, ev).ink.strokes.take(c.ink.strokes.len() as int) == c.ink.strokes,
        after(c, ev).ink.source_width == c.ink.source_width,
        after(c, ev).ink.source_height == c.ink.source_height,
{
    assert(after(c, ev).ink.strokes.take(c.ink.strokes.len() as int) =~= c.ink.strokes);
}

/// The first point of a stroke has no predecessor, and every other has.
pub open spec fn traced(c: CaptureView) -> bool {
    (c.last_norm is Some) == (c.stroke.len() > 0)
}

/// A hint names a previous point if and only if it is not the first of its stroke.
pub proof fn law_the_first_point_has_no_predecessor(c: CaptureView, ev: InputEvent)
    requires
        traced(c),
    ensures
        traced(after(c, ev)),
        hint(c, ev) matches Some(s) ==> (s.from is Some) == (c.stroke.len() > 0),
{
}

/// Does the point lie in the unit square, with its pressure between 0 and 1 and its tilts between
/// -1 and 1?
pub open spec fn well_placed(p: Point) -> bool {
    &&& crate::transform::in_unit_range(p.x)
    &&& crate::transform::in_unit_range(p.y)
    &&& crate::transform::in_unit_range(p.pressure)
    &&& num(MINUS_ONE).le(p.tilt_x) && p.tilt_x.le(num(ONE))
    &&& num(MINUS_ONE).le(p.tilt_y) && p.tilt_y.le(num(ONE))
}

/// Every point that is captured lies in the unit square, whatever the device reports.
pub proof fn law_points_are_well_placed(c: CaptureView, t: int)
    ensures
        well_placed(latched(c, t)),
{
    crate::transform::law_samples_land_in_the_unit_square(c.tf, c.raw_x as int, c.raw_y as int);
    crate::transform::law_fractions_stay_in_range(c.raw_p as int, c.pressure);
    crate::transform::law_signed_fractions_stay_in_range(c.raw_tx as int, c.tilt_x);
    crate::transform::law_signed_fractions_stay_in_range(c.raw_ty as int, c.tilt_y);
}

/// Time is relative: the first point is at 0, and a later one at the time since.
pub proof fn law_time_counts_from_the_first_sample(c: CaptureView, first: InputEvent, t: int)
    requires
        c.t0_us is None,
        latches(c, first),
        first.micros() <= t <= u64::MAX,
    ensures
        latched(c, first.micros()).t_us == 0,
        latched(after(c, first), t).t_us == t - first.micros(),
{
    assert(0 <= first.micros() <= u64::MAX);
}

/// Each absolute axis sets its own value and nothing else: the two places, the pressure, and the two tilts.
pub proof fn law_an_axis_sets_its_own_value(c: CaptureView, ev: InputEvent)
    requires
        ev.kind == 3,
    ensures
        after(c, ev) == (CaptureView {
            raw_x: if ev.code == 0 {
                ev.value
            } else {
                c.raw_x
            },
            raw_y: if ev.code == 1 {
                ev.value
            } else {
                c.raw_y
            },
            raw_p: if ev.code == 0x18 {
                ev.value
            } else {
                c.raw_p
            },
            raw_tx: if ev.code == 0x1a {
                ev.value
            } else {
                c.raw_tx
            },
            raw_ty: if ev.code == 0x1b {
                ev.value
            } else {
                c.raw_ty
            },
            ..c
        }),
{
}

/// A report while the tip is on the glass adds a point to the stroke: where the pen is, how hard it presses
/// and how it is tilted, each as a part of its axis, and the time since the first point.
pub proof fn law_a_report_under_the_tip_adds_a_point(c: CaptureView, ev: InputEvent)
    requires
        ev.kind == 0 && ev.code == 0,
    ensures
        !c.tip_down ==> after(c, ev) == c,
        c.tip_down ==> ({
            let now = after(c, ev);
            let p = now.stroke.last();
            let t = ev.micros();
            &&& now.stroke.len() == c.stroke.len() + 1 && now.stroke.drop_last() == c.stroke
            &&& now.ink == c.ink && now.tip_down
            &&& p.x == crate::transform::fraction(c.raw_y as int, c.tf.y)
            &&& p.y == num(0x3f80_0000).minus(crate::transform::fraction(c.raw_x as int, c.tf.x))
            &&& p.pressure == crate::transform::fraction(c.raw_p as int, c.pressure)
            &&& p.tilt_x == crate::transform::signed_fraction(c.raw_tx as int, c.tilt_x)
            &&& p.tilt_y == crate::transform::signed_fraction(c.raw_ty as int, c.tilt_y)
            &&& c.t0_us is None ==> p.t_us == 0 && now.t0_us == Some(t as u64)
            &&& c.t0_us is Some && c.t0_us->0 <= t ==> p.t_us == t - c.t0_us->0 && now.t0_us
                == c.t0_us
        }),
{
    if c.tip_down {
        assert(after(c, ev).stroke.drop_last() =~= c.stroke);
    }
}

/// The tip comes down on the glass, unless the eraser is near, and what is drawn until it lifts is one
/// stroke of the ink; a stroke without a point is none.
pub proof fn law_a_stroke_lasts_from_touch_to_lift(c: CaptureView, ev: InputEvent)
    requires
        ev.kind == 1,
        ev.code == 0x14a || ev.code == 0x140 && ev.value == 0,
    ensures
        ({
            let now = after(c, ev);
            if ev.code == 0x14a && ev.value != 0 && !c.eraser {
                now == (CaptureView { tip_down: true, ..c })
            } else {
                &&& !now.tip_down
                &&& now.stroke.len() == 0
                &&& now.ink.strokes == if c.stroke.len() > 0 {
                    c.ink.strokes.push(c.stroke)
                } else {
                    c.ink.strokes
                }
            }
        }),
{
    assert(c.stroke.len() == 0 ==> c.stroke =~= Seq::<Point>::empty());
}

} // verus!
