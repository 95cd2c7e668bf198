//! When is a drawing done? A capture ends when the pen has been idle for a while, or when it is
//! held still on the glass.
//!
//! Times are nanoseconds of a monotonic clock, which the caller reads.
use crate::capture::{Capture, CaptureView};
use crate::evdev::{AbsInfo, InputEvent};
use crate::float::{num, F32};
use crate::stroke::Ink;
use vstd::prelude::*;

verus! {

/// The pen counts as held still while it stays this close to where it came to rest: 0.008 of the
/// screen.
pub const HOLD_EPS: u32 = 0x3c03_126f;

/// How long the pen has to be held still.
pub const HOLD_NS: u64 = 1_200_000_000;

/// How long a held pen is waited for to lift.
pub const LIFT_NS: u64 = 10_000_000_000;

/// The axes of a digitizer.
#[derive(Debug, Clone, Copy, PartialEq, Eq, Structural)]
pub struct Axes {
    pub x: AbsInfo,
    pub y: AbsInfo,
    pub pressure: AbsInfo,
    pub tilt_x: AbsInfo,
    pub tilt_y: AbsInfo,
}

impl Axes {
    /// A capture for these axes that has seen nothing yet.
    pub open spec fn fresh(self) -> CaptureView {
        crate::capture::fresh(self.x, self.y, self.pressure, self.tilt_x, self.tilt_y)
    }

    /// Start a capture for these axes.
    pub fn capture(&self) -> (r: Capture)
        ensures
            r@ == self.fresh(),
    {
        Capture::from_axes(self.x, self.y, self.pressure, self.tilt_x, self.tilt_y)
    }
}

/// The time from `since` to `now`.
pub open spec fn elapsed(since: u64, now: u64) -> int {
    if now >= since {
        now - since
    } else {
        0
    }
}

fn time_since(since: u64, now: u64) -> (r: u64)
    ensures
        r == elapsed(since, now),
{
    if now >= since {
        now - since
    } else {
        0
    }
}

// ---------------------------------------------------------------------------------------------
// Idle
// ---------------------------------------------------------------------------------------------
/// A capture that ends when the pen has been idle, after something was drawn.
pub struct IdleWatch {
    pub cap: Capture,
    pub last_ink: Option<u64>,
}

/// What an [`IdleWatch`] knows.
#[verifier::ext_equal]
pub struct IdleView {
    pub cap: CaptureView,
    pub last_ink: Option<u64>,
}

impl View for IdleWatch {
    type V = IdleView;

    open spec fn view(&self) -> IdleView {
        IdleView { cap: self.cap@, last_ink: self.last_ink }
    }
}

/// What an event at time `now` makes of the watch. Only a latched point counts as ink.
pub open spec fn idle_after(w: IdleView, ev: InputEvent, now: u64) -> IdleView {
    IdleView {
        cap: crate::capture::after(w.cap, ev),
        last_ink: if crate::capture::hint(w.cap, ev) is Some {
            Some(now)
        } else {
            w.last_ink
        },
    }
}

/// Has something been drawn, and then nothing for `idle_ms` milliseconds?
pub open spec fn idle_done(w: IdleView, now: u64, idle_ms: u64) -> bool {
    match w.last_ink {
        Some(t) => elapsed(t, now) >= idle_ms * 1_000_000,
        None => false,
    }
}

impl IdleWatch {
    pub fn new(axes: &Axes) -> (r: Self)
        ensures
            r@ == (IdleView { cap: axes.fresh(), last_ink: None }),
    {
        IdleWatch { cap: axes.capture(), last_ink: None }
    }

    /// Feed one event that arrived at time `now`.
    pub fn feed(&mut self, ev: &InputEvent, now: u64)
        ensures
            final(self)@ == idle_after(old(self)@, *ev, now),
    {
        if self.cap.process(ev).is_some() {
            self.last_ink = Some(now);
        }
    }

    /// Is the drawing done?
    pub fn is_done(&self, now: u64, idle_ms: u64) -> (r: bool)
        ensures
            r == idle_done(self@, now, idle_ms),
    {
        match self.last_ink {
            Some(t) => time_since(t, now) as u128 >= idle_ms as u128 * 1_000_000,
            None => false,
        }
    }

    /// The captured drawing.
    pub fn finish(self) -> (r: Ink)
        ensures
            r@ == crate::capture::ended(self@.cap).ink,
    {
        self.cap.finish()
    }
}

// ---------------------------------------------------------------------------------------------
// Hold
// ---------------------------------------------------------------------------------------------
/// A capture that ends when the pen is held still in contact with the glass, and then lifted.
pub struct HoldWatch {
    pub cap: Capture,
    pub anchor: Option<((F32, F32), u64)>,
    pub lifting: Option<u64>,
}

/// What a [`HoldWatch`] knows: the capture, where and since when the pen rests, and since when a
/// held pen is waited for.
#[verifier::ext_equal]
pub struct HoldView {
    pub cap: CaptureView,
    pub anchor: Option<((F32, F32), u64)>,
    pub lifting: Option<u64>,
}

impl View for HoldWatch {
    type V = HoldView;

    open spec fn view(&self) -> HoldView {
        HoldView { cap: self.cap@, anchor: self.anchor, lifting: self.lifting }
    }
}

/// Is `p` further from `a` than a pen that is held still moves?
pub open spec fn moved_away(p: (F32, F32), a: (F32, F32)) -> bool {
    p.0.minus(a.0).hypot(p.1.minus(a.1)).gt(num(HOLD_EPS))
}

/// Where and since when the pen rests, after a point at `p`.
pub open spec fn anchored(anchor: Option<((F32, F32), u64)>, p: (F32, F32), now: u64) -> Option<
    ((F32, F32), u64),
> {
    match anchor {
        Some((a, since)) => if moved_away(p, a) {
            Some((p, now))
        } else {
            Some((a, since))
        },
        None => Some((p, now)),
    }
}

/// What an event at time `now` makes of the watch. Once the hold has been seen, points do not
/// move the anchor any more.
pub open spec fn hold_after(w: HoldView, ev: InputEvent, now: u64) -> HoldView {
    HoldView {
        cap: crate::capture::after(w.cap, ev),
        anchor: match crate::capture::hint(w.cap, ev) {
            Some(seg) if w.lifting is None => anchored(w.anchor, seg.to, now),
            _ => w.anchor,
        },
        lifting: w.lifting,
    }
}

/// What looking at the clock makes of the watch. A lifted pen rests nowhere; a pen that has
/// rested long enough is held, and is waited for to lift.
pub open spec fn hold_settled(w: HoldView, now: u64) -> HoldView {
    if w.lifting is Some {
        w
    } else if !w.cap.tip_down {
        HoldView { anchor: None, ..w }
    } else {
        match w.anchor {
            Some((_, since)) if elapsed(since, now) >= HOLD_NS => HoldView {
                lifting: Some(now),
                ..w
            },
            _ => w,
        }
    }
}

/// Was the pen held, and has it been lifted or waited for long enough?
pub open spec fn hold_done(w: HoldView, now: u64) -> bool {
    match w.lifting {
        Some(t0) => !w.cap.tip_down || elapsed(t0, now) >= LIFT_NS,
        None => false,
    }
}

impl HoldWatch {
    pub fn new(axes: &Axes) -> (r: Self)
        ensures
            r@ == (HoldView { cap: axes.fresh(), anchor: None, lifting: None }),
    {
        HoldWatch { cap: axes.capture(), anchor: None, lifting: None }
    }

    /// Feed one event that arrived at time `now`.
    pub fn feed(&mut self, ev: &InputEvent, now: u64)
        ensures
            final(self)@ == hold_after(old(self)@, *ev, now),
    {
        if let Some(seg) = self.cap.process(ev) {
            if self.lifting.is_none() {
                let p = seg.to;
                let fresh = match self.anchor {
                    Some((a, _)) => p.0.minus(a.0).hypot(p.1.minus(a.1)).gt(num(HOLD_EPS)),
                    None => true,
                };
                if fresh {
                    self.anchor = Some((p, now));
                }
            }
        }
    }

    /// Look at the clock; `true` when the drawing is done.
    pub fn settle(&mut self, now: u64) -> (done: bool)
        ensures
            final(self)@ == hold_settled(old(self)@, now),
            done == hold_done(final(self)@, now),
    {
        let down = self.cap.touching();
        if self.lifting.is_none() {
            if !down {
                self.anchor = None;
            } else if let Some((_, since)) = self.anchor {
                if time_since(since, now) >= HOLD_NS {
                    self.lifting = Some(now);
                }
            }
        }
        match self.lifting {
            Some(t0) => !down || time_since(t0, now) >= LIFT_NS,
            None => false,
        }
    }

    /// Was the pen held?
    pub fn is_held(&self) -> (r: bool)
        ensures
            r == (self@.lifting is Some),
    {
        self.lifting.is_some()
    }

    /// The captured drawing, whose last stroke is the hold. `None` if nothing was written before
    /// it.
    pub fn finish(self) -> (r: Option<Ink>)
        ensures
            match r {
                Some(ink) => ink@ == crate::capture::ended(self@.cap).ink
                    && ink@.strokes.len() >= 2,
                None => crate::capture::ended(self@.cap).ink.strokes.len() < 2,
            },
    {
        let ink = self.cap.finish();
        if ink.strokes.len() < 2 {
            None
        } else {
            Some(ink)
        }
    }
}

// ---------------------------------------------------------------------------------------------
// Laws
// ---------------------------------------------------------------------------------------------
/// Hovering does not keep a drawing alive: only ink puts off its end.
pub proof fn law_only_ink_puts_off_the_end(w: IdleView, ev: InputEvent, now: u64)
    requires
        !crate::capture::latches(w.cap, ev),
    ensures
        idle_after(w, ev, now).last_ink == w.last_ink,
{
}

/// A drawing that has not begun does not end.
pub proof fn law_an_empty_drawing_does_not_end(w: IdleView, now: u64, idle_ms: u64)
    requires
        w.last_ink is None,
    ensures
        !idle_done(w, now, idle_ms),
{
}

/// A hold spans one press: lifting the pen before it is long enough starts over.
pub proof fn law_lifting_starts_the_hold_over(w: HoldView, now: u64)
    requires
        w.lifting is None,
        !w.cap.tip_down,
    ensures
        hold_settled(w, now).anchor is None,
        !hold_done(hold_settled(w, now), now),
{
}

/// Moving starts the hold over: right after a point away from the anchor the pen is not held.
pub proof fn law_moving_starts_the_hold_over(w: HoldView, ev: InputEvent, now: u64)
    requires
        w.lifting is None,
        crate::capture::hint(w.cap, ev) is Some,
        w.anchor is Some,
        moved_away(crate::capture::hint(w.cap, ev)->Some_0.to, w.anchor->Some_0.0),
    ensures
        hold_settled(hold_after(w, ev, now), now).lifting is None,
{
}

/// A drawing ends once nothing has been drawn for as long as was asked for, and no sooner.
pub proof fn law_a_drawing_ends_after_a_pause(w: IdleView, t: u64, now: u64, idle_ms: u64)
    requires
        w.last_ink == Some(t),
        t <= now,
    ensures
        idle_done(w, now, idle_ms) <==> now - t >= idle_ms * 1_000_000,
{
}

/// A pen that touches the glass and has rested for 1.2 seconds is held, and no sooner.
pub proof fn law_a_pen_that_rests_is_held(w: HoldView, place: (F32, F32), since: u64, now: u64)
    requires
        w.lifting is None,
        w.cap.tip_down,
        w.anchor == Some((place, since)),
        since <= now,
    ensures
        hold_settled(w, now).lifting == if now - since >= 1_200_000_000 {
            Some(now)
        } else {
            None
        },
        hold_settled(w, now).cap == w.cap,
{
}

/// A pen that was held ends the capture when it is lifted, or when it has not been for ten seconds.
pub proof fn law_a_held_pen_is_waited_for(w: HoldView, since: u64, now: u64)
    requires
        w.lifting == Some(since),
        since <= now,
    ensures
        hold_done(w, now) <==> !w.cap.tip_down || now - since >= 10_000_000_000,
        hold_settled(w, now) == w,
{
}

/// A point close to where the pen came to rest, by 0.008 of the screen, does not start the hold over.
pub proof fn law_a_tremble_does_not_start_the_hold_over(
    w: HoldView,
    ev: InputEvent,
    now: u64,
    place: (F32, F32),
    since: u64,
)
    requires
        w.lifting is None,
        crate::capture::hint(w.cap, ev) is Some,
        w.anchor == Some((place, since)),
        ({
            let p = crate::capture::hint(w.cap, ev)->Some_0.to;
            !num(0x3c03_126f).lt(p.0.minus(place.0).hypot(p.1.minus(place.1)))
        }),
    ensures
        hold_after(w, ev, now).anchor == Some((place, since)),
{
}

} // verus!
