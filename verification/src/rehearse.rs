//! A rehearsal for the eraser: what a pen with an eraser end sends when it erases something and
//! then, turned over, draws a line. A reader must take down the line, and nothing else.
use crate::evdev::{
    AbsInfo, InputEvent, ABS_PRESSURE, ABS_X, ABS_Y, BTN_TOOL_PEN, BTN_TOOL_RUBBER, BTN_TOUCH,
    EV_ABS, EV_KEY, EV_SYN, SYN_REPORT,
};
use crate::inject::{three, Frame, FrameView, Tool};
use vstd::prelude::*;

verus! {

/// The largest values of the axes of the pen.
pub const X_MAX: i32 = 20966;
pub const Y_MAX: i32 = 15725;
pub const PRESSURE_MAX: i32 = 4095;

/// The pressure of both strokes.
pub const PRESSURE: i32 = 2500;

/// The pause after each point, and the one between the two strokes.
pub const POINT_US: u64 = 5000;
pub const TURN_US: u64 = 300_000;

/// How many points the eraser and the tip pass.
pub const ERASED: u32 = 40;
pub const DRAWN: u32 = 20;

/// An axis from zero to `most`.
pub open spec fn axis_to(most: i32) -> AbsInfo {
    AbsInfo { value: 0, minimum: 0, maximum: most, fuzz: 0, flat: 0, resolution: 0 }
}

/// An axis from zero to `most`.
pub fn axis(most: i32) -> (r: AbsInfo)
    ensures
        r == axis_to(most),
{
    AbsInfo { value: 0, minimum: 0, maximum: most, fuzz: 0, flat: 0, resolution: 0 }
}

/// Where point `i` of a stroke is: the eraser scrubs along a line, the tip draws down one.
pub open spec fn path_point(tool: Tool, i: int) -> (int, int) {
    match tool {
        Tool::Rubber => (4000 + i * 300, 8000),
        Tool::Pen => (10000, 4000 + i * 200),
    }
}

/// The end of the pen comes into range and touches the glass. Both ends send the touch.
pub open spec fn touch_down(tool: Tool) -> FrameView {
    FrameView {
        events: seq![
            crate::inject::event(EV_KEY, crate::inject::tool_key(tool), 1),
            crate::inject::event(EV_KEY, BTN_TOUCH, 1),
        ],
        pause_us: 0,
    }
}

/// A point of the path.
pub open spec fn pass_point(tool: Tool, i: int) -> FrameView {
    FrameView {
        events: seq![
            crate::inject::event(EV_ABS, ABS_X, path_point(tool, i).0 as i32),
            crate::inject::event(EV_ABS, ABS_Y, path_point(tool, i).1 as i32),
            crate::inject::event(EV_ABS, ABS_PRESSURE, PRESSURE),
            crate::inject::report(),
        ],
        pause_us: POINT_US,
    }
}

/// The end of the pen leaves the glass and goes out of range.
pub open spec fn lift(tool: Tool, pause_us: u64) -> FrameView {
    FrameView {
        events: seq![
            crate::inject::event(EV_KEY, BTN_TOUCH, 0),
            crate::inject::event(EV_KEY, crate::inject::tool_key(tool), 0),
            crate::inject::report(),
        ],
        pause_us,
    }
}

/// A stroke of `n` points.
pub open spec fn pass_of(tool: Tool, n: nat, pause_us: u64) -> Seq<FrameView> {
    seq![touch_down(tool)] + Seq::new(n, |i: int| pass_point(tool, i)) + seq![lift(tool, pause_us)]
}

/// The rehearsal: the eraser's stroke, then the tip's.
pub open spec fn script_of() -> Seq<FrameView> {
    pass_of(Tool::Rubber, ERASED as nat, TURN_US) + pass_of(Tool::Pen, DRAWN as nat, 0)
}

fn push_pass(out: &mut Vec<Frame>, tool: Tool, n: u32, pause_us: u64)
    requires
        n <= 40,
    ensures
        crate::inject::frame_views(final(out)@) == crate::inject::frame_views(old(out)@) + pass_of(
            tool,
            n as nat,
            pause_us,
        ),
{
    let key: u16 = match tool {
        Tool::Pen => BTN_TOOL_PEN,
        Tool::Rubber => BTN_TOOL_RUBBER,
    };
    let ghost start = crate::inject::frame_views(out@);
    let mut events: Vec<InputEvent> = Vec::new();
    events.push(InputEvent::untimed(EV_KEY, key, 1));
    events.push(InputEvent::untimed(EV_KEY, BTN_TOUCH, 1));
    let down = Frame { events, pause_us: 0 };
    proof {
        assert(down@ =~= touch_down(tool));
        crate::inject::lemma_frame_push(out@, down);
    }
    out.push(down);
    let ghost begun = crate::inject::frame_views(out@);
    let ghost want = Seq::new(n as nat, |i: int| pass_point(tool, i));
    let mut i: u32 = 0;
    assert(begun =~= begun + want.take(0));
    while i < n
        invariant
            i <= n <= 40,
            want == Seq::new(n as nat, |i: int| pass_point(tool, i)),
            crate::inject::frame_views(out@) == begun + want.take(i as int),
        decreases n - i,
    {
        let (x, y): (i32, i32) = match tool {
            Tool::Rubber => (4000 + (i as i32) * 300, 8000),
            Tool::Pen => (10000, 4000 + (i as i32) * 200),
        };
        let f = three(
            InputEvent::untimed(EV_ABS, ABS_X, x),
            InputEvent::untimed(EV_ABS, ABS_Y, y),
            InputEvent::untimed(EV_ABS, ABS_PRESSURE, PRESSURE),
            POINT_US,
        );
        proof {
            assert(f@ =~= want[i as int]);
            crate::inject::lemma_frame_push(out@, f);
            assert(begun + want.take(i + 1) =~= (begun + want.take(i as int)).push(f@));
        }
        out.push(f);
        i = i + 1;
    }
    assert(want.take(i as int) =~= want);
    let mut last: Vec<InputEvent> = Vec::new();
    last.push(InputEvent::untimed(EV_KEY, BTN_TOUCH, 0));
    last.push(InputEvent::untimed(EV_KEY, key, 0));
    last.push(InputEvent::untimed(EV_SYN, SYN_REPORT, 0));
    let up = Frame { events: last, pause_us };
    proof {
        assert(up@ =~= lift(tool, pause_us));
        crate::inject::lemma_frame_push(out@, up);
    }
    out.push(up);
    assert(crate::inject::frame_views(out@) =~= start + pass_of(tool, n as nat, pause_us));
}

/// The rehearsal.
pub fn script() -> (r: Vec<Frame>)
    ensures
        crate::inject::frame_views(r@) == script_of(),
{
    let mut out: Vec<Frame> = Vec::new();
    assert(crate::inject::frame_views(out@) =~= Seq::<FrameView>::empty());
    push_pass(&mut out, Tool::Rubber, ERASED, TURN_US);
    push_pass(&mut out, Tool::Pen, DRAWN, 0);
    assert(crate::inject::frame_views(out@) =~= script_of());
    out
}

} // verus!
