//! When a drawing is done.
use ink2tex::evdev::{
    AbsInfo, InputEvent, ABS_PRESSURE, ABS_X, ABS_Y, BTN_TOOL_PEN, BTN_TOUCH, EV_ABS, EV_KEY,
    EV_SYN, SYN_REPORT,
};
use ink2tex::watch::{Axes, HoldWatch, IdleWatch};

const MS: u64 = 1_000_000;

fn ax(max: i32) -> AbsInfo {
    AbsInfo {
        maximum: max,
        ..AbsInfo::default()
    }
}

fn axes() -> Axes {
    Axes {
        x: ax(10_000),
        y: ax(10_000),
        pressure: ax(4095),
        tilt_x: ax(0),
        tilt_y: ax(0),
    }
}

fn key(code: u16, value: i32) -> Vec<InputEvent> {
    vec![InputEvent::untimed(EV_KEY, code, value)]
}

fn at(x: i32, y: i32) -> Vec<InputEvent> {
    vec![
        InputEvent::untimed(EV_ABS, ABS_X, x),
        InputEvent::untimed(EV_ABS, ABS_Y, y),
        InputEvent::untimed(EV_ABS, ABS_PRESSURE, 2000),
        InputEvent::untimed(EV_SYN, SYN_REPORT, 0),
    ]
}

fn idle(w: &mut IdleWatch, events: Vec<InputEvent>, now: u64) {
    for ev in &events {
        w.feed(ev, now);
    }
}

fn hold(w: &mut HoldWatch, events: Vec<InputEvent>, now: u64) -> bool {
    for ev in &events {
        w.feed(ev, now);
    }
    w.settle(now)
}

#[test]
fn a_drawing_ends_when_the_pen_is_idle() {
    let mut w = IdleWatch::new(&axes());
    assert!(!w.is_done(100_000 * MS, 1500), "nothing is drawn yet");
    idle(&mut w, key(BTN_TOOL_PEN, 1), 0);
    idle(&mut w, at(10, 10), 5 * MS);
    assert!(!w.is_done(100_000 * MS, 1500), "hovering is not drawing");
    idle(&mut w, key(BTN_TOUCH, 1), 10 * MS);
    idle(&mut w, at(20, 20), 20 * MS);
    assert!(!w.is_done(1519 * MS, 1500));
    assert!(w.is_done(1520 * MS, 1500));
    idle(&mut w, key(BTN_TOUCH, 0), 1000 * MS);
    idle(&mut w, at(30, 30), 1100 * MS);
    assert!(w.is_done(1520 * MS, 1500), "hovering does not put off the end");
    assert_eq!(w.finish().strokes.len(), 1);
}

#[test]
fn holding_still_ends_a_page() {
    let mut w = HoldWatch::new(&axes());
    assert!(!hold(&mut w, key(BTN_TOOL_PEN, 1), 0));
    assert!(!hold(&mut w, key(BTN_TOUCH, 1), 0));
    assert!(!hold(&mut w, at(1000, 1000), 0));
    assert!(!hold(&mut w, at(3000, 3000), 500 * MS));
    assert!(!hold(&mut w, key(BTN_TOUCH, 0), 900 * MS));
    assert!(!hold(&mut w, Vec::new(), 5000 * MS), "a lifted pen is not held");
    assert!(!hold(&mut w, key(BTN_TOUCH, 1), 6000 * MS));
    assert!(!hold(&mut w, at(5000, 5000), 6000 * MS));
    assert!(!hold(&mut w, at(5010, 5000), 7199 * MS));
    assert!(!w.is_held());
    hold(&mut w, at(5000, 5010), 7200 * MS);
    assert!(w.is_held());
    assert!(hold(&mut w, key(BTN_TOUCH, 0), 7300 * MS), "the held pen lifts");
    let ink = w.finish().unwrap();
    assert_eq!(ink.strokes.len(), 2);
}

#[test]
fn moving_starts_the_hold_over() {
    let mut w = HoldWatch::new(&axes());
    hold(&mut w, key(BTN_TOOL_PEN, 1), 0);
    hold(&mut w, key(BTN_TOUCH, 1), 0);
    hold(&mut w, at(1000, 1000), 0);
    hold(&mut w, at(3000, 1000), 1000 * MS);
    hold(&mut w, at(3001, 1000), 1500 * MS);
    assert!(!w.is_held());
    hold(&mut w, at(3001, 1000), 2200 * MS);
    assert!(w.is_held());
}

#[test]
fn a_hold_without_writing_is_nothing() {
    let mut w = HoldWatch::new(&axes());
    hold(&mut w, key(BTN_TOOL_PEN, 1), 0);
    hold(&mut w, key(BTN_TOUCH, 1), 0);
    hold(&mut w, at(1000, 1000), 0);
    hold(&mut w, at(1000, 1000), 1200 * MS);
    assert!(w.is_held());
    assert!(hold(&mut w, Vec::new(), 11_201 * MS), "a pen that stays down is not waited for");
    assert!(w.finish().is_none());
}
