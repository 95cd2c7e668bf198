//! Input events to ink.
use ink2tex::capture::{Capture, Segment};
use ink2tex::evdev::{
    AbsInfo, InputEvent, ABS_PRESSURE, ABS_X, ABS_Y, BTN_TOOL_PEN, BTN_TOOL_RUBBER, BTN_TOUCH,
    EV_ABS, EV_KEY, EV_SYN, SYN_REPORT,
};
use ink2tex::float::F32;

fn v(x: F32) -> f32 {
    f32::from_bits(x.bits)
}

fn ev(kind: u16, code: u16, value: i32, us: i64) -> InputEvent {
    InputEvent {
        tv_sec: 0,
        tv_usec: us,
        kind,
        code,
        value,
    }
}

fn ax(min: i32, max: i32) -> AbsInfo {
    AbsInfo {
        minimum: min,
        maximum: max,
        ..AbsInfo::default()
    }
}

fn cap() -> Capture {
    Capture::from_axes(
        ax(0, 20966),
        ax(0, 15725),
        ax(0, 4095),
        ax(-9000, 9000),
        ax(-9000, 9000),
    )
}


fn sample(c: &mut Capture, x: i32, y: i32, p: i32, us: i64) -> Option<Segment> {
    c.process(&ev(EV_ABS, ABS_X, x, us));
    c.process(&ev(EV_ABS, ABS_Y, y, us));
    c.process(&ev(EV_ABS, ABS_PRESSURE, p, us));
    c.process(&ev(EV_SYN, SYN_REPORT, 0, us))
}

#[test]
fn eraser_end_is_not_captured_as_ink() {
    let mut c = cap();
    c.process(&ev(EV_KEY, BTN_TOOL_RUBBER, 1, 0));
    c.process(&ev(EV_KEY, BTN_TOUCH, 1, 0));
    for i in 0..5 {
        sample(
            &mut c,
            5000 + i * 100,
            6000 + i * 100,
            2000,
            10_000 * i as i64,
        );
    }
    c.process(&ev(EV_KEY, BTN_TOUCH, 0, 60_000));
    assert!(c.finish().strokes.is_empty(), "erasing was recorded as ink");
}

#[test]
fn tip_still_draws_after_the_eraser_leaves_range() {
    let mut c = cap();
    c.process(&ev(EV_KEY, BTN_TOOL_RUBBER, 1, 0));
    c.process(&ev(EV_KEY, BTN_TOUCH, 1, 0));
    sample(&mut c, 5000, 6000, 2000, 0);
    c.process(&ev(EV_KEY, BTN_TOUCH, 0, 10_000));
    c.process(&ev(EV_KEY, BTN_TOOL_RUBBER, 0, 20_000));
    c.process(&ev(EV_KEY, BTN_TOOL_PEN, 1, 20_000));
    c.process(&ev(EV_KEY, BTN_TOUCH, 1, 20_000));
    for i in 0..3 {
        sample(
            &mut c,
            7000 + i * 100,
            8000,
            2000,
            30_000 + 10_000 * i as i64,
        );
    }
    c.process(&ev(EV_KEY, BTN_TOUCH, 0, 70_000));
    let ink = c.finish();
    assert_eq!(ink.strokes.len(), 1, "only the tip's stroke should survive");
    assert_eq!(ink.strokes[0].points.len(), 3);
}

#[test]
fn one_stroke_from_pen_down_to_up() {
    let mut c = cap();
    c.process(&ev(EV_KEY, BTN_TOOL_PEN, 1, 0));
    c.process(&ev(EV_KEY, BTN_TOUCH, 1, 0));
    for i in 0..5 {
        let seg = sample(
            &mut c,
            5000 + i * 100,
            6000 + i * 100,
            2000,
            10_000 * i as i64,
        );
        assert!(seg.is_some());
    }
    c.process(&ev(EV_KEY, BTN_TOUCH, 0, 60_000));
    let ink = c.finish();
    assert_eq!(ink.strokes.len(), 1);
    assert_eq!(ink.strokes[0].points.len(), 5);
}

#[test]
fn no_points_emitted_before_tip_touches() {
    let mut c = cap();
    c.process(&ev(EV_KEY, BTN_TOOL_PEN, 1, 0));
    assert!(sample(&mut c, 5000, 6000, 0, 0).is_none());
    assert_eq!(c.finish().strokes.len(), 0);
}

#[test]
fn two_strokes_separated_by_pen_lift() {
    let mut c = cap();
    c.process(&ev(EV_KEY, BTN_TOUCH, 1, 0));
    sample(&mut c, 100, 100, 1000, 0);
    sample(&mut c, 200, 200, 1000, 5_000);
    c.process(&ev(EV_KEY, BTN_TOUCH, 0, 10_000));
    c.process(&ev(EV_KEY, BTN_TOUCH, 1, 20_000));
    sample(&mut c, 300, 300, 1000, 25_000);
    let ink = c.finish();
    assert_eq!(ink.strokes.len(), 2);
    assert_eq!(ink.strokes[0].points.len(), 2);
    assert_eq!(ink.strokes[1].points.len(), 1);
}

#[test]
fn first_point_of_stroke_has_no_from() {
    let mut c = cap();
    c.process(&ev(EV_KEY, BTN_TOUCH, 1, 0));
    let s0 = sample(&mut c, 100, 100, 1000, 0).unwrap();
    assert!(s0.from.is_none());
    let s1 = sample(&mut c, 200, 200, 1000, 5_000).unwrap();
    assert!(s1.from.is_some());
}

#[test]
fn normalized_coords_stay_in_unit_square_and_time_is_relative() {
    let mut c = cap();
    c.process(&ev(EV_KEY, BTN_TOUCH, 1, 0));
    sample(&mut c, 0, 0, 0, 1_000_000);
    sample(&mut c, 20966, 15725, 4095, 1_050_000);
    let ink = c.finish();
    for p in &ink.strokes[0].points {
        assert!((0.0..=1.0).contains(&v(p.x)) && (0.0..=1.0).contains(&v(p.y)));
    }
    assert_eq!(ink.strokes[0].points[0].t_us, 0);
    assert_eq!(ink.strokes[0].points[1].t_us, 50_000);
}
