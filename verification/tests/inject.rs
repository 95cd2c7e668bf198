//! Planned pen strokes.
use ink2tex::evdev::AbsInfo;
use ink2tex::float::{num, F32};
use ink2tex::inject::{clear_step, Wait};
use ink2tex::transform::Transform;

fn f(x: f32) -> F32 {
    num(x.to_bits())
}

fn v(x: F32) -> f32 {
    f32::from_bits(x.bits)
}

fn densify(a: (f32, f32), b: (f32, f32), max_hop: f32) -> Vec<(f32, f32)> {
    ink2tex::inject::densify((f(a.0), f(a.1)), (f(b.0), f(b.1)), f(max_hop))
        .iter()
        .map(|p| (v(p.0), v(p.1)))
        .collect()
}


fn ax(max: i32) -> AbsInfo {
    AbsInfo {
        minimum: 0,
        maximum: max,
        ..Default::default()
    }
}

#[test]
fn inverse_roundtrips_through_the_forward_transform() {
    let inj = Transform::new(ax(20966), ax(15725));
    let fwd = Transform::new(ax(20966), ax(15725));
    for &(sx, sy) in &[(0.0, 0.0), (1.0, 1.0), (0.5, 0.5), (0.25, 0.8), (0.9, 0.1)] {
        let (rx, ry) = inj.to_raw(f(sx), f(sy));
        let (bx, by) = fwd.to_norm(rx, ry);
        let (bx, by) = (v(bx), v(by));
        assert!(
            (bx - sx).abs() < 2e-4 && (by - sy).abs() < 2e-4,
            "({sx},{sy}) -> raw ({rx},{ry}) -> ({bx},{by})"
        );
    }
}

#[test]
fn densify_never_hops_farther_than_the_cap() {
    let pts = densify((0.0, 0.0), (0.1, 0.0), 1.0 / 300.0);
    assert!(pts.len() >= 30);
    let mut last = (0.0, 0.0);
    for p in pts {
        assert!((p.0 - last.0).hypot(p.1 - last.1) <= 1.0 / 300.0 + 1e-6);
        last = p;
    }
    assert!((last.0 - 0.1).abs() < 1e-6);
}

#[test]
fn hops_stay_short_in_every_direction() {
    let slack = 2f64.powi(-18);
    for (a, b) in [
        ((0.1f32, 0.9f32), (0.93f32, 0.02f32)),
        ((0.7, 0.3), (0.7, 0.3)),
        ((-1.5, 1.9), (1.99, -2.0)),
        ((0.5, 0.5), (0.501, 0.4999)),
    ] {
        for hop in [1.0f32 / 300.0, 0.25, 1.0] {
            let pts = densify(a, b, hop);
            assert!(!pts.is_empty());
            let mut last = a;
            for &p in &pts {
                let (dx, dy) = (p.0 as f64 - last.0 as f64, p.1 as f64 - last.1 as f64);
                assert!(dx.hypot(dy) <= hop as f64 + slack, "{last:?} -> {p:?}");
                last = p;
            }
            assert!((last.0 - b.0).abs() <= 1e-6 && (last.1 - b.1).abs() <= 1e-6);
        }
    }
}

#[test]
fn a_stroke_waits_for_the_pen_to_leave() {
    let mut keys = vec![0u8; 96];
    assert_eq!(clear_step(&keys, 99_999, 20_000), Wait::Go);
    keys[0x141 / 8] |= 1 << (0x141 % 8);
    assert_eq!(clear_step(&keys, 20_000, 20_000), Wait::Again);
    assert_eq!(clear_step(&keys, 20_001, 20_000), Wait::GiveUp);
}
