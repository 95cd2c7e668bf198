//! Digitizer and screen coordinates.
use ink2tex::evdev::AbsInfo;
use ink2tex::float::F32;
use ink2tex::transform::Transform;

fn v(x: F32) -> f32 {
    f32::from_bits(x.bits)
}

fn norm(t: &Transform, x: i32, y: i32) -> (f32, f32) {
    let (sx, sy) = t.to_norm(x, y);
    (v(sx), v(sy))
}

fn ax(min: i32, max: i32) -> AbsInfo {
    AbsInfo {
        minimum: min,
        maximum: max,
        ..AbsInfo::default()
    }
}

fn rm2() -> Transform {
    Transform::new(ax(0, 20966), ax(0, 15725))
}

#[test]
fn center_maps_to_center() {
    let (sx, sy) = norm(&rm2(), 20966 / 2, 15725 / 2);
    assert!((sx - 0.5).abs() < 1e-3, "sx={sx}");
    assert!((sy - 0.5).abs() < 1e-3, "sy={sy}");
}

#[test]
fn corners_are_a_coherent_bijection() {
    let t = rm2();
    let (sx, sy) = norm(&t, 0, 0);
    assert!(
        (sx - 0.0).abs() < 1e-3 && (sy - 1.0).abs() < 1e-3,
        "({sx},{sy})"
    );
    let (sx, sy) = norm(&t, 20966, 15725);
    assert!(
        (sx - 1.0).abs() < 1e-3 && (sy - 0.0).abs() < 1e-3,
        "({sx},{sy})"
    );
}

#[test]
fn out_of_range_is_clamped() {
    let (sx, sy) = norm(&rm2(), -5000, 999_999);
    assert!((0.0..=1.0).contains(&sx) && (0.0..=1.0).contains(&sy));
}

#[test]
fn every_count_comes_back_to_itself_or_its_neighbour() {
    for t in [rm2(), Transform::new(ax(-100, 3), ax(7, 20_007))] {
        for k in 0..=400i64 {
            let at = |a: &AbsInfo| {
                (a.minimum as i64 + (a.maximum as i64 - a.minimum as i64) * k / 400) as i32
            };
            let (x, y) = (at(&t.x), at(&t.y));
            let (sx, sy) = t.to_norm(x, y);
            let (bx, by) = t.to_raw(sx, sy);
            assert!(bx == x || bx == x - 1, "{x} -> {bx}");
            assert!(by == y || by == y - 1, "{y} -> {by}");
        }
    }
}

#[test]
fn every_place_comes_back_within_two_counts() {
    let t = rm2();
    for k in 0..=500 {
        let s = k as f32 / 500.0;
        let p = F32 { bits: s.to_bits() };
        let (rx, ry) = t.to_raw(p, p);
        let (bx, by) = norm(&t, rx, ry);
        assert!((bx - s).abs() * 15725.0 <= 2.0, "{s} -> {bx}");
        assert!((by - s).abs() * 20966.0 <= 2.0, "{s} -> {by}");
    }
}
