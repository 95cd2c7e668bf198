//! The pen-trajectory features.
use ink2tex::classify::online::ONLINE_CHANNELS;
use ink2tex::float::{num, F32};
use ink2tex::stroke::{Point, Stroke};

fn f(x: f32) -> F32 {
    num(x.to_bits())
}

fn v(x: F32) -> f32 {
    f32::from_bits(x.bits)
}

fn atan2(y: F32, x: F32) -> F32 {
    f(v(y).atan2(v(x)))
}

fn online_features(strokes: &[Stroke], n: usize) -> Vec<f32> {
    ink2tex::classify::online::online_features(strokes, n, &atan2)
        .iter()
        .map(|&x| v(x))
        .collect()
}

fn stroke(pts: &[(f32, f32)]) -> Stroke {
    Stroke::from_points(
        pts.iter()
            .map(|&(x, y)| Point::new(f(x), f(y), f(1.0), f(0.0), f(0.0), 0))
            .collect(),
    )
}


#[test]
fn empty_is_zeros() {
    assert!(online_features(&[], 64).iter().all(|&v| v == 0.0));
    assert!(
        online_features(&[stroke(&[(0.5, 0.5)])], 64)
            .iter()
            .all(|&v| v == 0.0)
    );
}

#[test]
fn output_shape() {
    let f = online_features(&[stroke(&[(0.1, 0.5), (0.9, 0.5)])], 64);
    assert_eq!(f.len(), ONLINE_CHANNELS * 64);
}

#[test]
fn horizontal_stroke_moves_in_x() {
    let n = 16;
    let f = online_features(&[stroke(&[(0.1, 0.5), (0.5, 0.5), (0.9, 0.5)])], n);
    let (dx, dy, penup) = (&f[0..n], &f[n..2 * n], &f[2 * n..3 * n]);
    assert!(dx[0] > 0.0, "dx should be positive");
    assert!(
        dy.iter().all(|&v| v.abs() < 1e-3),
        "dy ~ 0 for a horizontal line"
    );
    assert_eq!(penup[n - 1], 1.0);
    assert!(penup[..n - 1].iter().all(|&v| v == 0.0));
}

#[test]
fn two_strokes_mark_a_pen_up() {
    let n = 32;
    let f = online_features(
        &[
            stroke(&[(0.1, 0.2), (0.4, 0.2)]),
            stroke(&[(0.6, 0.8), (0.9, 0.8)]),
        ],
        n,
    );
    let penup = &f[2 * n..3 * n];
    let interior_lifts = penup[..n - 1].iter().filter(|&&v| v > 0.5).count();
    assert_eq!(interior_lifts, 1);
}

#[test]
fn online_scale_and_translation_invariant() {
    let a = online_features(&[stroke(&[(0.3, 0.4), (0.5, 0.6), (0.4, 0.3)])], 32);
    let big = stroke(&[(0.6, 0.8), (1.0, 1.2), (0.8, 0.6)]);
    let b = online_features(&[big], 32);
    for (x, y) in a.iter().zip(&b) {
        assert!((x - y).abs() < 1e-4, "features should be scale-invariant");
    }
}

#[test]
fn deterministic() {
    let s = [stroke(&[(0.2, 0.2), (0.8, 0.3), (0.5, 0.9)])];
    assert_eq!(online_features(&s, 64), online_features(&s, 64));
}

#[test]
fn pressure_tilt_time_and_size_do_not_matter() {
    let base = vec![
        stroke(&[(0.25, 0.5), (0.3, 0.7), (0.75, 0.5)]),
        stroke(&[(0.5, 0.25), (0.5, 0.8)]),
    ];
    let mut other = base.clone();
    for s in other.iter_mut() {
        for (i, p) in s.points.iter_mut().enumerate() {
            p.x = f(v(p.x) * 64.0);
            p.y = f(v(p.y) * 64.0);
            p.pressure = f(0.125 * i as f32);
            p.tilt_x = f(-300.0);
            p.tilt_y = f(f32::NAN);
            p.t_us = 1_000_000 * (i as u64 + 1);
        }
    }
    assert_eq!(online_features(&base, 24), online_features(&other, 24));
}

#[test]
fn size_does_not_matter_up_to_the_overflow() {
    let base = vec![stroke(&[(0.25, 0.5), (0.3, 0.7), (0.75, 0.5)])];
    let mut other = base.clone();
    for p in other[0].points.iter_mut() {
        p.x = f(v(p.x) * 2f32.powi(127));
        p.y = f(v(p.y) * 2f32.powi(127));
    }
    assert_eq!(online_features(&base, 24), online_features(&other, 24));
}
