//! The bitmap and the global features.
use ink2tex::classify::raster::NUM_FEATURES;
use ink2tex::float::{num, F32};
use ink2tex::stroke::{Point, Stroke};

fn f(x: f32) -> F32 {
    num(x.to_bits())
}

fn v(x: F32) -> f32 {
    f32::from_bits(x.bits)
}

fn rasterize(strokes: &[Stroke], size: usize) -> Vec<f32> {
    ink2tex::classify::raster::rasterize(strokes, size)
        .iter()
        .map(|&x| v(x))
        .collect()
}

fn global_features(strokes: &[Stroke]) -> Vec<f32> {
    ink2tex::classify::raster::global_features(strokes)
        .iter()
        .map(|&x| v(x))
        .collect()
}

fn stroke(pts: &[(f32, f32)]) -> Stroke {
    Stroke::from_points(
        pts.iter()
            .map(|&(x, y)| Point::new(f(x), f(y), f(1.0), f(0.0), f(0.0), 0))
            .collect(),
    )
}


fn centroid(img: &[f32], size: usize) -> (f32, f32, f32) {
    let (mut sx, mut sy, mut s) = (0.0, 0.0, 0.0);
    for y in 0..size {
        for x in 0..size {
            let v = img[y * size + x];
            sx += v * x as f32;
            sy += v * y as f32;
            s += v;
        }
    }
    (sx / s.max(1e-6), sy / s.max(1e-6), s)
}

#[test]
fn empty_is_blank() {
    assert!(rasterize(&[], 32).iter().all(|&v| v == 0.0));
    assert!(rasterize(&[stroke(&[])], 32).iter().all(|&v| v == 0.0));
}

#[test]
fn values_are_in_unit_range() {
    let img = rasterize(&[stroke(&[(0.2, 0.3), (0.8, 0.7)])], 32);
    assert!(img.iter().all(|&v| (0.0..=1.0).contains(&v)));
    assert!(img.iter().any(|&v| v > 0.0));
}

#[test]
fn ink_is_centered() {
    let img = rasterize(
        &[stroke(&[
            (0.05, 0.05),
            (0.25, 0.05),
            (0.25, 0.25),
            (0.05, 0.25),
            (0.05, 0.05),
        ])],
        32,
    );
    let (cx, cy, total) = centroid(&img, 32);
    assert!(total > 0.0);
    assert!((cx - 16.0).abs() < 2.0, "cx={cx}");
    assert!((cy - 16.0).abs() < 2.0, "cy={cy}");
}

#[test]
fn raster_scale_and_translation_invariant() {
    let shape = [(0.40, 0.45), (0.60, 0.45), (0.50, 0.60)];
    let small = rasterize(&[stroke(&shape)], 32);
    let big: Vec<_> = shape
        .iter()
        .map(|&(x, y)| (x * 3.0 + 0.1, y * 3.0 - 0.2))
        .collect();
    let large = rasterize(&[stroke(&big)], 32);
    let (ax, ay, atot) = centroid(&small, 32);
    let (bx, by, btot) = centroid(&large, 32);
    assert!(
        (ax - bx).abs() < 1.5 && (ay - by).abs() < 1.5,
        "centroids differ"
    );
    assert!((atot - btot).abs() / atot < 0.15, "ink area differs a lot");
}

#[test]
fn horizontal_line_hugs_the_middle_rows() {
    let img = rasterize(&[stroke(&[(0.1, 0.5), (0.9, 0.5)])], 32);
    let (_, cy, _) = centroid(&img, 32);
    assert!((cy - 16.0).abs() < 2.0);
    assert!(img[0..32].iter().all(|&v| v == 0.0));
    assert!(img[31 * 32..].iter().all(|&v| v == 0.0));
}

#[test]
fn is_deterministic() {
    let s = [stroke(&[(0.2, 0.2), (0.8, 0.3), (0.5, 0.9)])];
    assert_eq!(rasterize(&s, 32), rasterize(&s, 32));
}

#[test]
fn features_capture_shape() {
    let s = [
        stroke(&[(0.0, 0.0), (1.0, 0.0)]),
        stroke(&[(0.5, 0.0), (0.5, 0.5)]),
    ];
    let f = global_features(&s);
    assert_eq!(f.len(), NUM_FEATURES);
    assert_eq!(f[0], 2.0);
    assert!(f[2] >= 1.4);
    assert_eq!((f[3], f[4]), (0.0, 0.0));
}

#[test]
fn features_are_scale_and_translation_invariant() {
    let shape = [(0.10, 0.20), (0.60, 0.25), (0.35, 0.70)];
    let unit = [stroke(&shape)];
    let as_pixels: Vec<_> = shape
        .iter()
        .map(|&(x, y)| (x * 480.0 + 120.0, y * 480.0 + 37.0))
        .collect();
    let pixels = [stroke(&as_pixels)];

    let (a, b) = (global_features(&unit), global_features(&pixels));
    for i in 0..NUM_FEATURES {
        assert!(
            (a[i] - b[i]).abs() < 1e-3,
            "feature {i} carries the coordinate system ({} vs {}): a model trained on \
             one corpus cannot survive another — nor the device",
            a[i],
            b[i],
        );
    }
}

#[test]
fn features_stay_bounded_for_a_flat_stroke() {
    let f = global_features(&[stroke(&[(0.1, 0.5), (0.9, 0.5000001)])]);
    assert!(
        f.iter().all(|v| v.is_finite() && v.abs() <= 20.0),
        "unbounded feature would wreck int8 calibration: {f:?}",
    );
}
