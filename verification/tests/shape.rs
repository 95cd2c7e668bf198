//! The classifier's input depends on the shape alone.
use ink2tex::classify::online::{online_features, ONLINE_POINTS};
use ink2tex::classify::raster::{global_features, rasterize};
use ink2tex::float::{num, F32};
use ink2tex::stroke::{Point, Stroke};

fn f(x: f32) -> F32 {
    num(x.to_bits())
}

fn v(x: F32) -> f32 {
    f32::from_bits(x.bits)
}

fn atan2(y: F32, x: F32) -> F32 {
    f(v(y).atan2(v(x)))
}

fn strokes(map: impl Fn(f32, f32) -> (f32, f32)) -> Vec<Stroke> {
    [
        vec![(0.25f32, 0.5f32), (0.3, 0.7), (0.4, 0.55), (0.75, 0.5)],
        vec![(0.5, 0.25), (0.5, 0.8)],
        vec![(0.625, 0.625)],
    ]
    .iter()
    .map(|s| {
        Stroke::from_points(
            s.iter()
                .map(|&(x, y)| {
                    let (x, y) = map(x, y);
                    Point::new(f(x), f(y), f(1.0), f(0.0), f(0.0), 0)
                })
                .collect(),
        )
    })
    .collect()
}

#[test]
fn ink_of_any_power_of_two_gives_the_same_input() {
    let base = strokes(|x, y| (x, y));
    for k in [-8i32, -1, 1, 2, 10] {
        let s = 2f32.powi(k);
        let other = strokes(|x, y| (x * s, y * s));
        assert_eq!(rasterize(&base, 32), rasterize(&other, 32), "2^{k}");
        assert_eq!(global_features(&base), global_features(&other), "2^{k}");
        assert_eq!(
            online_features(&base, ONLINE_POINTS, &atan2),
            online_features(&other, ONLINE_POINTS, &atan2),
            "2^{k}"
        );
    }
}

#[test]
fn ink_that_is_moved_exactly_gives_the_same_input() {
    // coordinates with few bits are moved without rounding
    let coarse = |x: f32| (x * 64.0).round() / 64.0;
    let base = strokes(|x, y| (coarse(x), coarse(y)));
    let other = strokes(|x, y| (coarse(x) + 3.0, coarse(y) - 17.5));
    assert_eq!(rasterize(&base, 32), rasterize(&other, 32));
    assert_eq!(global_features(&base), global_features(&other));
    assert_eq!(
        online_features(&base, ONLINE_POINTS, &atan2),
        online_features(&other, ONLINE_POINTS, &atan2)
    );
}

#[test]
fn pixels_and_proportions_lie_between_zero_and_one() {
    let ink = strokes(|x, y| (x * 1000.0, y * 3.0));
    assert!(rasterize(&ink, 16).iter().all(|&p| (0.0..=1.0).contains(&v(p))));
    let features = global_features(&ink);
    for k in [1, 3, 4, 5, 6] {
        assert!((0.0..=1.0).contains(&v(features[k])));
    }
}

#[test]
fn online_features_stay_small_for_any_ink() {
    for s in [1.0f32, 1.0e-6, 3.0e8] {
        let n = ONLINE_POINTS;
        let got = online_features(&strokes(|x, y| (x * s, y * s)), n, &atan2);
        assert_eq!(got.len(), 4 * n);
        assert!(got.iter().any(|&a| v(a) != 0.0));
        for i in 0..n {
            assert!(v(got[i]).abs() <= 2.0 && v(got[n + i]).abs() <= 2.0);
            assert!(v(got[2 * n + i]) == 0.0 || v(got[2 * n + i]) == 1.0);
            assert!(v(got[3 * n + i]).abs() <= 1.0);
        }
    }
    // a line that turns back on itself turns by half a circle
    let back = Stroke::from_points(
        [(0.0f32, 0.0f32), (1.0, 0.0), (0.0, 0.0)]
            .iter()
            .map(|&(x, y)| Point::new(f(x), f(y), f(1.0), f(0.0), f(0.0), 0))
            .collect(),
    );
    let got = online_features(&[back], 3, &atan2);
    let got: Vec<f32> = got.iter().map(|&a| v(a)).collect();
    assert_eq!(got, vec![1.0, -1.0, 0.0, 0.0, 0.0, 0.0, 0.0, 0.0, 1.0, 0.0, 1.0, 0.0]);
}
