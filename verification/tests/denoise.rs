//! Stray taps and deliberate dots.
use ink2tex::denoise::{denoise, keep_indices};
use ink2tex::float::{num, F32};
use ink2tex::stroke::{Point, Stroke};

fn f(x: f32) -> F32 {
    num(x.to_bits())
}

fn stroke(pts: &[(f32, f32)]) -> Stroke {
    Stroke::from_points(
        pts.iter()
            .map(|&(x, y)| Point::new(f(x), f(y), f(1.0), f(0.0), f(0.0), 0))
            .collect(),
    )
}


fn symbol(x: f32, y: f32, size: f32) -> Stroke {
    stroke(&[
        (x, y),
        (x + size, y),
        (x + size, y + size),
        (x, y + size),
        (x, y),
    ])
}

fn dot(x: f32, y: f32) -> Stroke {
    stroke(&[(x, y), (x + 0.003, y + 0.001), (x + 0.001, y + 0.003)])
}

#[test]
fn drops_an_isolated_tap() {
    let ink = [
        symbol(0.30, 0.50, 0.10),
        symbol(0.45, 0.50, 0.10),
        dot(0.05, 0.05),
    ];
    let kept = denoise(&ink);
    assert_eq!(kept.len(), 2, "the isolated tap should be gone");
}

#[test]
fn keeps_a_cdot_between_its_operands() {
    let ink = [
        symbol(0.30, 0.50, 0.10),
        dot(0.43, 0.55),
        symbol(0.48, 0.50, 0.10),
    ];
    let kept = denoise(&ink);
    assert_eq!(
        kept.len(),
        3,
        "a \\cdot is not noise — it belongs to the expression"
    );
}

#[test]
fn keeps_the_dot_of_an_i() {
    let ink = [
        symbol(0.30, 0.50, 0.10),
        dot(0.34, 0.46),
        symbol(0.45, 0.50, 0.10),
    ];
    assert_eq!(denoise(&ink).len(), 3);
}

#[test]
fn keeps_everything_when_the_ink_is_all_dots() {
    let ink = [dot(0.30, 0.50), dot(0.40, 0.50), dot(0.50, 0.50)];
    assert_eq!(
        denoise(&ink).len(),
        3,
        "\\ldots is three dots, not three taps"
    );
}

#[test]
fn a_lone_dot_is_a_symbol_not_noise() {
    assert_eq!(denoise(&[dot(0.5, 0.5)]).len(), 1);
}

#[test]
fn empty_strokes_are_dropped_and_nothing_panics() {
    let ink = [symbol(0.3, 0.5, 0.1), Stroke::new(), symbol(0.5, 0.5, 0.1)];
    assert_eq!(denoise(&ink).len(), 2);
    assert!(denoise(&[]).is_empty());
}
