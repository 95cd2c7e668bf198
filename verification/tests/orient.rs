//! Landscape and portrait.
use ink2tex::float::{num, F32};
use ink2tex::orient::{rotate_ccw, rotate_cw};
use ink2tex::stroke::{Ink, Point, Stroke};

fn f(x: f32) -> F32 {
    num(x.to_bits())
}

fn v(x: F32) -> f32 {
    f32::from_bits(x.bits)
}

fn atan2(y: F32, x: F32) -> F32 {
    f(v(y).atan2(v(x)))
}

fn line_is_vertical(ink: &Ink) -> bool {
    ink2tex::orient::line_is_vertical(ink, &atan2)
}

fn stroke(pts: &[(f32, f32)]) -> Stroke {
    Stroke::from_points(
        pts.iter()
            .map(|&(x, y)| Point::new(f(x), f(y), f(1.0), f(0.0), f(0.0), 0))
            .collect(),
    )
}

fn glyph(x: f32, y: f32) -> Stroke {
    stroke(&[(x, y), (x + 0.05, y), (x + 0.05, y + 0.07), (x, y + 0.07)])
}

#[test]
fn rotations_are_inverse_of_each_other() {
    let ink = Ink {
        source_width: f(1.0),
        source_height: f(1.0),
        strokes: vec![stroke(&[(0.2, 0.7), (0.4, 0.1)])],
    };
    let back = rotate_ccw(&rotate_cw(&ink));
    for (a, b) in ink.strokes[0].points.iter().zip(&back.strokes[0].points) {
        assert!((v(a.x) - v(b.x)).abs() < 1e-6 && (v(a.y) - v(b.y)).abs() < 1e-6);
    }
}

#[test]
fn a_horizontal_line_is_not_vertical() {
    let ink = Ink {
        source_width: f(1.0),
        source_height: f(1.0),
        strokes: vec![glyph(0.2, 0.5), glyph(0.4, 0.51), glyph(0.6, 0.5)],
    };
    assert!(!line_is_vertical(&ink));
}

#[test]
fn a_vertical_line_of_symbols_is_vertical() {
    let ink = Ink {
        source_width: f(1.0),
        source_height: f(1.0),
        strokes: vec![glyph(0.5, 0.2), glyph(0.51, 0.4), glyph(0.5, 0.6)],
    };
    assert!(line_is_vertical(&ink));
}

#[test]
fn too_few_symbols_never_trigger_rotation() {
    let ink = Ink {
        source_width: f(1.0),
        source_height: f(1.0),
        strokes: vec![glyph(0.5, 0.2), glyph(0.5, 0.6)],
    };
    assert!(!line_is_vertical(&ink));
}

#[test]
fn a_fraction_shape_triggers_the_ballot_not_a_blind_rotation() {
    let ink = Ink {
        source_width: f(1.0),
        source_height: f(1.0),
        strokes: vec![
            glyph(0.45, 0.38),
            stroke(&[(0.40, 0.50), (0.56, 0.50)]),
            glyph(0.45, 0.56),
        ],
    };
    assert!(
        line_is_vertical(&ink),
        "the trigger fires; the ballot decides"
    );
}
