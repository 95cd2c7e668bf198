//! Handwriting to typeset strokes.
use ink2tex::beautify::{
    beautify, erase, ink_bbox, replace, rewrite, without_hold, Refusal, LEAST_SCALE,
};
use ink2tex::classify::weights::{Weights, WeightsWriter};
use ink2tex::classify::Labels;
use ink2tex::error::Error;
use ink2tex::expression::AnalyzedSymbol;
use ink2tex::float::{num, F32};
use ink2tex::glyphs::Font;
use ink2tex::stroke::{BBox, Ink, Point, Stroke};
use ink2tex::typeset::StrokePlan;

fn f(x: f32) -> F32 {
    num(x.to_bits())
}

fn v(x: F32) -> f32 {
    f32::from_bits(x.bits)
}

fn atan2(y: F32, x: F32) -> F32 {
    f(v(y).atan2(v(x)))
}

fn exp(x: F32) -> F32 {
    f(v(x).exp())
}

fn stroke(pts: &[(f32, f32)]) -> Stroke {
    Stroke::from_points(
        pts.iter()
            .map(|&(x, y)| Point::new(f(x), f(y), f(1.0), f(0.0), f(0.0), 0))
            .collect(),
    )
}

fn ink(strokes: Vec<Stroke>) -> Ink {
    Ink {
        source_width: f(1.0),
        source_height: f(1.0),
        strokes,
    }
}

fn minus() -> AnalyzedSymbol {
    AnalyzedSymbol {
        stroke_indices: vec![0],
        candidates: vec![("\\pm".to_string(), f(1.0))],
        bbox: BBox::new(f(0.2), f(0.4), f(0.3), f(0.5)),
    }
}

fn empty_font() -> Font {
    Font { glyphs: Vec::new() }
}

#[test]
fn a_still_pen_is_a_gesture_and_a_line_is_writing() {
    let dot = stroke(&[(0.5, 0.5), (0.505, 0.5), (0.51, 0.5)]);
    let line = stroke(&[(0.1, 0.1), (0.2, 0.1)]);
    let page = ink(vec![stroke(&[(0.0, 0.0), (0.5, 0.5)]), dot.clone()]);
    assert_eq!(without_hold(&page).strokes.len(), 1);
    let page = ink(vec![dot.clone(), line]);
    assert_eq!(without_hold(&page).strokes.len(), 2, "only the last stroke can be the gesture");
    assert_eq!(without_hold(&ink(vec![stroke(&[(0.5, 0.5)])])).strokes.len(), 0);
    assert_eq!(without_hold(&ink(Vec::new())).strokes.len(), 0);
}

#[test]
fn every_stroke_is_erased_three_times() {
    let strokes = vec![stroke(&[(0.25, 0.5), (0.5, 0.75)]), stroke(&[(0.5, 0.5)])];
    let paths = erase(&strokes);
    assert_eq!(paths.len(), 6);
    assert_eq!(paths[0], vec![(f(0.25), f(0.5)), (f(0.5), f(0.75))]);
    assert_eq!(paths[1], vec![(f(0.5), f(0.5))]);
    assert_eq!(paths[2][0], (f(0.25), f(0.5 + 0.004)));
    assert_eq!(paths[4][0], (f(0.25), f(0.5 + -0.004)));
}

#[test]
fn the_plan_is_fitted_into_the_place_of_the_writing() {
    let plan = StrokePlan {
        polylines: vec![vec![(f(0.0), f(0.0)), (f(100.0), f(50.0))]],
        w: f(100.0),
        h: f(50.0),
        missing: Vec::new(),
    };
    // as high as the handwriting, and centred on it
    let place = BBox::new(f(0.25), f(0.25), f(0.5), f(0.5));
    let paths = rewrite(&plan, &place);
    assert_eq!(paths[0], vec![(f(0.25), f(0.25)), (f(0.75), f(0.5))]);
    // but no further than the right edge
    let tight = BBox::new(f(0.75), f(0.0), f(0.8), f(1.0));
    let paths = rewrite(&plan, &tight);
    assert!((v(paths[0][1].0) - 0.96).abs() < 1e-6);
    // and never mirrored, even beyond the edge
    let beyond = BBox::new(f(0.99), f(0.5), f(1.0), f(0.5));
    let paths = rewrite(&plan, &beyond);
    assert_eq!(paths[0][1].0, f(0.99f32 + 100.0 * v(num(LEAST_SCALE))));
}

#[test]
fn the_box_of_the_writing() {
    let strokes = vec![stroke(&[(0.25, 0.5)]), stroke(&[(0.5, 0.125), (0.0, 0.75)])];
    let b = ink_bbox(&strokes);
    assert_eq!((b.min_x, b.min_y, b.max_x, b.max_y), (f(0.0), f(0.125), f(0.5), f(0.75)));
    let b = ink_bbox(&Vec::new());
    assert_eq!((v(b.min_x), v(b.max_x)), (f32::MAX, f32::MIN));
}

#[test]
fn a_page_is_replaced_only_if_it_can_be_drawn_and_erased() {
    let page = ink(vec![
        stroke(&[(0.2, 0.4), (0.3, 0.5)]),
        stroke(&[(0.5, 0.5), (0.501, 0.5)]),
    ]);
    let done = replace(&page, &vec![minus()], &empty_font(), true).unwrap();
    assert_eq!(done.latex, "\\pm");
    assert_eq!(done.erase.len(), 6, "the gesture is erased too");
    assert_eq!(done.draw.len(), 3);
    assert!(done.missing.is_empty());
    assert!(matches!(
        replace(&page, &vec![minus()], &empty_font(), false),
        Err(Refusal::NoEraser)
    ));
    assert!(matches!(
        replace(&page, &Vec::new(), &empty_font(), true),
        Err(Refusal::EmptyPlan)
    ));
}

#[test]
fn a_page_with_nothing_but_the_gesture_is_left_alone() {
    let blob = WeightsWriter::new().finish();
    let w = Weights::parse(&blob).unwrap();
    let labels = Labels::from_lines("a\n");
    let page = ink(vec![stroke(&[(0.5, 0.5), (0.501, 0.5)])]);
    let r = beautify(&page, &w, &labels, None, &empty_font(), true, &atan2, &exp);
    assert!(matches!(r, Err(Refusal::Nothing)));
    let page = ink(vec![stroke(&[(0.1, 0.1), (0.4, 0.4)]), stroke(&[(0.5, 0.5)])]);
    let r = beautify(&page, &w, &labels, None, &empty_font(), true, &atan2, &exp);
    assert!(matches!(r, Err(Refusal::Unrecognized(Error::BadWeights(_)))));
}

#[test]
fn refusals_say_what_is_wrong() {
    assert_eq!(Refusal::Nothing.message(), "nothing but the hold itself was written");
    assert_eq!(Refusal::EmptyPlan.message(), "stroke plan came back empty");
    assert_eq!(
        Refusal::NoEraser.message(),
        "digitizer has no eraser tool \u{2014} beautify would double-draw"
    );
    assert_eq!(Refusal::TooLarge.message(), "the layout is too large");
    assert_eq!(
        Refusal::Unrecognized(Error::BadWeights("x")).message(),
        "malformed weights blob: x"
    );
}
