//! Test cases from a handwriting corpus.
use ink2tex::corpus::Corpus;
use ink2tex::detexify::Sample;
use ink2tex::float::{num, F32};
use ink2tex::stroke::{Point, Stroke};

fn f(x: f32) -> F32 {
    num(x.to_bits())
}

fn v(x: F32) -> f32 {
    f32::from_bits(x.bits)
}

fn sample(class: &str, pts: &[(f32, f32)]) -> Sample {
    Sample {
        class: class.to_string(),
        strokes: vec![Stroke::from_points(
            pts.iter()
                .map(|&(x, y)| Point::new(f(x), f(y), f(0.5), f(0.1), f(0.2), 7))
                .collect(),
        )],
    }
}

#[test]
fn the_first_sample_of_a_wanted_class_becomes_a_case() {
    let mut c = Corpus::new("latex:latex2e:xi\nx\n\nq\n");
    assert!(c.add(&sample("y", &[(0.0, 0.0)])).is_none());
    assert!(c.add(&sample("x", &[])).is_none(), "there is no ink in it");
    let case = c
        .add(&sample("latex:latex2e:xi", &[(100.0, 200.0), (300.0, 250.0)]))
        .unwrap();
    assert_eq!(case.stem, "latex_latex2e_xi");
    assert_eq!(case.tex, "\\xi\n");
    let p = &case.ink.strokes[0].points;
    assert_eq!((v(p[0].x), v(p[0].y)), (0.0, 0.0));
    assert_eq!((v(p[1].x), v(p[1].y)), (1.0, 0.25));
    assert_eq!((p[1].pressure, p[1].tilt_x, p[1].tilt_y, p[1].t_us), (f(0.5), f(0.1), f(0.2), 7));
    assert_eq!((case.ink.source_width, case.ink.source_height), (f(1.0), f(1.0)));
    assert!(c.add(&sample("latex:latex2e:xi", &[(0.0, 0.0), (1.0, 1.0)])).is_none());
    let case = c.add(&sample("x", &[(5.0, 5.0)])).unwrap();
    assert_eq!(case.tex, "x\n");
    assert_eq!((v(case.ink.strokes[0].points[0].x), v(case.ink.strokes[0].points[0].y)), (0.0, 0.0));
    assert_eq!(c.cases(), 2);
    assert_eq!(c.missing(), vec!["q".to_string()]);
}

#[test]
fn a_class_that_is_wanted_twice_is_covered_twice() {
    let mut c = Corpus::new("x\ny\nx");
    assert_eq!(c.missing().len(), 3);
    assert!(c.add(&sample("x", &[(0.0, 0.0), (2.0, 1.0)])).is_some());
    assert_eq!(c.cases(), 1);
    assert_eq!(c.missing(), vec!["y".to_string()]);
}

#[test]
fn cases_lie_in_the_unit_square() {
    let mut c = Corpus::new("x");
    let case = c
        .add(&sample("x", &[(-3.7, 12.25), (0.1, 9.3), (55.5, -2.0)]))
        .unwrap();
    for p in &case.ink.strokes[0].points {
        assert!((0.0..=1.0).contains(&v(p.x)) && (0.0..=1.0).contains(&v(p.y)));
    }
}
