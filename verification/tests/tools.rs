//! Statistics, pictures, the synthetic drawing, reports, the command line and the rehearsal.
use ink2tex::capture::Capture;
use ink2tex::classify::weights::{Weights, WeightsWriter};
use ink2tex::classify::{Labels, Prediction};
use ink2tex::cli::{command, flag, number_flag, places, text_flag, Command};
use ink2tex::evdev::AbsInfo;
use ink2tex::float::{num, F32};
use ink2tex::line::LineSymbol;
use ink2tex::picture::{ascii, nib, picture, pixel, Mark};
use ink2tex::rehearse::{axis, script, PRESSURE_MAX, X_MAX, Y_MAX};
use ink2tex::report::{
    alternatives_line, candidate_line, rank_line, segmentation_line, symbol_line, tensor_line,
};
use ink2tex::stats::stroke_stats;
use ink2tex::stroke::{Ink, Point, Stroke};
use ink2tex::synth::sample_ink;

fn f(x: f32) -> F32 {
    num(x.to_bits())
}

fn v(x: F32) -> f32 {
    f32::from_bits(x.bits)
}

fn stroke(pts: &[(f32, f32)], pressure: f32) -> Stroke {
    Stroke::from_points(
        pts.iter()
            .map(|&(x, y)| Point::new(f(x), f(y), f(pressure), f(0.0), f(0.0), 0))
            .collect(),
    )
}

fn args(list: &[&str]) -> Vec<String> {
    list.iter().map(|a| a.to_string()).collect()
}

#[test]
fn strokes_are_measured_against_the_median() {
    let strokes = vec![
        stroke(&[(0.0, 0.0), (3.0, 4.0)], 1.0),
        stroke(&[(3.0, 5.0)], 1.0),
        stroke(&[(10.0, 0.0), (10.0, 10.0)], 1.0),
    ];
    let (median, rows) = stroke_stats(&strokes);
    assert_eq!(v(median), 5.0);
    assert_eq!(rows[0].points, 2);
    assert_eq!((v(rows[0].diagonal), v(rows[0].relative), v(rows[0].nearest)), (5.0, 1.0, 1.0));
    assert_eq!((v(rows[1].diagonal), v(rows[1].nearest)), (0.0, 1.0));
    assert_eq!(v(rows[2].relative), 2.0);
    let (_, alone) = stroke_stats(&vec![stroke(&[(0.0, 0.0), (1.0, 0.0)], 1.0)]);
    assert_eq!(v(alone[0].nearest), f32::MAX);
}

#[test]
fn a_picture_has_the_shape_of_the_drawing() {
    let mut ink = Ink {
        source_width: f(1000.0),
        source_height: f(2000.0),
        strokes: vec![
            stroke(&[], 1.0),
            stroke(&[(0.5, 0.5)], 1.0),
            stroke(&[(0.0, 0.0), (1.0, 1.0)], 0.5),
        ],
    };
    let p = picture(&ink);
    assert_eq!((p.width, p.height), (500, 1000));
    assert!(matches!(p.marks[0], Mark::Nothing));
    match p.marks[1] {
        Mark::Dot((x, y)) => {
            assert!((v(x) - 250.0).abs() < 1e-3 && (v(y) - 500.0).abs() < 1e-3);
        }
        _ => panic!("a lone point is a dot"),
    }
    match &p.marks[2] {
        Mark::Line(points, width) => {
            assert_eq!((v(points[0].0), v(points[0].1)), (500.0 * 0.06, 1000.0 * 0.06));
            assert_eq!(v(*width), 3.0);
        }
        _ => panic!("two points are a line"),
    }
    ink.source_width = f(0.0);
    let p = picture(&ink);
    assert_eq!((p.width, p.height), (1000, 750));
}

#[test]
fn the_screen_is_addressed_in_pixels() {
    assert_eq!(pixel((f(0.5), f(0.25)), 1404, 1872), (702, 468));
    assert_eq!(pixel((f(0.0), f(1.0)), 1404, 1872), (0, 1872));
    assert_eq!((nib(f(0.0)), nib(f(0.5)), nib(f(1.0))), (2, 4, 6));
    assert_eq!((nib(f(-3.0)), nib(f(9.0)), nib(f(f32::NAN))), (2, 6, 2));
}

#[test]
fn grey_values_become_characters() {
    let img: Vec<F32> = [0.0, 0.2, 0.4, 0.6, 0.8, 1.0, -1.0, 2.0, f32::NAN]
        .iter()
        .map(|&x| f(x))
        .collect();
    assert_eq!(ascii(&img, 3), vec![" .:".to_string(), "+*#".to_string(), " # ".to_string()]);
}

#[test]
fn the_synthetic_drawing_is_always_the_same() {
    let sin = |x: F32| f(v(x).sin());
    let cos = |x: F32| f(v(x).cos());
    let ink = sample_ink(&sin, &cos);
    assert_eq!(ink.strokes.len(), 3);
    assert_eq!(ink.point_count(), 121 + 41 + 61);
    assert_eq!((v(ink.source_width), v(ink.source_height)), (1872.0, 1404.0));
    let p = ink.strokes[0].points[0];
    assert_eq!((v(p.x), v(p.y), v(p.pressure), p.t_us), (0.10, 0.45, 0.35, 0));
    let p = ink.strokes[0].points[120];
    assert_eq!((v(p.x), p.t_us), (0.10f32 + 0.80, 720_000));
    let p = ink.strokes[1].points[40];
    assert_eq!((v(p.x), v(p.y), v(p.pressure), p.t_us), (0.15f32 + 0.30, 0.75f32 - 0.30, 0.8, 960_000));
    let p = ink.strokes[2].points[0];
    assert_eq!((v(p.x), v(p.y), v(p.pressure), p.t_us), (0.72f32 + 0.06, 0.70, 0.6, 1_200_000));
    assert_eq!(ink.encode(), sample_ink(&sin, &cos).encode());
}

#[test]
fn rankings_show_the_command_and_the_name() {
    let labels = Labels::from_lines("latex:latex2e:xi\nx\n");
    let p = |class: usize, prob: f32| Prediction { class, prob: f(prob) };
    assert_eq!(
        rank_line(1, &p(0, 0.4453), Some(&labels)),
        "  1.  44.5%  \\xi              (latex:latex2e:xi)"
    );
    assert_eq!(rank_line(2, &p(7, 1.0), Some(&labels)), "  2. 100.0%  class 7");
    assert_eq!(rank_line(10, &p(1, 0.0), None), "  10.   0.0%  class 1");
    assert_eq!(candidate_line(&p(1, 0.05), Some(&labels)), "        5.0%  x");
    assert_eq!(candidate_line(&p(4, 0.05), None), "        5.0%  class 4");
    assert_eq!(
        alternatives_line(1, &vec![p(0, 0.625), p(1, 0.25), p(9, 0.1)], &labels),
        "  1. \\xi 62%  |  x 25%  |  class9 "
    );
}

#[test]
fn a_segmentation_is_summed_up() {
    let labels = Labels::from_lines("a\nb\n");
    let symbol = |strokes: &[usize], class: usize| LineSymbol {
        strokes: strokes.to_vec(),
        predictions: vec![Prediction { class, prob: f(0.5) }],
    };
    let line = vec![symbol(&[0, 2], 1), symbol(&[1], 5)];
    assert_eq!(
        segmentation_line(&line, Some(&labels)),
        "segmented: 2 symbol(s) \u{2192} b  \u{b7}  class 5"
    );
    assert_eq!(symbol_line(1, &line[0]), "  symbol 1 (strokes [0, 2]):");
    assert_eq!(segmentation_line(&Vec::new(), None), "segmented: 0 symbol(s) \u{2192} ");
}

#[test]
fn tensors_are_listed_with_their_first_entries() {
    let mut w = WeightsWriter::new();
    w.i8("conv1.w", &[2, 4], f(0.5), &[1, -2, 3, 4, 5, 6, 7, 8]);
    w.i32("b", &[2], &[-10, 20]);
    w.floats("scale", &[1], &[f(0.25)]);
    let blob = w.finish();
    let parsed = Weights::parse(&blob).unwrap();
    assert_eq!(
        tensor_line(&parsed.tensors()[0]),
        "  conv1.w            dtype=0 dims=[2, 4] scale=0.500000 head=[1, -2, 3, 4, 5, 6]"
    );
    assert_eq!(
        tensor_line(&parsed.tensors()[1]),
        "  b                  dtype=1 dims=[2] scale=0.000000 head=[-10, 20]"
    );
    assert_eq!(
        tensor_line(&parsed.tensors()[2]),
        "  scale              dtype=2 dims=[1] scale=0.000000 head=[0.2500]"
    );
}

#[test]
fn flags_take_the_argument_behind_them() {
    let a = args(&["--collect", "--symbol", "=", "--count", "3", "--count", "9", "--out"]);
    assert_eq!(flag(&a, "--symbol"), Some("=".to_string()));
    assert_eq!(flag(&a, "--out"), None);
    assert_eq!(flag(&a, "--none"), None);
    assert_eq!(number_flag(&a, "--count", u64::MAX, 50), 3);
    assert_eq!(number_flag(&a, "--symbol", u64::MAX, 50), 50);
    assert_eq!(number_flag(&a, "--none", u64::MAX, 50), 50);
    assert_eq!(number_flag(&args(&["--port", "70000"]), "--port", 65535, 8222), 8222);
    assert_eq!(text_flag(&a, "--out", "here"), "here");
    assert_eq!(text_flag(&a, "--symbol", "here"), "=");
}

#[test]
fn the_first_argument_is_the_command() {
    assert_eq!(command(&args(&[])), Command::Probe);
    for (arg, want) in [
        ("--probe", Command::Probe),
        ("--record", Command::Record),
        ("--ink", Command::Ink),
        ("--recognize", Command::Recognize),
        ("--collect", Command::Collect),
        ("--expr", Command::Expr),
        ("--serve", Command::Serve),
        ("--record-one", Command::RecordOne),
        ("--beautify", Command::Beautify),
        ("-h", Command::Help),
        ("--help", Command::Help),
        ("--wat", Command::Unknown),
    ] {
        assert_eq!(command(&args(&[arg, "--probe"])), want, "{arg}");
    }
}

#[test]
fn the_rehearsal_leaves_exactly_the_pen_stroke() {
    let flat = AbsInfo::default();
    let mut cap = Capture::from_axes(axis(X_MAX), axis(Y_MAX), axis(PRESSURE_MAX), flat, flat);
    let frames = script();
    assert_eq!(frames.len(), 2 + 40 + 2 + 20);
    assert_eq!(frames.iter().map(|f| f.pause_us).sum::<u64>(), 60 * 5000 + 300_000);
    for frame in &frames {
        for ev in &frame.events {
            cap.process(ev);
        }
    }
    let ink = cap.finish();
    assert_eq!(ink.strokes.len(), 1);
    assert_eq!(ink.strokes[0].points.len(), 20);
}

#[test]
fn a_file_is_looked_for_in_the_install_prefix_first() {
    assert_eq!(places("expr.iwt", None), vec!["/opt/usr/share/ink2tex/expr.iwt".to_string()]);
    assert_eq!(
        places("expr.iwt", Some("/home/root/expr.iwt".to_string())),
        vec!["/opt/usr/share/ink2tex/expr.iwt".to_string(), "/home/root/expr.iwt".to_string()]
    );
}
