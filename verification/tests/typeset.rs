//! Layout trees to SVG and to pen strokes.
use ink2tex::float::{num, F32};
use ink2tex::glyphs::Font;
use ink2tex::stroke::BBox;
use ink2tex::structure::{parse, Slt, Symbol};

fn f(x: f32) -> F32 {
    num(x.to_bits())
}

fn no_font() -> Font {
    Font { glyphs: Vec::new() }
}

fn to_svg(slt: &Slt) -> String {
    ink2tex::typeset::to_svg(slt, &no_font())
}

fn sym(label: &str, x0: f32, y0: f32, x1: f32, y1: f32) -> Symbol {
    Symbol::new(label.to_string(), BBox::new(f(x0), f(y0), f(x1), f(y1)))
}


#[test]
fn a_baseline_run_renders_left_to_right_text() {
    let slt = parse(&vec![
        sym("2", 0.20, 0.40, 0.26, 0.48),
        sym("x", 0.28, 0.40, 0.34, 0.48),
    ]);
    let svg = to_svg(&slt);
    assert!(svg.starts_with("<svg"));
    let x2 = svg.find(">2<").expect("2 rendered");
    let xx = svg.find(">x<").expect("x rendered");
    assert!(x2 < xx, "2 must be emitted before x");
}

#[test]
fn a_fraction_renders_a_bar_between_num_and_den() {
    let slt = parse(&vec![
        sym("a", 0.40, 0.30, 0.46, 0.38),
        sym("-", 0.36, 0.42, 0.52, 0.44),
        sym("b", 0.40, 0.47, 0.46, 0.55),
    ]);
    let svg = to_svg(&slt);
    assert!(svg.contains("<line"), "the fraction bar must be drawn");
    assert!(svg.contains(">a<") && svg.contains(">b<"));
}

#[test]
fn a_superscript_is_smaller_than_its_base() {
    let slt = parse(&vec![
        sym("x", 0.28, 0.42, 0.34, 0.50),
        sym("2", 0.35, 0.34, 0.39, 0.39),
    ]);
    let svg = to_svg(&slt);
    assert!(svg.contains(r#"font-size="1000">x"#));
    assert!(svg.contains(r#"font-size="700">2"#));
}

#[test]
fn a_radical_draws_its_overbar_and_contents() {
    let slt = parse(&vec![
        sym("\\sqrt{}", 0.00, 0.20, 0.75, 0.80),
        sym("x", 0.25, 0.40, 0.45, 0.60),
    ]);
    let svg = to_svg(&slt);
    assert!(svg.matches("<line").count() >= 3, "tick + hook + overbar");
    assert!(svg.contains(">x<"));
}

#[test]
fn svg_escapes_angle_brackets_in_labels() {
    let slt = parse(&vec![sym("<", 0.20, 0.40, 0.26, 0.48)]);
    let svg = to_svg(&slt);
    assert!(svg.contains("&lt;"), "raw < must not leak into markup");
}

