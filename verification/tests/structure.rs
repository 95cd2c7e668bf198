//! Positioned symbols to layout trees.
use ink2tex::float::{num, F32};
use ink2tex::latex::to_latex;
use ink2tex::stroke::BBox;
use ink2tex::structure::{parse, Symbol};

fn f(x: f32) -> F32 {
    num(x.to_bits())
}

fn sym(label: &str, min_x: f32, min_y: f32, max_x: f32, max_y: f32) -> Symbol {
    Symbol::new(
        label.to_string(),
        BBox::new(f(min_x), f(min_y), f(max_x), f(max_y)),
    )
}

fn latex(symbols: &[Symbol]) -> String {
    to_latex(&parse(&symbols.to_vec()))
}



#[test]
fn horizontal_sequence() {
    let s = [
        sym("a", 0.0, 0.4, 0.1, 0.6),
        sym("+", 0.15, 0.4, 0.25, 0.6),
        sym("b", 0.3, 0.4, 0.4, 0.6),
    ];
    assert_eq!(latex(&s), "a+b");
}

#[test]
fn superscript() {
    let s = [
        sym("x", 0.0, 0.4, 0.15, 0.7),
        sym("2", 0.16, 0.20, 0.26, 0.40),
    ];
    assert_eq!(latex(&s), "x^{2}");
}

#[test]
fn subscript() {
    let s = [
        sym("x", 0.0, 0.3, 0.15, 0.6),
        sym("i", 0.16, 0.55, 0.24, 0.80),
    ];
    assert_eq!(latex(&s), "x_{i}");
}

#[test]
fn superscript_then_baseline() {
    let s = [
        sym("x", 0.0, 0.4, 0.12, 0.7),
        sym("2", 0.13, 0.20, 0.22, 0.40),
        sym("+", 0.30, 0.45, 0.40, 0.60),
        sym("1", 0.45, 0.42, 0.52, 0.62),
    ];
    assert_eq!(latex(&s), "x^{2}+1");
}

#[test]
fn both_scripts() {
    let s = [
        sym("x", 0.0, 0.35, 0.15, 0.65),
        sym("2", 0.16, 0.12, 0.25, 0.32),
        sym("i", 0.16, 0.62, 0.24, 0.85),
    ];
    assert_eq!(latex(&s), "x_{i}^{2}");
}

#[test]
fn nested_superscript() {
    let s = [
        sym("x", 0.0, 0.4, 0.12, 0.7),
        sym("2", 0.13, 0.15, 0.20, 0.35),
        sym("y", 0.21, 0.15, 0.28, 0.38),
    ];
    assert_eq!(latex(&s), "x^{2y}");
}

#[test]
fn simple_fraction() {
    let s = [
        sym("-", 0.10, 0.49, 0.50, 0.51),
        sym("a", 0.25, 0.20, 0.35, 0.40),
        sym("b", 0.25, 0.60, 0.35, 0.80),
    ];
    assert_eq!(latex(&s), "\\frac{a}{b}");
}

#[test]
fn minus_is_not_a_fraction() {
    let s = [
        sym("a", 0.00, 0.45, 0.10, 0.55),
        sym("-", 0.15, 0.49, 0.25, 0.51),
        sym("b", 0.30, 0.45, 0.40, 0.55),
    ];
    assert_eq!(latex(&s), "a-b");
}

#[test]
fn fraction_in_a_sequence() {
    let s = [
        sym("1", 0.00, 0.45, 0.08, 0.60),
        sym("+", 0.12, 0.47, 0.22, 0.57),
        sym("-", 0.30, 0.50, 0.70, 0.52),
        sym("a", 0.45, 0.30, 0.55, 0.45),
        sym("b", 0.45, 0.57, 0.55, 0.72),
    ];
    assert_eq!(latex(&s), "1+\\frac{a}{b}");
}

#[test]
fn nested_fraction() {
    let s = [
        sym("=", 0.10, 0.50, 0.60, 0.52),
        sym("-", 0.20, 0.30, 0.50, 0.31),
        sym("a", 0.30, 0.18, 0.40, 0.28),
        sym("b", 0.30, 0.33, 0.40, 0.43),
        sym("c", 0.30, 0.60, 0.40, 0.75),
    ];
    assert_eq!(latex(&s), "\\frac{\\frac{a}{b}}{c}");
}

#[test]
fn the_radical_labels_the_classifier_actually_emits_are_recognized() {
    for label in ["\\sqrt{}", "\\textsurd", "\\surd", "\\sqrt"] {
        let out = latex(&[
            sym(label, 0.00, 0.20, 0.75, 0.80),
            sym("a", 0.25, 0.40, 0.45, 0.60),
            sym("b", 0.45, 0.40, 0.65, 0.60),
        ]);
        assert_eq!(
            out, "\\sqrt{ab}",
            "{label} was not treated as a radical — its contents fell outside it"
        );
    }
}

#[test]
fn simple_radical() {
    let s = [
        sym("\\sqrt", 0.00, 0.20, 0.50, 0.80),
        sym("x", 0.20, 0.40, 0.35, 0.60),
    ];
    assert_eq!(latex(&s), "\\sqrt{x}");
}

#[test]
fn radical_over_expression() {
    let s = [
        sym("\\sqrt", 0.00, 0.20, 0.75, 0.80),
        sym("a", 0.15, 0.40, 0.25, 0.60),
        sym("+", 0.30, 0.42, 0.40, 0.58),
        sym("b", 0.45, 0.40, 0.55, 0.60),
    ];
    assert_eq!(latex(&s), "\\sqrt{a+b}");
}

#[test]
fn radical_in_sequence() {
    let s = [
        sym("1", 0.00, 0.40, 0.08, 0.60),
        sym("+", 0.12, 0.42, 0.22, 0.58),
        sym("\\sqrt", 0.30, 0.25, 0.70, 0.75),
        sym("x", 0.45, 0.40, 0.58, 0.60),
    ];
    assert_eq!(latex(&s), "1+\\sqrt{x}");
}

#[test]
fn radical_over_fraction() {
    let s = [
        sym("\\sqrt", 0.05, 0.15, 0.65, 0.85),
        sym("-", 0.20, 0.48, 0.50, 0.52),
        sym("a", 0.30, 0.25, 0.40, 0.40),
        sym("b", 0.30, 0.60, 0.40, 0.75),
    ];
    assert_eq!(latex(&s), "\\sqrt{\\frac{a}{b}}");
}

#[test]
fn sum_with_limits() {
    let s = [
        sym("\\sum", 0.10, 0.35, 0.40, 0.65),
        sym("n", 0.18, 0.12, 0.32, 0.28),
        sym("i", 0.18, 0.72, 0.32, 0.88),
    ];
    assert_eq!(latex(&s), "\\sum_{i}^{n}");
}

#[test]
fn integral_with_limits() {
    let s = [
        sym("\\int", 0.10, 0.20, 0.22, 0.80),
        sym("b", 0.24, 0.18, 0.34, 0.36),
        sym("a", 0.24, 0.66, 0.34, 0.84),
    ];
    assert_eq!(latex(&s), "\\int_{a}^{b}");
}

#[test]
fn sum_over_fraction_expression() {
    let s = [
        sym("\\sum", 0.05, 0.35, 0.30, 0.65),
        sym("n", 0.12, 0.12, 0.24, 0.28),
        sym("i", 0.12, 0.72, 0.24, 0.88),
        sym("-", 0.40, 0.49, 0.70, 0.51),
        sym("1", 0.52, 0.28, 0.60, 0.45),
        sym("i", 0.52, 0.56, 0.60, 0.72),
    ];
    assert_eq!(latex(&s), "\\sum_{i}^{n}\\frac{1}{i}");
}

#[test]
fn the_order_of_the_symbols_does_not_matter() {
    let given = [
        sym("1", 0.10, 0.10, 0.20, 0.30),
        sym("\\sqrt", 0.45, 0.25, 0.80, 0.60),
        sym("-", 0.00, 0.40, 0.32, 0.42),
        sym("+", 0.36, 0.36, 0.42, 0.46),
        sym("x", 0.12, 0.50, 0.22, 0.70),
        sym("y", 0.55, 0.35, 0.70, 0.55),
    ];
    let expected = latex(&given);
    assert_eq!(expected, "\\frac{1}{x}+\\sqrt{y}");
    let mut turned = given.to_vec();
    for _ in 0..given.len() {
        turned.rotate_left(1);
        assert_eq!(latex(&turned), expected);
        let mut back = turned.clone();
        back.reverse();
        assert_eq!(latex(&back), expected);
        back.swap(0, 3);
        assert_eq!(latex(&back), expected);
    }
}
