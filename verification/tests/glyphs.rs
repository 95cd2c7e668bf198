//! Fonts, glyphs and plans.
use ink2tex::float::{num, F32};
use ink2tex::glyphs::{strokes, Font, RawGlyph};
use ink2tex::stroke::BBox;
use ink2tex::structure::{parse, Symbol};
use ink2tex::typeset::{checked_strokes, checked_svg, to_strokes};

fn f(x: f32) -> F32 {
    num(x.to_bits())
}

fn v(x: F32) -> f32 {
    f32::from_bits(x.bits)
}

fn sym(label: &str, x0: f32, y0: f32, x1: f32, y1: f32) -> Symbol {
    Symbol::new(label.to_string(), BBox::new(f(x0), f(y0), f(x1), f(y1)))
}

/// A font that has the same plain glyph for every printable character.
fn full_font() -> Font {
    Font {
        glyphs: (0..96)
            .map(|_| RawGlyph {
                left: -10,
                right: 10,
                polylines: vec![vec![(-8, 9), (8, 9)]],
            })
            .collect(),
    }
}

#[test]
fn a_font_is_read_record_by_record() {
    let text = "  699  1JZ\n  714  9MWRFRT RRYQZR[\nSZRY\n\n";
    let font = Font::from_jhf(text).unwrap();
    assert_eq!(font.glyphs.len(), 2);
    assert_eq!((font.glyphs[0].left, font.glyphs[0].right), (-8, 8));
    assert!(font.glyphs[0].polylines.is_empty());
    let g = &font.glyphs[1];
    assert_eq!((g.left, g.right), (-5, 5));
    assert_eq!(
        g.polylines,
        vec![
            vec![(0, -12), (0, 2)],
            vec![(0, 7), (-1, 8), (0, 9), (1, 8), (0, 7)]
        ]
    );
}

#[test]
fn what_is_no_font_is_refused() {
    assert!(Font::from_jhf("  699  0\n").is_none(), "a record without bounds");
    assert!(Font::from_jhf("  699  1J\u{e9}\n").is_none());
    assert_eq!(Font::from_jhf("garbage line\n").unwrap().glyphs.len(), 0);
    assert_eq!(Font::from_jhf("").unwrap().glyphs.len(), 0);
}

#[test]
fn composed_commands_need_no_font() {
    let none = Font { glyphs: Vec::new() };
    let pm = strokes("\\pm", &none).unwrap();
    assert_eq!(pm.polylines.len(), 3);
    assert!(v(pm.advance) > 0.0);
    assert!(strokes("a", &none).is_none());
    assert!(strokes("\\nonsense", &none).is_none());
}

#[test]
fn a_full_font_draws_every_printable_character() {
    let font = full_font();
    for c in '!'..='~' {
        let g = strokes(&c.to_string(), &font).unwrap();
        assert_eq!(g.polylines.len(), 1, "{c}");
        assert!(v(g.advance) > 0.0);
    }
}

#[test]
fn straight_lines_keep_their_ends() {
    let font = full_font();
    let g = strokes("1", &font).unwrap();
    let line = &g.polylines[0];
    assert!(v(line[0].0) < v(line[line.len() - 1].0));
    assert_eq!(line[0].1, line[line.len() - 1].1);
}

#[test]
fn a_plan_stays_inside_its_bounds() {
    let slt = parse(&vec![
        sym("a", 0.40, 0.30, 0.46, 0.38),
        sym("-", 0.36, 0.42, 0.52, 0.44),
        sym("b", 0.40, 0.47, 0.46, 0.55),
    ]);
    let plan = to_strokes(&slt, &full_font());
    assert!(plan.missing.is_empty());
    assert_eq!(plan.polylines.len(), 3, "two letters and the bar");
    for line in &plan.polylines {
        for p in line {
            assert!((0.0..=v(plan.w)).contains(&v(p.0)));
            assert!((0.0..=v(plan.h)).contains(&v(p.1)));
        }
    }
}

#[test]
fn tokens_without_a_glyph_are_named() {
    let slt = parse(&vec![sym("\\oddity", 0.2, 0.4, 0.3, 0.5), sym("x", 0.4, 0.4, 0.5, 0.5)]);
    let plan = checked_strokes(&slt, &full_font()).unwrap();
    assert_eq!(plan.missing, vec!["\\oddity".to_string()]);
    assert_eq!(plan.polylines.len(), 1);
    assert!(checked_svg(&slt, &full_font()).unwrap().starts_with("<svg"));
}
