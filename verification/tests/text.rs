//! Text, numbers in decimal, JSON, records, messages and sorting.
use ink2tex::alphabet::{insert_in_order, insert_new};
use ink2tex::detexify::parse_line;
use ink2tex::error::Error;
use ink2tex::float::decimal::push_fixed;
use ink2tex::float::{num, F32};
use ink2tex::json::js_str;
use ink2tex::json::value::{parse_json, Json};
use ink2tex::record::{ndjson_sample, sample_line};
use ink2tex::sort::sort_indices;
use ink2tex::stroke::{Ink, Point, Stroke};

fn f(x: f32) -> F32 {
    num(x.to_bits())
}

fn v(x: F32) -> f32 {
    f32::from_bits(x.bits)
}

fn fixed(x: f32, places: u32) -> String {
    let mut out = Vec::new();
    push_fixed(&mut out, f(x), places);
    out.iter().collect()
}

#[test]
fn numbers_are_written_as_the_formatter_writes_them() {
    for x in [
        0.0f32, -0.0, 1.0, 0.5, 0.05, 0.15, 0.25, 2.5, -3.14159, 1e-7, 123456.79, 1e10, 3.4e38,
        1.0e-45, 0.999995, f32::INFINITY, f32::NEG_INFINITY,
    ] {
        assert_eq!(fixed(x, 0), format!("{x:.0}"));
        assert_eq!(fixed(x, 1), format!("{x:.1}"));
        assert_eq!(fixed(x, 3), format!("{x:.3}"));
        assert_eq!(fixed(x, 5), format!("{x:.5}"));
        assert_eq!(fixed(x, 6), format!("{x:.6}"));
    }
    assert_eq!(fixed(f32::NAN, 2), "NaN");
}

#[test]
fn strings_are_escaped_for_json() {
    assert_eq!(js_str("\\alpha \"x\"\n\t\u{1}\u{e9}"), "\"\\\\alpha \\\"x\\\"\\n\\u0009\\u0001\u{e9}\"");
    assert_eq!(js_str(""), "\"\"");
}

#[test]
fn json_is_read_into_a_tree() {
    let j = parse_json("{\"a\": [1, 2.5, \"x\\u00e9\", null], \"b\": {\"c\": -1}, \"b\": 7}").unwrap();
    let a = j.get("a").unwrap().as_array().unwrap();
    assert_eq!(a.len(), 4);
    assert_eq!(a[0].as_u64(), Some(1));
    assert_eq!(a[1].as_bits(), Some(2.5f64.to_bits()));
    assert_eq!(a[1].as_u64(), None);
    assert_eq!(a[2].as_str(), Some("x\u{e9}"));
    assert!(matches!(a[3], Json::Other));
    assert_eq!(j.get("b").unwrap().as_u64(), Some(7), "the last of equal keys counts");
    assert!(j.get("c").is_none());
    assert!(parse_json("{").is_none());
    assert!(parse_json("").is_none());
}

fn drawing() -> Ink {
    Ink {
        source_width: f(1.0),
        source_height: f(1.0),
        strokes: vec![
            Stroke::from_points(vec![
                Point::new(f(0.25), f(0.5), f(1.0), f(0.0), f(0.0), 0),
                Point::new(f(0.75), f(1.0), f(1.0), f(0.0), f(0.0), 12_999),
            ]),
            Stroke::from_points(vec![Point::new(f(0.125), f(0.0), f(1.0), f(0.0), f(0.0), 40_000)]),
        ],
    }
}

#[test]
fn a_collected_drawing_is_read_back_by_the_loader() {
    let line = ndjson_sample("\\alpha\"", &drawing());
    assert_eq!(
        line,
        "{\"key\":\"\\\\alpha\\\"\",\"strokes\":[[{\"x\":0.25000,\"y\":0.50000,\"t\":0},{\"x\":0.75000,\"y\":1.00000,\"t\":12}],[{\"x\":0.12500,\"y\":0.00000,\"t\":40}]]}"
    );
    let s = parse_line(&line).unwrap();
    assert_eq!(s.class, "\\alpha\"");
    assert_eq!(s.strokes.len(), 2);
    let p = s.strokes[0].points[1];
    assert_eq!((v(p.x), v(p.y), p.t_us), (0.75, 1.0, 12_000));
}

#[test]
fn a_confirmed_symbol_is_read_back_by_the_loader() {
    let line = sample_line("x", &drawing(), &vec![1]);
    assert_eq!(line, "{\"key\":\"x\",\"strokes\":[[{\"x\":0.12500,\"y\":0.00000,\"t\":40}]]}\n");
    let s = parse_line(&line).unwrap();
    assert_eq!((s.class.as_str(), s.strokes.len()), ("x", 1));
}

#[test]
fn errors_say_what_is_wrong() {
    assert_eq!(
        Error::BadMagic { found: [0, 1, 0x2a, 0xff], expected: *b"INK1" }.message(),
        "not an .ink file: bad magic [0, 1, 2a, ff] (expected [49, 4e, 4b, 31])"
    );
    assert_eq!(
        Error::UnsupportedVersion(9, 1).message(),
        "unsupported .ink version 9 (this build supports 1)"
    );
    assert_eq!(
        Error::Truncated { offset: 20, needed: 4, available: 1 }.message(),
        "truncated .ink: needed 4 more bytes at offset 20, had 1"
    );
    assert_eq!(Error::BadWeights("bad magic").message(), "malformed weights blob: bad magic");
}

#[test]
fn names_are_kept_in_order() {
    let chars = |s: &str| s.chars().collect::<Vec<char>>();
    let mut names = Vec::new();
    for n in ["event10", "event2", "event1", "event10"] {
        insert_in_order(&mut names, chars(n));
    }
    let sorted: Vec<String> = names.iter().map(|n| n.iter().collect()).collect();
    assert_eq!(sorted, ["event1", "event10", "event10", "event2"]);
    let mut names = Vec::new();
    for n in ["b", "a", "b", ""] {
        insert_new(&mut names, chars(n));
    }
    let sorted: Vec<String> = names.iter().map(|n| n.iter().collect()).collect();
    assert_eq!(sorted, ["", "a", "b"]);
}

#[test]
fn equal_keys_keep_their_order() {
    let keys: Vec<F32> = [2.0, 1.0, 2.0, -0.0, 0.0].iter().map(|&x| f(x)).collect();
    assert_eq!(sort_indices(&keys), vec![3, 4, 1, 0, 2]);
}
