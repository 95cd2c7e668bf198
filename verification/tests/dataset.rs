//! Training datasets.
use ink2tex::classify::raster::NUM_FEATURES;
use ink2tex::dataset::{class_list, find_class, Dataset, Source, Vocabulary};
use ink2tex::detexify::Sample;
use ink2tex::float::{num, F32};
use ink2tex::stroke::{Point, Stroke};

fn f(x: f32) -> F32 {
    num(x.to_bits())
}

fn v(x: F32) -> f32 {
    f32::from_bits(x.bits)
}

fn atan2(y: F32, x: F32) -> F32 {
    f(v(y).atan2(v(x)))
}

fn sample(class: &str, pts: &[(f32, f32)]) -> Sample {
    Sample {
        class: class.to_string(),
        strokes: vec![Stroke::from_points(
            pts.iter()
                .map(|&(x, y)| Point::new(f(x), f(y), f(1.0), f(0.0), f(0.0), 0))
                .collect(),
        )],
    }
}

fn names(classes: &[&str]) -> Vec<String> {
    classes.iter().map(|c| c.to_string()).collect()
}

#[test]
fn a_source_reads_lines_and_falls_back_to_the_document() {
    let mut s = Source::new();
    assert!(s.line("   ").is_none());
    assert!(s.line("not json").is_none());
    let text = "[{\"key\":\"a\",\"data\":[[{\"x\":1,\"y\":2}]]}]";
    assert_eq!(s.rest(text).unwrap().len(), 1, "no line gave a sample");
    let got = s.line("{\"key\":\"b\",\"data\":[[{\"x\":1,\"y\":2}]]}").unwrap();
    assert_eq!(got.class, "b");
    assert_eq!(s.rest(text).unwrap().len(), 0, "a line gave a sample");
    let e = Source::new().rest("nothing here").err().unwrap();
    assert_eq!(e.message(), "no Detexify samples parsed (unrecognized shape)");
}

#[test]
fn a_vocabulary_is_sorted_and_has_no_repetitions() {
    let mut v = Vocabulary::new();
    for c in ["b", "a", "\u{e9}", "b", "ab", "B", "a"] {
        v.add(c);
    }
    assert_eq!(v.classes(), names(&["B", "a", "ab", "b", "\u{e9}"]));
}

#[test]
fn class_lists_are_the_lines_that_are_not_blank() {
    assert_eq!(class_list(" a \r\n\n b\nc"), Some(names(&["a", "b", "c"])));
    assert_eq!(class_list(" \n\r\n"), None);
}

#[test]
fn the_last_of_equal_classes_is_the_label() {
    let classes = names(&["a", "b", "a"]);
    assert_eq!(find_class(&classes, "a"), Some(2));
    assert_eq!(find_class(&classes, "b"), Some(1));
    assert_eq!(find_class(&classes, "c"), None);
}

#[test]
fn samples_become_bytes() {
    let mut d = Dataset::new(names(&["a", "b"]));
    let row = d.add(&sample("b", &[(0.25, 0.5), (0.75, 0.5)]), &atan2).unwrap();
    assert_eq!(row.image.len(), 32 * 32);
    assert!(row.image.iter().any(|&b| b == 128), "half covered");
    assert!(row.image.iter().any(|&b| b == 0));
    assert_eq!(row.features.len(), 4 * NUM_FEATURES);
    assert_eq!(&row.features[..4], &1.0f32.to_le_bytes());
    assert_eq!(&row.features[4..8], &1.0f32.to_le_bytes(), "a flat stroke is all width");
    assert_eq!(row.online.len(), 4 * 4 * 64);
    assert_eq!(row.label, vec![1, 0, 0, 0]);
    assert!(d.add(&sample("z", &[(0.0, 0.0)]), &atan2).is_none());
    assert_eq!((d.n, d.dropped), (1, 1));
    assert_eq!(d.seen, vec![0, 1]);
    assert_eq!(d.empty_classes(), 1);
}

#[test]
fn the_description_of_a_dataset() {
    let mut d = Dataset::new(names(&["a", "b"]));
    let _ = d.add(&sample("a", &[(0.25, 0.5), (0.75, 0.5)]), &atan2);
    assert_eq!(
        d.meta_json(),
        "{\"n\": 1, \"size\": 32, \"num_features\": 7, \"num_classes\": 2, \"online_len\": 256}\n"
    );
    assert_eq!(d.classes_text(), "a\nb\n");
    assert_eq!(Dataset::new(Vec::new()).classes_text(), "\n");
}

#[test]
fn datasets_with_one_label_space_can_be_joined() {
    let mut d = Dataset::new(names(&["a", "b"]));
    let mut e = Dataset::new(names(&["a", "b"]));
    let _ = d.add(&sample("b", &[(0.0, 0.0), (1.0, 1.0)]), &atan2);
    let x = d.add(&sample("a", &[(0.0, 0.0), (1.0, 1.0)]), &atan2).unwrap();
    let y = e.add(&sample("a", &[(0.0, 0.0), (1.0, 1.0)]), &atan2).unwrap();
    assert_eq!(x.label, y.label);
    assert_eq!(x.image, y.image);
}
