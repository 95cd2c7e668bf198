//! Holding a model's answers against labels.
use ink2tex::classify::weights::{Weights, WeightsWriter};
use ink2tex::classify::Prediction;
use ink2tex::evaluate::{evaluate, Files, Meta, Tally};
use ink2tex::float::{num, F32};

fn f(x: f32) -> F32 {
    num(x.to_bits())
}

fn v(x: F32) -> f32 {
    f32::from_bits(x.bits)
}

fn exp(x: F32) -> F32 {
    f(v(x).exp())
}

/// A model for 4 by 4 bitmaps in which class 0 comes first, then class 1.
fn model() -> Vec<u8> {
    let mut w = WeightsWriter::new();
    w.i8("c1.w", &[1, 1, 3, 3], f(0.01), &[1i8; 9]);
    w.i32("c1.b", &[1], &[0]);
    w.floats("c1.in_scale", &[1], &[f(0.1)]);
    w.i8("c2.w", &[1, 1, 3, 3], f(0.01), &[1i8; 9]);
    w.i32("c2.b", &[1], &[0]);
    w.floats("c2.in_scale", &[1], &[f(0.1)]);
    w.i8("f1.w", &[2, 8], f(0.01), &[0i8; 16]);
    w.i32("f1.b", &[2], &[1000, 1000]);
    w.floats("f1.in_scale", &[1], &[f(0.1)]);
    w.i8("f2.w", &[2, 2], f(0.01), &[100, 100, 0, 0]);
    w.i32("f2.b", &[2], &[0, 0]);
    w.floats("f2.in_scale", &[1], &[f(0.1)]);
    w.finish()
}

fn bytes(values: &[u32]) -> Vec<u8> {
    values.iter().flat_map(|v| v.to_le_bytes()).collect()
}

fn pred(class: usize) -> Prediction {
    Prediction { class, prob: f(0.5) }
}

#[test]
fn the_description_is_read_from_json() {
    let m = Meta::parse("{\"n\": 3, \"size\": 4, \"num_features\": 7, \"num_classes\": 2}").unwrap();
    assert_eq!((m.n, m.size, m.num_features, m.num_classes), (3, 4, 7, 2));
    let m = Meta::parse("{\"n\": -1, \"size\": \"x\"}").unwrap();
    assert_eq!((m.n, m.size, m.num_features, m.num_classes), (0, 32, 0, 0));
    let m = Meta::parse("[1]").unwrap();
    assert_eq!((m.n, m.size), (0, 32));
    assert!(Meta::parse("{").is_none());
}

#[test]
fn a_dataset_is_complete_or_not() {
    let meta = Meta { n: 2, size: 4, num_features: 7, num_classes: 2 };
    let images = vec![0u8; 32];
    let features = vec![0u8; 2 * 7 * 4];
    let labels = bytes(&[0, 1]);
    let files = Files { images: &images, features: &features, labels: &labels };
    assert!(files.is_complete(&meta));
    assert!(!Files { images: &images[1..], features: &features, labels: &labels }.is_complete(&meta));
    assert!(!Files { images: &images, features: &features[4..], labels: &labels }.is_complete(&meta));
    assert!(!Files { images: &images, features: &features, labels: &labels[1..] }.is_complete(&meta));
    let wrong = bytes(&[0, 2]);
    assert!(!Files { images: &images, features: &features, labels: &wrong }.is_complete(&meta));
    let open = Meta { num_classes: 0, ..meta };
    assert!(Files { images: &images, features: &features, labels: &wrong }.is_complete(&open));
    let huge = Meta { size: usize::MAX, ..meta };
    assert!(!files.is_complete(&huge));
}

#[test]
fn answers_are_held_against_the_labels() {
    let blob = model();
    let w = Weights::parse(&blob).unwrap();
    let meta = Meta { n: 3, size: 4, num_features: 7, num_classes: 3 };
    let images = vec![128u8; 48];
    let features = vec![0u8; 3 * 7 * 4];
    let labels = bytes(&[0, 1, 0]);
    let files = Files { images: &images, features: &features, labels: &labels };
    assert!(files.is_complete(&meta));
    let t = evaluate(&w, &meta, &files, &exp).unwrap();
    assert_eq!((t.top1, t.top5), (2, 3));
    assert_eq!(t.seen, vec![2, 1, 0]);
    assert_eq!(t.hit1, vec![2, 0, 0]);
    assert_eq!(t.hit5, vec![2, 1, 0]);
    assert_eq!(t.present(), vec![0, 1]);
}

#[test]
fn a_model_that_does_not_fit_is_an_error() {
    let blob = model();
    let w = Weights::parse(&blob).unwrap();
    let meta = Meta { n: 1, size: 2, num_features: 7, num_classes: 1 };
    let images = vec![0u8; 4];
    let features = vec![0u8; 28];
    let labels = bytes(&[0]);
    let files = Files { images: &images, features: &features, labels: &labels };
    assert!(files.is_complete(&meta));
    assert!(evaluate(&w, &meta, &files, &exp).is_err());
}

#[test]
fn the_classes_add_up() {
    let mut t = Tally::new(3);
    t.judge(&vec![pred(1), pred(2)], 1);
    t.judge(&vec![pred(0), pred(2)], 2);
    t.judge(&Vec::new(), 0);
    assert_eq!((t.top1, t.top5), (1, 2));
    assert_eq!(t.hit1.iter().sum::<usize>(), t.top1);
    assert_eq!(t.hit5.iter().sum::<usize>(), t.top5);
    assert_eq!(t.seen, vec![1, 1, 1]);
}
