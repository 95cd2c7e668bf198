//! The whole forward pass.
use ink2tex::classify::weights::{Weights, WeightsWriter};
use ink2tex::classify::Prediction;
use ink2tex::error::Error;
use ink2tex::float::{num, F32};

fn f(x: f32) -> F32 {
    num(x.to_bits())
}

fn v(x: F32) -> f32 {
    f32::from_bits(x.bits)
}

fn exp(x: F32) -> F32 {
    f(v(x).exp())
}

fn recognize(
    w: &Weights,
    bitmap: &[F32],
    features: &[F32],
    size: usize,
    k: usize,
) -> Result<Vec<Prediction>, Error> {
    ink2tex::classify::model::recognize(w, bitmap, features, size, k, &exp)
}

fn tiny(f1w: &[i8], f1b: &[i32], f2w: &[i8], f2b: &[i32], n_classes: u32) -> Vec<u8> {
    let mut w = WeightsWriter::new();
    w.i8("c1.w", &[1, 1, 3, 3], f(0.01), &[1i8; 9]);
    w.i32("c1.b", &[1], &[0]);
    w.floats("c1.in_scale", &[1], &[f(0.1)]);
    w.i8("c2.w", &[1, 1, 3, 3], f(0.01), &[1i8; 9]);
    w.i32("c2.b", &[1], &[0]);
    w.floats("c2.in_scale", &[1], &[f(0.1)]);
    w.i8("f1.w", &[f1b.len() as u32, 8], f(0.01), f1w);
    w.i32("f1.b", &[f1b.len() as u32], f1b);
    w.floats("f1.in_scale", &[1], &[f(0.1)]);
    w.i8("f2.w", &[n_classes, f1b.len() as u32], f(0.01), f2w);
    w.i32("f2.b", &[n_classes], f2b);
    w.floats("f2.in_scale", &[1], &[f(0.1)]);
    w.finish()
}

#[test]
fn runs_and_returns_a_valid_distribution() {
    let blob = tiny(&[1i8; 16], &[0, 0], &[1i8; 4], &[0, 0], 2);
    let w = Weights::parse(&blob).unwrap();
    let bitmap = vec![f(0.5); 16];
    let feats = [f(0.2); 7];
    let preds = recognize(&w, &bitmap, &feats, 4, 2).unwrap();
    assert_eq!(preds.len(), 2);
    let sum: f32 = preds.iter().map(|p| v(p.prob)).sum();
    assert!((sum - 1.0).abs() < 1e-4 || sum < 1.0);
    let again = recognize(&w, &bitmap, &feats, 4, 2).unwrap();
    assert_eq!(preds, again);
}

#[test]
fn wired_weights_pick_the_expected_class() {
    let blob = tiny(&[0i8; 16], &[1000, 1000], &[100, 100, 0, 0], &[0, 0], 2);
    let w = Weights::parse(&blob).unwrap();
    let preds = recognize(&w, &[f(0.5); 16], &[f(0.0); 7], 4, 2).unwrap();
    assert_eq!(preds[0].class, 0);
    assert!(v(preds[0].prob) > v(preds[1].prob));
}

#[test]
fn malformed_model_errors_without_panic() {
    let empty = WeightsWriter::new().finish();
    let w = Weights::parse(&empty).unwrap();
    assert!(recognize(&w, &[f(0.0); 16], &[f(0.0); 7], 4, 2).is_err());
    let blob = tiny(&[1i8; 16], &[0, 0], &[1i8; 4], &[0, 0], 2);
    let w = Weights::parse(&blob).unwrap();
    assert!(recognize(&w, &[f(0.0); 9], &[f(0.0); 7], 4, 2).is_err());
}
