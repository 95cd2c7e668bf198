//! Ranking, labels, and the layers together.
use ink2tex::classify::kernel::{conv2d_i8, dense_i8, dequantize_i32, maxpool2d_i8, requantize};
use ink2tex::classify::weights::{Weights, WeightsWriter};
use ink2tex::classify::{Labels, Prediction};
use ink2tex::float::{num, F32};

fn f(x: f32) -> F32 {
    num(x.to_bits())
}

fn v(x: F32) -> f32 {
    f32::from_bits(x.bits)
}

fn exp(x: F32) -> F32 {
    f(v(x).exp())
}

fn rank_logits(logits: &[F32], k: usize) -> Vec<Prediction> {
    ink2tex::classify::rank_logits(logits, k, &exp)
}

#[test]
fn rank_logits_is_ranked_topk() {
    let preds = rank_logits(&[f(0.0), f(5.0), f(1.0)], 2);
    assert_eq!(preds.len(), 2);
    assert_eq!(preds[0].class, 1);
    assert!(v(preds[0].prob) > v(preds[1].prob));
}

#[test]
fn labels_map_indices_to_commands() {
    let l = Labels::from_lines("\\alpha\n\\beta\n\n\\gamma\n");
    assert_eq!(l.len(), 3);
    assert_eq!(l.get(0), Some("\\alpha"));
    assert_eq!(l.get(2), Some("\\gamma"));
    assert_eq!(l.get(9), None);
}

#[test]
fn primitives_compose_into_a_classifier() {
    let mut w = WeightsWriter::new();
    let mut cw = Vec::new();
    cw.extend_from_slice(&[1i8; 9]);
    cw.extend_from_slice(&[-1i8; 9]);
    w.i8("conv.w", &[2, 1, 3, 3], f(0.01), &cw);
    w.i32("conv.b", &[2], &[0, 0]);
    let mut dw = vec![0i8; 16];
    dw[0..4].fill(1);
    dw[12..16].fill(1);
    w.i8("fc.w", &[2, 8], f(0.01), &dw);
    w.i32("fc.b", &[2], &[0, 0]);
    let blob = w.finish();
    let weights = Weights::parse(&blob).unwrap();

    let input = vec![100i8; 16];
    let conv = weights.get("conv.w").unwrap();
    let (acc, h, wd) = conv2d_i8(
        &input,
        1,
        4,
        4,
        &conv.as_i8(),
        2,
        3,
        3,
        &weights.get("conv.b").unwrap().as_i32(),
        1,
        1,
    );
    let q = requantize(&acc, f(0.02), true);
    let (pooled, ph, pw) = maxpool2d_i8(&q, 2, h, wd, 2, 2);
    assert_eq!((ph, pw), (2, 2));
    let fc = weights.get("fc.w").unwrap();
    let logits_i = dense_i8(
        &pooled,
        &fc.as_i8(),
        2,
        &weights.get("fc.b").unwrap().as_i32(),
    );
    let preds = rank_logits(&dequantize_i32(&logits_i, f(0.0001)), 2);

    assert_eq!(preds.len(), 2);
    assert_eq!(preds[0].class, 0);
    assert!((preds.iter().map(|p| v(p.prob)).sum::<f32>() - 1.0).abs() < 1e-4);
}
