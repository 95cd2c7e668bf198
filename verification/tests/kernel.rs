//! The int8 network's layers.
use ink2tex::classify::kernel::{
    conv2d_i8, dense_i8, dequantize_i32, maxpool2d_i8, quantize_i8, requantize, top_k,
};
use ink2tex::float::{num, F32};

fn f(x: f32) -> F32 {
    num(x.to_bits())
}

fn v(x: F32) -> f32 {
    f32::from_bits(x.bits)
}

fn exp(x: F32) -> F32 {
    f(v(x).exp())
}

fn softmax(logits: &[f32]) -> Vec<f32> {
    let wide: Vec<F32> = logits.iter().map(|&x| f(x)).collect();
    ink2tex::classify::kernel::softmax(&wide, &exp)
        .iter()
        .map(|&p| v(p))
        .collect()
}

#[test]
fn dense_matches_hand_computation() {
    let input = [1i8, 2, 3];
    let weights = [1i8, 0, -1,  2, 2, 2 ];
    let bias = [10i32, 0];
    let out = dense_i8(&input, &weights, 2, &bias);
    assert_eq!(out, vec![1 - 3 + 10, 2 + 4 + 6]);
}

#[test]
fn conv2d_matches_hand_computation() {
    let input = [1i8, 2, 3, 4, 5, 6, 7, 8, 9];
    let weights = [1i8, 0, 0, 1];
    let (out, oh, ow) = conv2d_i8(&input, 1, 3, 3, &weights, 1, 2, 2, &[0], 1, 0);
    assert_eq!((oh, ow), (2, 2));
    assert_eq!(out, vec![6, 8, 12, 14]);
}

#[test]
fn conv2d_padding_keeps_size_with_identity_center() {
    let input = [1i8, 2, 3, 4];
    let center = [0i8, 0, 0, 0, 1, 0, 0, 0, 0];
    let (out, oh, ow) = conv2d_i8(&input, 1, 2, 2, &center, 1, 3, 3, &[0], 1, 1);
    assert_eq!((oh, ow), (2, 2));
    assert_eq!(out, vec![1, 2, 3, 4]);
}

#[test]
fn maxpool_takes_window_maxima() {
    let input: Vec<i8> = (0..16).collect();
    let (out, oh, ow) = maxpool2d_i8(&input, 1, 4, 4, 2, 2);
    assert_eq!((oh, ow), (2, 2));
    assert_eq!(out, vec![5, 7, 13, 15]);
}

#[test]
fn requantize_clamps_and_relus() {
    let acc = vec![300i32, -300, 50];
    assert_eq!(requantize(&acc, f(0.5), false), vec![127, -127, 25]);
    assert_eq!(requantize(&acc, f(0.5), true), vec![127, 0, 25]);
}

#[test]
fn quantize_rounds_and_clamps() {
    assert_eq!(
        quantize_i8(&[f(0.0), f(0.5), f(1.0), f(2.0)], f(0.01)),
        vec![0, 50, 100, 127]
    );
    assert_eq!(quantize_i8(&[f(-0.005), f(0.005)], f(0.01)), vec![-1, 1]);
}

#[test]
fn dequantize_scales_back() {
    assert_eq!(dequantize_i32(&vec![2, -3], f(0.5)), vec![f(1.0), f(-1.5)]);
}

#[test]
fn softmax_is_a_distribution_and_peaks() {
    let p = softmax(&[0.0, 0.0]);
    assert!((p[0] - 0.5).abs() < 1e-6 && (p[1] - 0.5).abs() < 1e-6);
    let peak = softmax(&[10.0, 0.0, 0.0]);
    assert!(peak[0] > 0.99);
    assert!((peak.iter().sum::<f32>() - 1.0).abs() < 1e-6);
}

#[test]
fn top_k_ranks_highest_first() {
    let probs: Vec<F32> = [0.1, 0.5, 0.3, 0.05, 0.05].iter().map(|&p| f(p)).collect();
    let top = top_k(&probs, 2);
    assert_eq!(top[0].0, 1);
    assert_eq!(top[1].0, 2);
    assert_eq!(top.len(), 2);
}

#[test]
fn an_empty_kernel_gives_the_bias_everywhere() {
    let input = vec![1i8; 6];
    let (out, oh, ow) = conv2d_i8(&input, 1, 2, 3, &[], 2, 1, 0, &[7, -3], 1, 0);
    assert_eq!((oh, ow), (2, 4));
    assert_eq!(&out[..8], &[7; 8]);
    assert_eq!(&out[8..], &[-3; 8]);
}

#[test]
fn softmax_values_are_probabilities() {
    let logits = [-3e38f32, 3e38, 0.0, -0.0, 1e-40, 12.5, -7.25];
    for n in 1..=logits.len() {
        let p = softmax(&logits[..n]);
        assert!(p.iter().all(|x| (0.0..=1.0).contains(x)), "{p:?}");
    }
    assert_eq!(softmax(&logits)[1], 1.0);
}

#[test]
fn pooling_and_a_rectifier_commute() {
    let input: Vec<i8> = (0..50).map(|i: i32| ((i * 37) % 256 - 128) as i8).collect();
    let map = |x: i8| if x < 0 { 0 } else { x / 3 };
    let mapped: Vec<i8> = input.iter().map(|&x| map(x)).collect();
    let (out, oh, ow) = maxpool2d_i8(&input, 2, 5, 5, 2, 2);
    let (other, oh2, ow2) = maxpool2d_i8(&mapped, 2, 5, 5, 2, 2);
    assert_eq!((oh, ow), (oh2, ow2));
    assert_eq!(other, out.iter().map(|&x| map(x)).collect::<Vec<i8>>());
    let low = vec![i8::MIN; 4];
    assert_eq!(maxpool2d_i8(&low, 1, 2, 2, 2, 2).0, vec![i8::MIN]);
}
