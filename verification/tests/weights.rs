//! The weights file format.
use ink2tex::classify::weights::{Weights, WeightsWriter};
use ink2tex::error::Error;
use ink2tex::float::{num, F32};

fn f(x: f32) -> F32 {
    num(x.to_bits())
}

fn v(x: F32) -> f32 {
    f32::from_bits(x.bits)
}

#[test]
fn roundtrips_named_tensors() {
    let mut w = WeightsWriter::new();
    w.i8("conv1.w", &[2, 1, 2, 2], f(0.005), &[1, 2, 3, 4, 5, 6, 7, 8]);
    w.i32("conv1.b", &[2], &[-10, 20]);
    w.floats("meta.scale", &[1], &[f(0.0125)]);
    let blob = w.finish();

    let parsed = Weights::parse(&blob).unwrap();
    assert_eq!(parsed.len(), 3);

    let c = parsed.get("conv1.w").unwrap();
    assert_eq!(c.dims, vec![2, 1, 2, 2]);
    assert!((v(c.scale) - 0.005).abs() < 1e-9);
    assert_eq!(c.as_i8(), [1, 2, 3, 4, 5, 6, 7, 8]);
    assert_eq!(c.len(), 8);

    assert_eq!(parsed.get("conv1.b").unwrap().as_i32(), vec![-10, 20]);
    assert_eq!(parsed.get("meta.scale").unwrap().as_f32(), vec![f(0.0125)]);
    assert!(parsed.get("missing").is_none());
}

#[test]
fn weights_rejects_bad_magic() {
    let mut blob = WeightsWriter::new().finish();
    blob[0] = b'X';
    assert!(matches!(Weights::parse(&blob), Err(Error::BadWeights(_))));
}

#[test]
fn weights_rejects_truncation() {
    let mut w = WeightsWriter::new();
    w.i8("t", &[4], f(1.0), &[1, 2, 3, 4]);
    let blob = w.finish();
    assert!(matches!(
        Weights::parse(&blob[..blob.len() - 2]),
        Err(Error::BadWeights(_))
    ));
}

#[test]
fn every_prefix_of_weights_is_refused() {
    let mut w = WeightsWriter::new();
    w.i8("kernel", &[2, 2], f(0.5), &[1, -2, 3, -4]);
    w.floats("bias", &[2], &[f(1.5), f(-0.25)]);
    let blob = w.finish();
    assert!(Weights::parse(&blob).is_ok());
    for n in 0..blob.len() {
        assert!(
            matches!(Weights::parse(&blob[..n]), Err(Error::BadWeights(_))),
            "{n}"
        );
    }
}

#[test]
fn bytes_behind_the_last_tensor_are_ignored() {
    let mut w = WeightsWriter::new();
    w.i8("t", &[4], f(1.0), &[1, 2, 3, 4]);
    let mut blob = w.finish();
    blob.extend_from_slice(b"IW01");
    let parsed = Weights::parse(&blob).unwrap();
    assert_eq!(parsed.tensors.len(), 1);
    assert_eq!(parsed.tensors[0].as_i8(), vec![1, 2, 3, 4]);
}
