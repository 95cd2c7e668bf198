//! The ink file format.
use ink2tex::error::Error;
use ink2tex::float::{num, F32};
use ink2tex::format::VERSION;
use ink2tex::stroke::{Ink, Point, Stroke};

fn f(x: f32) -> F32 {
    num(x.to_bits())
}

fn sample() -> Ink {
    let mut ink = Ink::new().with_source(f(20967.0), f(15725.0));
    ink.push(Stroke::from_points(vec![
        Point::new(f(0.10), f(0.20), f(0.5), f(0.0), f(0.0), 0),
        Point::new(f(0.11), f(0.22), f(0.6), f(0.01), f(-0.01), 8_000),
    ]));
    ink.push(Stroke::from_points(vec![Point::new(f(0.90), f(0.80), f(0.9), f(0.2), f(0.1), 16_000)]));
    ink
}

#[test]
fn roundtrip_preserves_everything() {
    let ink = sample();
    let decoded = Ink::decode(&ink.encode()).unwrap();
    assert_eq!(ink, decoded);
}

#[test]
fn empty_ink_roundtrips() {
    let ink = Ink::new();
    assert_eq!(ink, Ink::decode(&ink.encode()).unwrap());
}

#[test]
fn header_layout_is_stable() {
    let bytes = sample().encode();
    assert_eq!(&bytes[0..4], b"INK1");
    assert_eq!(u16::from_le_bytes([bytes[4], bytes[5]]), VERSION);
}

#[test]
fn format_rejects_bad_magic() {
    let mut bytes = sample().encode();
    bytes[0] = b'X';
    assert!(matches!(Ink::decode(&bytes), Err(Error::BadMagic { .. })));
}

#[test]
fn rejects_bad_version() {
    let mut bytes = sample().encode();
    bytes[4] = 0xFF;
    assert!(matches!(
        Ink::decode(&bytes),
        Err(Error::UnsupportedVersion(_, _))
    ));
}

#[test]
fn format_rejects_truncation() {
    let bytes = sample().encode();
    assert!(matches!(
        Ink::decode(&bytes[..bytes.len() - 4]),
        Err(Error::Truncated { .. })
    ));
}

#[test]
fn corrupt_count_errors_without_panicking() {
    let mut bytes = Vec::new();
    bytes.extend_from_slice(b"INK1");
    bytes.extend_from_slice(&VERSION.to_le_bytes());
    bytes.extend_from_slice(&0u16.to_le_bytes());
    bytes.extend_from_slice(&0f32.to_le_bytes());
    bytes.extend_from_slice(&0f32.to_le_bytes());
    bytes.extend_from_slice(&u32::MAX.to_le_bytes());
    assert!(matches!(Ink::decode(&bytes), Err(Error::Truncated { .. })));
}

#[test]
fn public_api_roundtrip() {
    let mut ink = Ink::new().with_source(f(1872.0), f(1404.0));
    let stroke = Stroke::from_points(
        (0..32)
            .map(|i| {
                let t = i as f32 / 31.0;
                Point::new(
                    f(t),
                    f(0.5 + 0.25 * (t * std::f32::consts::TAU).sin()),
                    f(0.7),
                    f(0.0),
                    f(0.0),
                    i as u64 * 5_000,
                )
            })
            .collect(),
    );
    ink.push(stroke);

    let decoded = Ink::decode(&ink.encode()).expect("decode");
    assert_eq!(ink, decoded);
    assert_eq!(decoded.strokes.len(), 1);
    assert_eq!(decoded.point_count(), 32);
    assert_eq!(decoded.aspect_ratio(), Some(f(1872.0 / 1404.0)));
}

#[test]
fn every_prefix_of_a_drawing_is_refused() {
    let bytes = sample().encode();
    for n in 0..bytes.len() {
        match Ink::decode(&bytes[..n]) {
            Err(Error::Truncated { offset, needed, available }) => {
                assert!(offset <= n && available == n - offset && needed > available, "{n}");
            }
            other => panic!("{n}: {other:?}"),
        }
    }
}

#[test]
fn bytes_behind_the_last_stroke_are_ignored() {
    let mut bytes = sample().encode();
    let ink = Ink::decode(&bytes).unwrap();
    bytes.extend_from_slice(b"INK1 and more");
    assert_eq!(Ink::decode(&bytes).unwrap(), ink);
}
