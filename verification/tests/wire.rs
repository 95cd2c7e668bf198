//! The browser's strokes and results.
use ink2tex::classify::weights::WeightsWriter;
use ink2tex::error::Error;
use ink2tex::float::{num, F32};
use ink2tex::glyphs::Font;
use ink2tex::wire::{decode_strokes, parse_counts, reply, run, Failure};

fn f(x: f32) -> F32 {
    num(x.to_bits())
}

fn v(x: F32) -> f32 {
    f32::from_bits(x.bits)
}

fn atan2(y: F32, x: F32) -> F32 {
    f(v(y).atan2(v(x)))
}

fn exp(x: F32) -> F32 {
    f(v(x).exp())
}

fn floats(values: &[f32]) -> Vec<F32> {
    values.iter().map(|&x| f(x)).collect()
}

#[test]
fn strokes_are_read_as_sent() {
    let strokes = decode_strokes(&floats(&[
        2.0, 2.0, 0.25, 0.5, 0.75, 1.0, 1.0, 0.125, 0.375,
    ]))
    .unwrap();
    assert_eq!(strokes.len(), 2);
    assert_eq!(strokes[0].points.len(), 2);
    let p = strokes[0].points[1];
    assert_eq!((p.x, p.y, p.pressure, p.t_us), (f(0.75), f(1.0), f(1.0), 8000));
    let q = strokes[1].points[0];
    assert_eq!((q.x, q.y, q.t_us), (f(0.125), f(0.375), 0));
}

#[test]
fn what_follows_the_strokes_is_ignored() {
    assert_eq!(decode_strokes(&floats(&[0.0, 5.0, 6.0])).unwrap().len(), 0);
    assert_eq!(decode_strokes(&floats(&[1.0, 0.0, 9.0])).unwrap()[0].points.len(), 0);
}

#[test]
fn short_data_is_truncated() {
    for bad in [
        &[][..],
        &[1.0][..],
        &[1.0, 1.0][..],
        &[1.0, 1.0, 0.5][..],
        &[2.0, 1.0, 0.5, 0.5][..],
        &[1.0, 1e30, 0.5, 0.5][..],
    ] {
        let e = decode_strokes(&floats(bad)).err().unwrap();
        assert!(matches!(e, Failure::Truncated));
        assert_eq!(e.message(), "truncated stroke data");
    }
}

#[test]
fn counts_are_the_lines_that_are_numbers() {
    assert_eq!(parse_counts("3\n 14 \nx\n\n4294967296\n+7"), vec![3, 14, 7]);
    assert_eq!(parse_counts(""), Vec::<u32>::new());
}

#[test]
fn results_are_framed_by_their_length() {
    let bytes = reply(Ok("{}".to_string()));
    assert_eq!(bytes, Some(vec![2, 0, 0, 0, b'{', b'}']));
    assert_eq!(reply(Err(Failure::Truncated)), None);
}

#[test]
fn bad_files_are_told_apart() {
    let none = floats(&[0.0]);
    let font = Font { glyphs: Vec::new() };
    let blob = WeightsWriter::new().finish();
    let e = run(&none, b"nothing", b"a", b"1", b"a", &font, &atan2, &exp).err().unwrap();
    assert!(matches!(e, Failure::Model(Error::BadWeights(_))));
    let e = run(&none, &blob, b"a\xff", b"1", b"a", &font, &atan2, &exp).err().unwrap();
    assert_eq!(e.message(), "invalid utf-8 sequence of 1 bytes from index 1");
    let e = run(&none, &blob, b"a", b"\xe2\x88", b"a", &font, &atan2, &exp).err().unwrap();
    assert_eq!(e.message(), "incomplete utf-8 byte sequence from index 0");
    let e = run(&none, &blob, b"a", b"1", b"ab\xff", &font, &atan2, &exp).err().unwrap();
    assert_eq!(e.message(), "invalid utf-8 sequence of 1 bytes from index 2");
    let r = run(&none, &blob, b"a", b"1", b"a", &font, &atan2, &exp).unwrap();
    assert!(r.starts_with("{\"latex\":\"\",\"svg\":\""));
    assert!(r.ends_with(",\"symbols\":[]}"));
}
