//! Rankings over a vocabulary, with the training prior divided out.
use ink2tex::classify::{Labels, Prediction};
use ink2tex::float::{num, F32};
use ink2tex::prior::{expression_rank, Prior};

fn f(x: f32) -> F32 {
    num(x.to_bits())
}

fn v(x: F32) -> f32 {
    f32::from_bits(x.bits)
}

fn ranking(probs: &[(usize, f32)]) -> Vec<Prediction> {
    probs
        .iter()
        .map(|&(class, p)| Prediction { class, prob: f(p) })
        .collect()
}

fn prior(tokens: &[&str], counts: Option<Vec<u32>>) -> Prior {
    Prior {
        tokens: tokens.iter().map(|t| t.to_string()).collect(),
        counts,
    }
}

fn classes(r: &[Prediction]) -> Vec<usize> {
    r.iter().map(|p| p.class).collect()
}

#[test]
fn an_everyday_letter_wins_over_an_oversampled_one() {
    let labels = Labels::from_lines("\\chi\nx\n\\Lbag\n");
    let given = ranking(&[(0, 0.75), (2, 0.15), (1, 0.1)]);
    let all = prior(&["x", "\\chi", "\\Lbag"], Some(vec![958, 59, 86]));
    let r = expression_rank(&given, &labels, &all, 3);
    assert_eq!(classes(&r), vec![2, 1, 0]);
    let some = prior(&["x", "\\chi"], Some(vec![958, 59, 86]));
    let r = expression_rank(&given, &labels, &some, 3);
    assert_eq!(classes(&r), vec![1, 0]);
    let total: f32 = r.iter().map(|p| v(p.prob)).sum();
    assert!((total - 1.0).abs() < 1e-6);
    let want = (0.1 / 59.0) / (0.1 / 59.0 + 0.75 / 958.0);
    assert!((v(r[0].prob) - want).abs() < 1e-6);
}

#[test]
fn without_counts_only_the_vocabulary_matters() {
    let labels = Labels::from_lines("a\nb\nc\n");
    let given = ranking(&[(2, 0.5), (0, 0.25), (1, 0.25)]);
    let r = expression_rank(&given, &labels, &prior(&["b", "a"], None), 5);
    assert_eq!(r, ranking(&[(0, 0.5), (1, 0.5)]));
    let r = expression_rank(&given, &labels, &prior(&["b", "a"], None), 1);
    assert_eq!(r, ranking(&[(0, 0.5)]));
    assert!(expression_rank(&given, &labels, &prior(&[], None), 5).is_empty());
}

#[test]
fn a_class_without_a_count_counts_once() {
    let labels = Labels::from_lines("a\nb\nc\n");
    let given = ranking(&[(0, 0.5), (1, 0.25), (2, 0.25), (7, 0.0)]);
    let r = expression_rank(&given, &labels, &prior(&["a", "b", "c"], Some(vec![4, 0])), 5);
    assert_eq!(classes(&r), vec![1, 2, 0]);
    assert_eq!(r[0].prob, f(0.4));
    assert_eq!(r[2].prob, f(0.2));
}
