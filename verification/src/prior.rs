//! The ranking of an expression: the classifier knows far more symbols than an expression holds, and
//! has seen rare symbols more often than everyday ones. So its ranking is restricted to a
//! vocabulary, and how often a class was seen in training is divided out.
use crate::classify::kernel::{normalize, top_k};
use crate::classify::{Labels, Prediction};
use crate::float::F32;
use crate::text::same_text;
use vstd::prelude::*;

verus! {

/// What an expression may hold, and how many training samples each class had, where that is known.
#[derive(Debug)]
pub struct Prior {
    pub tokens: Vec<String>,
    pub counts: Option<Vec<u32>>,
}

/// What a [`Prior`] holds.
#[verifier::ext_equal]
pub struct PriorView {
    pub tokens: Seq<Seq<char>>,
    pub counts: Option<Seq<u32>>,
}

impl View for Prior {
    type V = PriorView;

    open spec fn view(&self) -> PriorView {
        PriorView {
            tokens: crate::text::text_views(self.tokens@),
            counts: match self.counts {
                Some(list) => Some(list@),
                None => None,
            },
        }
    }
}

/// What a prior holds, if there is one.
pub open spec fn prior_view(prior: Option<&Prior>) -> Option<PriorView> {
    match prior {
        Some(p) => Some(p@),
        None => None,
    }
}

/// What a prior that is kept holds, if there is one.
pub open spec fn held(prior: Option<Prior>) -> Option<PriorView> {
    match prior {
        Some(p) => Some(p@),
        None => None,
    }
}

/// Is the label of the class one of the tokens?
pub open spec fn in_vocabulary(labels: Seq<Seq<char>>, tokens: Seq<Seq<char>>, class: int) -> bool {
    0 <= class < labels.len() && tokens.contains(labels[class])
}

/// Those of the first `n` candidates whose labels are in the vocabulary.
pub open spec fn plausible(
    ranking: Seq<Prediction>,
    labels: Seq<Seq<char>>,
    tokens: Seq<Seq<char>>,
    n: nat,
) -> Seq<Prediction>
    decreases n,
{
    if n == 0 {
        Seq::empty()
    } else {
        let before = plausible(ranking, labels, tokens, (n - 1) as nat);
        if in_vocabulary(labels, tokens, ranking[n - 1].class as int) {
            before.push(ranking[n - 1])
        } else {
            before
        }
    }
}

/// How many samples a class is taken to have had: one, where none are known.
pub open spec fn sample_count(counts: Seq<u32>, class: int) -> int {
    if class < counts.len() && counts[class] > 0 {
        counts[class] as int
    } else {
        1
    }
}

/// The probability of a candidate over the number of its class's samples.
pub open spec fn score(counts: Option<Seq<u32>>, p: Prediction) -> F32 {
    match counts {
        None => p.prob,
        Some(c) => p.prob.over(
            crate::float::convert::of_int(sample_count(c, p.class as int)),
        ),
    }
}

/// The scores of candidates.
pub open spec fn scores(counts: Option<Seq<u32>>, kept: Seq<Prediction>) -> Seq<F32> {
    Seq::new(kept.len(), |i: int| score(counts, kept[i]))
}

/// The `k` candidates in the vocabulary with the highest scores, the highest first. Their
/// probabilities are in proportion to the scores.
pub open spec fn corrected(
    ranking: Seq<Prediction>,
    labels: Seq<Seq<char>>,
    prior: PriorView,
    k: nat,
) -> Seq<Prediction> {
    let kept = plausible(ranking, labels, prior.tokens, ranking.len());
    let s = scores(prior.counts, kept);
    let order = crate::classify::kernel::ranking(s);
    Seq::new(
        crate::classify::kernel::top_len(kept.len(), k),
        |i: int|
            Prediction {
                class: kept[order[i]].class,
                prob: crate::classify::kernel::proportions(s)[order[i]],
            },
    )
}

fn is_token(prior: &Prior, label: &str) -> (r: bool)
    ensures
        r == prior@.tokens.contains(label@),
{
    let mut i: usize = 0;
    while i < prior.tokens.len()
        invariant
            i <= prior.tokens.len(),
            forall|j: int| 0 <= j < i ==> #[trigger] prior@.tokens[j] != label@,
        decreases prior.tokens.len() - i,
    {
        if same_text(prior.tokens[i].as_str(), label) {
            assert(prior@.tokens[i as int] == label@);
            return true;
        }
        i = i + 1;
    }
    false
}

fn find_score(prior: &Prior, p: Prediction) -> (r: F32)
    ensures
        r == score(prior@.counts, p),
{
    match &prior.counts {
        None => p.prob,
        Some(counts) => {
            let n: i64 = if p.class < counts.len() && counts[p.class] > 0 {
                counts[p.class] as i64
            } else {
                1
            };
            p.prob.over(F32::from_i64(n))
        },
    }
}

/// Correct a ranking: keep the candidates whose labels are in the vocabulary, divide each
/// probability by the number of training samples of its class, and give the `k` best, the best
/// first, with probabilities that are in proportion. A class without a known number of samples is
/// taken to have had one; without any numbers nothing is divided.
pub fn expression_rank(ranking: &Vec<Prediction>, labels: &Labels, prior: &Prior, k: usize) -> (r:
    Vec<Prediction>)
    ensures
        r@ == corrected(ranking@, labels@, prior@, k as nat),
{
    let mut kept: Vec<Prediction> = Vec::new();
    let mut found: Vec<F32> = Vec::new();
    let mut i: usize = 0;
    assert(found@ =~= scores(prior@.counts, kept@));
    while i < ranking.len()
        invariant
            i <= ranking.len(),
            kept@ == plausible(ranking@, labels@, prior@.tokens, i as nat),
            found@ == scores(prior@.counts, kept@),
        decreases ranking.len() - i,
    {
        let p = ranking[i];
        if let Some(label) = labels.get(p.class) {
            if is_token(prior, label) {
                found.push(find_score(prior, p));
                kept.push(p);
                assert(found@ =~= scores(prior@.counts, kept@));
            }
        }
        i = i + 1;
    }
    let shares = normalize(&found);
    let top = top_k(&found, k);
    let mut out: Vec<Prediction> = Vec::new();
    let mut j: usize = 0;
    while j < top.len()
        invariant
            j <= top.len(),
            found@ == scores(prior@.counts, kept@),
            shares@ == crate::classify::kernel::proportions(found@),
            top.len() == crate::classify::kernel::top_len(found@.len(), k as nat),
            kept@ == plausible(ranking@, labels@, prior@.tokens, ranking@.len()),
            forall|i: int|
                0 <= i < top.len() ==> (#[trigger] top[i]).0
                    == crate::classify::kernel::ranking(found@)[i] && top[i].0 < found.len(),
            out.len() == j,
            forall|i: int|
                0 <= i < j ==> #[trigger] out[i] == corrected(
                    ranking@,
                    labels@,
                    prior@,
                    k as nat,
                )[i],
        decreases top.len() - j,
    {
        let at: usize = top[j].0;
        out.push(Prediction { class: kept[at].class, prob: shares[at] });
        j = j + 1;
    }
    assert(out@ =~= corrected(ranking@, labels@, prior@, k as nat));
    out
}

// ---------------------------------------------------------------------------------------------
// Laws
// ---------------------------------------------------------------------------------------------
proof fn lemma_plausible(
    ranking: Seq<Prediction>,
    labels: Seq<Seq<char>>,
    tokens: Seq<Seq<char>>,
    n: nat,
    i: int,
)
    requires
        n <= ranking.len(),
        0 <= i < plausible(ranking, labels, tokens, n).len(),
    ensures
        in_vocabulary(labels, tokens, plausible(ranking, labels, tokens, n)[i].class as int),
        ranking.contains(plausible(ranking, labels, tokens, n)[i]),
    decreases n,
{
    if n > 0 {
        let before = plausible(ranking, labels, tokens, (n - 1) as nat);
        if i < before.len() {
            lemma_plausible(ranking, labels, tokens, (n - 1) as nat, i);
        }
    }
}

/// A corrected ranking names only classes that the vocabulary holds, and only such as the classifier
/// ranked.
pub proof fn law_only_the_vocabulary_is_ranked(
    ranking: Seq<Prediction>,
    labels: Seq<Seq<char>>,
    prior: PriorView,
    k: nat,
    i: int,
)
    requires
        0 <= i < corrected(ranking, labels, prior, k).len(),
    ensures
        in_vocabulary(
            labels,
            prior.tokens,
            corrected(ranking, labels, prior, k)[i].class as int,
        ),
        exists|j: int|
            0 <= j < ranking.len() && (#[trigger] ranking[j]).class == corrected(
                ranking,
                labels,
                prior,
                k,
            )[i].class,
{
    let kept = plausible(ranking, labels, prior.tokens, ranking.len());
    let keys = crate::classify::kernel::opposites(scores(prior.counts, kept));
    crate::sort::lemma_order_is_permutation(keys, keys.len());
    let at = crate::sort::stable_order(keys)[i];
    lemma_plausible(ranking, labels, prior.tokens, ranking.len(), at);
    let j = choose|j: int| 0 <= j < ranking.len() && ranking[j] == kept[at];
    assert(ranking[j].class == kept[at].class);
}

/// Of two classes that the classifier finds equally probable, the one with fewer training samples
/// does not score less.
pub proof fn law_fewer_samples_do_not_score_less(counts: Seq<u32>, p: Prediction, q: Prediction)
    requires
        p.prob == q.prob,
        p.prob.finite(),
        !p.prob.negative(),
        sample_count(counts, p.class as int) <= sample_count(counts, q.class as int),
    ensures
        score(Some(counts), q).le(score(Some(counts), p)),
{
    let (m, n) = (sample_count(counts, p.class as int), sample_count(counts, q.class as int));
    let (a, b) = (crate::float::convert::of_int(m), crate::float::convert::of_int(n));
    crate::float::monotone::lemma_whole_ordered(m, n);
    crate::float::monotone::lemma_smaller_divisor(p.prob, a, b);
}

/// A corrected ranking goes from the highest score to the lowest: of two candidates, the earlier one
/// has at least the later one's probability over the number of its samples.
pub proof fn law_a_corrected_ranking_is_descending(
    ranking: Seq<Prediction>,
    labels: Seq<Seq<char>>,
    prior: PriorView,
    k: nat,
    i: int,
    j: int,
) -> (at: (int, int))
    requires
        0 <= i < j < corrected(ranking, labels, prior, k).len(),
        forall|m: int|
            0 <= m < ranking.len() ==> !score(prior.counts, #[trigger] ranking[m]).nan(),
    ensures
        0 <= at.0 < ranking.len() && 0 <= at.1 < ranking.len(),
        corrected(ranking, labels, prior, k)[i].class == ranking[at.0].class,
        corrected(ranking, labels, prior, k)[j].class == ranking[at.1].class,
        match prior.counts {
            None => ranking[at.1].prob.le(ranking[at.0].prob),
            Some(c) => {
                let (a, b) = (ranking[at.0], ranking[at.1]);
                let m = if a.class < c.len() && c[a.class as int] > 0 {
                    c[a.class as int] as int
                } else {
                    1
                };
                let n = if b.class < c.len() && c[b.class as int] > 0 {
                    c[b.class as int] as int
                } else {
                    1
                };
                b.prob.over(crate::float::convert::of_int(n)).le(
                    a.prob.over(crate::float::convert::of_int(m)),
                )
            },
        },
{
    let kept = plausible(ranking, labels, prior.tokens, ranking.len());
    let s = scores(prior.counts, kept);
    assert forall|m: int| 0 <= m < s.len() implies !(#[trigger] s[m]).nan() by {
        lemma_plausible(ranking, labels, prior.tokens, ranking.len(), m);
        let q = choose|q: int| 0 <= q < ranking.len() && ranking[q] == kept[m];
        assert(!score(prior.counts, ranking[q]).nan());
    }
    crate::classify::kernel::law_ranking_is_descending(s, i, j);
    let order = crate::classify::kernel::ranking(s);
    lemma_plausible(ranking, labels, prior.tokens, ranking.len(), order[i]);
    lemma_plausible(ranking, labels, prior.tokens, ranking.len(), order[j]);
    let p = choose|q: int| 0 <= q < ranking.len() && ranking[q] == kept[order[i]];
    let r = choose|q: int| 0 <= q < ranking.len() && ranking[q] == kept[order[j]];
    (p, r)
}

/// No candidate of the vocabulary is lost but to the limit: a class that was ranked and is in the
/// vocabulary is in the corrected ranking, if that has room for all.
pub proof fn law_every_plausible_candidate_stays(
    ranking: Seq<Prediction>,
    labels: Seq<Seq<char>>,
    prior: PriorView,
    k: nat,
    m: int,
) -> (i: int)
    requires
        0 <= m < ranking.len(),
        in_vocabulary(labels, prior.tokens, ranking[m].class as int),
        k >= ranking.len(),
    ensures
        0 <= i < corrected(ranking, labels, prior, k).len(),
        corrected(ranking, labels, prior, k)[i].class == ranking[m].class,
{
    let kept = plausible(ranking, labels, prior.tokens, ranking.len());
    let s = scores(prior.counts, kept);
    let keys = crate::classify::kernel::opposites(s);
    let order = crate::classify::kernel::ranking(s);
    let at = lemma_plausible_holds(ranking, labels, prior.tokens, ranking.len(), m);
    crate::sort::lemma_order_is_permutation(keys, keys.len());
    assert(order.contains(at));
    choose|i: int| 0 <= i < order.len() && order[i] == at
}

proof fn lemma_plausible_holds(
    ranking: Seq<Prediction>,
    labels: Seq<Seq<char>>,
    tokens: Seq<Seq<char>>,
    n: nat,
    m: int,
) -> (at: int)
    requires
        0 <= m < n <= ranking.len(),
        in_vocabulary(labels, tokens, ranking[m].class as int),
    ensures
        plausible(ranking, labels, tokens, n).len() <= n,
        0 <= at < plausible(ranking, labels, tokens, n).len(),
        plausible(ranking, labels, tokens, n)[at] == ranking[m],
    decreases n,
{
    lemma_plausible_len(ranking, labels, tokens, n);
    let before = plausible(ranking, labels, tokens, (n - 1) as nat);
    if m == n - 1 {
        before.len() as int
    } else {
        lemma_plausible_holds(ranking, labels, tokens, (n - 1) as nat, m)
    }
}

proof fn lemma_plausible_len(
    ranking: Seq<Prediction>,
    labels: Seq<Seq<char>>,
    tokens: Seq<Seq<char>>,
    n: nat,
)
    ensures
        plausible(ranking, labels, tokens, n).len() <= n,
    decreases n,
{
    if n > 0 {
        lemma_plausible_len(ranking, labels, tokens, (n - 1) as nat);
    }
}

} // verus!
