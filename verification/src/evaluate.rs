//! How good is a model? It is run over a prepared dataset, and its answers are held against the
//! labels.
use crate::classify::model::recognize;
use crate::classify::weights::{get_word, TensorView, Weights};
use crate::classify::Prediction;
use crate::dataset::FULL;
use crate::elementary::Fn1;
use crate::error::Error;
use crate::float::{num, F32};
use crate::json::value::{parse_json, Json, JsonView};
use vstd::prelude::*;

verus! {

/// How many candidates are looked at.
pub const CANDIDATES: usize = 5;

// ---------------------------------------------------------------------------------------------
// The dataset
// ---------------------------------------------------------------------------------------------
/// The description of a dataset.
#[derive(Debug, Clone, Copy, PartialEq, Eq, Structural)]
pub struct Meta {
    pub n: usize,
    pub size: usize,
    pub num_features: usize,
    pub num_classes: usize,
}

/// A natural number that is a member of the description, or what stands for it.
pub open spec fn field(j: JsonView, key: Seq<char>, missing: u64) -> usize {
    match j.member(key) {
        Some(v) => match v.whole() {
            Some(v) => v as usize,
            None => missing as usize,
        },
        None => missing as usize,
    }
}

/// The description that a JSON value gives.
pub open spec fn meta_of(j: JsonView) -> Meta {
    Meta {
        n: field(j, "n"@, 0),
        size: field(j, "size"@, 32),
        num_features: field(j, "num_features"@, 0),
        num_classes: field(j, "num_classes"@, 0),
    }
}

fn get_field(j: &Json, key: &str, missing: u64) -> (r: usize)
    ensures
        r == field(j@, key@, missing),
{
    match j.get(key) {
        Some(v) => match v.as_u64() {
            Some(v) => v as usize,
            None => missing as usize,
        },
        None => missing as usize,
    }
}

impl Meta {
    /// The description in a JSON value. What is missing is zero, but for the size, which is 32.
    pub fn from_json(j: &Json) -> (r: Meta)
        ensures
            r == meta_of(j@),
    {
        Meta {
            n: get_field(j, "n", 0),
            size: get_field(j, "size", 32),
            num_features: get_field(j, "num_features", 0),
            num_classes: get_field(j, "num_classes", 0),
        }
    }

    /// The description in a text, if that is JSON.
    pub fn parse(text: &str) -> (r: Option<Meta>)
        ensures
            match r {
                Some(m) => crate::json::value::is_json(text@) && m == meta_of(
                    crate::json::value::tree(text@, crate::json::value::MAX_DEPTH as nat),
                ),
                None => !crate::json::value::is_json(text@),
            },
    {
        match parse_json(text) {
            Some(j) => Some(Meta::from_json(&j)),
            None => None,
        }
    }
}

/// One more than the largest of the first `n` labels.
pub open spec fn label_bound(labels: Seq<u32>, n: nat) -> nat
    decreases n,
{
    if n == 0 {
        0
    } else {
        let before = label_bound(labels, (n - 1) as nat);
        if labels[n - 1] >= before {
            (labels[n - 1] + 1) as nat
        } else {
            before
        }
    }
}

/// How many classes there are: as many as the description says, or else as many as the labels need.
pub open spec fn class_count(meta: Meta, labels: Seq<u32>) -> nat {
    if meta.num_classes > 0 {
        meta.num_classes as nat
    } else {
        label_bound(labels, labels.len())
    }
}

/// The files of a dataset: the images, one byte per pixel, the features and the labels, four bytes
/// each.
pub struct Files<'a> {
    pub images: &'a [u8],
    pub features: &'a [u8],
    pub labels: &'a [u8],
}

/// Is there an image, a feature vector and a valid label for each sample?
pub open spec fn complete(meta: Meta, images: Seq<u8>, features: Seq<u8>, labels: Seq<u8>) -> bool {
    let words = crate::classify::weights::words(labels);
    &&& meta.size * meta.size <= usize::MAX
    &&& meta.n * (meta.size * meta.size) <= images.len()
    &&& meta.n * meta.num_features <= features.len() / 4
    &&& meta.n <= words.len()
    &&& class_count(meta, words) <= usize::MAX
    &&& forall|i: int| 0 <= i < meta.n ==> #[trigger] words[i] < class_count(meta, words)
}

impl<'a> Files<'a> {
    /// How many classes there are.
    fn classes(&self, meta: &Meta) -> (r: u64)
        ensures
            r == class_count(*meta, crate::classify::weights::words(self.labels@)),
    {
        if meta.num_classes > 0 {
            return meta.num_classes as u64;
        }
        let ghost words = crate::classify::weights::words(self.labels@);
        let count: usize = self.labels.len() / 4;
        let mut bound: u64 = 0;
        let mut i: usize = 0;
        while i < count
            invariant
                i <= count,
                count == self.labels@.len() / 4,
                words == crate::classify::weights::words(self.labels@),
                bound == label_bound(words, i as nat),
                bound <= 0x1_0000_0000,
            decreases count - i,
        {
            let v = get_word(self.labels, i);
            assert(v == words[i as int]);
            if v as u64 >= bound {
                bound = v as u64 + 1;
            }
            i = i + 1;
        }
        bound
    }

    /// Is there an image, a feature vector and a valid label for each sample?
    pub fn is_complete(&self, meta: &Meta) -> (r: bool)
        ensures
            r == complete(*meta, self.images@, self.features@, self.labels@),
    {
        let ghost words = crate::classify::weights::words(self.labels@);
        let image_bytes: usize = self.images.len();
        let feature_count: usize = self.features.len() / 4;
        let pixels = match meta.size.checked_mul(meta.size) {
            Some(pixels) => pixels,
            None => {
                return false;
            },
        };
        match meta.n.checked_mul(pixels) {
            Some(total) => if total > image_bytes {
                return false;
            },
            None => {
                return false;
            },
        }
        match meta.n.checked_mul(meta.num_features) {
            Some(total) => if total > feature_count {
                return false;
            },
            None => {
                return false;
            },
        }
        if meta.n > self.labels.len() / 4 {
            return false;
        }
        let classes = self.classes(meta);
        if classes > usize::MAX as u64 {
            return false;
        }
        let mut i: usize = 0;
        while i < meta.n
            invariant
                i <= meta.n,
                meta.n <= self.labels@.len() / 4,
                words == crate::classify::weights::words(self.labels@),
                classes == class_count(*meta, words),
                forall|k: int| 0 <= k < i ==> #[trigger] words[k] < classes,
            decreases meta.n - i,
        {
            let v = get_word(self.labels, i);
            assert(v == words[i as int]);
            if v as u64 >= classes {
                return false;
            }
            i = i + 1;
        }
        true
    }
}

// ---------------------------------------------------------------------------------------------
// Samples
// ---------------------------------------------------------------------------------------------
/// The image of sample `i`.
pub open spec fn image_at(images: Seq<u8>, pixels: int, i: int) -> Seq<F32> {
    Seq::new(
        pixels as nat,
        |k: int| crate::float::convert::of_int(images[i * pixels + k] as int).over(num(FULL)),
    )
}

/// The features of sample `i`.
pub open spec fn features_at(features: Seq<u8>, count: int, i: int) -> Seq<F32> {
    Seq::new(
        count as nat,
        |k: int| num(crate::classify::weights::word_at(features, i * count + k)),
    )
}

/// What the network gives for sample `i`.
pub open spec fn run_on(
    w: Seq<TensorView>,
    meta: Meta,
    images: Seq<u8>,
    features: Seq<u8>,
    i: int,
) -> Result<Seq<F32>, Error> {
    crate::classify::model::logits_of(
        w,
        image_at(images, meta.size * meta.size, i),
        features_at(features, meta.num_features as int, i),
        meta.size as int,
    )
}

fn get_image(images: &[u8], pixels: usize, i: usize) -> (r: Vec<F32>)
    requires
        (i + 1) * pixels <= images@.len(),
    ensures
        r@ == image_at(images@, pixels as int, i as int),
{
    let ghost want = image_at(images@, pixels as int, i as int);
    let limit: usize = images.len();
    assert(i * pixels + pixels == (i + 1) * pixels) by (nonlinear_arith);
    assert(i * pixels >= 0) by (nonlinear_arith);
    let start: usize = i * pixels;
    let mut out: Vec<F32> = Vec::new();
    let mut k: usize = 0;
    while k < pixels
        invariant
            k <= pixels,
            start == i * pixels,
            start + pixels <= limit == images@.len(),
            want == image_at(images@, pixels as int, i as int),
            out@ == want.take(k as int),
        decreases pixels - k,
    {
        let v = F32::from_i32(images[start + k] as i32).over(num(FULL));
        out.push(v);
        k = k + 1;
        assert(out@ =~= want.take(k as int));
    }
    assert(want.take(k as int) =~= want);
    out
}

fn get_features(features: &[u8], count: usize, i: usize) -> (r: Vec<F32>)
    requires
        (i + 1) * count <= features@.len() / 4,
    ensures
        r@ == features_at(features@, count as int, i as int),
{
    let ghost want = features_at(features@, count as int, i as int);
    let limit: usize = features.len() / 4;
    assert(i * count + count == (i + 1) * count) by (nonlinear_arith);
    assert(i * count >= 0) by (nonlinear_arith);
    let start: usize = i * count;
    let mut out: Vec<F32> = Vec::new();
    let mut k: usize = 0;
    while k < count
        invariant
            k <= count,
            start == i * count,
            start + count <= limit == features@.len() / 4,
            want == features_at(features@, count as int, i as int),
            out@ == want.take(k as int),
        decreases count - k,
    {
        let v = num(get_word(features, start + k));
        out.push(v);
        k = k + 1;
        assert(out@ =~= want.take(k as int));
    }
    assert(want.take(k as int) =~= want);
    out
}

// ---------------------------------------------------------------------------------------------
// The tally
// ---------------------------------------------------------------------------------------------
/// How often the label was the first answer and how often it was among the answers, in all and for
/// each class, and how many samples each class has.
#[derive(Debug)]
pub struct Tally {
    pub top1: usize,
    pub top5: usize,
    pub seen: Vec<usize>,
    pub hit1: Vec<usize>,
    pub hit5: Vec<usize>,
}

/// What a [`Tally`] holds.
#[verifier::ext_equal]
pub struct TallyView {
    pub top1: int,
    pub top5: int,
    pub seen: Seq<int>,
    pub hit1: Seq<int>,
    pub hit5: Seq<int>,
}

impl View for Tally {
    type V = TallyView;

    open spec fn view(&self) -> TallyView {
        TallyView {
            top1: self.top1 as int,
            top5: self.top5 as int,
            seen: crate::sort::as_ints(self.seen@),
            hit1: crate::sort::as_ints(self.hit1@),
            hit5: crate::sort::as_ints(self.hit5@),
        }
    }
}

/// A tally of nothing.
pub open spec fn blank(classes: nat) -> TallyView {
    TallyView {
        top1: 0,
        top5: 0,
        seen: Seq::new(classes, |i: int| 0),
        hit1: Seq::new(classes, |i: int| 0),
        hit5: Seq::new(classes, |i: int| 0),
    }
}

/// Is the label the first answer?
pub open spec fn first_is(preds: Seq<Prediction>, label: int) -> bool {
    preds.len() > 0 && preds[0].class == label
}

/// Is the label among the answers?
pub open spec fn among(preds: Seq<Prediction>, label: int) -> bool {
    exists|i: int| 0 <= i < preds.len() && (#[trigger] preds[i]).class == label
}

/// A sequence with one more in one place, or as it is.
pub open spec fn raised(s: Seq<int>, i: int, by_one: bool) -> Seq<int> {
    if by_one {
        s.update(i, s[i] + 1)
    } else {
        s
    }
}

/// The tally with the answers for one more sample.
pub open spec fn judged(t: TallyView, preds: Seq<Prediction>, label: int) -> TallyView {
    TallyView {
        top1: t.top1 + if first_is(preds, label) {
            1int
        } else {
            0int
        },
        top5: t.top5 + if among(preds, label) {
            1int
        } else {
            0int
        },
        seen: raised(t.seen, label, true),
        hit1: raised(t.hit1, label, first_is(preds, label)),
        hit5: raised(t.hit5, label, among(preds, label)),
    }
}

/// Does every class have as many entries, and no tally more than `n`?
pub open spec fn bounded(t: TallyView, classes: nat, n: int) -> bool {
    &&& t.seen.len() == classes && t.hit1.len() == classes && t.hit5.len() == classes
    &&& 0 <= t.top1 <= t.top5 <= n
    &&& forall|i: int|
        0 <= i < classes ==> 0 <= #[trigger] t.hit1[i] <= t.hit5[i] <= t.seen[i] && t.seen[i] <= n
}

/// The error of the first of the first `n` samples on which the network fails.
pub open spec fn failure_in(
    w: Seq<TensorView>,
    meta: Meta,
    images: Seq<u8>,
    features: Seq<u8>,
    n: nat,
) -> Option<Error>
    decreases n,
{
    if n == 0 {
        None
    } else {
        match failure_in(w, meta, images, features, (n - 1) as nat) {
            Some(e) => Some(e),
            None => match run_on(w, meta, images, features, n - 1) {
                Ok(_) => None,
                Err(e) => Some(e),
            },
        }
    }
}

/// The tally of the first `n` samples, on none of which the network fails.
pub open spec fn tallied(
    w: Seq<TensorView>,
    meta: Meta,
    images: Seq<u8>,
    features: Seq<u8>,
    labels: Seq<u32>,
    exp: Fn1,
    n: nat,
) -> TallyView
    decreases n,
{
    if n == 0 {
        blank(class_count(meta, labels))
    } else {
        judged(
            tallied(w, meta, images, features, labels, exp, (n - 1) as nat),
            crate::classify::ranked(
                run_on(w, meta, images, features, n - 1)->Ok_0,
                CANDIDATES as nat,
                exp,
            ),
            labels[n - 1] as int,
        )
    }
}

fn zeros(n: usize) -> (r: Vec<usize>)
    ensures
        crate::sort::as_ints(r@) == Seq::new(n as nat, |i: int| 0int),
        r.len() == n,
{
    let mut out: Vec<usize> = Vec::new();
    let mut i: usize = 0;
    while i < n
        invariant
            i <= n,
            out.len() == i,
            forall|k: int| 0 <= k < i ==> #[trigger] out[k] == 0,
        decreases n - i,
    {
        out.push(0);
        i = i + 1;
    }
    assert(crate::sort::as_ints(out@) =~= Seq::new(n as nat, |i: int| 0int));
    out
}

fn is_among(preds: &Vec<Prediction>, label: usize) -> (r: bool)
    ensures
        r == among(preds@, label as int),
{
    let mut i: usize = 0;
    while i < preds.len()
        invariant
            i <= preds.len(),
            forall|k: int| 0 <= k < i ==> (#[trigger] preds@[k]).class != label,
        decreases preds.len() - i,
    {
        if preds[i].class == label {
            assert(preds@[i as int].class == label);
            return true;
        }
        i = i + 1;
    }
    false
}

impl Tally {
    /// A tally of nothing.
    pub fn new(classes: usize) -> (r: Self)
        ensures
            r@ == blank(classes as nat),
    {
        Tally { top1: 0, top5: 0, seen: zeros(classes), hit1: zeros(classes), hit5: zeros(classes) }
    }

    /// Take the answers for one more sample.
    pub fn judge(&mut self, preds: &Vec<Prediction>, label: usize)
        requires
            bounded(old(self)@, old(self)@.seen.len(), usize::MAX - 1),
            label < old(self)@.seen.len(),
        ensures
            final(self)@ == judged(old(self)@, preds@, label as int),
            forall|n: int| #[trigger]
                bounded(old(self)@, old(self)@.seen.len(), n) ==> bounded(
                    final(self)@,
                    old(self)@.seen.len(),
                    n + 1,
                ),
    {
        let ghost before = self@;
        let first = preds.len() > 0 && preds[0].class == label;
        let any = is_among(preds, label);
        proof {
            assert(first ==> any) by {
                if first {
                    assert(preds@[0].class == label);
                }
            }
            assert(before.hit1[label as int] <= before.seen[label as int]);
            assert(self.seen[label as int] == before.seen[label as int]);
            assert(self.hit1[label as int] == before.hit1[label as int]);
            assert(self.hit5[label as int] == before.hit5[label as int]);
        }
        let count: usize = self.seen[label] + 1;
        self.seen.set(label, count);
        assert(self@.seen =~= raised(before.seen, label as int, true));
        if first {
            self.top1 = self.top1 + 1;
            let hits: usize = self.hit1[label] + 1;
            self.hit1.set(label, hits);
        }
        assert(self@.hit1 =~= raised(before.hit1, label as int, first));
        if any {
            self.top5 = self.top5 + 1;
            let hits: usize = self.hit5[label] + 1;
            self.hit5.set(label, hits);
        }
        assert(self@.hit5 =~= raised(before.hit5, label as int, any));
        proof {
            let now = self@;
            assert(now =~= judged(before, preds@, label as int));
            assert forall|n: int| #[trigger] bounded(before, before.seen.len(), n) implies bounded(
                now,
                before.seen.len(),
                n + 1,
            ) by {
                assert forall|i: int| 0 <= i < now.seen.len() implies 0 <= #[trigger] now.hit1[i]
                    <= now.hit5[i] <= now.seen[i] && now.seen[i] <= n + 1 by {
                    assert(0 <= before.hit1[i] <= before.hit5[i] <= before.seen[i]);
                }
            }
        }
    }

    /// The classes that have samples.
    pub fn present(&self) -> (r: Vec<usize>)
        ensures
            crate::sort::as_ints(r@) == present_in(self@.seen, self@.seen.len()),
    {
        let mut out: Vec<usize> = Vec::new();
        let mut i: usize = 0;
        assert(crate::sort::as_ints(out@) =~= Seq::<int>::empty());
        while i < self.seen.len()
            invariant
                i <= self.seen.len(),
                crate::sort::as_ints(out@) == present_in(self@.seen, i as nat),
            decreases self.seen.len() - i,
        {
            assert(self@.seen[i as int] == self.seen[i as int]);
            if self.seen[i] > 0 {
                assert(crate::sort::as_ints(out@.push(i)) =~= crate::sort::as_ints(out@).push(
                    i as int,
                ));
                out.push(i);
            }
            i = i + 1;
        }
        out
    }
}

/// Those of the first `n` classes that have samples.
pub open spec fn present_in(seen: Seq<int>, n: nat) -> Seq<int>
    decreases n,
{
    if n == 0 {
        Seq::empty()
    } else {
        let before = present_in(seen, (n - 1) as nat);
        if seen[n - 1] > 0 {
            before.push(n - 1)
        } else {
            before
        }
    }
}

/// Run a model over a dataset, and hold its answers against the labels. `exp` is the exponential
/// function.
pub fn evaluate<'a, 'b, E: Fn(F32) -> F32>(
    w: &Weights<'a>,
    meta: &Meta,
    files: &Files<'b>,
    exp: &E,
) -> (r: Result<Tally, Error>)
    requires
        complete(*meta, files.images@, files.features@, files.labels@),
        crate::elementary::callable1(*exp),
    ensures
        match (r, failure_in(w@, *meta, files.images@, files.features@, meta.n as nat)) {
            (Ok(t), None) => {
                let labels = crate::classify::weights::words(files.labels@);
                &&& bounded(t@, class_count(*meta, labels), meta.n as int)
                &&& forall|e: Fn1| #[trigger]
                    crate::elementary::computes1(*exp, e) ==> t@ == tallied(
                        w@,
                        *meta,
                        files.images@,
                        files.features@,
                        labels,
                        e,
                        meta.n as nat,
                    )
            },
            (Err(a), Some(b)) => a == b,
            _ => false,
        },
{
    let ghost labels = crate::classify::weights::words(files.labels@);
    let classes: usize = files.classes(meta) as usize;
    let pixels: usize = meta.size * meta.size;
    let mut t = Tally::new(classes);
    let mut i: usize = 0;
    while i < meta.n
        invariant
            i <= meta.n,
            complete(*meta, files.images@, files.features@, files.labels@),
            crate::elementary::callable1(*exp),
            labels == crate::classify::weights::words(files.labels@),
            classes == class_count(*meta, labels),
            pixels == meta.size * meta.size,
            failure_in(w@, *meta, files.images@, files.features@, i as nat) is None,
            bounded(t@, classes as nat, i as int),
            forall|e: Fn1| #[trigger]
                crate::elementary::computes1(*exp, e) ==> t@ == tallied(
                    w@,
                    *meta,
                    files.images@,
                    files.features@,
                    labels,
                    e,
                    i as nat,
                ),
        decreases meta.n - i,
    {
        proof {
            assert((i + 1) * pixels <= meta.n * pixels) by (nonlinear_arith)
                requires
                    i + 1 <= meta.n,
            ;
            assert((i + 1) * meta.num_features <= meta.n * meta.num_features) by (nonlinear_arith)
                requires
                    i + 1 <= meta.n,
            ;
        }
        let bitmap = get_image(files.images, pixels, i);
        let features = get_features(files.features, meta.num_features, i);
        let label: u32 = get_word(files.labels, i);
        assert(label == labels[i as int]);
        let ghost before = t@;
        match recognize(w, bitmap.as_slice(), features.as_slice(), meta.size, CANDIDATES, exp) {
            Err(e) => {
                proof {
                    assert(failure_in(
                        w@,
                        *meta,
                        files.images@,
                        files.features@,
                        (i + 1) as nat,
                    ) == Some(e));
                    lemma_failure_stays(
                        w@,
                        *meta,
                        files.images@,
                        files.features@,
                        (i + 1) as nat,
                        meta.n as nat,
                    );
                }
                return Err(e);
            },
            Ok(preds) => {
                t.judge(&preds, label as usize);
            },
        }
        i = i + 1;
    }
    Ok(t)
}

proof fn lemma_failure_stays(
    w: Seq<TensorView>,
    meta: Meta,
    images: Seq<u8>,
    features: Seq<u8>,
    n: nat,
    m: nat,
)
    requires
        n <= m,
        failure_in(w, meta, images, features, n) is Some,
    ensures
        failure_in(w, meta, images, features, m) == failure_in(w, meta, images, features, n),
    decreases m,
{
    if n < m {
        lemma_failure_stays(w, meta, images, features, n, (m - 1) as nat);
    }
}

// ---------------------------------------------------------------------------------------------
// Laws
// ---------------------------------------------------------------------------------------------
/// The sum of the first `n` numbers.
pub open spec fn total(s: Seq<int>, n: nat) -> int
    decreases n,
{
    if n == 0 {
        0
    } else {
        total(s, (n - 1) as nat) + s[n - 1]
    }
}

proof fn lemma_total_raised(s: Seq<int>, n: nat, i: int, by_one: bool)
    requires
        n <= s.len(),
        0 <= i < s.len(),
    ensures
        total(raised(s, i, by_one), n) == total(s, n) + if by_one && i < n {
            1int
        } else {
            0int
        },
    decreases n,
{
    if n > 0 {
        lemma_total_raised(s, (n - 1) as nat, i, by_one);
    }
}

/// The tallies of the classes add up to the tallies in all, and go on doing so with every sample
/// that is judged.
pub proof fn law_classes_add_up(t: TallyView, preds: Seq<Prediction>, label: int)
    requires
        t.seen.len() == t.hit1.len() == t.hit5.len(),
        0 <= label < t.seen.len(),
        total(t.hit1, t.hit1.len()) == t.top1,
        total(t.hit5, t.hit5.len()) == t.top5,
    ensures
        ({
            let u = judged(t, preds, label);
            &&& total(u.hit1, u.hit1.len()) == u.top1
            &&& total(u.hit5, u.hit5.len()) == u.top5
            &&& total(u.seen, u.seen.len()) == total(t.seen, t.seen.len()) + 1
        }),
{
    lemma_total_raised(t.seen, t.seen.len(), label, true);
    lemma_total_raised(t.hit1, t.hit1.len(), label, first_is(preds, label));
    lemma_total_raised(t.hit5, t.hit5.len(), label, among(preds, label));
}

/// A first answer counts among the answers too: a sample never raises the first tally without the
/// second.
pub proof fn law_a_first_answer_is_an_answer(preds: Seq<Prediction>, label: int)
    requires
        first_is(preds, label),
    ensures
        among(preds, label),
{
    assert(preds[0].class == label);
}

/// One more sample counts for its own class only: as seen, as found at once if the first answer is its
/// label, and as found at all if any answer is.
pub proof fn law_a_sample_counts_for_its_own_class(
    t: TallyView,
    preds: Seq<Prediction>,
    label: int,
    c: int,
)
    requires
        0 <= label < t.seen.len(),
        t.hit1.len() == t.seen.len() && t.hit5.len() == t.seen.len(),
        0 <= c < t.seen.len(),
    ensures
        ({
            let now = judged(t, preds, label);
            let first = preds.len() > 0 && preds[0].class == label;
            let any = exists|i: int| 0 <= i < preds.len() && (#[trigger] preds[i]).class == label;
            &&& now.seen[c] - t.seen[c] == if c == label { 1int } else { 0 }
            &&& now.hit1[c] - t.hit1[c] == if c == label && first { 1int } else { 0 }
            &&& now.hit5[c] - t.hit5[c] == if c == label && any { 1int } else { 0 }
            &&& now.top1 - t.top1 == if first { 1int } else { 0 }
            &&& now.top5 - t.top5 == if any { 1int } else { 0 }
        }),
{
}

} // verus!
