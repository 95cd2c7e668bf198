//! Symbol classification: an int8 convolutional network over a rendering of a stroke group, which
//! gives ranked candidates. Ranked, never a lone best guess: the correction interface depends on
//! the alternatives.
use crate::elementary::Fn1;
use crate::float::F32;
use crate::text::{chars_of, split_at_char, text_of, trim};
use vstd::prelude::*;

pub mod canvas;
pub mod enlarge;
pub mod kernel;
pub mod linear;
pub mod model;
pub mod network;
pub mod online;
pub mod raster;
pub mod shape;
pub mod weights;

verus! {

/// One ranked candidate: a class index and its softmax probability.
#[derive(Debug, Clone, Copy, PartialEq, Eq, Structural)]
pub struct Prediction {
    pub class: usize,
    pub prob: F32,
}

/// The `k` most probable classes of a distribution, the most probable first.
pub open spec fn best_of(probs: Seq<F32>, k: nat) -> Seq<Prediction> {
    Seq::new(
        kernel::top_len(probs.len(), k),
        |i: int|
            Prediction {
                class: kernel::ranking(probs)[i] as usize,
                prob: probs[kernel::ranking(probs)[i]],
            },
    )
}

/// The ranked candidates for raw scores. `exp` is the exponential function.
pub open spec fn ranked(logits: Seq<F32>, k: nat, exp: Fn1) -> Seq<Prediction> {
    best_of(kernel::proportions(kernel::shifted_exp(logits, exp)), k)
}

/// Turn a distribution into the ranked candidates that the interface consumes.
pub fn rank(probs: &Vec<F32>, k: usize) -> (r: Vec<Prediction>)
    ensures
        r@ == best_of(probs@, k as nat),
{
    let top = kernel::top_k(probs, k);
    let mut out: Vec<Prediction> = Vec::new();
    let mut i: usize = 0;
    while i < top.len()
        invariant
            i <= top.len(),
            top.len() == kernel::top_len(probs@.len(), k as nat),
            forall|j: int|
                0 <= j < top.len() ==> (#[trigger] top[j]).0 == kernel::ranking(probs@)[j]
                    && top[j].1 == probs[top[j].0 as int],
            out.len() == i,
            forall|j: int| 0 <= j < i ==> #[trigger] out[j] == best_of(probs@, k as nat)[j],
        decreases top.len() - i,
    {
        let (class, prob) = top[i];
        out.push(Prediction { class, prob });
        i = i + 1;
    }
    assert(out@ =~= best_of(probs@, k as nat));
    out
}

/// Turn raw logits into the ranked candidates that the interface consumes: softmax, then the `k`
/// highest. `exp` is the exponential function.
pub fn rank_logits<E: Fn(F32) -> F32>(logits: &[F32], k: usize, exp: &E) -> (r: Vec<Prediction>)
    requires
        crate::elementary::callable1(*exp),
    ensures
        r.len() == kernel::top_len(logits@.len(), k as nat),
        forall|h: Fn1| #[trigger]
            crate::elementary::computes1(*exp, h) ==> r@ == ranked(logits@, k as nat, h),
{
    let probs = kernel::softmax(logits, exp);
    rank(&probs, k)
}

// ---------------------------------------------------------------------------------------------
// Labels
// ---------------------------------------------------------------------------------------------
/// The first `n` lines, without white space at their ends, that are not empty then.
pub open spec fn labels_in(lines: Seq<Seq<char>>, n: nat) -> Seq<Seq<char>>
    decreases n,
{
    if n == 0 {
        Seq::empty()
    } else {
        let before = labels_in(lines, (n - 1) as nat);
        let label = crate::text::trimmed(lines[n - 1]);
        if label.len() == 0 {
            before
        } else {
            before.push(label)
        }
    }
}

/// Maps class indices to LaTeX commands, from a list with one label per line.
#[derive(Debug)]
pub struct Labels {
    pub names: Vec<String>,
}

impl View for Labels {
    type V = Seq<Seq<char>>;

    open spec fn view(&self) -> Seq<Seq<char>> {
        Seq::new(self.names@.len(), |i: int| self.names@[i]@)
    }
}

impl Default for Labels {
    fn default() -> (r: Self)
        ensures
            r@ == Seq::<Seq<char>>::empty(),
    {
        let r = Labels { names: Vec::new() };
        assert(r@ =~= Seq::<Seq<char>>::empty());
        r
    }
}

impl Labels {
    /// The labels in a text, one per line; blank lines are skipped.
    pub fn from_lines(text: &str) -> (r: Self)
        ensures
            r@ == labels_in(
                crate::text::split(text@, '\n'),
                crate::text::split(text@, '\n').len(),
            ),
    {
        let chars = chars_of(text);
        let lines = split_at_char(&chars, '\n');
        let ghost view = crate::text::line_views(lines@);
        let mut names: Vec<String> = Vec::new();
        let ghost mut got: Seq<Seq<char>> = Seq::empty();
        let mut i: usize = 0;
        while i < lines.len()
            invariant
                i <= lines.len(),
                view == crate::text::line_views(lines@),
                got == labels_in(view, i as nat),
                got.len() == names@.len(),
                forall|j: int| 0 <= j < names@.len() ==> got[j] == (#[trigger] names@[j])@,
            decreases lines.len() - i,
        {
            let label = trim(&lines[i]);
            assert(view[i as int] == lines[i as int]@);
            if label.len() > 0 {
                let name = text_of(&label);
                proof {
                    got = got.push(name@);
                }
                names.push(name);
            }
            i = i + 1;
        }
        let r = Labels { names };
        assert(r@ =~= got);
        r
    }

    /// The label of a class.
    pub fn get(&self, class: usize) -> (r: Option<&str>)
        ensures
            match r {
                Some(s) => class < self@.len() && s@ == self@[class as int],
                None => class >= self@.len(),
            },
    {
        if class < self.names.len() {
            Some(self.names[class].as_str())
        } else {
            None
        }
    }

    pub fn len(&self) -> (r: usize)
        ensures
            r == self@.len(),
    {
        self.names.len()
    }

    pub fn is_empty(&self) -> (r: bool)
        ensures
            r == (self@.len() == 0),
    {
        self.names.len() == 0
    }
}

} // verus!
