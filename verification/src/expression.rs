//! A recognized expression that a person can correct: every symbol keeps its ranked candidates,
//! and one of them is chosen.
use crate::classify::weights::{TensorView, Weights};
use crate::classify::{Labels, Prediction};
use crate::elementary::{Fn1, Fn2};
use crate::error::Error;
use crate::float::F32;
use crate::glyphs::{Font, RawGlyphView};
use crate::latex::{symbol_command, to_latex};
use crate::line::{recognize_symbols, LineSymbol, LineSymbolView};
use crate::orient::auto_orient;
use crate::prior::{Prior, PriorView};
use crate::stroke::{BBox, Ink, InkView, Point};
use crate::structure::{parse, Slt, Symbol, SymbolView};
use crate::typeset::checked_svg;
use vstd::prelude::*;

verus! {

/// One symbol of an expression: the indices of its strokes, its candidates with their labels, the
/// most probable first, and its place.
#[derive(Debug)]
pub struct AnalyzedSymbol {
    pub stroke_indices: Vec<usize>,
    pub candidates: Vec<(String, F32)>,
    pub bbox: BBox,
}

/// What an [`AnalyzedSymbol`] holds.
#[verifier::ext_equal]
pub struct AnalyzedView {
    pub stroke_indices: Seq<int>,
    pub candidates: Seq<(Seq<char>, F32)>,
    pub bbox: BBox,
}

impl View for AnalyzedSymbol {
    type V = AnalyzedView;

    open spec fn view(&self) -> AnalyzedView {
        AnalyzedView {
            stroke_indices: crate::sort::as_ints(self.stroke_indices@),
            candidates: Seq::new(
                self.candidates@.len(),
                |i: int| (self.candidates@[i].0@, self.candidates@[i].1),
            ),
            bbox: self.bbox,
        }
    }
}

/// What a list of analyzed symbols holds.
pub open spec fn analyzed_views(symbols: Seq<AnalyzedSymbol>) -> Seq<AnalyzedView> {
    Seq::new(symbols.len(), |i: int| symbols[i]@)
}

/// The candidates with their labels.
pub open spec fn labelled(labels: Seq<Seq<char>>, predictions: Seq<Prediction>) -> Seq<
    (Seq<char>, F32),
> {
    Seq::new(
        predictions.len(),
        |i: int|
            (
                crate::line::label_of(labels, predictions[i].class as int),
                predictions[i].prob,
            ),
    )
}

/// The first `n` recognized symbols with their labels and places.
pub open spec fn analyzed(
    ink: Seq<Seq<Point>>,
    labels: Seq<Seq<char>>,
    line: Seq<LineSymbolView>,
    n: nat,
) -> Seq<AnalyzedView>
    decreases n,
{
    if n == 0 {
        Seq::empty()
    } else {
        let before = analyzed(ink, labels, line, (n - 1) as nat);
        let s = line[n - 1];
        let points = crate::stroke::all_points(crate::denoise::selected(ink, s.strokes));
        match crate::stroke::extent_of(points) {
            Some(bbox) => before.push(
                AnalyzedView {
                    stroke_indices: s.strokes,
                    candidates: labelled(labels, s.predictions),
                    bbox,
                },
            ),
            None => before,
        }
    }
}

/// Do all symbols refer to strokes of the drawing?
pub open spec fn refers(symbols: Seq<AnalyzedSymbol>, count: nat) -> bool {
    forall|s: int, j: int|
        0 <= s < symbols.len() && 0 <= j < symbols[s].stroke_indices@.len()
            ==> #[trigger] symbols[s].stroke_indices@[j] < count
}

fn label_candidates(labels: &Labels, predictions: &Vec<Prediction>) -> (r: Vec<(String, F32)>)
    ensures
        Seq::new(r@.len(), |i: int| (r@[i].0@, r@[i].1)) == labelled(labels@, predictions@),
{
    let mut out: Vec<(String, F32)> = Vec::new();
    let mut i: usize = 0;
    while i < predictions.len()
        invariant
            i <= predictions.len(),
            out.len() == i,
            forall|k: int|
                0 <= k < i ==> (#[trigger] out@[k]).0@ == labelled(labels@, predictions@)[k].0
                    && out@[k].1 == labelled(labels@, predictions@)[k].1,
        decreases predictions.len() - i,
    {
        let p = predictions[i];
        let label = match labels.get(p.class) {
            Some(s) => s,
            None => "",
        };
        out.push((crate::text::text_of(&crate::text::chars_of(label)), p.prob));
        i = i + 1;
    }
    assert(Seq::new(out@.len(), |i: int| (out@[i].0@, out@[i].1)) =~= labelled(
        labels@,
        predictions@,
    ));
    out
}

/// Give recognized symbols their labels and places.
pub fn analyze_line(ink: &Ink, labels: &Labels, line: &Vec<LineSymbol>) -> (r: Vec<AnalyzedSymbol>)
    requires
        crate::line::within(line@, ink@.strokes.len()),
    ensures
        analyzed_views(r@) == analyzed(
            ink@.strokes,
            labels@,
            crate::line::line_views(line@),
            line@.len(),
        ),
        refers(r@, ink@.strokes.len()),
{
    let ghost views = crate::line::line_views(line@);
    let mut out: Vec<AnalyzedSymbol> = Vec::new();
    let mut i: usize = 0;
    assert(analyzed_views(out@) =~= Seq::<AnalyzedView>::empty());
    while i < line.len()
        invariant
            i <= line.len(),
            views == crate::line::line_views(line@),
            crate::line::within(line@, ink@.strokes.len()),
            analyzed_views(out@) == analyzed(ink@.strokes, labels@, views, i as nat),
            refers(out@, ink@.strokes.len()),
        decreases line.len() - i,
    {
        let s = &line[i];
        assert(views[i as int] == s@);
        assert forall|j: int| 0 <= j < s.strokes.len() implies #[trigger] s.strokes[j]
            < ink@.strokes.len() by {
            assert(line@[i as int].strokes@[j] < ink@.strokes.len());
        }
        if let Some(bbox) = crate::line::strokes_bbox(ink, &s.strokes) {
            let mut stroke_indices: Vec<usize> = Vec::new();
            let mut k: usize = 0;
            while k < s.strokes.len()
                invariant
                    k <= s.strokes.len(),
                    stroke_indices@ == s.strokes@.take(k as int),
                decreases s.strokes.len() - k,
            {
                stroke_indices.push(s.strokes[k]);
                k = k + 1;
            }
            assert(stroke_indices@ =~= s.strokes@);
            let a = AnalyzedSymbol {
                stroke_indices,
                candidates: label_candidates(labels, &s.predictions),
                bbox,
            };
            proof {
                assert(analyzed_views(out@.push(a)) =~= analyzed_views(out@).push(a@));
                assert forall|p: int, j: int|
                    0 <= p < out@.push(a).len() && 0 <= j < out@.push(
                        a,
                    )[p].stroke_indices@.len() implies #[trigger] out@.push(a)[p].stroke_indices@[j]
                    < ink@.strokes.len() by {
                    if p < out.len() {
                        assert(out@[p].stroke_indices@[j] < ink@.strokes.len());
                    } else {
                        assert(s.strokes[j] < ink@.strokes.len());
                    }
                }
            }
            out.push(a);
        }
        i = i + 1;
    }
    out
}

/// Recognize an expression: turn the drawing upright, then segment and classify it, with `k`
/// candidates for each symbol. With a prior, the classifier's rankings are corrected. Returns the
/// upright drawing, which the symbols refer to. `atan2` is the arctangent of `y / x` and `exp` the
/// exponential function.
pub fn analyze<'a, A: Fn(F32, F32) -> F32, E: Fn(F32) -> F32>(
    ink: &Ink,
    weights: &Weights<'a>,
    labels: &Labels,
    prior: Option<&Prior>,
    k: usize,
    atan2: &A,
    exp: &E,
) -> (r: Result<(Ink, Vec<AnalyzedSymbol>), Error>)
    requires
        crate::elementary::callable2(*atan2),
        crate::elementary::callable1(*exp),
    ensures
        forall|h: Fn2, e: Fn1| #[trigger]
            crate::elementary::computes2(*atan2, h) && #[trigger] crate::elementary::computes1(
                *exp,
                e,
            ) ==> match (
                r,
                expression_of(
                    weights@,
                    ink@,
                    labels@,
                    crate::prior::prior_view(prior),
                    k as nat,
                    h,
                    e,
                ),
            ) {
                (Ok(found), Ok(want)) => found.0@ == want.0 && analyzed_views(found.1@) == want.1,
                (Err(x), Err(y)) => x == y,
                _ => false,
            },
        match r {
            Ok(found) => refers(found.1@, found.0@.strokes.len()),
            Err(_) => true,
        },
{
    let oriented = auto_orient(ink, weights, atan2, exp)?;
    let line = recognize_symbols(&oriented, weights, labels, prior, k, atan2, exp)?;
    let symbols = analyze_line(&oriented, labels, &line);
    Ok((oriented, symbols))
}

/// The upright drawing and its symbols.
pub open spec fn expression_of(
    w: Seq<TensorView>,
    ink: InkView,
    labels: Seq<Seq<char>>,
    prior: Option<PriorView>,
    k: nat,
    angle: Fn2,
    exp: Fn1,
) -> Result<(InkView, Seq<AnalyzedView>), Error> {
    match crate::orient::upright(w, ink, angle, exp) {
        Err(e) => Err(e),
        Ok(oriented) => match crate::line::expression_line(
            w,
            oriented.strokes,
            labels,
            prior,
            k,
            angle,
            exp,
        ) {
            Err(e) => Err(e),
            Ok(line) => Ok((oriented, analyzed(oriented.strokes, labels, line, line.len()))),
        },
    }
}

/// The tokens of the chosen candidates among the first `n` symbols. A symbol whose choice is not
/// one of its candidates has none.
pub open spec fn chosen_tokens(
    symbols: Seq<AnalyzedView>,
    choices: Seq<int>,
    n: nat,
) -> Seq<SymbolView>
    decreases n,
{
    if n == 0 {
        Seq::empty()
    } else {
        let before = chosen_tokens(symbols, choices, (n - 1) as nat);
        let s = symbols[n - 1];
        let c = choices[n - 1];
        if c < s.candidates.len() {
            before.push(
                SymbolView {
                    label: crate::latex::command_of(s.candidates[c].0),
                    bbox: s.bbox,
                },
            )
        } else {
            before
        }
    }
}

/// The layout tree of the chosen candidates.
pub open spec fn chosen_tree(symbols: Seq<AnalyzedView>, choices: Seq<int>) -> crate::structure::SltView {
    crate::structure::tree(chosen_tokens(symbols, choices, symbols.len()))
}

/// The layout tree of the chosen candidates.
pub fn compose_slt(symbols: &Vec<AnalyzedSymbol>, choices: &Vec<usize>) -> (r: Slt)
    requires
        choices.len() == symbols.len(),
    ensures
        r@ == chosen_tree(analyzed_views(symbols@), crate::sort::as_ints(choices@)),
{
    let ghost views = analyzed_views(symbols@);
    let ghost picks = crate::sort::as_ints(choices@);
    let mut tokens: Vec<Symbol> = Vec::new();
    let mut i: usize = 0;
    assert(crate::structure::symbol_views(tokens@) =~= Seq::<SymbolView>::empty());
    while i < symbols.len()
        invariant
            i <= symbols.len(),
            choices.len() == symbols.len(),
            views == analyzed_views(symbols@),
            picks == crate::sort::as_ints(choices@),
            crate::structure::symbol_views(tokens@) == chosen_tokens(views, picks, i as nat),
        decreases symbols.len() - i,
    {
        let s = &symbols[i];
        let c = choices[i];
        assert(views[i as int] == s@);
        if c < s.candidates.len() {
            let t = Symbol::new(symbol_command(s.candidates[c].0.as_str()), s.bbox);
            proof {
                assert(crate::structure::symbol_views(tokens@.push(t))
                    =~= crate::structure::symbol_views(tokens@).push(t@));
            }
            tokens.push(t);
        }
        i = i + 1;
    }
    parse(&tokens)
}

/// The SVG document of a tree; empty where the layout's numbers cannot be told in 32 bits.
pub open spec fn drawn_svg(t: crate::structure::SltView, font: Seq<RawGlyphView>) -> Seq<char> {
    if crate::typeset::fits(t, crate::typeset::EM as int, font) {
        crate::typeset::svg_of(crate::typeset::layout_of(t, crate::typeset::EM as int, font))
    } else {
        Seq::empty()
    }
}

/// The LaTeX and the SVG document of the chosen candidates.
pub fn compose(symbols: &Vec<AnalyzedSymbol>, choices: &Vec<usize>, font: &Font) -> (r: (
    String,
    String,
))
    requires
        choices.len() == symbols.len(),
    ensures
        ({
            let t = chosen_tree(analyzed_views(symbols@), crate::sort::as_ints(choices@));
            r.0@ == crate::latex::latex_of(t) && r.1@ == drawn_svg(t, font@)
        }),
{
    let slt = compose_slt(symbols, choices);
    let latex = to_latex(&slt);
    let svg = match checked_svg(&slt, font) {
        Some(svg) => svg,
        None => String::new(),
    };
    assert(""@ =~= Seq::<char>::empty()) by {
        reveal_strlit("");
    }
    (latex, svg)
}

/// The best candidate of each symbol.
pub fn best_choices(symbols: &Vec<AnalyzedSymbol>) -> (r: Vec<usize>)
    ensures
        r@ == Seq::new(symbols@.len(), |i: int| 0usize),
{
    let mut out: Vec<usize> = Vec::new();
    let mut i: usize = 0;
    while i < symbols.len()
        invariant
            i <= symbols.len(),
            out@ == Seq::new(i as nat, |i: int| 0usize),
        decreases symbols.len() - i,
    {
        out.push(0);
        i = i + 1;
        assert(out@ =~= Seq::new(i as nat, |i: int| 0usize));
    }
    out
}

/// Is the choice for symbol `k` one of its candidates?
pub open spec fn choosable(symbols: Seq<AnalyzedView>, choices: Seq<int>, k: int) -> bool {
    0 <= choices[k] && choices[k] < symbols[k].candidates.len()
}

/// The chosen candidate is the one that is written: where every choice is one of the candidates, each symbol
/// becomes the token of its chosen label, in its own box, in their order.
pub proof fn law_the_chosen_candidate_is_written(
    symbols: Seq<AnalyzedView>,
    choices: Seq<int>,
    n: nat,
    i: int,
)
    requires
        0 <= i < n <= symbols.len(),
        choices.len() == symbols.len(),
        forall|k: int|
            0 <= k < symbols.len() ==> #[trigger] choosable(symbols, choices, k),
    ensures
        chosen_tokens(symbols, choices, n).len() == n,
        chosen_tokens(symbols, choices, n)[i] == (SymbolView {
            label: crate::latex::command_of(symbols[i].candidates[choices[i]].0),
            bbox: symbols[i].bbox,
        }),
    decreases n,
{
    let last = n - 1;
    assert(choosable(symbols, choices, last));
    if n > 1 {
        law_the_chosen_candidate_is_written(symbols, choices, (n - 1) as nat, if i < last {
            i
        } else {
            0
        });
    } else {
        assert(chosen_tokens(symbols, choices, 0).len() == 0);
    }
}

/// Every symbol of the line keeps its strokes and its candidates in their order, each with the label of its
/// class, if it has a point.
pub proof fn law_analyzed_symbols_keep_their_candidates(
    ink: Seq<Seq<Point>>,
    labels: Seq<Seq<char>>,
    line: Seq<LineSymbolView>,
    n: nat,
    i: int,
    c: int,
)
    requires
        0 <= i < n <= line.len(),
        forall|k: int|
            0 <= k < line.len() ==> crate::stroke::all_points(
                crate::denoise::selected(ink, (#[trigger] line[k]).strokes),
            ).len() > 0,
        0 <= c < line[i].predictions.len(),
        line[i].predictions[c].class < labels.len(),
    ensures
        ({
            let all = analyzed(ink, labels, line, n);
            &&& all.len() == n
            &&& all[i].stroke_indices == line[i].strokes
            &&& all[i].candidates.len() == line[i].predictions.len()
            &&& all[i].candidates[c] == (
                labels[line[i].predictions[c].class as int],
                line[i].predictions[c].prob,
            )
            &&& all[i].bbox == crate::stroke::extent(
                crate::stroke::all_points(crate::denoise::selected(ink, line[i].strokes)),
            )
        }),
    decreases n,
{
    let last = n - 1;
    assert(crate::stroke::all_points(
        crate::denoise::selected(ink, line[last].strokes),
    ).len() > 0);
    lemma_analyzed_len(ink, labels, line, last as nat);
    if i < last {
        law_analyzed_symbols_keep_their_candidates(ink, labels, line, last as nat, i, c);
    }
}

proof fn lemma_analyzed_len(
    ink: Seq<Seq<Point>>,
    labels: Seq<Seq<char>>,
    line: Seq<LineSymbolView>,
    n: nat,
)
    requires
        n <= line.len(),
        forall|k: int|
            0 <= k < line.len() ==> crate::stroke::all_points(
                crate::denoise::selected(ink, (#[trigger] line[k]).strokes),
            ).len() > 0,
    ensures
        analyzed(ink, labels, line, n).len() == n,
    decreases n,
{
    if n > 0 {
        lemma_analyzed_len(ink, labels, line, (n - 1) as nat);
        assert(crate::stroke::all_points(
            crate::denoise::selected(ink, line[n - 1].strokes),
        ).len() > 0);
    }
}

} // verus!
