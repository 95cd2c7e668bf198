//! Expression recognition: segment the strokes into symbols, classify each with the network, and
//! hand the symbols with their boxes to the structure parse.
use crate::classify::model::recognize;
use crate::classify::raster::{global_features, rasterize};
use crate::classify::weights::{TensorView, Weights};
use crate::classify::{Labels, Prediction};
use crate::denoise::{keep_indices, pick};
use crate::elementary::{Fn1, Fn2};
use crate::error::Error;
use crate::float::F32;
use crate::latex::{symbol_command, to_latex};
use crate::orient::auto_orient;
use crate::prior::{expression_rank, Prior, PriorView};
use crate::segment::{copy_group, segment};
use crate::stroke::{bounds, BBox, Ink, InkView, Point, Stroke};
use crate::structure::{parse, Symbol, SymbolView};
use vstd::prelude::*;

verus! {

/// The side of the bitmap that a symbol is rendered to.
pub const BITMAP_SIZE: usize = 32;

/// One recognized symbol on the line: the indices of the strokes it was segmented from, and its
/// ranked candidates.
pub struct LineSymbol {
    pub strokes: Vec<usize>,
    pub predictions: Vec<Prediction>,
}

/// What a [`LineSymbol`] holds.
#[verifier::ext_equal]
pub struct LineSymbolView {
    pub strokes: Seq<int>,
    pub predictions: Seq<Prediction>,
}

impl View for LineSymbol {
    type V = LineSymbolView;

    open spec fn view(&self) -> LineSymbolView {
        LineSymbolView {
            strokes: crate::sort::as_ints(self.strokes@),
            predictions: self.predictions@,
        }
    }
}

/// What a list of line symbols holds.
pub open spec fn line_views(symbols: Seq<LineSymbol>) -> Seq<LineSymbolView> {
    Seq::new(symbols.len(), |i: int| symbols[i]@)
}

/// The logits of a model for the strokes of one symbol.
pub open spec fn symbol_logits(w: Seq<TensorView>, ink: Seq<Seq<Point>>) -> Result<
    Seq<F32>,
    Error,
> {
    crate::classify::model::logits_of(
        w,
        crate::classify::raster::bitmap_of(ink, BITMAP_SIZE as int),
        crate::classify::raster::features_of(ink),
        BITMAP_SIZE as int,
    )
}

/// A group of positions in `keep`, as the indices found there.
pub open spec fn as_drawn(keep: Seq<int>, group: Seq<int>) -> Seq<int> {
    Seq::new(group.len(), |j: int| keep[group[j]])
}

/// The groups, classified one after the other, or the first reason why one could not be. `ink`
/// is the drawing without noise, and `keep` its strokes' indices in the drawing.
pub open spec fn classified(
    w: Seq<TensorView>,
    ink: Seq<Seq<Point>>,
    keep: Seq<int>,
    groups: Seq<Seq<int>>,
    k: nat,
    exp: Fn1,
) -> Result<Seq<LineSymbolView>, Error>
    decreases groups.len(),
{
    if groups.len() == 0 {
        Ok(Seq::empty())
    } else {
        match classified(w, ink, keep, groups.drop_last(), k, exp) {
            Err(e) => Err(e),
            Ok(before) => match symbol_logits(
                w,
                crate::denoise::selected(ink, groups.last()),
            ) {
                Err(e) => Err(e),
                Ok(logits) => Ok(
                    before.push(
                        LineSymbolView {
                            strokes: as_drawn(keep, groups.last()),
                            predictions: crate::classify::ranked(logits, k, exp),
                        },
                    ),
                ),
            },
        }
    }
}

/// The recognized symbols of a drawing, from left to right. `angle` is the arctangent and `exp`
/// the exponential function.
pub open spec fn line_of(
    w: Seq<TensorView>,
    ink: Seq<Seq<Point>>,
    k: nat,
    angle: Fn2,
    exp: Fn1,
) -> Result<Seq<LineSymbolView>, Error> {
    let clean = crate::denoise::cleaned(ink);
    classified(
        w,
        clean,
        crate::denoise::kept(ink),
        crate::segment::symbols_of(clean, angle),
        k,
        exp,
    )
}

/// What failed for the first groups fails for all.
proof fn lemma_first_error(
    w: Seq<TensorView>,
    ink: Seq<Seq<Point>>,
    keep: Seq<int>,
    groups: Seq<Seq<int>>,
    n: int,
    k: nat,
    exp: Fn1,
)
    requires
        0 <= n <= groups.len(),
        classified(w, ink, keep, groups.take(n), k, exp) is Err,
    ensures
        classified(w, ink, keep, groups, k, exp) == classified(
            w,
            ink,
            keep,
            groups.take(n),
            k,
            exp,
        ),
    decreases groups.len(),
{
    if n < groups.len() {
        assert(groups.drop_last().take(n) =~= groups.take(n));
        lemma_first_error(w, ink, keep, groups.drop_last(), n, k, exp);
    } else {
        assert(groups.take(n) =~= groups);
    }
}

/// The ranked candidates for the strokes of one symbol.
pub(crate) fn classify_strokes<'a, E: Fn(F32) -> F32>(
    weights: &Weights<'a>,
    strokes: &Vec<Stroke>,
    k: usize,
    exp: &E,
) -> (r: Result<Vec<Prediction>, Error>)
    requires
        crate::elementary::callable1(*exp),
    ensures
        match (r, symbol_logits(weights@, crate::stroke::trajectories(strokes@))) {
            (Ok(preds), Ok(logits)) => {
                &&& preds.len() == crate::classify::kernel::top_len(logits.len(), k as nat)
                &&& forall|e: Fn1| #[trigger]
                    crate::elementary::computes1(*exp, e) ==> preds@ == crate::classify::ranked(
                        logits,
                        k as nat,
                        e,
                    )
            },
            (Err(e), Err(f)) => e == f,
            _ => false,
        },
{
    let bitmap = rasterize(strokes.as_slice(), BITMAP_SIZE);
    let features = global_features(strokes.as_slice());
    recognize(weights, bitmap.as_slice(), &features, BITMAP_SIZE, k, exp)
}

/// The indices that a group of positions stands for.
fn to_original(keep: &Vec<usize>, group: &Vec<usize>) -> (r: Vec<usize>)
    requires
        forall|j: int| 0 <= j < group.len() ==> #[trigger] group[j] < keep.len(),
    ensures
        crate::sort::as_ints(r@) == as_drawn(
            crate::sort::as_ints(keep@),
            crate::sort::as_ints(group@),
        ),
        forall|j: int| 0 <= j < r.len() ==> keep@.contains(#[trigger] r[j]),
{
    let mut out: Vec<usize> = Vec::new();
    let mut j: usize = 0;
    while j < group.len()
        invariant
            j <= group.len(),
            forall|j: int| 0 <= j < group.len() ==> #[trigger] group[j] < keep.len(),
            out.len() == j,
            forall|i: int| 0 <= i < j ==> #[trigger] out[i] == keep[group[i] as int],
            forall|i: int| 0 <= i < j ==> keep@.contains(#[trigger] out[i]),
        decreases group.len() - j,
    {
        out.push(keep[group[j]]);
        j = j + 1;
    }
    assert(crate::sort::as_ints(out@) =~= as_drawn(
        crate::sort::as_ints(keep@),
        crate::sort::as_ints(group@),
    ));
    out
}

/// Do all symbols refer to strokes of the drawing?
pub open spec fn within(symbols: Seq<LineSymbol>, count: nat) -> bool {
    forall|s: int, j: int|
        0 <= s < symbols.len() && 0 <= j < symbols[s].strokes@.len()
            ==> #[trigger] symbols[s].strokes@[j] < count
}

/// Segment `ink` into symbols and classify each, from left to right. Stray taps are dropped
/// first; the symbols still refer to the strokes of `ink`. `atan2` is the arctangent of `y / x`
/// and `exp` the exponential function.
pub fn recognize_line<'a, A: Fn(F32, F32) -> F32, E: Fn(F32) -> F32>(
    ink: &Ink,
    weights: &Weights<'a>,
    k: usize,
    atan2: &A,
    exp: &E,
) -> (r: Result<Vec<LineSymbol>, Error>)
    requires
        crate::elementary::callable2(*atan2),
        crate::elementary::callable1(*exp),
    ensures
        forall|h: Fn2, e: Fn1| #[trigger]
            crate::elementary::computes2(*atan2, h) && #[trigger] crate::elementary::computes1(
                *exp,
                e,
            ) ==> match r {
                Ok(symbols) => line_of(weights@, ink@.strokes, k as nat, h, e) == Ok::<
                    Seq<LineSymbolView>,
                    Error,
                >(line_views(symbols@)),
                Err(x) => line_of(weights@, ink@.strokes, k as nat, h, e) == Err::<
                    Seq<LineSymbolView>,
                    Error,
                >(x),
            },
        match r {
            Ok(symbols) => within(symbols@, ink@.strokes.len()),
            Err(_) => true,
        },
{
    let ghost strokes = ink@.strokes;
    let keep = keep_indices(ink.strokes.as_slice());
    let kept = pick(ink.strokes.as_slice(), &keep);
    let groups = segment(kept.as_slice(), atan2);
    let ghost clean = crate::denoise::cleaned(strokes);
    let ghost places = crate::denoise::kept(strokes);
    let ghost all = crate::segment::group_views(groups@);
    let mut out: Vec<LineSymbol> = Vec::new();
    let mut g: usize = 0;
    assert(line_views(out@) =~= Seq::<LineSymbolView>::empty());
    while g < groups.len()
        invariant
            g <= groups.len(),
            crate::elementary::callable1(*exp),
            strokes == ink@.strokes,
            crate::stroke::trajectories(kept@) == clean,
            clean == crate::denoise::cleaned(strokes),
            crate::sort::as_ints(keep@) == places,
            places == crate::denoise::kept(strokes),
            keep.len() == kept.len(),
            all == crate::segment::group_views(groups@),
            forall|n: int| 0 <= n < keep.len() ==> #[trigger] keep[n] < strokes.len(),
            forall|i: int|
                0 <= i < groups.len() ==> crate::segment::members_live(
                    #[trigger] groups[i]@,
                    kept@,
                ),
            forall|h: Fn2| #[trigger]
                crate::elementary::computes2(*atan2, h) ==> all == crate::segment::symbols_of(
                    clean,
                    h,
                ),
            within(out@, strokes.len()),
            forall|e: Fn1| #[trigger]
                crate::elementary::computes1(*exp, e) ==> classified(
                    weights@,
                    clean,
                    places,
                    all.take(g as int),
                    k as nat,
                    e,
                ) == Ok::<Seq<LineSymbolView>, Error>(line_views(out@)),
        decreases groups.len() - g,
    {
        let group = &groups[g];
        assert(crate::segment::members_live(groups[g as int]@, kept@));
        let own = pick(kept.as_slice(), group);
        let places_of = to_original(&keep, group);
        proof {
            assert(all.take(g + 1).drop_last() =~= all.take(g as int));
            assert(all.take(g + 1).last() == crate::sort::as_ints(group@));
        }
        match classify_strokes(weights, &own, k, exp) {
            Err(x) => {
                proof {
                    assert forall|h: Fn2, e: Fn1| #[trigger]
                        crate::elementary::computes2(*atan2, h) && #[trigger]
                        crate::elementary::computes1(*exp, e) implies line_of(
                        weights@,
                        strokes,
                        k as nat,
                        h,
                        e,
                    ) == Err::<Seq<LineSymbolView>, Error>(x) by {
                        lemma_first_error(weights@, clean, places, all, g + 1, k as nat, e);
                    }
                }
                return Err(x);
            },
            Ok(predictions) => {
                let s = LineSymbol { strokes: places_of, predictions };
                proof {
                    assert(line_views(out@.push(s)) =~= line_views(out@).push(s@));
                    assert forall|i: int, j: int|
                        0 <= i < out@.push(s).len() && 0 <= j < out@.push(
                            s,
                        )[i].strokes@.len() implies #[trigger] out@.push(s)[i].strokes@[j]
                        < strokes.len() by {
                        if i < out.len() {
                            assert(out@[i].strokes@[j] < strokes.len());
                        } else {
                            assert(keep@.contains(places_of[j]));
                        }
                    }
                }
                out.push(s);
            },
        }
        g = g + 1;
    }
    assert(all.take(g as int) =~= all);
    Ok(out)
}

/// Recognized symbols with corrected rankings.
pub open spec fn corrected_line(
    line: Seq<LineSymbolView>,
    labels: Seq<Seq<char>>,
    prior: PriorView,
    k: nat,
) -> Seq<LineSymbolView> {
    Seq::new(
        line.len(),
        |i: int|
            LineSymbolView {
                strokes: line[i].strokes,
                predictions: crate::prior::corrected(line[i].predictions, labels, prior, k),
            },
    )
}

/// Correct the rankings of recognized symbols, and keep the `k` best candidates of each.
pub fn rank_symbols(line: &Vec<LineSymbol>, labels: &Labels, prior: &Prior, k: usize) -> (r: Vec<
    LineSymbol,
>)
    ensures
        line_views(r@) == corrected_line(line_views(line@), labels@, prior@, k as nat),
        forall|n: nat| within(line@, n) ==> #[trigger] within(r@, n),
{
    let ghost want = corrected_line(line_views(line@), labels@, prior@, k as nat);
    let mut out: Vec<LineSymbol> = Vec::new();
    let mut i: usize = 0;
    while i < line.len()
        invariant
            i <= line.len(),
            want == corrected_line(line_views(line@), labels@, prior@, k as nat),
            out.len() == i,
            forall|j: int| 0 <= j < i ==> (#[trigger] out[j])@ == want[j],
            forall|j: int| 0 <= j < i ==> (#[trigger] out[j]).strokes@ == line[j].strokes@,
        decreases line.len() - i,
    {
        let s = &line[i];
        assert(line_views(line@)[i as int] == s@);
        out.push(
            LineSymbol {
                strokes: copy_group(&s.strokes),
                predictions: expression_rank(&s.predictions, labels, prior, k),
            },
        );
        i = i + 1;
    }
    proof {
        assert(line_views(out@) =~= want);
        assert forall|n: nat| within(line@, n) implies #[trigger] within(out@, n) by {
            assert forall|s: int, j: int|
                0 <= s < out.len() && 0 <= j < out@[s].strokes@.len() implies #[trigger] out@[s].strokes@[j]
                < n by {
                assert(out[s].strokes@ == line[s].strokes@);
                assert(line@[s].strokes@[j] < n);
            }
        }
    }
    out
}

/// The symbols of an expression: those of the drawing, with `k` candidates each. Where there is a
/// prior, they are the best of the classifier's whole ranking as it is corrected.
pub open spec fn expression_line(
    w: Seq<TensorView>,
    ink: Seq<Seq<Point>>,
    labels: Seq<Seq<char>>,
    prior: Option<PriorView>,
    k: nat,
    angle: Fn2,
    exp: Fn1,
) -> Result<Seq<LineSymbolView>, Error> {
    match prior {
        None => line_of(w, ink, k, angle, exp),
        Some(p) => match line_of(w, ink, usize::MAX as nat, angle, exp) {
            Err(e) => Err(e),
            Ok(line) => Ok(corrected_line(line, labels, p, k)),
        },
    }
}

/// Recognize the symbols of an expression. With a prior, the whole ranking of each is restricted to
/// the vocabulary and corrected before the `k` best candidates are taken.
pub fn recognize_symbols<'a, A: Fn(F32, F32) -> F32, E: Fn(F32) -> F32>(
    ink: &Ink,
    weights: &Weights<'a>,
    labels: &Labels,
    prior: Option<&Prior>,
    k: usize,
    atan2: &A,
    exp: &E,
) -> (r: Result<Vec<LineSymbol>, Error>)
    requires
        crate::elementary::callable2(*atan2),
        crate::elementary::callable1(*exp),
    ensures
        forall|h: Fn2, e: Fn1| #[trigger]
            crate::elementary::computes2(*atan2, h) && #[trigger] crate::elementary::computes1(
                *exp,
                e,
            ) ==> match (
                r,
                expression_line(
                    weights@,
                    ink@.strokes,
                    labels@,
                    crate::prior::prior_view(prior),
                    k as nat,
                    h,
                    e,
                ),
            ) {
                (Ok(symbols), Ok(want)) => line_views(symbols@) == want,
                (Err(x), Err(y)) => x == y,
                _ => false,
            },
        match r {
            Ok(symbols) => within(symbols@, ink@.strokes.len()),
            Err(_) => true,
        },
{
    match prior {
        None => recognize_line(ink, weights, k, atan2, exp),
        Some(p) => {
            let line = recognize_line(ink, weights, usize::MAX, atan2, exp)?;
            Ok(rank_symbols(&line, labels, p, k))
        },
    }
}

/// The label of a class, or nothing where there is none.
pub open spec fn label_of(labels: Seq<Seq<char>>, class: int) -> Seq<char> {
    if class < labels.len() {
        labels[class]
    } else {
        ""@
    }
}

/// The first `n` recognized symbols as tokens with their places. A symbol without candidates, or
/// without a point, has none.
pub open spec fn placed(
    ink: Seq<Seq<Point>>,
    labels: Seq<Seq<char>>,
    symbols: Seq<LineSymbolView>,
    n: nat,
) -> Seq<SymbolView>
    decreases n,
{
    if n == 0 {
        Seq::empty()
    } else {
        let before = placed(ink, labels, symbols, (n - 1) as nat);
        let s = symbols[n - 1];
        let points = crate::stroke::all_points(crate::denoise::selected(ink, s.strokes));
        match crate::stroke::extent_of(points) {
            Some(bbox) if s.predictions.len() > 0 => before.push(
                SymbolView {
                    label: crate::latex::command_of(
                        label_of(labels, s.predictions[0].class as int),
                    ),
                    bbox,
                },
            ),
            _ => before,
        }
    }
}

/// The LaTeX of recognized symbols.
pub open spec fn composed(
    ink: Seq<Seq<Point>>,
    labels: Seq<Seq<char>>,
    symbols: Seq<LineSymbolView>,
) -> Seq<char> {
    crate::latex::latex_of(crate::structure::tree(placed(ink, labels, symbols, symbols.len())))
}

/// The box of a group of strokes.
pub(crate) fn strokes_bbox(ink: &Ink, idx: &Vec<usize>) -> (r: Option<BBox>)
    requires
        forall|j: int| 0 <= j < idx.len() ==> #[trigger] idx[j] < ink@.strokes.len(),
    ensures
        r == crate::stroke::extent_of(
            crate::stroke::all_points(
                crate::denoise::selected(ink@.strokes, crate::sort::as_ints(idx@)),
            ),
        ),
{
    let own = pick(ink.strokes.as_slice(), idx);
    bounds(own.as_slice())
}

/// The LaTeX of recognized symbols: each contributes its best label, mapped to a token, and the
/// box of its strokes.
pub fn compose_line(ink: &Ink, labels: &Labels, symbols: &Vec<LineSymbol>) -> (r: String)
    requires
        within(symbols@, ink@.strokes.len()),
    ensures
        r@ == composed(ink@.strokes, labels@, line_views(symbols@)),
{
    let ghost views = line_views(symbols@);
    let mut tokens: Vec<Symbol> = Vec::new();
    let mut i: usize = 0;
    assert(crate::structure::symbol_views(tokens@) =~= Seq::<SymbolView>::empty());
    while i < symbols.len()
        invariant
            i <= symbols.len(),
            views == line_views(symbols@),
            within(symbols@, ink@.strokes.len()),
            crate::structure::symbol_views(tokens@) == placed(
                ink@.strokes,
                labels@,
                views,
                i as nat,
            ),
        decreases symbols.len() - i,
    {
        let s = &symbols[i];
        assert(views[i as int] == s@);
        assert forall|j: int| 0 <= j < s.strokes.len() implies #[trigger] s.strokes[j]
            < ink@.strokes.len() by {
            assert(symbols@[i as int].strokes@[j] < ink@.strokes.len());
        }
        if s.predictions.len() > 0 {
            let label = match labels.get(s.predictions[0].class) {
                Some(label) => label,
                None => "",
            };
            let token = symbol_command(label);
            if let Some(bbox) = strokes_bbox(ink, &s.strokes) {
                let t = Symbol::new(token, bbox);
                proof {
                    assert(crate::structure::symbol_views(tokens@.push(t))
                        =~= crate::structure::symbol_views(tokens@).push(t@));
                }
                tokens.push(t);
            }
        }
        i = i + 1;
    }
    to_latex(&parse(&tokens))
}

/// The LaTeX of a drawing: the upright drawing's symbols, composed.
pub open spec fn latex_of_ink(
    w: Seq<TensorView>,
    ink: InkView,
    labels: Seq<Seq<char>>,
    prior: Option<PriorView>,
    k: nat,
    angle: Fn2,
    exp: Fn1,
) -> Result<Seq<char>, Error> {
    match crate::orient::upright(w, ink, angle, exp) {
        Err(e) => Err(e),
        Ok(oriented) => match expression_line(w, oriented.strokes, labels, prior, k, angle, exp) {
            Err(e) => Err(e),
            Ok(symbols) => Ok(composed(oriented.strokes, labels, symbols)),
        },
    }
}

/// The whole pipeline: ink, orientation, segmentation, classification, structure, LaTeX. The result
/// is empty on empty input. With a prior, the classifier's rankings are corrected. `atan2` is the
/// arctangent of `y / x` and `exp` the exponential function.
pub fn recognize_expression<'a, A: Fn(F32, F32) -> F32, E: Fn(F32) -> F32>(
    ink: &Ink,
    weights: &Weights<'a>,
    labels: &Labels,
    prior: Option<&Prior>,
    k: usize,
    atan2: &A,
    exp: &E,
) -> (r: Result<String, Error>)
    requires
        crate::elementary::callable2(*atan2),
        crate::elementary::callable1(*exp),
    ensures
        forall|h: Fn2, e: Fn1| #[trigger]
            crate::elementary::computes2(*atan2, h) && #[trigger] crate::elementary::computes1(
                *exp,
                e,
            ) ==> match (
                r,
                latex_of_ink(
                    weights@,
                    ink@,
                    labels@,
                    crate::prior::prior_view(prior),
                    k as nat,
                    h,
                    e,
                ),
            ) {
                (Ok(text), Ok(want)) => text@ == want,
                (Err(x), Err(y)) => x == y,
                _ => false,
            },
{
    let oriented = auto_orient(ink, weights, atan2, exp)?;
    let symbols = recognize_symbols(&oriented, weights, labels, prior, k, atan2, exp)?;
    Ok(compose_line(&oriented, labels, &symbols))
}

// ---------------------------------------------------------------------------------------------
// Laws
// ---------------------------------------------------------------------------------------------
/// The strokes of each symbol.
pub open spec fn strokes_of(symbols: Seq<LineSymbolView>) -> Seq<Seq<int>> {
    Seq::new(symbols.len(), |i: int| symbols[i].strokes)
}

proof fn lemma_times_member(s: Seq<int>, j: int)
    requires
        0 <= j < s.len(),
    ensures
        crate::segment::times_in(s, s[j]) > 0,
    decreases s.len(),
{
    if j < s.len() - 1 {
        lemma_times_member(s.drop_last(), j);
    }
}

proof fn lemma_times_group(groups: Seq<Seq<int>>, g: int, v: int)
    requires
        0 <= g < groups.len(),
    ensures
        crate::segment::times_in_groups(groups, v) >= crate::segment::times_in(groups[g], v),
    decreases groups.len(),
{
    if g < groups.len() - 1 {
        lemma_times_group(groups.drop_last(), g, v);
    }
}

proof fn lemma_times_original(keep: Seq<int>, s: Seq<int>, v: int)
    requires
        forall|i: int, j: int| 0 <= i < j < keep.len() ==> keep[i] < keep[j],
        forall|j: int| 0 <= j < s.len() ==> 0 <= #[trigger] s[j] < keep.len(),
    ensures
        !keep.contains(v) ==> crate::segment::times_in(as_drawn(keep, s), v) == 0,
        forall|n: int|
            0 <= n < keep.len() && #[trigger] keep[n] == v ==> crate::segment::times_in(
                as_drawn(keep, s),
                v,
            ) == crate::segment::times_in(s, n),
    decreases s.len(),
{
    if s.len() > 0 {
        assert(as_drawn(keep, s).drop_last() =~= as_drawn(keep, s.drop_last()));
        lemma_times_original(keep, s.drop_last(), v);
        let last = s[s.len() - 1];
        assert(keep.contains(keep[last]));
    }
}

proof fn lemma_times_classified(
    w: Seq<TensorView>,
    ink: Seq<Seq<Point>>,
    keep: Seq<int>,
    groups: Seq<Seq<int>>,
    k: nat,
    exp: Fn1,
    v: int,
)
    requires
        classified(w, ink, keep, groups, k, exp) is Ok,
        forall|i: int, j: int| 0 <= i < j < keep.len() ==> keep[i] < keep[j],
        forall|g: int, j: int|
            0 <= g < groups.len() && 0 <= j < groups[g].len() ==> 0 <= #[trigger] groups[g][j]
                < keep.len(),
    ensures
        ({
            let found = strokes_of(classified(w, ink, keep, groups, k, exp)->Ok_0);
            &&& !keep.contains(v) ==> crate::segment::times_in_groups(found, v) == 0
            &&& forall|n: int|
                0 <= n < keep.len() && #[trigger] keep[n] == v ==> crate::segment::times_in_groups(
                    found,
                    v,
                ) == crate::segment::times_in_groups(groups, n)
        }),
    decreases groups.len(),
{
    let all = classified(w, ink, keep, groups, k, exp)->Ok_0;
    if groups.len() > 0 {
        let rest = groups.drop_last();
        assert forall|g: int, j: int| 0 <= g < rest.len() && 0 <= j < rest[g].len() implies 0
            <= #[trigger] rest[g][j] < keep.len() by {
            assert(rest[g] == groups[g]);
            assert(0 <= groups[g][j] < keep.len());
        }
        lemma_times_classified(w, ink, keep, rest, k, exp, v);
        assert forall|j: int| 0 <= j < groups.last().len() implies 0 <= #[trigger] groups.last()[j]
            < keep.len() by {
            assert(0 <= groups[groups.len() - 1][j] < keep.len());
        }
        lemma_times_original(keep, groups.last(), v);
        let before = classified(w, ink, keep, rest, k, exp)->Ok_0;
        assert(strokes_of(all).drop_last() =~= strokes_of(before));
        assert(strokes_of(all).last() == as_drawn(keep, groups.last()));
    }
}

/// Every stroke that is not noise is in exactly one recognized symbol, and no other stroke is in
/// any: the symbols refer to the strokes that were drawn.
pub proof fn law_every_kept_stroke_is_recognized_once(
    w: Seq<TensorView>,
    ink: Seq<Seq<Point>>,
    k: nat,
    angle: Fn2,
    exp: Fn1,
    v: int,
)
    requires
        line_of(w, ink, k, angle, exp) is Ok,
    ensures
        crate::segment::times_in_groups(
            strokes_of(line_of(w, ink, k, angle, exp)->Ok_0),
            v,
        ) == if crate::denoise::kept(ink).contains(v) {
            1nat
        } else {
            0
        },
{
    let keep = crate::denoise::kept(ink);
    let clean = crate::denoise::cleaned(ink);
    let groups = crate::segment::symbols_of(clean, angle);
    crate::denoise::law_survivors_keep_their_order(ink);
    assert forall|g: int, j: int| 0 <= g < groups.len() && 0 <= j < groups[g].len() implies 0
        <= #[trigger] groups[g][j] < keep.len() by {
        let m = groups[g][j];
        lemma_times_member(groups[g], j);
        lemma_times_group(groups, g, m);
        crate::segment::law_every_stroke_is_in_one_symbol(clean, angle, m);
    }
    lemma_times_classified(w, clean, keep, groups, k, exp, v);
    if keep.contains(v) {
        let n = choose|n: int| 0 <= n < keep.len() && keep[n] == v;
        assert(clean[n] == ink[keep[n]]);
        crate::segment::law_every_stroke_is_in_one_symbol(clean, angle, n);
    }
}

/// The symbols of a line stand for their most probable classes: where every symbol has a candidate and a
/// point, each becomes the token of its first candidate's label, in the box of its own strokes, in the
/// order of the line.
pub proof fn law_the_best_candidate_is_written(
    ink: Seq<Seq<Point>>,
    labels: Seq<Seq<char>>,
    symbols: Seq<LineSymbolView>,
    n: nat,
    i: int,
)
    requires
        0 <= i < n <= symbols.len(),
        forall|k: int|
            0 <= k < symbols.len() ==> (#[trigger] symbols[k]).predictions.len() > 0
                && crate::stroke::all_points(
                crate::denoise::selected(ink, symbols[k].strokes),
            ).len() > 0 && symbols[k].predictions[0].class < labels.len(),
    ensures
        placed(ink, labels, symbols, n).len() == n,
        placed(ink, labels, symbols, n)[i] == (SymbolView {
            label: crate::latex::command_of(labels[symbols[i].predictions[0].class as int]),
            bbox: crate::stroke::extent(
                crate::stroke::all_points(crate::denoise::selected(ink, symbols[i].strokes)),
            ),
        }),
    decreases n,
{
    let last = n - 1;
    assert(symbols[last].predictions.len() > 0);
    if n > 1 {
        law_the_best_candidate_is_written(ink, labels, symbols, (n - 1) as nat, if i < last {
            i
        } else {
            0
        });
    } else {
        assert(placed(ink, labels, symbols, 0).len() == 0);
    }
}

} // verus!
