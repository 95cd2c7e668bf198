//! Replacing handwriting by typeset strokes: what was written, the strokes that erase it, and the
//! strokes that write it anew in the same place.
use crate::classify::weights::{TensorView, Weights};
use crate::classify::Labels;
use crate::elementary::{Fn1, Fn2};
use crate::error::Error;
use crate::expression::{analyze, best_choices, compose_slt, AnalyzedView};
use crate::float::{num, F32};
use crate::glyphs::{Font, RawGlyphView};
use crate::latex::to_latex;
use crate::prior::{Prior, PriorView};
use crate::segment::measure_path;
use crate::stroke::{grow_all, BBox, Ink, InkView, Point, Stroke, LARGEST, ONE, SMALLEST, TWO, ZERO};
use crate::text::{append, text_of};
use crate::typeset::{checked_strokes, PlanView, StrokePlan};
use crate::watch::HOLD_EPS;
use vstd::prelude::*;

verus! {

/// 3.
pub const THREE: u32 = 0x4040_0000;

/// How far above and below a stroke the eraser passes once more: 0.004 of the screen.
pub const ERASE_OFFSET: u32 = 0x3b83_126f;

/// The same, upwards.
pub const ERASE_OFFSET_UP: u32 = 0xbb83_126f;

/// The right end of what is written anew: 0.96 of the screen.
pub const RIGHT_EDGE: u32 = 0x3f75_c28f;

/// The least room that is left to the right: 0.05 of the screen.
pub const LEAST_ROOM: u32 = 0x3d4c_cccd;

/// The least scale: 0.00001.
pub const LEAST_SCALE: u32 = 0x3727_c5ac;

/// How many candidates are looked at.
pub const CANDIDATES: usize = 5;

/// Why handwriting was left as it is.
#[derive(Debug, Clone, Copy)]
pub enum Refusal {
    /// There is nothing on the page but the gesture.
    Nothing,
    /// Recognition failed.
    Unrecognized(Error),
    /// The layout's numbers cannot be told in 32 bits.
    TooLarge,
    /// No symbol could be drawn.
    EmptyPlan,
    /// The digitizer has no eraser.
    NoEraser,
}

/// What a [`Refusal`] says to a person.
pub open spec fn refusal_text(r: Refusal) -> Seq<char> {
    match r {
        Refusal::Nothing => "nothing but the hold itself was written"@,
        Refusal::Unrecognized(e) => crate::error::message_of(e),
        Refusal::TooLarge => "the layout is too large"@,
        Refusal::EmptyPlan => "stroke plan came back empty"@,
        Refusal::NoEraser => "digitizer has no eraser tool \u{2014} beautify would double-draw"@,
    }
}

impl Refusal {
    /// What the refusal says to a person.
    pub fn message(&self) -> (r: String)
        ensures
            r@ == refusal_text(*self),
    {
        let mut out: Vec<char> = Vec::new();
        match self {
            Refusal::Nothing => append(&mut out, "nothing but the hold itself was written"),
            Refusal::Unrecognized(e) => append(&mut out, e.message().as_str()),
            Refusal::TooLarge => append(&mut out, "the layout is too large"),
            Refusal::EmptyPlan => append(&mut out, "stroke plan came back empty"),
            Refusal::NoEraser => append(
                &mut out,
                "digitizer has no eraser tool \u{2014} beautify would double-draw",
            ),
        }
        assert(out@ =~= refusal_text(*self));
        text_of(&out)
    }
}

// ---------------------------------------------------------------------------------------------
// What was written
// ---------------------------------------------------------------------------------------------
/// Is the stroke no more than the pen being held still?
pub open spec fn mere_hold(stroke: Seq<Point>) -> bool {
    crate::segment::path_length(stroke, stroke.len()).lt(num(THREE).times(num(HOLD_EPS)))
}

/// The strokes without the last one, if that is no more than the pen being held still. A stroke
/// that was written before the pen came to rest stays.
pub open spec fn content(strokes: Seq<Seq<Point>>) -> Seq<Seq<Point>> {
    if strokes.len() > 0 && mere_hold(strokes.last()) {
        strokes.drop_last()
    } else {
        strokes
    }
}

/// The drawing without the gesture that ends it.
pub fn without_hold(ink: &Ink) -> (r: Ink)
    ensures
        r@ == (InkView { strokes: content(ink@.strokes), ..ink@ }),
{
    let mut out = ink.clone();
    let n: usize = out.strokes.len();
    if n > 0 {
        assert(ink@.strokes.last() == out.strokes[n - 1]@) by {
            assert(out@.strokes[n - 1] == out.strokes[n - 1]@);
        }
        let length = measure_path(&out.strokes[n - 1].points);
        if length.lt(num(THREE).times(num(HOLD_EPS))) {
            out.strokes.pop();
            assert(out@.strokes =~= ink@.strokes.drop_last());
        }
    }
    out
}

// ---------------------------------------------------------------------------------------------
// Erasing
// ---------------------------------------------------------------------------------------------
/// A stroke's path, moved down by `dy`.
pub open spec fn lowered(stroke: Seq<Point>, dy: F32) -> Seq<(F32, F32)> {
    Seq::new(stroke.len(), |i: int| (stroke[i].x, stroke[i].y.plus(dy)))
}

/// One pass over all strokes.
pub open spec fn pass(strokes: Seq<Seq<Point>>, dy: F32) -> Seq<Seq<(F32, F32)>> {
    Seq::new(strokes.len(), |i: int| lowered(strokes[i], dy))
}

/// The eraser's paths: along every stroke, then a little below, then a little above.
pub open spec fn erasing(strokes: Seq<Seq<Point>>) -> Seq<Seq<(F32, F32)>> {
    pass(strokes, num(ZERO)) + pass(strokes, num(ERASE_OFFSET)) + pass(
        strokes,
        num(ERASE_OFFSET_UP),
    )
}

fn lower(stroke: &Stroke, dy: F32) -> (r: Vec<(F32, F32)>)
    ensures
        r@ == lowered(stroke@, dy),
{
    let mut out: Vec<(F32, F32)> = Vec::new();
    let mut i: usize = 0;
    while i < stroke.points.len()
        invariant
            i <= stroke.points.len(),
            out@ == lowered(stroke@, dy).take(i as int),
        decreases stroke.points.len() - i,
    {
        let p = stroke.points[i];
        out.push((p.x, p.y.plus(dy)));
        i = i + 1;
        assert(out@ =~= lowered(stroke@, dy).take(i as int));
    }
    assert(lowered(stroke@, dy).take(i as int) =~= lowered(stroke@, dy));
    out
}

fn pass_over(out: &mut Vec<Vec<(F32, F32)>>, strokes: &Vec<Stroke>, dy: F32)
    ensures
        crate::glyphs::nested(final(out)@) == crate::glyphs::nested(old(out)@) + pass(
            crate::stroke::trajectories(strokes@),
            dy,
        ),
{
    let ghost start = crate::glyphs::nested(out@);
    let ghost want = pass(crate::stroke::trajectories(strokes@), dy);
    let mut i: usize = 0;
    assert(start + want.take(0) =~= start);
    while i < strokes.len()
        invariant
            i <= strokes.len(),
            want == pass(crate::stroke::trajectories(strokes@), dy),
            crate::glyphs::nested(out@) == start + want.take(i as int),
        decreases strokes.len() - i,
    {
        let path = lower(&strokes[i], dy);
        proof {
            crate::glyphs::lemma_nested_push(out@, path);
            assert(want[i as int] == path@);
            assert(start + want.take(i + 1) =~= (start + want.take(i as int)).push(path@));
        }
        out.push(path);
        i = i + 1;
    }
    assert(want.take(i as int) =~= want);
}

/// The eraser's paths.
pub fn erase(strokes: &Vec<Stroke>) -> (r: Vec<Vec<(F32, F32)>>)
    ensures
        crate::glyphs::nested(r@) == erasing(crate::stroke::trajectories(strokes@)),
{
    let mut out: Vec<Vec<(F32, F32)>> = Vec::new();
    assert(crate::glyphs::nested(out@) =~= Seq::<Seq<(F32, F32)>>::empty());
    pass_over(&mut out, strokes, num(ZERO));
    pass_over(&mut out, strokes, num(ERASE_OFFSET));
    pass_over(&mut out, strokes, num(ERASE_OFFSET_UP));
    assert(crate::glyphs::nested(out@) =~= erasing(crate::stroke::trajectories(strokes@)));
    out
}

// ---------------------------------------------------------------------------------------------
// Writing anew
// ---------------------------------------------------------------------------------------------
/// How the plan is scaled: as high as the handwriting was, but no further than the right edge, and
/// never to nothing.
pub open spec fn scale_for(place: BBox, w: F32, h: F32) -> F32 {
    let room = num(RIGHT_EDGE).minus(place.min_x).max(num(LEAST_ROOM));
    place.max_y.minus(place.min_y).over(h.max(num(ONE))).min(room.over(w.max(num(ONE)))).max(
        num(LEAST_SCALE),
    )
}

/// Where the top of the plan comes to lie: the plan is centred on the height of the handwriting.
pub open spec fn top_for(place: BBox, h: F32, scale: F32) -> F32 {
    place.min_y.plus(
        place.max_y.minus(place.min_y).minus(h.times(scale)).over(num(TWO)),
    )
}

/// A path of the plan on the page.
pub open spec fn moved(path: Seq<(F32, F32)>, x: F32, y: F32, scale: F32) -> Seq<(F32, F32)> {
    Seq::new(
        path.len(),
        |i: int| (x.plus(path[i].0.times(scale)), y.plus(path[i].1.times(scale))),
    )
}

/// The pen's paths: the plan, fitted into the place where the handwriting was.
pub open spec fn rewriting(plan: PlanView, place: BBox) -> Seq<Seq<(F32, F32)>> {
    let scale = scale_for(place, plan.w, plan.h);
    let y = top_for(place, plan.h, scale);
    Seq::new(plan.polylines.len(), |i: int| moved(plan.polylines[i], place.min_x, y, scale))
}

/// The box around all points of the strokes.
pub open spec fn place_of(strokes: Seq<Seq<Point>>) -> BBox {
    crate::stroke::hull(crate::stroke::void_box(), crate::stroke::all_points(strokes))
}

/// The box around all points of the strokes.
pub fn ink_bbox(strokes: &Vec<Stroke>) -> (r: BBox)
    ensures
        r == place_of(crate::stroke::trajectories(strokes@)),
{
    let ghost ink = crate::stroke::trajectories(strokes@);
    let mut b = BBox {
        min_x: num(LARGEST),
        min_y: num(LARGEST),
        max_x: num(SMALLEST),
        max_y: num(SMALLEST),
    };
    let mut i: usize = 0;
    while i < strokes.len()
        invariant
            i <= strokes.len(),
            ink == crate::stroke::trajectories(strokes@),
            b == place_of(ink.take(i as int)),
        decreases strokes.len() - i,
    {
        let points = &strokes[i].points;
        proof {
            assert(ink.take(i + 1).drop_last() =~= ink.take(i as int));
            assert(ink.take(i + 1).last() == points@);
            crate::stroke::lemma_hull_parts(
                crate::stroke::void_box(),
                crate::stroke::all_points(ink.take(i as int)),
                points@,
            );
        }
        b = grow_all(b, points);
        i = i + 1;
    }
    assert(ink.take(i as int) =~= ink);
    b
}

fn move_path(path: &Vec<(F32, F32)>, x: F32, y: F32, scale: F32) -> (r: Vec<(F32, F32)>)
    ensures
        r@ == moved(path@, x, y, scale),
{
    let mut out: Vec<(F32, F32)> = Vec::new();
    let mut i: usize = 0;
    while i < path.len()
        invariant
            i <= path.len(),
            out@ == moved(path@, x, y, scale).take(i as int),
        decreases path.len() - i,
    {
        let p = path[i];
        out.push((x.plus(p.0.times(scale)), y.plus(p.1.times(scale))));
        i = i + 1;
        assert(out@ =~= moved(path@, x, y, scale).take(i as int));
    }
    assert(moved(path@, x, y, scale).take(i as int) =~= moved(path@, x, y, scale));
    out
}

/// Fit a plan into the place where the handwriting was.
pub fn rewrite(plan: &StrokePlan, place: &BBox) -> (r: Vec<Vec<(F32, F32)>>)
    ensures
        crate::glyphs::nested(r@) == rewriting(plan@, *place),
{
    let room = num(RIGHT_EDGE).minus(place.min_x).max(num(LEAST_ROOM));
    let scale = place.max_y.minus(place.min_y).over(plan.h.max(num(ONE))).min(
        room.over(plan.w.max(num(ONE))),
    ).max(num(LEAST_SCALE));
    let y = place.min_y.plus(
        place.max_y.minus(place.min_y).minus(plan.h.times(scale)).over(num(TWO)),
    );
    let ghost want = rewriting(plan@, *place);
    let mut out: Vec<Vec<(F32, F32)>> = Vec::new();
    let mut i: usize = 0;
    assert(crate::glyphs::nested(out@) =~= want.take(0));
    while i < plan.polylines.len()
        invariant
            i <= plan.polylines.len(),
            want == rewriting(plan@, *place),
            scale == scale_for(*place, plan.w, plan.h),
            y == top_for(*place, plan.h, scale),
            crate::glyphs::nested(out@) == want.take(i as int),
        decreases plan.polylines.len() - i,
    {
        let path = move_path(&plan.polylines[i], place.min_x, y, scale);
        proof {
            crate::glyphs::lemma_nested_push(out@, path);
            assert(want[i as int] == path@);
            assert(want.take(i + 1) =~= want.take(i as int).push(path@));
        }
        out.push(path);
        i = i + 1;
    }
    assert(want.take(i as int) =~= want);
    out
}

// ---------------------------------------------------------------------------------------------
// The whole
// ---------------------------------------------------------------------------------------------
/// What is to be done with the page: the eraser's paths and then the pen's paths, and what the
/// handwriting was read as.
#[derive(Debug)]
pub struct Rewrite {
    pub latex: String,
    pub missing: Vec<String>,
    pub erase: Vec<Vec<(F32, F32)>>,
    pub draw: Vec<Vec<(F32, F32)>>,
}

/// What a [`Rewrite`] holds.
#[verifier::ext_equal]
pub struct RewriteView {
    pub latex: Seq<char>,
    pub missing: Seq<Seq<char>>,
    pub erase: Seq<Seq<(F32, F32)>>,
    pub draw: Seq<Seq<(F32, F32)>>,
}

impl View for Rewrite {
    type V = RewriteView;

    open spec fn view(&self) -> RewriteView {
        RewriteView {
            latex: self.latex@,
            missing: crate::text::text_views(self.missing@),
            erase: crate::glyphs::nested(self.erase@),
            draw: crate::glyphs::nested(self.draw@),
        }
    }
}

/// What is to be done with a page on which the given symbols were recognized.
pub open spec fn replacement(
    strokes: Seq<Seq<Point>>,
    symbols: Seq<AnalyzedView>,
    font: Seq<RawGlyphView>,
    has_rubber: bool,
) -> Result<RewriteView, Refusal> {
    let t = crate::expression::chosen_tree(symbols, Seq::new(symbols.len(), |i: int| 0));
    if !crate::typeset::fits(t, crate::typeset::EM as int, font) {
        Err(Refusal::TooLarge)
    } else {
        let plan = crate::typeset::plan_of(
            crate::typeset::layout_of(t, crate::typeset::EM as int, font),
            font,
        );
        if plan.polylines.len() == 0 {
            Err(Refusal::EmptyPlan)
        } else if !has_rubber {
            Err(Refusal::NoEraser)
        } else {
            Ok(
                RewriteView {
                    latex: crate::latex::latex_of(t),
                    missing: plan.missing,
                    erase: erasing(strokes),
                    draw: rewriting(plan, place_of(content(strokes))),
                },
            )
        }
    }
}

/// What is to be done with a page.
pub open spec fn rewrite_of(
    w: Seq<TensorView>,
    ink: InkView,
    labels: Seq<Seq<char>>,
    prior: Option<PriorView>,
    font: Seq<RawGlyphView>,
    has_rubber: bool,
    angle: Fn2,
    exp: Fn1,
) -> Result<RewriteView, Refusal> {
    let written = InkView { strokes: content(ink.strokes), ..ink };
    if written.strokes.len() == 0 {
        Err(Refusal::Nothing)
    } else {
        match crate::expression::expression_of(
            w,
            written,
            labels,
            prior,
            CANDIDATES as nat,
            angle,
            exp,
        ) {
            Err(e) => Err(Refusal::Unrecognized(e)),
            Ok((_, symbols)) => replacement(ink.strokes, symbols, font, has_rubber),
        }
    }
}

/// Replace a page on which the given symbols were recognized.
pub fn replace(
    ink: &Ink,
    symbols: &Vec<crate::expression::AnalyzedSymbol>,
    font: &Font,
    has_rubber: bool,
) -> (r: Result<Rewrite, Refusal>)
    ensures
        match (
            r,
            replacement(
                ink@.strokes,
                crate::expression::analyzed_views(symbols@),
                font@,
                has_rubber,
            ),
        ) {
            (Ok(a), Ok(b)) => a@ == b,
            (Err(a), Err(b)) => a == b,
            _ => false,
        },
{
    let choices = best_choices(symbols);
    assert(crate::sort::as_ints(choices@) =~= Seq::new(symbols@.len(), |i: int| 0));
    let slt = compose_slt(symbols, &choices);
    let plan = match checked_strokes(&slt, font) {
        Some(plan) => plan,
        None => {
            return Err(Refusal::TooLarge);
        },
    };
    if plan.polylines.len() == 0 {
        return Err(Refusal::EmptyPlan);
    }
    if !has_rubber {
        return Err(Refusal::NoEraser);
    }
    let written = without_hold(ink);
    let place = ink_bbox(&written.strokes);
    let draw = rewrite(&plan, &place);
    Ok(
        Rewrite {
            latex: to_latex(&slt),
            missing: plan.missing,
            erase: erase(&ink.strokes),
            draw,
        },
    )
}

/// Decide what is to be done with a page. The last stroke is the gesture that asks for it: where it
/// is no more than that it is not read, but it is erased like all others. `atan2` is the arctangent
/// of `y / x` and `exp` the exponential function.
pub fn beautify<'a, A: Fn(F32, F32) -> F32, E: Fn(F32) -> F32>(
    ink: &Ink,
    weights: &Weights<'a>,
    labels: &Labels,
    prior: Option<&Prior>,
    font: &Font,
    has_rubber: bool,
    atan2: &A,
    exp: &E,
) -> (r: Result<Rewrite, Refusal>)
    requires
        crate::elementary::callable2(*atan2),
        crate::elementary::callable1(*exp),
    ensures
        forall|h: Fn2, e: Fn1| #[trigger]
            crate::elementary::computes2(*atan2, h) && #[trigger] crate::elementary::computes1(
                *exp,
                e,
            ) ==> match (
                r,
                rewrite_of(
                    weights@,
                    ink@,
                    labels@,
                    crate::prior::prior_view(prior),
                    font@,
                    has_rubber,
                    h,
                    e,
                ),
            ) {
                (Ok(a), Ok(b)) => a@ == b,
                (Err(a), Err(b)) => a == b,
                _ => false,
            },
        content(ink@.strokes).len() == 0 ==> r == Err::<Rewrite, Refusal>(Refusal::Nothing),
{
    let written = without_hold(ink);
    if written.strokes.len() == 0 {
        return Err(Refusal::Nothing);
    }
    match analyze(&written, weights, labels, prior, CANDIDATES, atan2, exp) {
        Err(e) => Err(Refusal::Unrecognized(e)),
        Ok((_, symbols)) => replace(ink, &symbols, font, has_rubber),
    }
}

// ---------------------------------------------------------------------------------------------
// Laws
// ---------------------------------------------------------------------------------------------
/// The eraser passes along every stroke, the gesture included, before the pen writes anything.
pub proof fn law_every_stroke_is_erased(strokes: Seq<Seq<Point>>, i: int)
    requires
        0 <= i < strokes.len(),
    ensures
        erasing(strokes).len() == 3 * strokes.len(),
        erasing(strokes)[i] == lowered(strokes[i], num(ZERO)),
        erasing(strokes)[strokes.len() + i] == lowered(strokes[i], num(ERASE_OFFSET)),
        erasing(strokes)[2 * strokes.len() + i] == lowered(strokes[i], num(ERASE_OFFSET_UP)),
{
}

/// What is written is read: only a stroke that goes nowhere is taken for the gesture, and only the
/// last one.
pub proof fn law_written_strokes_are_read(strokes: Seq<Seq<Point>>, i: int)
    requires
        0 <= i < strokes.len(),
        i < strokes.len() - 1 || !mere_hold(strokes[i]),
    ensures
        content(strokes).len() > i,
        content(strokes)[i] == strokes[i],
{
}

/// What is written anew is never mirrored or collapsed, wherever the handwriting was: the scale is
/// at least the least one.
pub proof fn law_the_scale_stays_positive(place: BBox, w: F32, h: F32)
    ensures
        num(LEAST_SCALE).le(scale_for(place, w, h)),
        num(ZERO).lt(scale_for(place, w, h)),
{
    let room = num(RIGHT_EDGE).minus(place.min_x).max(num(LEAST_ROOM));
    let raw = place.max_y.minus(place.min_y).over(h.max(num(ONE))).min(
        room.over(w.max(num(ONE))),
    );
    reveal(F32::max_spec);
    reveal(F32::le_spec);
    reveal(F32::lt_spec);
}

/// The last stroke is taken for the gesture if its path is shorter than three times what the pen may
/// stray while it is held still, which is 0.008 of the screen; all others are read.
pub proof fn law_a_still_pen_is_the_gesture(strokes: Seq<Seq<Point>>)
    requires
        strokes.len() > 0,
    ensures
        ({
            let last = strokes[strokes.len() - 1];
            let still = crate::segment::path_length(last, last.len()).lt(
                num(0x4040_0000).times(num(0x3c03_126f)),
            );
            content(strokes) == if still {
                strokes.take(strokes.len() - 1)
            } else {
                strokes
            }
        }),
{
    assert(strokes.drop_last() =~= strokes.take(strokes.len() - 1));
}

/// What is written anew is the plan, only moved and scaled: what is further right in the plan is further
/// right on the page, and what is lower is lower.
pub proof fn law_the_plan_keeps_its_shape(
    plan: PlanView,
    place: BBox,
    i: int,
    k: int,
    j: int,
    l: int,
)
    requires
        0 <= i < plan.polylines.len() && 0 <= k < plan.polylines[i].len(),
        0 <= j < plan.polylines.len() && 0 <= l < plan.polylines[j].len(),
        ({
            let (p, q) = (plan.polylines[i][k], plan.polylines[j][l]);
            &&& p.0.finite() && p.1.finite() && q.0.finite() && q.1.finite()
            &&& place.min_x.finite()
            &&& scale_for(place, plan.w, plan.h).finite()
            &&& top_for(place, plan.h, scale_for(place, plan.w, plan.h)).finite()
        }),
    ensures
        ({
            let (p, q) = (plan.polylines[i][k], plan.polylines[j][l]);
            let (u, v) = (rewriting(plan, place)[i][k], rewriting(plan, place)[j][l]);
            &&& p.0.le(q.0) ==> u.0.le(v.0)
            &&& p.1.le(q.1) ==> u.1.le(v.1)
        }),
{
    let (p, q) = (plan.polylines[i][k], plan.polylines[j][l]);
    let s = scale_for(place, plan.w, plan.h);
    law_the_scale_stays_positive(place, plan.w, plan.h);
    reveal(F32::lt_spec);
    if p.0.le(q.0) {
        crate::float::monotone::lemma_place_keeps_order(place.min_x, p.0, q.0, s);
    }
    if p.1.le(q.1) {
        crate::float::monotone::lemma_place_keeps_order(
            top_for(place, plan.h, s),
            p.1,
            q.1,
            s,
        );
    }
}

/// A plan is scaled to the height of the handwriting, or to the room up to 0.96 of the screen's width if
/// that asks for less; it begins at the handwriting's left edge, and its middle is at the middle of the
/// handwriting's height.
pub proof fn law_the_plan_fits_where_the_handwriting_was(plan: PlanView, place: BBox)
    requires
        num(0x3f80_0000).le(plan.w) && num(0x3f80_0000).le(plan.h),
        num(LEAST_ROOM).le(num(0x3f75_c28f).minus(place.min_x)),
        num(LEAST_SCALE).le(place.max_y.minus(place.min_y).over(plan.h)),
        num(LEAST_SCALE).le(num(0x3f75_c28f).minus(place.min_x).over(plan.w)),
    ensures
        ({
            let s = scale_for(place, plan.w, plan.h);
            let tall = place.max_y.minus(place.min_y).over(plan.h);
            let wide = num(0x3f75_c28f).minus(place.min_x).over(plan.w);
            &&& s.le(tall) && s.le(wide)
            &&& s.same(tall) || s.same(wide)
            &&& forall|i: int, k: int|
                0 <= i < plan.polylines.len() && 0 <= k < plan.polylines[i].len() ==> (
                #[trigger] rewriting(plan, place)[i][k]) == (
                    place.min_x.plus(plan.polylines[i][k].0.times(s)),
                    place.min_y.plus(
                        place.max_y.minus(place.min_y).minus(plan.h.times(s)).over(
                            num(0x4000_0000),
                        ),
                    ).plus(plan.polylines[i][k].1.times(s)),
                )
        }),
{
    reveal(F32::le_spec);
    reveal(F32::lt_spec);
    reveal(F32::same_spec);
    reveal(F32::min_spec);
    reveal(F32::max_spec);
}

/// The eraser passes over each stroke exactly, then 0.004 of the screen below it, then as much above; it
/// never strays sideways.
pub proof fn law_the_eraser_follows_the_stroke(strokes: Seq<Seq<Point>>, i: int, k: int)
    requires
        0 <= i < strokes.len(),
        0 <= k < strokes[i].len(),
    ensures
        ({
            let n = strokes.len() as int;
            let p = strokes[i][k];
            let e = erasing(strokes);
            &&& e[i].len() == strokes[i].len() && e[n + i].len() == strokes[i].len()
            &&& e[2 * n + i].len() == strokes[i].len()
            &&& e[i][k] == (p.x, p.y.plus(num(0)))
            &&& e[n + i][k] == (p.x, p.y.plus(num(0x3b83_126f)))
            &&& e[2 * n + i][k] == (p.x, p.y.plus(num(0xbb83_126f)))
        }),
{
}

} // verus!
