//! Landscape detection: people hold the tablet sideways to write long expressions, and the
//! digitizer's frame does not turn with the grip.
//!
//! Writing runs along a line. If the symbols spread mostly vertically, the ink may have been
//! written in landscape, but geometry cannot say which landscape. The glyphs can: a few symbols
//! of each candidate rotation are classified, and the orientation that the model recognizes with
//! more confidence wins. The ink as it was written takes part and wins ties, because a lone
//! fraction is geometrically a vertical line of three symbols.
use crate::classify::weights::{TensorView, Weights};
use crate::denoise::{keep_indices, pick};
use crate::elementary::{Fn1, Fn2};
use crate::error::Error;
use crate::float::{num, F32};
use crate::line::classify_strokes;
use crate::segment::segment;
use crate::stroke::{
    grow_all, BBox, Ink, InkView, Point, Stroke, LARGEST, ONE, SMALLEST, TWO, ZERO,
};
use vstd::prelude::*;

verus! {

/// How many symbols vote in the orientation ballot.
pub const BALLOT: usize = 4;

/// How much more a line has to spread vertically than horizontally: 1.6.
pub const VERTICAL: u32 = 0x3fcc_cccd;

// ---------------------------------------------------------------------------------------------
// Rotation
// ---------------------------------------------------------------------------------------------
/// A quarter turn.
#[derive(Debug, Clone, Copy, PartialEq, Eq, Structural)]
pub enum Turn {
    Clockwise,
    CounterClockwise,
}

/// Where a point lies after a quarter turn of the unit square.
pub open spec fn turned_point(turn: Turn, p: Point) -> Point {
    match turn {
        Turn::Clockwise => Point { x: num(ONE).minus(p.y), y: p.x, ..p },
        Turn::CounterClockwise => Point { x: p.y, y: num(ONE).minus(p.x), ..p },
    }
}

/// A stroke after a quarter turn.
pub open spec fn turned_stroke(turn: Turn, points: Seq<Point>) -> Seq<Point> {
    Seq::new(points.len(), |i: int| turned_point(turn, points[i]))
}

/// A drawing after a quarter turn: width and height change places.
pub open spec fn turned(turn: Turn, ink: InkView) -> InkView {
    InkView {
        source_width: ink.source_height,
        source_height: ink.source_width,
        strokes: Seq::new(ink.strokes.len(), |s: int| turned_stroke(turn, ink.strokes[s])),
    }
}

fn turn_point(turn: Turn, p: &Point) -> (r: Point)
    ensures
        r == turned_point(turn, *p),
{
    let (x, y) = match turn {
        Turn::Clockwise => (num(ONE).minus(p.y), p.x),
        Turn::CounterClockwise => (p.y, num(ONE).minus(p.x)),
    };
    Point::new(x, y, p.pressure, p.tilt_x, p.tilt_y, p.t_us)
}

fn turn_stroke(turn: Turn, s: &Stroke) -> (r: Stroke)
    ensures
        r@ == turned_stroke(turn, s@),
{
    let mut points: Vec<Point> = Vec::new();
    let mut i: usize = 0;
    while i < s.points.len()
        invariant
            i <= s.points.len(),
            points@ == turned_stroke(turn, s@).take(i as int),
        decreases s.points.len() - i,
    {
        points.push(turn_point(turn, &s.points[i]));
        i = i + 1;
    }
    Stroke { points }
}

fn transform(ink: &Ink, turn: Turn) -> (r: Ink)
    ensures
        r@ == turned(turn, ink@),
{
    let ghost want = turned(turn, ink@).strokes;
    let mut strokes: Vec<Stroke> = Vec::new();
    let mut i: usize = 0;
    assert(crate::stroke::trajectories(strokes@) =~= want.take(0));
    while i < ink.strokes.len()
        invariant
            i <= ink.strokes.len(),
            want == turned(turn, ink@).strokes,
            crate::stroke::trajectories(strokes@) == want.take(i as int),
        decreases ink.strokes.len() - i,
    {
        let s = turn_stroke(turn, &ink.strokes[i]);
        proof {
            assert(crate::stroke::trajectories(strokes@.push(s)) =~= crate::stroke::trajectories(
                strokes@,
            ).push(s@));
            assert(want[i as int] == s@);
            assert(want.take(i + 1) =~= want.take(i as int).push(s@));
        }
        strokes.push(s);
        i = i + 1;
    }
    assert(want.take(i as int) =~= want);
    Ink { source_width: ink.source_height, source_height: ink.source_width, strokes }
}

/// Rotate by a quarter turn clockwise in normalized coordinates (`y` down): `(x, y)` goes to
/// `(1 - y, x)`.
pub fn rotate_cw(ink: &Ink) -> (r: Ink)
    ensures
        r@ == turned(Turn::Clockwise, ink@),
{
    transform(ink, Turn::Clockwise)
}

/// Rotate by a quarter turn counter-clockwise: `(x, y)` goes to `(y, 1 - x)`.
pub fn rotate_ccw(ink: &Ink) -> (r: Ink)
    ensures
        r@ == turned(Turn::CounterClockwise, ink@),
{
    transform(ink, Turn::CounterClockwise)
}

// ---------------------------------------------------------------------------------------------
// The first gate
// ---------------------------------------------------------------------------------------------
/// The box of a group of strokes.
pub open spec fn group_hull(ink: Seq<Seq<Point>>, group: Seq<int>) -> BBox {
    crate::stroke::hull(
        crate::stroke::void_box(),
        crate::stroke::all_points(crate::denoise::selected(ink, group)),
    )
}

/// The horizontal centers of the groups.
pub open spec fn centers_x(ink: Seq<Seq<Point>>, groups: Seq<Seq<int>>) -> Seq<F32> {
    Seq::new(
        groups.len(),
        |g: int| crate::segment::middle_x(group_hull(ink, groups[g])),
    )
}

/// The vertical centers of the groups.
pub open spec fn centers_y(ink: Seq<Seq<Point>>, groups: Seq<Seq<int>>) -> Seq<F32> {
    Seq::new(
        groups.len(),
        |g: int| crate::segment::middle_y(group_hull(ink, groups[g])),
    )
}

/// The smallest of some numbers.
pub open spec fn lowest(values: Seq<F32>) -> F32
    decreases values.len(),
{
    if values.len() == 0 {
        num(LARGEST)
    } else {
        lowest(values.drop_last()).min(values.last())
    }
}

/// The largest of some numbers.
pub open spec fn highest(values: Seq<F32>) -> F32
    decreases values.len(),
{
    if values.len() == 0 {
        num(SMALLEST)
    } else {
        highest(values.drop_last()).max(values.last())
    }
}

/// How far some numbers spread.
pub open spec fn spread_of(values: Seq<F32>) -> F32 {
    highest(values).minus(lowest(values))
}

/// Do the groups run comfortably vertically?
pub open spec fn groups_vertical(ink: Seq<Seq<Point>>, groups: Seq<Seq<int>>) -> bool {
    groups.len() >= 3 && spread_of(centers_y(ink, groups)).gt(
        num(VERTICAL).times(spread_of(centers_x(ink, groups))),
    )
}

/// Does the line of symbols run vertically? `angle` is the arctangent.
pub open spec fn vertical(ink: Seq<Seq<Point>>, angle: Fn2) -> bool {
    let clean = crate::denoise::cleaned(ink);
    groups_vertical(clean, crate::segment::symbols_of(clean, angle))
}

fn find_group_hull(strokes: &Vec<Stroke>, group: &Vec<usize>) -> (r: BBox)
    requires
        forall|j: int| 0 <= j < group.len() ==> #[trigger] group[j] < strokes@.len(),
    ensures
        r == group_hull(crate::stroke::trajectories(strokes@), crate::sort::as_ints(group@)),
{
    let ghost ink = crate::stroke::trajectories(strokes@);
    let ghost own = crate::denoise::selected(ink, crate::sort::as_ints(group@));
    let mut b = BBox {
        min_x: num(LARGEST),
        min_y: num(LARGEST),
        max_x: num(SMALLEST),
        max_y: num(SMALLEST),
    };
    let mut j: usize = 0;
    while j < group.len()
        invariant
            j <= group.len(),
            forall|j: int| 0 <= j < group.len() ==> #[trigger] group[j] < strokes@.len(),
            ink == crate::stroke::trajectories(strokes@),
            own == crate::denoise::selected(ink, crate::sort::as_ints(group@)),
            b == crate::stroke::hull(
                crate::stroke::void_box(),
                crate::stroke::all_points(own.take(j as int)),
            ),
        decreases group.len() - j,
    {
        let points = &strokes[group[j]].points;
        proof {
            assert(own.take(j + 1).drop_last() =~= own.take(j as int));
            assert(own.take(j + 1).last() == points@);
            crate::stroke::lemma_hull_parts(
                crate::stroke::void_box(),
                crate::stroke::all_points(own.take(j as int)),
                points@,
            );
        }
        b = grow_all(b, points);
        j = j + 1;
    }
    assert(own.take(j as int) =~= own);
    b
}

fn spread(values: &Vec<F32>) -> (r: F32)
    ensures
        r == spread_of(values@),
{
    let mut lo: F32 = num(LARGEST);
    let mut hi: F32 = num(SMALLEST);
    let mut i: usize = 0;
    while i < values.len()
        invariant
            i <= values.len(),
            lo == lowest(values@.take(i as int)),
            hi == highest(values@.take(i as int)),
        decreases values.len() - i,
    {
        assert(values@.take(i + 1).drop_last() =~= values@.take(i as int));
        lo = lo.min(values[i]);
        hi = hi.max(values[i]);
        i = i + 1;
    }
    assert(values@.take(i as int) =~= values@);
    hi.minus(lo)
}

fn are_vertical(strokes: &Vec<Stroke>, groups: &Vec<Vec<usize>>) -> (r: bool)
    requires
        forall|g: int|
            0 <= g < groups.len() ==> crate::segment::members_live(#[trigger] groups[g]@, strokes@),
    ensures
        r == groups_vertical(
            crate::stroke::trajectories(strokes@),
            crate::segment::group_views(groups@),
        ),
{
    let ghost ink = crate::stroke::trajectories(strokes@);
    let ghost all = crate::segment::group_views(groups@);
    if groups.len() < 3 {
        return false;
    }
    let mut xs: Vec<F32> = Vec::new();
    let mut ys: Vec<F32> = Vec::new();
    let mut g: usize = 0;
    while g < groups.len()
        invariant
            g <= groups.len(),
            ink == crate::stroke::trajectories(strokes@),
            all == crate::segment::group_views(groups@),
            forall|g: int|
                0 <= g < groups.len() ==> crate::segment::members_live(
                    #[trigger] groups[g]@,
                    strokes@,
                ),
            xs@ == centers_x(ink, all).take(g as int),
            ys@ == centers_y(ink, all).take(g as int),
        decreases groups.len() - g,
    {
        assert(crate::segment::members_live(groups[g as int]@, strokes@));
        let b = find_group_hull(strokes, &groups[g]);
        let x = b.min_x.plus(b.max_x).over(num(TWO));
        let y = b.min_y.plus(b.max_y).over(num(TWO));
        proof {
            assert(all[g as int] == crate::sort::as_ints(groups[g as int]@));
            assert(centers_x(ink, all).take(g + 1) =~= centers_x(ink, all).take(g as int).push(x));
            assert(centers_y(ink, all).take(g + 1) =~= centers_y(ink, all).take(g as int).push(y));
        }
        xs.push(x);
        ys.push(y);
        g = g + 1;
    }
    assert(centers_x(ink, all).take(g as int) =~= centers_x(ink, all));
    assert(centers_y(ink, all).take(g as int) =~= centers_y(ink, all));
    spread(&ys).gt(num(VERTICAL).times(spread(&xs)))
}

/// Does the line of symbols run vertically? Measured over the centers of the segmented symbols,
/// not over strokes; with fewer than three symbols there is no line. `atan2` is the arctangent of
/// `y / x`.
pub fn line_is_vertical<A: Fn(F32, F32) -> F32>(ink: &Ink, atan2: &A) -> (r: bool)
    requires
        crate::elementary::callable2(*atan2),
    ensures
        forall|h: Fn2| #[trigger]
            crate::elementary::computes2(*atan2, h) ==> r == vertical(ink@.strokes, h),
{
    let keep = keep_indices(ink.strokes.as_slice());
    let kept = pick(ink.strokes.as_slice(), &keep);
    let groups = segment(kept.as_slice(), atan2);
    are_vertical(&kept, &groups)
}

// ---------------------------------------------------------------------------------------------
// The ballot
// ---------------------------------------------------------------------------------------------
/// The votes of the groups, added up: the probability of the best candidate of each, or the first
/// reason why there is none.
pub open spec fn votes(
    w: Seq<TensorView>,
    ink: Seq<Seq<Point>>,
    groups: Seq<Seq<int>>,
    exp: Fn1,
) -> Result<F32, Error>
    decreases groups.len(),
{
    if groups.len() == 0 {
        Ok(num(ZERO))
    } else {
        match votes(w, ink, groups.drop_last(), exp) {
            Err(e) => Err(e),
            Ok(before) => match crate::line::symbol_logits(
                w,
                crate::denoise::selected(ink, groups.last()),
            ) {
                Err(e) => Err(e),
                Ok(logits) => {
                    let best = crate::classify::ranked(logits, 1, exp);
                    Ok(
                        before.plus(
                            if best.len() > 0 {
                                best[0].prob
                            } else {
                                num(ZERO)
                            },
                        ),
                    )
                },
            },
        }
    }
}

/// The groups that vote: the first few.
pub open spec fn voters(groups: Seq<Seq<int>>) -> Seq<Seq<int>> {
    if groups.len() <= BALLOT {
        groups
    } else {
        groups.take(BALLOT as int)
    }
}

/// The mean confidence of the model in the first symbols of a drawing.
pub open spec fn confidence_of(
    w: Seq<TensorView>,
    ink: Seq<Seq<Point>>,
    angle: Fn2,
    exp: Fn1,
) -> Result<F32, Error> {
    let clean = crate::denoise::cleaned(ink);
    let groups = voters(crate::segment::symbols_of(clean, angle));
    match votes(w, clean, groups, exp) {
        Err(e) => Err(e),
        Ok(total) => Ok(
            if groups.len() == 0 {
                num(ZERO)
            } else {
                total.over(crate::float::convert::of_int(groups.len() as int))
            },
        ),
    }
}

/// What failed for the first groups fails for all.
proof fn lemma_first_vote_error(
    w: Seq<TensorView>,
    ink: Seq<Seq<Point>>,
    groups: Seq<Seq<int>>,
    n: int,
    exp: Fn1,
)
    requires
        0 <= n <= groups.len(),
        votes(w, ink, groups.take(n), exp) is Err,
    ensures
        votes(w, ink, groups, exp) == votes(w, ink, groups.take(n), exp),
    decreases groups.len(),
{
    if n < groups.len() {
        assert(groups.drop_last().take(n) =~= groups.take(n));
        lemma_first_vote_error(w, ink, groups.drop_last(), n, exp);
    } else {
        assert(groups.take(n) =~= groups);
    }
}

/// Mean confidence in the best candidate over the first symbols: the orientation ballot.
fn confidence<'a, A: Fn(F32, F32) -> F32, E: Fn(F32) -> F32>(
    ink: &Ink,
    weights: &Weights<'a>,
    atan2: &A,
    exp: &E,
) -> (r: Result<F32, Error>)
    requires
        crate::elementary::callable2(*atan2),
        crate::elementary::callable1(*exp),
    ensures
        forall|h: Fn2, e: Fn1| #[trigger]
            crate::elementary::computes2(*atan2, h) && #[trigger] crate::elementary::computes1(
                *exp,
                e,
            ) ==> r == confidence_of(weights@, ink@.strokes, h, e),
{
    let keep = keep_indices(ink.strokes.as_slice());
    let kept = pick(ink.strokes.as_slice(), &keep);
    let groups = segment(kept.as_slice(), atan2);
    let ghost clean = crate::denoise::cleaned(ink@.strokes);
    let ghost all = voters(crate::segment::group_views(groups@));
    let count: usize = if groups.len() <= BALLOT {
        groups.len()
    } else {
        BALLOT
    };
    let mut total: F32 = num(ZERO);
    let mut g: usize = 0;
    while g < count
        invariant
            g <= count <= groups.len(),
            count == all.len(),
            crate::elementary::callable1(*exp),
            crate::stroke::trajectories(kept@) == clean,
            clean == crate::denoise::cleaned(ink@.strokes),
            all == voters(crate::segment::group_views(groups@)),
            forall|i: int|
                0 <= i < groups.len() ==> crate::segment::members_live(
                    #[trigger] groups[i]@,
                    kept@,
                ),
            forall|h: Fn2| #[trigger]
                crate::elementary::computes2(*atan2, h) ==> all == voters(
                    crate::segment::symbols_of(clean, h),
                ),
            forall|e: Fn1| #[trigger]
                crate::elementary::computes1(*exp, e) ==> votes(
                    weights@,
                    clean,
                    all.take(g as int),
                    e,
                ) == Ok::<F32, Error>(total),
        decreases count - g,
    {
        assert(crate::segment::members_live(groups[g as int]@, kept@));
        let own = pick(kept.as_slice(), &groups[g]);
        proof {
            assert(all.take(g + 1).drop_last() =~= all.take(g as int));
            assert(all.take(g + 1).last() == crate::sort::as_ints(groups[g as int]@));
        }
        match classify_strokes(weights, &own, 1, exp) {
            Err(x) => {
                proof {
                    assert forall|h: Fn2, e: Fn1| #[trigger]
                        crate::elementary::computes2(*atan2, h) && #[trigger]
                        crate::elementary::computes1(*exp, e) implies Err::<F32, Error>(x)
                        == confidence_of(weights@, ink@.strokes, h, e) by {
                        lemma_first_vote_error(weights@, clean, all, g + 1, e);
                    }
                }
                return Err(x);
            },
            Ok(preds) => {
                let vote = if preds.len() > 0 {
                    preds[0].prob
                } else {
                    num(ZERO)
                };
                total = total.plus(vote);
            },
        }
        g = g + 1;
    }
    assert(all.take(g as int) =~= all);
    Ok(
        if count == 0 {
            num(ZERO)
        } else {
            total.over(F32::from_usize(count))
        },
    )
}

/// The orientation that wins a ballot. The ink as it was written wins ties, then the clockwise
/// turn.
pub open spec fn elected(as_is: F32, cw: F32, ccw: F32) -> Option<Turn> {
    if as_is.ge(cw) && as_is.ge(ccw) {
        None
    } else if cw.ge(ccw) {
        Some(Turn::Clockwise)
    } else {
        Some(Turn::CounterClockwise)
    }
}

/// The orientation that wins a ballot; `None` is the one that it was written in.
pub fn elect(as_is: F32, cw: F32, ccw: F32) -> (r: Option<Turn>)
    ensures
        r == elected(as_is, cw, ccw),
{
    if as_is.ge(cw) && as_is.ge(ccw) {
        None
    } else if cw.ge(ccw) {
        Some(Turn::Clockwise)
    } else {
        Some(Turn::CounterClockwise)
    }
}

/// The drawing as the classifier can read it: portrait ink unchanged, landscape ink turned to the
/// orientation in which the model has more confidence.
pub open spec fn upright(w: Seq<TensorView>, ink: InkView, angle: Fn2, exp: Fn1) -> Result<
    InkView,
    Error,
> {
    let cw = turned(Turn::Clockwise, ink);
    let ccw = turned(Turn::CounterClockwise, ink);
    if !vertical(ink.strokes, angle) {
        Ok(ink)
    } else {
        match (
            confidence_of(w, ink.strokes, angle, exp),
            confidence_of(w, cw.strokes, angle, exp),
            confidence_of(w, ccw.strokes, angle, exp),
        ) {
            (Err(e), _, _) => Err(e),
            (_, Err(e), _) => Err(e),
            (_, _, Err(e)) => Err(e),
            (Ok(a), Ok(b), Ok(c)) => Ok(
                match elected(a, b, c) {
                    None => ink,
                    Some(Turn::Clockwise) => cw,
                    Some(Turn::CounterClockwise) => ccw,
                },
            ),
        }
    }
}

/// Give back ink that the classifier can read: portrait ink unchanged, landscape ink turned to
/// whichever orientation the model recognizes with more confidence. `atan2` is the arctangent of
/// `y / x` and `exp` the exponential function.
pub fn auto_orient<'a, A: Fn(F32, F32) -> F32, E: Fn(F32) -> F32>(
    ink: &Ink,
    weights: &Weights<'a>,
    atan2: &A,
    exp: &E,
) -> (r: Result<Ink, Error>)
    requires
        crate::elementary::callable2(*atan2),
        crate::elementary::callable1(*exp),
    ensures
        forall|h: Fn2, e: Fn1| #[trigger]
            crate::elementary::computes2(*atan2, h) && #[trigger] crate::elementary::computes1(
                *exp,
                e,
            ) ==> match (r, upright(weights@, ink@, h, e)) {
                (Ok(a), Ok(b)) => a@ == b,
                (Err(x), Err(y)) => x == y,
                _ => false,
            },
        // whatever the functions compute, the drawing is unchanged or given a quarter turn
        match r {
            Ok(a) => a@ == ink@ || a@ == turned(Turn::Clockwise, ink@) || a@ == turned(
                Turn::CounterClockwise,
                ink@,
            ),
            Err(_) => true,
        },
{
    if !line_is_vertical(ink, atan2) {
        return Ok(ink.clone());
    }
    let as_is = confidence(ink, weights, atan2, exp)?;
    let cw = rotate_cw(ink);
    let ccw = rotate_ccw(ink);
    let score_cw = confidence(&cw, weights, atan2, exp)?;
    let score_ccw = confidence(&ccw, weights, atan2, exp)?;
    match elect(as_is, score_cw, score_ccw) {
        None => Ok(ink.clone()),
        Some(Turn::Clockwise) => Ok(cw),
        Some(Turn::CounterClockwise) => Ok(ccw),
    }
}

// ---------------------------------------------------------------------------------------------
// Laws
// ---------------------------------------------------------------------------------------------
/// A turn and its opposite give back a point, but for rounding in the coordinate that is mirrored
/// twice: that one is `1 - (1 - v)`.
pub proof fn law_opposite_turns_cancel(p: Point)
    ensures
        turned_point(Turn::CounterClockwise, turned_point(Turn::Clockwise, p)) == (Point {
            y: num(ONE).minus(num(ONE).minus(p.y)),
            ..p
        }),
        turned_point(Turn::Clockwise, turned_point(Turn::CounterClockwise, p)) == (Point {
            x: num(ONE).minus(num(ONE).minus(p.x)),
            ..p
        }),
{
}

/// Two opposite turns restore the dimensions, the number of strokes, and the length of each.
pub proof fn law_opposite_turns_keep_the_shape(ink: InkView, first: Turn, second: Turn)
    requires
        first != second,
    ensures
        turned(second, turned(first, ink)).source_width == ink.source_width,
        turned(second, turned(first, ink)).source_height == ink.source_height,
        turned(second, turned(first, ink)).strokes.len() == ink.strokes.len(),
        forall|s: int|
            0 <= s < ink.strokes.len() ==> (#[trigger] turned(
                second,
                turned(first, ink),
            ).strokes[s]).len() == ink.strokes[s].len(),
{
}

/// With fewer than three symbols the drawing is left as it is: the lookup of a single symbol is
/// never second-guessed.
pub proof fn law_few_symbols_are_never_turned(
    w: Seq<TensorView>,
    ink: InkView,
    angle: Fn2,
    exp: Fn1,
)
    requires
        crate::segment::symbols_of(crate::denoise::cleaned(ink.strokes), angle).len() < 3,
    ensures
        upright(w, ink, angle, exp) == Ok::<InkView, Error>(ink),
{
}

/// Of three confidences that are numbers, the elected orientation has the highest. The ink as it was
/// written is kept unless a turn has more confidence than it.
pub proof fn law_the_highest_confidence_is_elected(as_is: F32, cw: F32, ccw: F32)
    requires
        !as_is.nan() && !cw.nan() && !ccw.nan(),
    ensures
        elected(as_is, cw, ccw) is None <==> cw.le(as_is) && ccw.le(as_is),
        elected(as_is, cw, ccw) == Some(Turn::Clockwise) ==> as_is.lt(cw) && ccw.le(cw),
        elected(as_is, cw, ccw) == Some(Turn::CounterClockwise) ==> as_is.lt(ccw) && cw.lt(ccw),
{
    reveal(F32::le_spec);
    reveal(F32::lt_spec);
}

/// A page that runs vertically is given back in the orientation in which the model has most
/// confidence: as it was written, unless one of the two turns has more.
pub proof fn law_the_most_confident_orientation_wins(
    w: Seq<TensorView>,
    ink: InkView,
    angle: Fn2,
    exp: Fn1,
)
    requires
        vertical(ink.strokes, angle),
        confidence_of(w, ink.strokes, angle, exp) is Ok,
        confidence_of(w, turned(Turn::Clockwise, ink).strokes, angle, exp) is Ok,
        confidence_of(w, turned(Turn::CounterClockwise, ink).strokes, angle, exp) is Ok,
        !confidence_of(w, ink.strokes, angle, exp)->Ok_0.nan(),
        !confidence_of(w, turned(Turn::Clockwise, ink).strokes, angle, exp)->Ok_0.nan(),
        !confidence_of(w, turned(Turn::CounterClockwise, ink).strokes, angle, exp)->Ok_0.nan(),
    ensures
        upright(w, ink, angle, exp) is Ok,
        ({
            let written = confidence_of(w, ink.strokes, angle, exp)->Ok_0;
            let cw = confidence_of(w, turned(Turn::Clockwise, ink).strokes, angle, exp)->Ok_0;
            let ccw = confidence_of(
                w,
                turned(Turn::CounterClockwise, ink).strokes,
                angle,
                exp,
            )->Ok_0;
            let given = upright(w, ink, angle, exp)->Ok_0;
            let best = confidence_of(w, given.strokes, angle, exp)->Ok_0;
            &&& given == ink || given == turned(Turn::Clockwise, ink) || given == turned(
                Turn::CounterClockwise,
                ink,
            )
            &&& written.le(best) && cw.le(best) && ccw.le(best)
            &&& cw.le(written) && ccw.le(written) ==> given == ink
        }),
{
    reveal(F32::le_spec);
    reveal(F32::lt_spec);
}

/// Are these finite numbers, and none of them the negative zero?
pub open spec fn plain_numbers(values: Seq<F32>) -> bool {
    forall|i: int|
        0 <= i < values.len() ==> (#[trigger] values[i]).finite() && !(values[i].negative()
            && values[i].magnitude() == 0)
}

/// Do all numbers lie between those at `low` and `high`?
pub open spec fn ends(values: Seq<F32>, low: int, high: int) -> bool {
    &&& 0 <= low < values.len() && 0 <= high < values.len()
    &&& forall|i: int|
        0 <= i < values.len() ==> values[low].le(#[trigger] values[i]) && values[i].le(values[high])
}

proof fn lemma_extremes(values: Seq<F32>, i: int)
    requires
        plain_numbers(values),
        values.len() > 0,
    ensures
        exists|k: int| 0 <= k < values.len() && #[trigger] values[k] == lowest(values),
        exists|k: int| 0 <= k < values.len() && #[trigger] values[k] == highest(values),
        0 <= i < values.len() ==> lowest(values).le(values[i]) && values[i].le(highest(values)),
    decreases values.len(),
{
    let before = values.drop_last();
    let last = values.len() - 1;
    let v = values[last];
    crate::float::order::lemma_min_max(lowest(before), v);
    crate::float::order::lemma_min_max(highest(before), v);
    reveal(F32::le_spec);
    reveal(F32::lt_spec);
    reveal(F32::min_spec);
    reveal(F32::max_spec);
    if before.len() == 0 {
        assert(values[last] == lowest(values));
        assert(values[last] == highest(values));
    } else {
        assert forall|k: int| 0 <= k < before.len() implies (#[trigger] before[k]).finite() && !(
        before[k].negative() && before[k].magnitude() == 0) by {
            assert(before[k] == values[k]);
        }
        lemma_extremes(before, i);
        let a = choose|k: int| 0 <= k < before.len() && #[trigger] before[k] == lowest(before);
        let b = choose|k: int| 0 <= k < before.len() && #[trigger] before[k] == highest(before);
        assert(values[a] == before[a] && values[b] == before[b]);
        if i < last && 0 <= i {
            assert(values[i] == before[i]);
        }
        assert(values[a] == lowest(values) || values[last] == lowest(values));
        assert(values[b] == highest(values) || values[last] == highest(values));
    }
}

/// The spread of some numbers is the distance between the two that hold all others between them.
proof fn lemma_spread(values: Seq<F32>, low: int, high: int)
    requires
        plain_numbers(values),
        ends(values, low, high),
    ensures
        spread_of(values) == values[high].minus(values[low]),
{
    lemma_extremes(values, low);
    lemma_extremes(values, high);
    let a = choose|k: int| 0 <= k < values.len() && #[trigger] values[k] == lowest(values);
    let b = choose|k: int| 0 <= k < values.len() && #[trigger] values[k] == highest(values);
    reveal(F32::le_spec);
    assert(values[a].rank() == values[low].rank());
    assert(values[b].rank() == values[high].rank());
    assert(values[a] == values[low]);
    assert(values[b] == values[high]);
}

/// A line of symbols runs vertically if there are three of them, and the centers of the topmost and
/// the lowest are more than 1.6 times as far apart as those of the leftmost and the rightmost.
pub proof fn law_a_vertical_line_is_taller_than_wide(
    ink: Seq<Seq<Point>>,
    angle: Fn2,
    xs: Seq<F32>,
    ys: Seq<F32>,
    left: int,
    right: int,
    top: int,
    bottom: int,
)
    requires
        ({
            let clean = crate::denoise::cleaned(ink);
            let symbols = crate::segment::symbols_of(clean, angle);
            &&& xs.len() == symbols.len() && ys.len() == symbols.len()
            &&& forall|g: int|
                #![trigger symbols[g]]
                0 <= g < symbols.len() ==> {
                    let b = group_hull(clean, symbols[g]);
                    &&& xs[g] == b.min_x.plus(b.max_x).over(num(0x4000_0000))
                    &&& ys[g] == b.min_y.plus(b.max_y).over(num(0x4000_0000))
                }
        }),
        plain_numbers(xs) && plain_numbers(ys),
        ends(xs, left, right),
        ends(ys, top, bottom),
    ensures
        vertical(ink, angle) <==> xs.len() >= 3 && num(0x3fcc_cccd).times(
            xs[right].minus(xs[left]),
        ).lt(ys[bottom].minus(ys[top])),
{
    let clean = crate::denoise::cleaned(ink);
    let symbols = crate::segment::symbols_of(clean, angle);
    assert forall|g: int| 0 <= g < symbols.len() implies #[trigger] centers_x(clean, symbols)[g]
        == xs[g] && centers_y(clean, symbols)[g] == ys[g] by {
        let s = symbols[g];
    }
    assert(centers_x(clean, symbols) =~= xs);
    assert(centers_y(clean, symbols) =~= ys);
    lemma_spread(xs, left, right);
    lemma_spread(ys, top, bottom);
}

/// A clockwise turn takes the top of the page to the right, and the left to the top: what is higher comes
/// to lie further right, and what is further left higher up. A counter-clockwise one does the opposite.
pub proof fn law_a_turn_takes_the_top_to_a_side(p: Point, q: Point)
    requires
        p.x.finite() && p.y.finite() && q.x.finite() && q.y.finite(),
    ensures
        p.y.le(q.y) ==> turned_point(Turn::Clockwise, q).x.le(turned_point(Turn::Clockwise, p).x),
        p.x.le(q.x) ==> turned_point(Turn::Clockwise, p).y.le(turned_point(Turn::Clockwise, q).y),
        p.y.le(q.y) ==> turned_point(Turn::CounterClockwise, p).x.le(
            turned_point(Turn::CounterClockwise, q).x,
        ),
        p.x.le(q.x) ==> turned_point(Turn::CounterClockwise, q).y.le(
            turned_point(Turn::CounterClockwise, p).y,
        ),
        p.y == num(0) ==> turned_point(Turn::Clockwise, p).x == num(0x3f80_0000),
        p.x == num(0) ==> turned_point(Turn::CounterClockwise, p).y == num(0x3f80_0000),
{
    let one = num(0x3f80_0000);
    crate::float::monotone::lemma_opposite(p.x);
    crate::float::monotone::lemma_opposite(p.y);
    crate::float::monotone::lemma_opposite(q.x);
    crate::float::monotone::lemma_opposite(q.y);
    crate::float::monotone::lemma_units_ordered(p.x, q.x);
    crate::float::monotone::lemma_units_ordered(p.y, q.y);
    if p.y.le(q.y) {
        crate::float::monotone::lemma_sum_monotone(one, q.y.neg(), one, p.y.neg());
    }
    if p.x.le(q.x) {
        crate::float::monotone::lemma_sum_monotone(one, q.x.neg(), one, p.x.neg());
    }
    lemma_one_minus_nothing();
}

proof fn lemma_one_minus_nothing()
    ensures
        num(0x3f80_0000).minus(num(0)) == num(0x3f80_0000),
{
    let one = num(0x3f80_0000);
    reveal(F32::plus_spec);
    crate::float::monotone::lemma_opposite(num(0));
    assert(crate::float::mag(0) == 0);
    crate::float::lemma_mag_ordered(0, 0x3f80_0000);
    crate::float::lemma_nearest_exact(0x3f80_0000);
}

/// The probabilities that the model gives to the classes for one symbol.
pub open spec fn probabilities(
    w: Seq<TensorView>,
    ink: Seq<Seq<Point>>,
    group: Seq<int>,
    exp: Fn1,
) -> Seq<F32> {
    crate::classify::kernel::proportions(
        crate::classify::kernel::shifted_exp(
            crate::line::symbol_logits(w, crate::denoise::selected(ink, group))->Ok_0,
            exp,
        ),
    )
}

/// Can the symbol be classified, with probabilities that are numbers?
pub open spec fn classifiable(
    w: Seq<TensorView>,
    ink: Seq<Seq<Point>>,
    group: Seq<int>,
    exp: Fn1,
) -> bool {
    let probs = probabilities(w, ink, group, exp);
    &&& crate::line::symbol_logits(w, crate::denoise::selected(ink, group)) is Ok
    &&& probs.len() > 0
    &&& forall|c: int| 0 <= c < probs.len() ==> !(#[trigger] probs[c]).nan()
}

/// Is the number the probability of a class, and that of no class higher?
pub open spec fn highest_of(probs: Seq<F32>, best: F32) -> bool {
    &&& exists|c: int| 0 <= c < probs.len() && #[trigger] probs[c] == best
    &&& forall|c: int| 0 <= c < probs.len() ==> (#[trigger] probs[c]).le(best)
}

proof fn lemma_vote(probs: Seq<F32>)
    requires
        probs.len() > 0,
        forall|c: int| 0 <= c < probs.len() ==> !(#[trigger] probs[c]).nan(),
    ensures
        crate::classify::best_of(probs, 1).len() == 1,
        highest_of(probs, crate::classify::best_of(probs, 1)[0].prob),
{
    let keys = crate::classify::kernel::opposites(probs);
    let order = crate::classify::kernel::ranking(probs);
    crate::sort::lemma_order_is_permutation(keys, keys.len());
    let best = probs[order[0]];
    assert forall|c: int| 0 <= c < probs.len() implies (#[trigger] probs[c]).le(best) by {
        assert(order.contains(c));
        let i = choose|i: int| 0 <= i < order.len() && order[i] == c;
        if i > 0 {
            crate::classify::kernel::law_ranking_is_descending(probs, 0, i);
        } else {
            assert(!probs[c].nan());
            reveal(F32::le_spec);
        }
    }
}

proof fn lemma_votes(
    w: Seq<TensorView>,
    ink: Seq<Seq<Point>>,
    groups: Seq<Seq<int>>,
    exp: Fn1,
) -> (best: Seq<F32>)
    requires
        forall|g: int| 0 <= g < groups.len() ==> classifiable(w, ink, #[trigger] groups[g], exp),
    ensures
        best.len() == groups.len(),
        forall|g: int|
            0 <= g < groups.len() ==> highest_of(
                probabilities(w, ink, #[trigger] groups[g], exp),
                best[g],
            ),
        votes(w, ink, groups, exp) == Ok::<F32, Error>(
            crate::classify::kernel::total(best, best.len()),
        ),
    decreases groups.len(),
{
    if groups.len() == 0 {
        Seq::empty()
    } else {
        let before = groups.drop_last();
        let last = groups.len() - 1;
        assert forall|g: int| 0 <= g < before.len() implies classifiable(
            w,
            ink,
            #[trigger] before[g],
            exp,
        ) by {
            assert(before[g] == groups[g]);
        }
        let first = lemma_votes(w, ink, before, exp);
        let probs = probabilities(w, ink, groups[last], exp);
        assert(classifiable(w, ink, groups[last], exp));
        lemma_vote(probs);
        let best = first.push(crate::classify::best_of(probs, 1)[0].prob);
        lemma_total_prefix(first, best, first.len());
        assert forall|g: int| 0 <= g < groups.len() implies highest_of(
            probabilities(w, ink, #[trigger] groups[g], exp),
            best[g],
        ) by {
            if g < last {
                assert(before[g] == groups[g]);
            }
        }
        best
    }
}

proof fn lemma_total_prefix(a: Seq<F32>, b: Seq<F32>, n: nat)
    requires
        n <= a.len() <= b.len(),
        forall|i: int| 0 <= i < n ==> #[trigger] a[i] == b[i],
    ensures
        crate::classify::kernel::total(a, n) == crate::classify::kernel::total(b, n),
    decreases n,
{
    if n > 0 {
        lemma_total_prefix(a, b, (n - 1) as nat);
        assert(a[n - 1] == b[n - 1]);
    }
}

/// The confidence of the model in a page is the mean, over its first symbols, four at most, of the
/// probability of the most probable class of each.
pub proof fn law_the_confidence_is_a_mean_of_the_best(
    w: Seq<TensorView>,
    ink: Seq<Seq<Point>>,
    angle: Fn2,
    exp: Fn1,
) -> (best: Seq<F32>)
    requires
        ({
            let clean = crate::denoise::cleaned(ink);
            let symbols = crate::segment::symbols_of(clean, angle);
            &&& symbols.len() > 0
            &&& forall|g: int|
                0 <= g < symbols.len() ==> classifiable(w, clean, #[trigger] symbols[g], exp)
        }),
    ensures
        ({
            let clean = crate::denoise::cleaned(ink);
            let symbols = crate::segment::symbols_of(clean, angle);
            let n: int = if symbols.len() < 4 {
                symbols.len() as int
            } else {
                4
            };
            &&& best.len() == n
            &&& forall|g: int|
                0 <= g < n ==> highest_of(
                    probabilities(w, clean, #[trigger] symbols[g], exp),
                    best[g],
                )
            &&& confidence_of(w, ink, angle, exp) == Ok::<F32, Error>(
                crate::classify::kernel::total(best, best.len()).over(
                    crate::float::convert::of_int(n),
                ),
            )
        }),
{
    let clean = crate::denoise::cleaned(ink);
    let symbols = crate::segment::symbols_of(clean, angle);
    let some = voters(symbols);
    assert forall|g: int| 0 <= g < some.len() implies classifiable(
        w,
        clean,
        #[trigger] some[g],
        exp,
    ) by {
        assert(some[g] == symbols[g]);
    }
    let best = lemma_votes(w, clean, some, exp);
    assert forall|g: int| 0 <= g < some.len() implies highest_of(
        probabilities(w, clean, #[trigger] symbols[g], exp),
        best[g],
    ) by {
        assert(some[g] == symbols[g]);
    }
    best
}

} // verus!
