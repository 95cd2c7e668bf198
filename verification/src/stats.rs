//! The geometry of each stroke of a drawing: what is needed to tell a stray tap from a deliberate
//! dot.
use crate::denoise::{find_diagonals, find_isolation};
use crate::float::{num, F32};
use crate::record::all_indices;
use crate::segment::median;
use crate::stroke::{Point, Stroke, TINY};
use vstd::prelude::*;

verus! {

/// A stroke's number of points, the diagonal of its box, that diagonal as a multiple of the median
/// one, and the distance to the ink of the nearest other stroke.
#[derive(Debug, Clone, Copy, PartialEq, Eq, Structural)]
pub struct StrokeStats {
    pub points: usize,
    pub diagonal: F32,
    pub relative: F32,
    pub nearest: F32,
}

/// The indices of all strokes.
pub open spec fn everyone(ink: Seq<Seq<Point>>) -> Seq<int> {
    Seq::new(ink.len(), |i: int| i)
}

/// The median diagonal.
pub open spec fn median_of(ink: Seq<Seq<Point>>) -> F32 {
    crate::segment::middle(crate::denoise::diagonals(ink, everyone(ink)))
}

/// The geometry of stroke `i`.
pub open spec fn stats_of(ink: Seq<Seq<Point>>, i: int) -> StrokeStats {
    StrokeStats {
        points: ink[i].len() as usize,
        diagonal: crate::denoise::diagonal_of(ink[i]),
        relative: crate::denoise::diagonal_of(ink[i]).over(median_of(ink).max(num(TINY))),
        nearest: crate::denoise::isolation(ink, i, everyone(ink)),
    }
}

/// The median diagonal and the geometry of each stroke.
pub fn stroke_stats(strokes: &Vec<Stroke>) -> (r: (F32, Vec<StrokeStats>))
    requires
        strokes.len() > 0,
    ensures
        ({
            let ink = crate::stroke::trajectories(strokes@);
            r.0 == median_of(ink) && r.1@ == Seq::new(ink.len(), |i: int| stats_of(ink, i))
        }),
{
    let ghost ink = crate::stroke::trajectories(strokes@);
    let ghost want = Seq::new(ink.len(), |i: int| stats_of(ink, i));
    let all = all_indices(strokes.len());
    let diagonals = find_diagonals(strokes.as_slice(), &all);
    let middle = median(&diagonals);
    let mut out: Vec<StrokeStats> = Vec::new();
    let mut i: usize = 0;
    while i < strokes.len()
        invariant
            i <= strokes.len(),
            ink == crate::stroke::trajectories(strokes@),
            want == Seq::new(ink.len(), |i: int| stats_of(ink, i)),
            all.len() == strokes.len(),
            forall|k: int| 0 <= k < strokes.len() ==> #[trigger] all[k] == k,
            crate::sort::as_ints(all@) == everyone(ink),
            diagonals@ == crate::denoise::diagonals(ink, everyone(ink)),
            middle == median_of(ink),
            out@ == want.take(i as int),
        decreases strokes.len() - i,
    {
        let s = StrokeStats {
            points: strokes[i].points.len(),
            diagonal: diagonals[i],
            relative: diagonals[i].over(middle.max(num(TINY))),
            nearest: find_isolation(strokes.as_slice(), i, &all),
        };
        proof {
            assert(ink[i as int] == strokes[i as int]@);
            assert(s == want[i as int]);
            assert(want.take(i + 1) =~= want.take(i as int).push(s));
        }
        out.push(s);
        i = i + 1;
    }
    assert(want.take(i as int) =~= want);
    (middle, out)
}

} // verus!
