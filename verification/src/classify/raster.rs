//! Stroke group to `size` by `size` bitmap: the classifier's offline input channel.
//!
//! This preprocessing runs when training bitmaps are built and when live ink is featurized. If the
//! two differed by even a pixel, the model would see another distribution than it was trained on,
//! so the algorithm is deterministic and pinned by the constants here. Anti-aliasing is plain
//! supersampling: draw into a finer canvas as 1-bit coverage, then average each block of cells.
use crate::float::{num, F32};
use crate::stroke::{bounds, BBox, Point, Stroke, EPSILON, HALF, ONE, TINY, ZERO};
use vstd::arithmetic::div_mod::*;
use vstd::prelude::*;

verus! {

/// Supersampling factor. Part of the pinned contract.
pub const SS: usize = 4;

/// 0.8: the part of the canvas that the ink fills; a tenth is kept clear on either side.
pub const CONTENT: u32 = 0x3f4c_cccd;

/// 2: ink half-width, in cells of the finer canvas.
pub const INK_RADIUS: u32 = 0x4000_0000;

/// 16: the number of cells in a block.
pub const CELLS: u32 = 0x4180_0000;

/// Number of scalar features emitted alongside the bitmap.
pub const NUM_FEATURES: usize = 7;

// ---------------------------------------------------------------------------------------------
// Placing the ink
// ---------------------------------------------------------------------------------------------
/// How ink coordinates map to the finer canvas: the ink's center goes to the canvas center.
#[derive(Clone, Copy)]
pub struct Frame {
    pub cx: F32,
    pub cy: F32,
    pub scale: F32,
    pub half: F32,
}

/// The frame for ink of the given extent, on a canvas of `hi` by `hi` cells: the larger side
/// fills the content area. A degenerate extent gets scale 0, which pins the ink to the center.
pub open spec fn frame_of(b: BBox, hi: int) -> Frame {
    let ext = b.max_x.minus(b.min_x).max(b.max_y.minus(b.min_y));
    let side = crate::float::convert::of_int(hi);
    Frame {
        cx: b.min_x.plus(b.max_x).times(num(HALF)),
        cy: b.min_y.plus(b.max_y).times(num(HALF)),
        scale: if ext.gt(num(EPSILON)) {
            side.times(num(CONTENT)).over(ext)
        } else {
            num(ZERO)
        },
        half: side.times(num(HALF)),
    }
}

/// A position on the finer canvas.
#[derive(Clone, Copy)]
pub struct Spot {
    pub x: F32,
    pub y: F32,
}

/// Where a point lies on the canvas.
pub open spec fn placed(f: Frame, p: Point) -> Spot {
    Spot {
        x: p.x.minus(f.cx).times(f.scale).plus(f.half),
        y: p.y.minus(f.cy).times(f.scale).plus(f.half),
    }
}

fn place(f: &Frame, p: &Point) -> (r: Spot)
    ensures
        r == placed(*f, *p),
{
    Spot {
        x: p.x.minus(f.cx).times(f.scale).plus(f.half),
        y: p.y.minus(f.cy).times(f.scale).plus(f.half),
    }
}

/// In how many steps disks are stamped along a segment: at most one cell apart.
pub open spec fn step_count(a: Spot, b: Spot) -> usize {
    let dx = b.x.minus(a.x);
    let dy = b.y.minus(a.y);
    dx.times(dx).plus(dy.times(dy)).sqrt().ceil().max(num(ONE)).to_usize()
}

/// The center of the disk at step `i` along a segment.
pub open spec fn step_spot(a: Spot, b: Spot, i: int) -> Spot {
    let t = crate::float::convert::of_int(i).over(
        crate::float::convert::of_int(step_count(a, b) as int),
    );
    Spot {
        x: a.x.plus(b.x.minus(a.x).times(t)),
        y: a.y.plus(b.y.minus(a.y).times(t)),
    }
}

/// The centers of the disks along a segment, both ends included.
pub open spec fn segment_spots(a: Spot, b: Spot) -> Seq<Spot> {
    Seq::new((step_count(a, b) + 1) as nat, |i: int| step_spot(a, b, i))
}

/// The centers of the disks along the first `n` segments of a stroke.
pub open spec fn path_spots(f: Frame, points: Seq<Point>, n: nat) -> Seq<Spot>
    decreases n,
{
    if n == 0 {
        Seq::empty()
    } else {
        path_spots(f, points, (n - 1) as nat) + segment_spots(
            placed(f, points[n - 1]),
            placed(f, points[n as int]),
        )
    }
}

/// The centers of the disks of a stroke. A single point is one disk.
pub open spec fn stroke_spots(f: Frame, points: Seq<Point>) -> Seq<Spot> {
    if points.len() == 0 {
        Seq::empty()
    } else if points.len() == 1 {
        seq![placed(f, points[0])]
    } else {
        path_spots(f, points, (points.len() - 1) as nat)
    }
}

/// The centers of the disks of the first `n` strokes.
pub open spec fn ink_spots(f: Frame, ink: Seq<Seq<Point>>, n: nat) -> Seq<Spot>
    decreases n,
{
    if n == 0 {
        Seq::empty()
    } else {
        ink_spots(f, ink, (n - 1) as nat) + stroke_spots(f, ink[n - 1])
    }
}

// ---------------------------------------------------------------------------------------------
// Coverage
// ---------------------------------------------------------------------------------------------
/// The first cell that a disk can touch, along an axis of length `side`.
pub open spec fn first_cell(c: F32, side: F32) -> usize {
    c.minus(num(INK_RADIUS)).floor().clamp(num(ZERO), side).to_usize()
}

/// The end of the cells that a disk can touch, along an axis of length `side`.
pub open spec fn end_cell(c: F32, side: F32) -> usize {
    c.plus(num(INK_RADIUS)).ceil().clamp(num(ZERO), side).to_usize()
}

/// Does the center of cell `(ix, iy)` lie within the disk around `s`?
pub open spec fn in_disk(s: Spot, hi: int, ix: int, iy: int) -> bool {
    let side = crate::float::convert::of_int(hi);
    let dx = crate::float::convert::of_int(ix).plus(num(HALF)).minus(s.x);
    let dy = crate::float::convert::of_int(iy).plus(num(HALF)).minus(s.y);
    &&& first_cell(s.x, side) <= ix < end_cell(s.x, side)
    &&& first_cell(s.y, side) <= iy < end_cell(s.y, side)
    &&& dx.times(dx).plus(dy.times(dy)).le(num(INK_RADIUS).times(num(INK_RADIUS)))
}

/// Is cell `(ix, iy)` covered by one of the disks?
pub open spec fn covered(spots: Seq<Spot>, hi: int, ix: int, iy: int) -> bool {
    exists|j: int| 0 <= j < spots.len() && in_disk(#[trigger] spots[j], hi, ix, iy)
}

/// Do the cells hold which ones the disks cover?
spec fn shows(buf: Seq<bool>, spots: Seq<Spot>, hi: int) -> bool {
    &&& buf.len() == hi * hi
    &&& forall|c: int|
        0 <= c < hi * hi ==> #[trigger] buf[c] == covered(spots, hi, c % hi, c / hi)
}

/// The cell of a position.
pub(super) proof fn lemma_cell(x: int, y: int, hi: int)
    requires
        0 <= x < hi,
        0 <= y < hi,
    ensures
        0 <= y * hi + x < hi * hi,
        (y * hi + x) % hi == x,
        (y * hi + x) / hi == y,
{
    lemma_fundamental_div_mod_converse(y * hi + x, hi, y, x);
    assert(y * hi + x < hi * hi && y * hi + x >= 0) by (nonlinear_arith)
        requires
            0 <= x < hi,
            0 <= y,
            y + 1 <= hi,
    ;
}

/// A cell is where its position says.
proof fn lemma_cell_back(c: int, hi: int)
    requires
        0 <= c < hi * hi,
        hi > 0,
    ensures
        c == (c / hi) * hi + c % hi,
        0 <= c % hi < hi,
        0 <= c / hi < hi,
{
    lemma_fundamental_div_mod(c, hi);
    lemma_mod_bound(c, hi);
    assert(c == (c / hi) * hi + c % hi) by (nonlinear_arith)
        requires
            c == hi * (c / hi) + c % hi,
    ;
    lemma_div_pos_is_pos(c, hi);
    assert(c / hi < hi) by (nonlinear_arith)
        requires
            c < hi * hi,
            c == (c / hi) * hi + c % hi,
            0 <= c % hi,
            hi > 0,
    ;
}

/// Cover every cell whose center lies within the disk around `s`.
fn stamp_disk(buf: &mut Vec<bool>, hi: usize, s: Spot)
    requires
        old(buf)@.len() == hi * hi,
        hi > 0,
    ensures
        final(buf)@.len() == hi * hi,
        forall|c: int|
            0 <= c < hi * hi ==> #[trigger] final(buf)@[c] == (old(buf)@[c] || in_disk(
                s,
                hi as int,
                c % hi as int,
                c / hi as int,
            )),
{
    let side = F32::from_usize(hi);
    let r = num(INK_RADIUS);
    let r2 = r.times(r);
    let x0: usize = s.x.minus(r).floor().clamp(num(ZERO), side).to_usize();
    let x1: usize = s.x.plus(r).ceil().clamp(num(ZERO), side).to_usize();
    let y0: usize = s.y.minus(r).floor().clamp(num(ZERO), side).to_usize();
    let y1: usize = s.y.plus(r).ceil().clamp(num(ZERO), side).to_usize();
    let ghost start = buf@;
    let ghost n = hi as int;
    assert(buf.len() <= usize::MAX);
    let mut iy: usize = y0;
    while iy < y1 && iy < hi
        invariant
            y0 <= iy,
            start == old(buf)@,
            buf@.len() == hi * hi,
            hi * hi <= usize::MAX,
            hi > 0,
            n == hi,
            r == num(INK_RADIUS),
            r2 == r.times(r),
            x0 == first_cell(s.x, crate::float::convert::of_int(n)),
            x1 == end_cell(s.x, crate::float::convert::of_int(n)),
            y0 == first_cell(s.y, crate::float::convert::of_int(n)),
            y1 == end_cell(s.y, crate::float::convert::of_int(n)),
            forall|c: int|
                0 <= c < n * n ==> #[trigger] buf@[c] == (start[c] || in_disk(s, n, c % n, c / n)
                    && c / n < iy),
        decreases hi - iy,
    {
        let dy = F32::from_usize(iy).plus(num(HALF)).minus(s.y);
        let mut ix: usize = x0;
        while ix < x1 && ix < hi
            invariant
                x0 <= ix,
                y0 <= iy < y1,
                iy < hi,
                start == old(buf)@,
                buf@.len() == hi * hi,
                hi * hi <= usize::MAX,
                hi > 0,
                n == hi,
                r == num(INK_RADIUS),
                r2 == r.times(r),
                dy == crate::float::convert::of_int(iy as int).plus(num(HALF)).minus(s.y),
                x0 == first_cell(s.x, crate::float::convert::of_int(n)),
                x1 == end_cell(s.x, crate::float::convert::of_int(n)),
                y0 == first_cell(s.y, crate::float::convert::of_int(n)),
                y1 == end_cell(s.y, crate::float::convert::of_int(n)),
                forall|c: int|
                    0 <= c < n * n ==> #[trigger] buf@[c] == (start[c] || in_disk(
                        s,
                        n,
                        c % n,
                        c / n,
                    ) && (c / n < iy || c / n == iy && c % n < ix)),
            decreases hi - ix,
        {
            let dx = F32::from_usize(ix).plus(num(HALF)).minus(s.x);
            let inside = dx.times(dx).plus(dy.times(dy)).le(r2);
            proof {
                lemma_cell(ix as int, iy as int, n);
                assert(inside == in_disk(s, n, ix as int, iy as int));
                assert(iy * hi >= 0) by (nonlinear_arith);
            }
            let at: usize = iy * hi + ix;
            let ghost before = buf@;
            if inside {
                buf.set(at, true);
            }
            proof {
                assert forall|c: int| 0 <= c < n * n implies #[trigger] buf@[c] == (start[c]
                    || in_disk(s, n, c % n, c / n) && (c / n < iy || c / n == iy && c % n < ix
                    + 1)) by {
                    lemma_cell_back(c, n);
                    assert(before[c] == (start[c] || in_disk(s, n, c % n, c / n) && (c / n < iy
                        || c / n == iy && c % n < ix)));
                    if c / n == iy && c % n == ix {
                        assert(c == at);
                    }
                }
            }
            ix = ix + 1;
        }
        proof {
            assert forall|c: int| 0 <= c < n * n implies #[trigger] buf@[c] == (start[c]
                || in_disk(s, n, c % n, c / n) && c / n < iy + 1) by {
                lemma_cell_back(c, n);
            }
        }
        iy = iy + 1;
    }
    proof {
        assert forall|c: int| 0 <= c < n * n implies #[trigger] buf@[c] == (start[c] || in_disk(
            s,
            n,
            c % n,
            c / n,
        )) by {
            lemma_cell_back(c, n);
        }
    }
}

/// One more disk covers what was covered, and its own cells.
proof fn lemma_one_more(before: Seq<bool>, after: Seq<bool>, spots: Seq<Spot>, s: Spot, hi: int)
    requires
        shows(before, spots, hi),
        after.len() == hi * hi,
        forall|c: int|
            0 <= c < hi * hi ==> #[trigger] after[c] == (before[c] || in_disk(s, hi, c % hi, c / hi)),
    ensures
        shows(after, spots.push(s), hi),
{
    let now = spots.push(s);
    assert forall|c: int| 0 <= c < hi * hi implies #[trigger] after[c] == covered(
        now,
        hi,
        c % hi,
        c / hi,
    ) by {
        assert(before[c] == covered(spots, hi, c % hi, c / hi));
        if before[c] {
            let j = choose|j: int|
                0 <= j < spots.len() && in_disk(#[trigger] spots[j], hi, c % hi, c / hi);
            assert(now[j] == spots[j]);
        }
        if in_disk(s, hi, c % hi, c / hi) {
            assert(now[spots.len() as int] == s);
        }
        if covered(now, hi, c % hi, c / hi) {
            let j = choose|j: int|
                0 <= j < now.len() && in_disk(#[trigger] now[j], hi, c % hi, c / hi);
            if j < spots.len() {
                assert(spots[j] == now[j]);
            }
        }
    }
}

/// Stamp disks along a segment: a thick, round-capped line.
fn stamp_segment(
    buf: &mut Vec<bool>,
    hi: usize,
    a: Spot,
    b: Spot,
    Ghost(spots): Ghost<Seq<Spot>>,
)
    requires
        shows(old(buf)@, spots, hi as int),
        hi > 0,
    ensures
        shows(final(buf)@, spots + segment_spots(a, b), hi as int),
{
    let dx = b.x.minus(a.x);
    let dy = b.y.minus(a.y);
    let steps: usize = dx.times(dx).plus(dy.times(dy)).sqrt().ceil().max(num(ONE)).to_usize();
    let whole = F32::from_usize(steps);
    let ghost all = segment_spots(a, b);
    let mut i: usize = 0;
    assert(spots + all.take(0) =~= spots);
    while i < steps
        invariant
            i <= steps,
            hi > 0,
            dx == b.x.minus(a.x),
            dy == b.y.minus(a.y),
            steps == step_count(a, b),
            whole == crate::float::convert::of_int(steps as int),
            all == segment_spots(a, b),
            shows(buf@, spots + all.take(i as int), hi as int),
        decreases steps - i,
    {
        let t = F32::from_usize(i).over(whole);
        let s = Spot { x: a.x.plus(dx.times(t)), y: a.y.plus(dy.times(t)) };
        let ghost before = buf@;
        stamp_disk(buf, hi, s);
        proof {
            lemma_one_more(before, buf@, spots + all.take(i as int), s, hi as int);
            assert((spots + all.take(i as int)).push(s) =~= spots + all.take(i + 1));
        }
        i = i + 1;
    }
    let t = F32::from_usize(i).over(whole);
    let s = Spot { x: a.x.plus(dx.times(t)), y: a.y.plus(dy.times(t)) };
    let ghost before = buf@;
    stamp_disk(buf, hi, s);
    proof {
        lemma_one_more(before, buf@, spots + all.take(i as int), s, hi as int);
        assert((spots + all.take(i as int)).push(s) =~= spots + all);
    }
}

fn stamp_stroke(
    buf: &mut Vec<bool>,
    hi: usize,
    f: &Frame,
    points: &Vec<Point>,
    Ghost(spots): Ghost<Seq<Spot>>,
)
    requires
        shows(old(buf)@, spots, hi as int),
        hi > 0,
    ensures
        shows(final(buf)@, spots + stroke_spots(*f, points@), hi as int),
{
    let n: usize = points.len();
    if n == 0 {
        assert(spots + stroke_spots(*f, points@) =~= spots);
        return ;
    }
    if n == 1 {
        let s = place(f, &points[0]);
        stamp_disk(buf, hi, s);
        proof {
            lemma_one_more(old(buf)@, buf@, spots, s, hi as int);
            assert(spots.push(s) =~= spots + stroke_spots(*f, points@));
        }
        return ;
    }
    let mut i: usize = 0;
    assert(spots + path_spots(*f, points@, 0) =~= spots);
    while i + 1 < n
        invariant
            i + 1 <= n,
            n == points.len(),
            hi > 0,
            shows(buf@, spots + path_spots(*f, points@, i as nat), hi as int),
        decreases n - i,
    {
        let a = place(f, &points[i]);
        let b = place(f, &points[i + 1]);
        let ghost so_far = spots + path_spots(*f, points@, i as nat);
        stamp_segment(buf, hi, a, b, Ghost(so_far));
        proof {
            assert(so_far + segment_spots(a, b) =~= spots + path_spots(
                *f,
                points@,
                (i + 1) as nat,
            ));
        }
        i = i + 1;
    }
}

// ---------------------------------------------------------------------------------------------
// The bitmap
// ---------------------------------------------------------------------------------------------
/// How many of the first `n` cells of the block at `(ox, oy)` are covered.
pub open spec fn block_count(spots: Seq<Spot>, hi: int, ox: int, oy: int, n: nat) -> nat
    decreases n,
{
    if n == 0 {
        0
    } else {
        block_count(spots, hi, ox, oy, (n - 1) as nat) + if covered(
            spots,
            hi,
            ox * 4 + (n - 1) % 4,
            oy * 4 + (n - 1) / 4,
        ) {
            1nat
        } else {
            0
        }
    }
}

/// The bitmap of a drawing: the covered part of each block. Without points it is blank.
pub open spec fn bitmap_of(ink: Seq<Seq<Point>>, size: int) -> Seq<F32> {
    let hi = size * 4;
    let points = crate::stroke::all_points(ink);
    let f = frame_of(crate::stroke::extent(points), hi);
    let spots = ink_spots(f, ink, ink.len());
    Seq::new(
        (size * size) as nat,
        |k: int|
            if points.len() == 0 {
                num(ZERO)
            } else {
                crate::float::convert::of_int(
                    block_count(spots, hi, k % size, k / size, 16) as int,
                ).over(num(CELLS))
            },
    )
}

/// Render `strokes` (in normalized coordinates) to a `size` by `size` grayscale bitmap, row-major,
/// with values in `[0, 1]` where 1 is full ink coverage. Aspect-preserving and centered: the ink's
/// larger dimension fills the content area, so a symbol drawn big in a corner and small in the
/// middle rasterize the same.
pub fn rasterize(strokes: &[Stroke], size: usize) -> (r: Vec<F32>)
    requires
        (size * 4) * (size * 4) <= usize::MAX,
    ensures
        r@ == bitmap_of(crate::stroke::trajectories(strokes@), size as int),
{
    let ghost ink = crate::stroke::trajectories(strokes@);
    proof {
        assert(size * size <= usize::MAX && size * 4 <= usize::MAX) by (nonlinear_arith)
            requires
                (size * 4) * (size * 4) <= usize::MAX,
                size >= 0,
        ;
        assert(size * size >= 0) by (nonlinear_arith);
    }
    let area: usize = size * size;
    if size == 0 {
        let out: Vec<F32> = Vec::new();
        assert(out@ =~= bitmap_of(ink, 0));
        return out;
    }
    let whole = bounds(strokes);
    if whole.is_none() {
        let mut blank: Vec<F32> = Vec::new();
        let mut k: usize = 0;
        while k < area
            invariant
                k <= area,
                blank.len() == k,
                forall|j: int| 0 <= j < k ==> #[trigger] blank[j] == num(ZERO),
            decreases area - k,
        {
            blank.push(num(ZERO));
            k = k + 1;
        }
        assert(blank@ =~= bitmap_of(ink, size as int));
        return blank;
    }
    let b = whole.unwrap();
    let hi: usize = size * SS;
    let side = F32::from_usize(hi);
    let ext = b.max_x.minus(b.min_x).max(b.max_y.minus(b.min_y));
    let f = Frame {
        cx: b.min_x.plus(b.max_x).times(num(HALF)),
        cy: b.min_y.plus(b.max_y).times(num(HALF)),
        scale: if ext.gt(num(EPSILON)) {
            side.times(num(CONTENT)).over(ext)
        } else {
            num(ZERO)
        },
        half: side.times(num(HALF)),
    };
    assert(f == frame_of(crate::stroke::extent(crate::stroke::all_points(ink)), hi as int));
    let cells: usize = hi * hi;
    let mut buf: Vec<bool> = Vec::new();
    let mut k: usize = 0;
    while k < cells
        invariant
            k <= cells,
            buf.len() == k,
            forall|j: int| 0 <= j < k ==> !#[trigger] buf[j],
        decreases cells - k,
    {
        buf.push(false);
        k = k + 1;
    }
    assert(shows(buf@, Seq::empty(), hi as int));
    let mut i: usize = 0;
    while i < strokes.len()
        invariant
            i <= strokes.len(),
            hi > 0,
            ink == crate::stroke::trajectories(strokes@),
            shows(buf@, ink_spots(f, ink, i as nat), hi as int),
        decreases strokes.len() - i,
    {
        let ghost so_far = ink_spots(f, ink, i as nat);
        stamp_stroke(&mut buf, hi, &f, &strokes[i].points, Ghost(so_far));
        i = i + 1;
    }
    let ghost spots = ink_spots(f, ink, ink.len());
    let mut out: Vec<F32> = Vec::new();
    let mut p: usize = 0;
    while p < area
        invariant
            p <= area,
            area == size * size,
            size > 0,
            hi == size * 4,
            hi * hi <= usize::MAX,
            shows(buf@, spots, hi as int),
            out.len() == p,
            forall|j: int|
                0 <= j < p ==> #[trigger] out[j] == crate::float::convert::of_int(
                    block_count(spots, hi as int, j % size as int, j / size as int, 16) as int,
                ).over(num(CELLS)),
        decreases area - p,
    {
        let ox: usize = p % size;
        let oy: usize = p / size;
        proof {
            lemma_cell_back(p as int, size as int);
        }
        let count = count_block(&buf, hi, ox, oy, Ghost(spots));
        out.push(F32::from_usize(count).over(num(CELLS)));
        p = p + 1;
    }
    assert(out@ =~= bitmap_of(ink, size as int));
    out
}

/// How many cells of the block at `(ox, oy)` are covered.
fn count_block(buf: &Vec<bool>, hi: usize, ox: usize, oy: usize, Ghost(spots): Ghost<Seq<Spot>>) -> (r:
    usize)
    requires
        shows(buf@, spots, hi as int),
        hi * hi <= usize::MAX,
        ox * 4 + 4 <= hi,
        oy * 4 + 4 <= hi,
    ensures
        r == block_count(spots, hi as int, ox as int, oy as int, 16),
{
    let mut count: usize = 0;
    let mut n: usize = 0;
    while n < 16
        invariant
            n <= 16,
            count <= n,
            shows(buf@, spots, hi as int),
            hi * hi <= usize::MAX,
            ox * 4 + 4 <= hi,
            oy * 4 + 4 <= hi,
            count == block_count(spots, hi as int, ox as int, oy as int, n as nat),
        decreases 16 - n,
    {
        let x: usize = ox * SS + n % SS;
        let y: usize = oy * SS + n / SS;
        proof {
            lemma_cell(x as int, y as int, hi as int);
            assert(y * hi >= 0) by (nonlinear_arith);
        }
        if buf[y * hi + x] {
            count = count + 1;
        }
        n = n + 1;
    }
    count
}

// ---------------------------------------------------------------------------------------------
// Global features
// ---------------------------------------------------------------------------------------------
/// An arc length to which the first `n` points of a stroke are added.
pub open spec fn arc_along(start: F32, points: Seq<Point>, n: nat) -> F32
    decreases n,
{
    if n <= 1 {
        start
    } else {
        let dx = points[n - 1].x.minus(points[n - 2].x);
        let dy = points[n - 1].y.minus(points[n - 2].y);
        arc_along(start, points, (n - 1) as nat).plus(
            dx.times(dx).plus(dy.times(dy)).sqrt(),
        )
    }
}

/// The arc length of the first `n` strokes.
pub open spec fn arc_of(ink: Seq<Seq<Point>>, n: nat) -> F32
    decreases n,
{
    if n == 0 {
        num(ZERO)
    } else {
        arc_along(arc_of(ink, (n - 1) as nat), ink[n - 1], ink[n - 1].len())
    }
}

/// How many of the first `n` strokes have a point.
pub open spec fn count_live(ink: Seq<Seq<Point>>, n: nat) -> nat
    decreases n,
{
    if n == 0 {
        0
    } else {
        count_live(ink, (n - 1) as nat) + if ink[n - 1].len() > 0 {
            1nat
        } else {
            0
        }
    }
}

/// The extent of the ink, or the box at the origin where there is none.
pub open spec fn extent_or_origin(ink: Seq<Seq<Point>>) -> BBox {
    match crate::stroke::extent_of(crate::stroke::all_points(ink)) {
        Some(b) => b,
        None => BBox {
            min_x: num(ZERO),
            min_y: num(ZERO),
            max_x: num(ZERO),
            max_y: num(ZERO),
        },
    }
}

/// The ink's longest side; 1 for a dot, which has no extent.
pub open spec fn span_of(b: BBox) -> F32 {
    let s = b.max_x.minus(b.min_x).max(b.max_y.minus(b.min_y));
    if s.gt(num(TINY)) {
        s
    } else {
        num(ONE)
    }
}

/// The width as a part of width and height: 0 for a vertical sliver, one half for a square, 1 for
/// a horizontal bar.
pub open spec fn elongation(b: BBox) -> F32 {
    let w = b.max_x.minus(b.min_x);
    let h = b.max_y.minus(b.min_y);
    if w.plus(h).gt(num(TINY)) {
        w.over(w.plus(h))
    } else {
        num(HALF)
    }
}

/// The features: stroke count, elongation, arc length, and the start and end points, all of the
/// lengths in the ink's own frame, so that none of them depends on the units of the input.
pub open spec fn features_of(ink: Seq<Seq<Point>>) -> Seq<F32> {
    let b = extent_or_origin(ink);
    let span = span_of(b);
    let points = crate::stroke::all_points(ink);
    let some = points.len() > 0;
    seq![
        crate::float::convert::of_int(count_live(ink, ink.len()) as int),
        elongation(b),
        arc_of(ink, ink.len()).over(span),
        if some {
            points[0].x.minus(b.min_x).over(span)
        } else {
            num(ZERO)
        },
        if some {
            points[0].y.minus(b.min_y).over(span)
        } else {
            num(ZERO)
        },
        if some {
            points.last().x.minus(b.min_x).over(span)
        } else {
            num(ZERO)
        },
        if some {
            points.last().y.minus(b.min_y).over(span)
        } else {
            num(ZERO)
        },
    ]
}

/// A small vector of shape cues that the classifier uses alongside the bitmap:
/// `[stroke_count, elongation, arc_length, start_x, start_y, end_x, end_y]`. Every feature is
/// dimensionless, because the ink arrives in whatever units its source uses.
pub fn global_features(strokes: &[Stroke]) -> (r: [F32; 7])
    ensures
        r@ == features_of(crate::stroke::trajectories(strokes@)),
{
    let ghost ink = crate::stroke::trajectories(strokes@);
    let b = match bounds(strokes) {
        Some(b) => b,
        None => BBox {
            min_x: num(ZERO),
            min_y: num(ZERO),
            max_x: num(ZERO),
            max_y: num(ZERO),
        },
    };
    let w = b.max_x.minus(b.min_x);
    let h = b.max_y.minus(b.min_y);
    let longest = w.max(h);
    let span = if longest.gt(num(TINY)) {
        longest
    } else {
        num(ONE)
    };
    let mut count: usize = 0;
    let mut arc: F32 = num(ZERO);
    let mut first: Option<Point> = None;
    let mut last: Option<Point> = None;
    let mut i: usize = 0;
    while i < strokes.len()
        invariant
            i <= strokes.len(),
            count <= i,
            ink == crate::stroke::trajectories(strokes@),
            count == count_live(ink, i as nat),
            arc == arc_of(ink, i as nat),
            ({
                let points = crate::stroke::all_points(ink.take(i as int));
                &&& first == if points.len() > 0 {
                    Some(points[0])
                } else {
                    None
                }
                &&& last == if points.len() > 0 {
                    Some(points.last())
                } else {
                    None
                }
            }),
        decreases strokes.len() - i,
    {
        let points = &strokes[i].points;
        proof {
            assert(ink.take(i + 1).drop_last() =~= ink.take(i as int));
            assert(ink.take(i + 1).last() == points@);
        }
        let n: usize = points.len();
        if n > 0 {
            count = count + 1;
            if first.is_none() {
                first = Some(points[0]);
            }
            last = Some(points[n - 1]);
        }
        let ghost start = arc;
        let mut k: usize = 1;
        while k < n
            invariant
                1 <= k,
                k <= n || n == 0,
                n == points.len(),
                arc == arc_along(start, points@, if n == 0 {
                    0
                } else {
                    k as nat
                }),
            decreases n - k,
        {
            let dx = points[k].x.minus(points[k - 1].x);
            let dy = points[k].y.minus(points[k - 1].y);
            arc = arc.plus(dx.times(dx).plus(dy.times(dy)).sqrt());
            k = k + 1;
        }
        i = i + 1;
    }
    assert(ink.take(i as int) =~= ink);
    let elong = if w.plus(h).gt(num(TINY)) {
        w.over(w.plus(h))
    } else {
        num(HALF)
    };
    let (sx, sy) = match first {
        Some(p) => (p.x.minus(b.min_x).over(span), p.y.minus(b.min_y).over(span)),
        None => (num(ZERO), num(ZERO)),
    };
    let (ex, ey) = match last {
        Some(p) => (p.x.minus(b.min_x).over(span), p.y.minus(b.min_y).over(span)),
        None => (num(ZERO), num(ZERO)),
    };
    let out: [F32; 7] = [F32::from_usize(count), elong, arc.over(span), sx, sy, ex, ey];
    assert(out@ =~= features_of(ink));
    out
}

} // verus!
