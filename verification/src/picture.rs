//! Pictures of ink: where the strokes of a drawing come to lie on a canvas, on the tablet's screen,
//! and in a grid of characters.
use crate::float::{num, F32};
use crate::stroke::{Ink, InkView, Point, Stroke, ONE, TWO, ZERO};
use crate::text::text_of;
use vstd::prelude::*;

verus! {

/// The long edge of a canvas, in pixels: 1000.
pub const LONG_EDGE: u32 = 0x447a_0000;

/// The part of a canvas that is kept free at each edge: 0.06.
pub const MARGIN: u32 = 0x3d75_c28f;

/// The shape of a canvas for ink that does not say where it was drawn: that of the tablet, 1872 by
/// 1404.
pub const TABLET_ASPECT: u32 = 0x3faa_aaab;

/// The width of a line without pressure: 1.5 pixels.
pub const THIN: u32 = 0x3fc0_0000;

/// How much wider a line with full pressure is: 3 pixels.
pub const SPREAD: u32 = 0x4040_0000;

/// How much wider a line with full pressure is on the screen: 4 pixels.
pub const SCREEN_SPREAD: u32 = 0x4080_0000;

/// The number of steps from empty to full in a picture of characters: 5.
pub const SHADES: u32 = 0x40a0_0000;

// ---------------------------------------------------------------------------------------------
// A canvas
// ---------------------------------------------------------------------------------------------
/// The shape of a drawing: its width divided by its height.
pub open spec fn shape_of(ink: InkView) -> F32 {
    if ink.source_width.gt(num(ZERO)) && ink.source_height.gt(num(ZERO)) {
        ink.source_width.over(ink.source_height)
    } else {
        num(TABLET_ASPECT)
    }
}

/// The size of a canvas of the given shape.
pub open spec fn canvas_of(aspect: F32) -> (F32, F32) {
    if aspect.ge(num(ONE)) {
        (num(LONG_EDGE), num(LONG_EDGE).over(aspect))
    } else {
        (num(LONG_EDGE).times(aspect), num(LONG_EDGE))
    }
}

/// A length as a number of pixels, at least one.
pub open spec fn pixels_of(v: F32) -> usize {
    v.round().max(num(ONE)).to_usize()
}

/// Where a coordinate between 0 and 1 lies on an edge of length `edge`.
pub open spec fn inset(v: F32, edge: F32) -> F32 {
    edge.times(num(MARGIN)).plus(
        v.times(edge.times(num(ONE).minus(num(TWO).times(num(MARGIN))))),
    )
}

/// Where a point lies on the canvas.
pub open spec fn on_canvas(p: Point, canvas: (F32, F32)) -> (F32, F32) {
    (inset(p.x, canvas.0), inset(p.y, canvas.1))
}

/// The sum of the pressures of the first `n` points.
pub open spec fn pressure_sum(points: Seq<Point>, n: nat) -> F32
    decreases n,
{
    if n == 0 {
        num(ZERO)
    } else {
        pressure_sum(points, (n - 1) as nat).plus(points[n - 1].pressure)
    }
}

/// The width of a stroke's line: it tells the mean pressure.
pub open spec fn line_width(points: Seq<Point>) -> F32 {
    let mean = pressure_sum(points, points.len()).over(
        crate::float::convert::of_int(points.len() as int),
    );
    num(THIN).plus(num(SPREAD).times(mean.clamp(num(ZERO), num(ONE))))
}

/// What a stroke leaves on a canvas: nothing if it has no points, a dot if it has one, else a line.
#[derive(Debug)]
pub enum Mark {
    Nothing,
    Dot((F32, F32)),
    Line(Vec<(F32, F32)>, F32),
}

/// What a [`Mark`] holds.
#[verifier::ext_equal]
pub enum MarkView {
    Nothing,
    Dot((F32, F32)),
    Line(Seq<(F32, F32)>, F32),
}

impl View for Mark {
    type V = MarkView;

    open spec fn view(&self) -> MarkView {
        match self {
            Mark::Nothing => MarkView::Nothing,
            Mark::Dot(p) => MarkView::Dot(*p),
            Mark::Line(points, width) => MarkView::Line(points@, *width),
        }
    }
}

/// What a stroke leaves on a canvas.
pub open spec fn mark_of(points: Seq<Point>, canvas: (F32, F32)) -> MarkView {
    if points.len() == 0 {
        MarkView::Nothing
    } else if points.len() == 1 {
        MarkView::Dot(on_canvas(points[0], canvas))
    } else {
        MarkView::Line(
            Seq::new(points.len(), |i: int| on_canvas(points[i], canvas)),
            line_width(points),
        )
    }
}

/// A drawing on a canvas: the canvas' size in pixels, and what each stroke leaves.
#[derive(Debug)]
pub struct Picture {
    pub width: usize,
    pub height: usize,
    pub marks: Vec<Mark>,
}

/// What a [`Picture`] holds.
#[verifier::ext_equal]
pub struct PictureView {
    pub width: usize,
    pub height: usize,
    pub marks: Seq<MarkView>,
}

impl View for Picture {
    type V = PictureView;

    open spec fn view(&self) -> PictureView {
        PictureView {
            width: self.width,
            height: self.height,
            marks: Seq::new(self.marks@.len(), |i: int| self.marks@[i]@),
        }
    }
}

/// A drawing on a canvas of its shape.
pub open spec fn picture_of(ink: InkView) -> PictureView {
    let canvas = canvas_of(shape_of(ink));
    PictureView {
        width: pixels_of(canvas.0),
        height: pixels_of(canvas.1),
        marks: Seq::new(ink.strokes.len(), |i: int| mark_of(ink.strokes[i], canvas)),
    }
}

fn place(p: &Point, canvas: (F32, F32)) -> (r: (F32, F32))
    ensures
        r == on_canvas(*p, canvas),
{
    let m = num(MARGIN);
    let rest = num(ONE).minus(num(TWO).times(m));
    let sx = canvas.0.times(rest);
    let sy = canvas.1.times(rest);
    let ox = canvas.0.times(m);
    let oy = canvas.1.times(m);
    (ox.plus(p.x.times(sx)), oy.plus(p.y.times(sy)))
}

fn width_of(points: &Vec<Point>) -> (r: F32)
    ensures
        r == line_width(points@),
{
    let mut sum: F32 = num(ZERO);
    let mut i: usize = 0;
    while i < points.len()
        invariant
            i <= points.len(),
            sum == pressure_sum(points@, i as nat),
        decreases points.len() - i,
    {
        sum = sum.plus(points[i].pressure);
        i = i + 1;
    }
    let mean = sum.over(F32::from_usize(points.len()));
    num(THIN).plus(num(SPREAD).times(mean.clamp(num(ZERO), num(ONE))))
}

fn mark(s: &Stroke, canvas: (F32, F32)) -> (r: Mark)
    ensures
        r@ == mark_of(s@, canvas),
{
    if s.points.len() == 0 {
        return Mark::Nothing;
    }
    if s.points.len() == 1 {
        return Mark::Dot(place(&s.points[0], canvas));
    }
    let ghost want = Seq::new(s@.len(), |i: int| on_canvas(s@[i], canvas));
    let mut line: Vec<(F32, F32)> = Vec::new();
    let mut i: usize = 0;
    while i < s.points.len()
        invariant
            i <= s.points.len(),
            want == Seq::new(s@.len(), |i: int| on_canvas(s@[i], canvas)),
            line@ == want.take(i as int),
        decreases s.points.len() - i,
    {
        line.push(place(&s.points[i], canvas));
        i = i + 1;
        assert(line@ =~= want.take(i as int));
    }
    assert(want.take(i as int) =~= want);
    Mark::Line(line, width_of(&s.points))
}

/// Lay a drawing out on a canvas of its shape.
pub fn picture(ink: &Ink) -> (r: Picture)
    ensures
        r@ == picture_of(ink@),
{
    let aspect = match ink.aspect_ratio() {
        Some(aspect) => aspect,
        None => num(TABLET_ASPECT),
    };
    let canvas = if aspect.ge(num(ONE)) {
        (num(LONG_EDGE), num(LONG_EDGE).over(aspect))
    } else {
        (num(LONG_EDGE).times(aspect), num(LONG_EDGE))
    };
    let width: usize = canvas.0.round().max(num(ONE)).to_usize();
    let height: usize = canvas.1.round().max(num(ONE)).to_usize();
    let ghost want = picture_of(ink@).marks;
    let mut marks: Vec<Mark> = Vec::new();
    let mut i: usize = 0;
    while i < ink.strokes.len()
        invariant
            i <= ink.strokes.len(),
            canvas == canvas_of(shape_of(ink@)),
            want == picture_of(ink@).marks,
            marks.len() == i,
            forall|k: int| 0 <= k < i ==> (#[trigger] marks@[k])@ == want[k],
        decreases ink.strokes.len() - i,
    {
        let m = mark(&ink.strokes[i], canvas);
        assert(ink@.strokes[i as int] == ink.strokes[i as int]@);
        marks.push(m);
        i = i + 1;
    }
    assert(Seq::new(marks@.len(), |i: int| marks@[i]@) =~= want);
    Picture { width, height, marks }
}

// ---------------------------------------------------------------------------------------------
// The screen
// ---------------------------------------------------------------------------------------------
/// The pixel at a place on a screen of the given size.
pub open spec fn pixel_of(at: (F32, F32), width: u16, height: u16) -> (i32, i32) {
    (
        at.0.times(crate::float::convert::of_int(width as int)).to_i32(),
        at.1.times(crate::float::convert::of_int(height as int)).to_i32(),
    )
}

/// The pixel at a place on a screen of the given size.
pub fn pixel(at: (F32, F32), width: u16, height: u16) -> (r: (i32, i32))
    ensures
        r == pixel_of(at, width, height),
{
    (
        at.0.times(F32::from_i32(width as i32)).to_i32(),
        at.1.times(F32::from_i32(height as i32)).to_i32(),
    )
}

/// The width of a line on the screen, in pixels.
pub open spec fn nib_of(pressure: F32) -> int {
    2 + pressure.clamp(num(ZERO), num(ONE)).times(num(SCREEN_SPREAD)).to_usize()
}

/// The width of a line on the screen, in pixels: from 2 to 6, by pressure.
pub fn nib(pressure: F32) -> (r: u32)
    ensures
        r == nib_of(pressure),
        2 <= r <= 6,
{
    let extra: usize = pressure.clamp(num(ZERO), num(ONE)).times(num(SCREEN_SPREAD)).to_usize();
    proof {
        lemma_extra(pressure);
    }
    2 + extra as u32
}

proof fn lemma_extra(pressure: F32)
    ensures
        pressure.clamp(num(ZERO), num(ONE)).times(num(SCREEN_SPREAD)).to_usize() <= 4,
{
    let v = pressure.clamp(num(ZERO), num(ONE));
    let w = v.times(num(SCREEN_SPREAD));
    reveal(F32::le_spec);
    if pressure.nan() {
        reveal(F32::clamp_spec);
        reveal(F32::times_spec);
        reveal(F32::lt_spec);
        reveal(crate::float::convert::truncated);
    } else {
        crate::float::order::lemma_clamp(pressure, num(ZERO), num(ONE));
        crate::float::monotone::lemma_unit_product(v, num(SCREEN_SPREAD));
        crate::float::monotone::lemma_whole_up_to_four(w);
    }
}

// ---------------------------------------------------------------------------------------------
// Characters
// ---------------------------------------------------------------------------------------------
/// The character for a grey value.
pub open spec fn shade_of(v: F32) -> char {
    let i = v.clamp(num(ZERO), num(ONE)).times(num(SHADES)).round().to_usize();
    if i == 0 {
        ' '
    } else if i == 1 {
        '.'
    } else if i == 2 {
        ':'
    } else if i == 3 {
        '+'
    } else if i == 4 {
        '*'
    } else {
        '#'
    }
}

/// Row `y` of an image of `size` by `size` grey values.
pub open spec fn row_of(img: Seq<F32>, size: int, y: int) -> Seq<char> {
    Seq::new(size as nat, |x: int| shade_of(img[y * size + x]))
}

fn shade(v: F32) -> (r: char)
    ensures
        r == shade_of(v),
{
    let i: usize = v.clamp(num(ZERO), num(ONE)).times(num(SHADES)).round().to_usize();
    if i == 0 {
        ' '
    } else if i == 1 {
        '.'
    } else if i == 2 {
        ':'
    } else if i == 3 {
        '+'
    } else if i == 4 {
        '*'
    } else {
        '#'
    }
}

/// A picture of an image of `size` by `size` grey values in characters, row by row.
pub fn ascii(img: &Vec<F32>, size: usize) -> (r: Vec<String>)
    requires
        size * size <= img.len(),
    ensures
        crate::text::text_views(r@) == Seq::new(
            size as nat,
            |y: int| row_of(img@, size as int, y),
        ),
{
    let ghost want = Seq::new(size as nat, |y: int| row_of(img@, size as int, y));
    let mut rows: Vec<String> = Vec::new();
    let mut y: usize = 0;
    assert(crate::text::text_views(rows@) =~= want.take(0));
    while y < size
        invariant
            y <= size,
            size * size <= img.len(),
            want == Seq::new(size as nat, |y: int| row_of(img@, size as int, y)),
            crate::text::text_views(rows@) == want.take(y as int),
        decreases size - y,
    {
        assert(y * size + size <= size * size) by (nonlinear_arith)
            requires
                y + 1 <= size,
        ;
        assert(y * size >= 0) by (nonlinear_arith);
        let start: usize = y * size;
        let mut row: Vec<char> = Vec::new();
        let mut x: usize = 0;
        while x < size
            invariant
                x <= size,
                start == y * size,
                start + size <= img.len(),
                row@ == row_of(img@, size as int, y as int).take(x as int),
            decreases size - x,
        {
            row.push(shade(img[start + x]));
            x = x + 1;
            assert(row@ =~= row_of(img@, size as int, y as int).take(x as int));
        }
        let text = text_of(&row);
        proof {
            assert(text@ =~= want[y as int]);
            assert(crate::text::text_views(rows@.push(text)) =~= crate::text::text_views(
                rows@,
            ).push(text@));
            assert(want.take(y + 1) =~= want.take(y as int).push(text@));
        }
        rows.push(text);
        y = y + 1;
    }
    assert(want.take(y as int) =~= want);
    rows
}

} // verus!
