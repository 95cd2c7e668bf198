//! Making recognition test cases out of a handwriting corpus: the first sample of each wanted
//! class, as a normalized drawing with the LaTeX that it stands for.
use crate::classify::Labels;
use crate::detexify::Sample;
use crate::float::{num, F32};
use crate::latex::symbol_command;
use crate::stroke::{bounds, BBox, Ink, InkView, Point, Stroke, ONE, TINY};
use crate::text::{append, chars_of, same_text, text_of};
use vstd::prelude::*;

verus! {

/// A point in a frame whose origin is the corner of the box and whose side is `span`.
pub open spec fn framed_point(p: Point, b: BBox, span: F32) -> Point {
    Point { x: p.x.minus(b.min_x).over(span), y: p.y.minus(b.min_y).over(span), ..p }
}

/// The longer side of a box, but not nothing.
pub open spec fn span_of(b: BBox) -> F32 {
    b.max_x.minus(b.min_x).max(b.max_y.minus(b.min_y)).max(num(TINY))
}

/// Strokes fitted into the unit square with one scale for both axes.
pub open spec fn fitted(strokes: Seq<Seq<Point>>) -> Seq<Seq<Point>> {
    let b = crate::stroke::extent(crate::stroke::all_points(strokes));
    Seq::new(
        strokes.len(),
        |i: int|
            Seq::new(strokes[i].len(), |j: int| framed_point(strokes[i][j], b, span_of(b))),
    )
}

/// A file name for a class: a colon does not stand in one.
pub open spec fn stem_of(class: Seq<char>) -> Seq<char> {
    Seq::new(
        class.len(),
        |i: int|
            if class[i] == ':' {
                '_'
            } else {
                class[i]
            },
    )
}

/// A test case: the stem of its files, the drawing, and the expected LaTeX on a line.
#[derive(Debug)]
pub struct Case {
    pub stem: String,
    pub ink: Ink,
    pub tex: String,
}

/// What a [`Case`] holds.
#[verifier::ext_equal]
pub struct CaseView {
    pub stem: Seq<char>,
    pub ink: InkView,
    pub tex: Seq<char>,
}

impl View for Case {
    type V = CaseView;

    open spec fn view(&self) -> CaseView {
        CaseView { stem: self.stem@, ink: self.ink@, tex: self.tex@ }
    }
}

/// The test case of a sample.
pub open spec fn case_of(class: Seq<char>, strokes: Seq<Seq<Point>>) -> CaseView {
    CaseView {
        stem: stem_of(class),
        ink: InkView {
            source_width: num(ONE),
            source_height: num(ONE),
            strokes: fitted(strokes),
        },
        tex: crate::latex::command_of(class) + "\n"@,
    }
}

fn fit_stroke(s: &Stroke, b: &BBox, span: F32) -> (r: Stroke)
    ensures
        r@ == Seq::new(s@.len(), |j: int| framed_point(s@[j], *b, span)),
{
    let ghost want = Seq::new(s@.len(), |j: int| framed_point(s@[j], *b, span));
    let mut points: Vec<Point> = Vec::new();
    let mut j: usize = 0;
    while j < s.points.len()
        invariant
            j <= s.points.len(),
            want == Seq::new(s@.len(), |j: int| framed_point(s@[j], *b, span)),
            points@ == want.take(j as int),
        decreases s.points.len() - j,
    {
        let p = s.points[j];
        let x = p.x.minus(b.min_x).over(span);
        let y = p.y.minus(b.min_y).over(span);
        points.push(Point::new(x, y, p.pressure, p.tilt_x, p.tilt_y, p.t_us));
        j = j + 1;
        assert(points@ =~= want.take(j as int));
    }
    assert(want.take(j as int) =~= want);
    Stroke { points }
}

fn fit(strokes: &Vec<Stroke>, b: &BBox) -> (r: Vec<Stroke>)
    requires
        *b == crate::stroke::extent(
            crate::stroke::all_points(crate::stroke::trajectories(strokes@)),
        ),
    ensures
        crate::stroke::trajectories(r@) == fitted(crate::stroke::trajectories(strokes@)),
{
    let ghost ink = crate::stroke::trajectories(strokes@);
    let ghost want = fitted(ink);
    let span = b.max_x.minus(b.min_x).max(b.max_y.minus(b.min_y)).max(num(TINY));
    let mut out: Vec<Stroke> = Vec::new();
    let mut i: usize = 0;
    assert(crate::stroke::trajectories(out@) =~= want.take(0));
    while i < strokes.len()
        invariant
            i <= strokes.len(),
            ink == crate::stroke::trajectories(strokes@),
            *b == crate::stroke::extent(crate::stroke::all_points(ink)),
            span == span_of(*b),
            want == fitted(ink),
            crate::stroke::trajectories(out@) == want.take(i as int),
        decreases strokes.len() - i,
    {
        let s = fit_stroke(&strokes[i], b, span);
        proof {
            assert(ink[i as int] == strokes[i as int]@);
            assert(s@ =~= want[i as int]);
            assert(crate::stroke::trajectories(out@.push(s)) =~= crate::stroke::trajectories(
                out@,
            ).push(s@));
            assert(want.take(i + 1) =~= want.take(i as int).push(s@));
        }
        out.push(s);
        i = i + 1;
    }
    assert(want.take(i as int) =~= want);
    out
}

fn stem(class: &str) -> (r: String)
    ensures
        r@ == stem_of(class@),
{
    let chars = chars_of(class);
    let mut out: Vec<char> = Vec::new();
    let mut i: usize = 0;
    while i < chars.len()
        invariant
            i <= chars.len(),
            chars@ == class@,
            out@ == stem_of(class@).take(i as int),
        decreases chars.len() - i,
    {
        out.push(
            if chars[i] == ':' {
                '_'
            } else {
                chars[i]
            },
        );
        i = i + 1;
        assert(out@ =~= stem_of(class@).take(i as int));
    }
    assert(stem_of(class@).take(i as int) =~= stem_of(class@));
    text_of(&out)
}

// ---------------------------------------------------------------------------------------------
// The corpus
// ---------------------------------------------------------------------------------------------
/// A corpus in the making: the wanted classes, and for each whether it has its case.
#[derive(Debug)]
pub struct Corpus {
    pub wanted: Vec<String>,
    pub taken: Vec<bool>,
}

/// What a [`Corpus`] holds.
#[verifier::ext_equal]
pub struct CorpusView {
    pub wanted: Seq<Seq<char>>,
    pub taken: Seq<bool>,
}

impl View for Corpus {
    type V = CorpusView;

    open spec fn view(&self) -> CorpusView {
        CorpusView { wanted: crate::text::text_views(self.wanted@), taken: self.taken@ }
    }
}

impl CorpusView {
    pub open spec fn wf(self) -> bool {
        self.taken.len() == self.wanted.len()
    }
}

/// Where a class first stands among the wanted ones, from `from` on; past the end if it does not.
pub open spec fn wanted_at(wanted: Seq<Seq<char>>, class: Seq<char>, from: nat) -> nat
    decreases wanted.len() - from,
{
    if from >= wanted.len() || wanted[from as int] == class {
        from
    } else {
        wanted_at(wanted, class, from + 1)
    }
}

/// Does the corpus have a case of the class?
pub open spec fn covered(c: CorpusView, class: Seq<char>) -> bool {
    let i = wanted_at(c.wanted, class, 0);
    i < c.wanted.len() && c.taken[i as int]
}

/// Does a sample become a case? It does if its class is wanted and has none yet, and if there is
/// any ink in it.
pub open spec fn accepted(c: CorpusView, class: Seq<char>, strokes: Seq<Seq<Point>>) -> bool {
    let i = wanted_at(c.wanted, class, 0);
    i < c.wanted.len() && !c.taken[i as int] && crate::stroke::all_points(strokes).len() > 0
}

/// The corpus after a sample.
pub open spec fn with_sample(
    c: CorpusView,
    class: Seq<char>,
    strokes: Seq<Seq<Point>>,
) -> CorpusView {
    if accepted(c, class, strokes) {
        CorpusView { taken: c.taken.update(wanted_at(c.wanted, class, 0) as int, true), ..c }
    } else {
        c
    }
}

/// Those of the first `n` wanted classes that have no case.
pub open spec fn missing_in(c: CorpusView, n: nat) -> Seq<Seq<char>>
    decreases n,
{
    if n == 0 {
        Seq::empty()
    } else {
        let before = missing_in(c, (n - 1) as nat);
        if covered(c, c.wanted[n - 1]) {
            before
        } else {
            before.push(c.wanted[n - 1])
        }
    }
}

/// How many of the first `n` have a case.
pub open spec fn count_taken(taken: Seq<bool>, n: nat) -> nat
    decreases n,
{
    if n == 0 {
        0
    } else {
        count_taken(taken, (n - 1) as nat) + if taken[n - 1] {
            1nat
        } else {
            0nat
        }
    }
}

fn find_wanted(wanted: &Vec<String>, class: &str) -> (r: usize)
    ensures
        r == wanted_at(crate::text::text_views(wanted@), class@, 0),
        r <= wanted.len(),
{
    let ghost views = crate::text::text_views(wanted@);
    let mut i: usize = 0;
    while i < wanted.len()
        invariant
            i <= wanted.len(),
            views == crate::text::text_views(wanted@),
            wanted_at(views, class@, 0) == wanted_at(views, class@, i as nat),
        decreases wanted.len() - i,
    {
        assert(views[i as int] == wanted[i as int]@);
        if same_text(wanted[i].as_str(), class) {
            return i;
        }
        i = i + 1;
    }
    i
}

impl Corpus {
    /// A corpus without cases, for the classes in a text, one per line.
    pub fn new(text: &str) -> (r: Self)
        ensures
            r@.wf(),
            r@.wanted == crate::dataset::classes_in(text@),
            forall|i: int| 0 <= i < r@.taken.len() ==> !#[trigger] r@.taken[i],
    {
        let wanted = Labels::from_lines(text).names;
        let mut taken: Vec<bool> = Vec::new();
        let mut i: usize = 0;
        while i < wanted.len()
            invariant
                i <= wanted.len(),
                taken.len() == i,
                forall|k: int| 0 <= k < taken.len() ==> !#[trigger] taken[k],
            decreases wanted.len() - i,
        {
            taken.push(false);
            i = i + 1;
        }
        let r = Corpus { wanted, taken };
        assert(r@.wanted =~= crate::dataset::classes_in(text@));
        r
    }

    /// Take a sample: its case, if it becomes one.
    pub fn add(&mut self, sample: &Sample) -> (r: Option<Case>)
        requires
            old(self)@.wf(),
        ensures
            final(self)@.wf(),
            final(self)@ == with_sample(old(self)@, sample@.class, sample@.strokes),
            if accepted(old(self)@, sample@.class, sample@.strokes) {
                r matches Some(case) && case@ == case_of(sample@.class, sample@.strokes)
            } else {
                r is None
            },
    {
        let ghost before = self@;
        let i = find_wanted(&self.wanted, sample.class.as_str());
        if i == self.wanted.len() || self.taken[i] {
            return None;
        }
        match bounds(sample.strokes.as_slice()) {
            None => None,
            Some(b) => {
                self.taken.set(i, true);
                assert(self@ =~= with_sample(before, sample@.class, sample@.strokes));
                let mut tex = chars_of(symbol_command(sample.class.as_str()).as_str());
                append(&mut tex, "\n");
                Some(
                    Case {
                        stem: stem(sample.class.as_str()),
                        ink: Ink {
                            source_width: num(ONE),
                            source_height: num(ONE),
                            strokes: fit(&sample.strokes, &b),
                        },
                        tex: text_of(&tex),
                    },
                )
            },
        }
    }

    /// How many cases there are.
    pub fn cases(&self) -> (r: usize)
        ensures
            r == count_taken(self.taken@, self.taken@.len()),
    {
        let mut r: usize = 0;
        let mut i: usize = 0;
        while i < self.taken.len()
            invariant
                i <= self.taken.len(),
                r <= i,
                r == count_taken(self.taken@, i as nat),
            decreases self.taken.len() - i,
        {
            if self.taken[i] {
                r = r + 1;
            }
            i = i + 1;
        }
        r
    }

    /// The wanted classes that have no case.
    pub fn missing(&self) -> (r: Vec<String>)
        requires
            self@.wf(),
        ensures
            crate::text::text_views(r@) == missing_in(self@, self@.wanted.len()),
    {
        let mut out: Vec<String> = Vec::new();
        let mut i: usize = 0;
        assert(crate::text::text_views(out@) =~= Seq::<Seq<char>>::empty());
        while i < self.wanted.len()
            invariant
                self@.wf(),
                i <= self.wanted.len(),
                crate::text::text_views(out@) == missing_in(self@, i as nat),
            decreases self.wanted.len() - i,
        {
            let name = self.wanted[i].as_str();
            assert(self@.wanted[i as int] == name@);
            let k = find_wanted(&self.wanted, name);
            if k == self.wanted.len() || !self.taken[k] {
                let s = text_of(&chars_of(name));
                assert(crate::text::text_views(out@.push(s)) =~= crate::text::text_views(
                    out@,
                ).push(s@));
                out.push(s);
            }
            i = i + 1;
        }
        out
    }
}

// ---------------------------------------------------------------------------------------------
// Laws
// ---------------------------------------------------------------------------------------------
/// The first sample of a class wins: once a class has its case, further samples of it change
/// nothing.
pub proof fn law_the_first_sample_wins(
    c: CorpusView,
    class: Seq<char>,
    first: Seq<Seq<Point>>,
    second: Seq<Seq<Point>>,
)
    requires
        c.wf(),
        accepted(c, class, first),
    ensures
        covered(with_sample(c, class, first), class),
        !accepted(with_sample(c, class, first), class, second),
        with_sample(with_sample(c, class, first), class, second) == with_sample(c, class, first),
{
    lemma_wanted_at(c.wanted, class, 0);
}

/// A class that is not wanted never becomes a case.
pub proof fn law_only_wanted_classes_become_cases(
    c: CorpusView,
    class: Seq<char>,
    strokes: Seq<Seq<Point>>,
)
    requires
        c.wf(),
        accepted(c, class, strokes),
    ensures
        c.wanted.contains(class),
{
    lemma_wanted_at(c.wanted, class, 0);
    let i = wanted_at(c.wanted, class, 0) as int;
    assert(c.wanted[i] == class);
}

proof fn lemma_wanted_at(wanted: Seq<Seq<char>>, class: Seq<char>, from: nat)
    requires
        from <= wanted.len(),
    ensures
        ({
            let i = wanted_at(wanted, class, from);
            from <= i <= wanted.len() && (i < wanted.len() ==> wanted[i as int] == class)
        }),
    decreases wanted.len() - from,
{
    if from < wanted.len() && wanted[from as int] != class {
        lemma_wanted_at(wanted, class, from + 1);
    }
}

/// Fitting keeps the shape of the drawing: the number of strokes, the number of points in each, and
/// everything about a point but its place.
pub proof fn law_fitting_moves_points_only(strokes: Seq<Seq<Point>>, i: int, j: int)
    requires
        0 <= i < strokes.len(),
        0 <= j < strokes[i].len(),
    ensures
        fitted(strokes).len() == strokes.len(),
        fitted(strokes)[i].len() == strokes[i].len(),
        ({
            let p = fitted(strokes)[i][j];
            let q = strokes[i][j];
            p.pressure == q.pressure && p.tilt_x == q.tilt_x && p.tilt_y == q.tilt_y && p.t_us
                == q.t_us
        }),
{
}

/// Are all coordinates finite?
pub open spec fn all_finite(strokes: Seq<Seq<Point>>) -> bool {
    forall|i: int, j: int|
        0 <= i < strokes.len() && 0 <= j < strokes[i].len() ==> (#[trigger] strokes[i][j]).x.finite()
            && strokes[i][j].y.finite()
}

/// A point of a stroke is among all points.
proof fn lemma_among_all(strokes: Seq<Seq<Point>>, i: int, j: int) -> (k: int)
    requires
        0 <= i < strokes.len(),
        0 <= j < strokes[i].len(),
    ensures
        0 <= k < crate::stroke::all_points(strokes).len(),
        crate::stroke::all_points(strokes)[k] == strokes[i][j],
    decreases strokes.len(),
{
    let before = crate::stroke::all_points(strokes.drop_last());
    if i == strokes.len() - 1 {
        before.len() + j
    } else {
        assert(strokes.drop_last()[i] == strokes[i]);
        lemma_among_all(strokes.drop_last(), i, j)
    }
}

/// All points are points of strokes.
proof fn lemma_all_finite(strokes: Seq<Seq<Point>>)
    requires
        all_finite(strokes),
    ensures
        forall|k: int|
            0 <= k < crate::stroke::all_points(strokes).len() ==> (
            #[trigger] crate::stroke::all_points(strokes)[k]).x.finite()
                && crate::stroke::all_points(strokes)[k].y.finite(),
    decreases strokes.len(),
{
    if strokes.len() > 0 {
        let before = strokes.drop_last();
        assert(all_finite(before)) by {
            assert forall|i: int, j: int|
                0 <= i < before.len() && 0 <= j < before[i].len() implies (
            #[trigger] before[i][j]).x.finite() && before[i][j].y.finite() by {
                assert(before[i][j] == strokes[i][j]);
            }
        }
        lemma_all_finite(before);
        let last = strokes.len() - 1;
        assert forall|k: int| 0 <= k < crate::stroke::all_points(strokes).len() implies (
        #[trigger] crate::stroke::all_points(strokes)[k]).x.finite()
            && crate::stroke::all_points(strokes)[k].y.finite() by {
            let head = crate::stroke::all_points(before);
            if k >= head.len() {
                assert(crate::stroke::all_points(strokes)[k] == strokes[last][k - head.len()]);
            } else {
                assert(crate::stroke::all_points(strokes)[k] == head[k]);
            }
        }
    }
}

/// A fitted drawing lies in the unit square: every coordinate is between 0 and 1. (Coordinates so
/// far apart that their distance is no finite number are left out.)
pub proof fn law_cases_lie_in_the_unit_square(strokes: Seq<Seq<Point>>, i: int, j: int)
    requires
        all_finite(strokes),
        span_of(crate::stroke::extent(crate::stroke::all_points(strokes))).finite(),
        0 <= i < strokes.len(),
        0 <= j < strokes[i].len(),
    ensures
        crate::transform::in_unit_range(fitted(strokes)[i][j].x),
        crate::transform::in_unit_range(fitted(strokes)[i][j].y),
{
    let points = crate::stroke::all_points(strokes);
    let b = crate::stroke::extent(points);
    let span = span_of(b);
    let k = lemma_among_all(strokes, i, j);
    lemma_all_finite(strokes);
    crate::stroke::law_extent_holds_every_point(points, k);
    crate::stroke::lemma_extent_finite(points);
    let p = strokes[i][j];
    let w = b.max_x.minus(b.min_x);
    let h = b.max_y.minus(b.min_y);
    crate::float::monotone::lemma_difference(b.min_x, p.x, b.min_x);
    crate::float::monotone::lemma_difference(p.x, b.max_x, b.min_x);
    crate::float::monotone::lemma_difference(b.min_y, p.y, b.min_y);
    crate::float::monotone::lemma_difference(p.y, b.max_y, b.min_y);
    crate::float::order::lemma_min_max(w, h);
    crate::float::order::lemma_min_max(w.max(h), num(TINY));
    reveal(F32::le_spec);
    crate::float::monotone::lemma_unit_quotient(p.x.minus(b.min_x), span);
    crate::float::monotone::lemma_unit_quotient(p.y.minus(b.min_y), span);
}

} // verus!
