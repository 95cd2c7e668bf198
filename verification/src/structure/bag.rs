//! The symbols of a parse are a bag: the order in which they are given does not matter.
use super::{BaseView, Candidate, SymbolView, UnitView};
use crate::float::F32;
use crate::stroke::BBox;
use vstd::prelude::*;

verus! {

// ---------------------------------------------------------------------------------------------
// What the law asks for
// ---------------------------------------------------------------------------------------------
/// Is no coordinate of the box NaN?
pub open spec fn plain_box(b: BBox) -> bool {
    !b.min_x.nan() && !b.min_y.nan() && !b.max_x.nan() && !b.max_y.nan()
}

/// Are the coordinates of all symbols numbers, and their left edges distinct?
pub open spec fn spread(pool: Seq<SymbolView>) -> bool {
    &&& forall|i: int| 0 <= i < pool.len() ==> plain_box((#[trigger] pool[i]).bbox)
    &&& forall|i: int, j: int|
        0 <= i < j < pool.len() ==> !(#[trigger] pool[i]).bbox.min_x.same(
            (#[trigger] pool[j]).bbox.min_x,
        )
}

/// Is the candidate a composite at one of the symbols?
pub open spec fn stands(pool: Seq<SymbolView>, c: Candidate) -> bool {
    0 <= c.at < pool.len() && super::is_composite(pool, c)
}

/// The area that a candidate takes up.
pub open spec fn area_of(pool: Seq<SymbolView>, c: Candidate) -> F32 {
    super::region(pool, c).area()
}

/// Does one of any two composites take up a larger area than the other?
pub open spec fn untied(pool: Seq<SymbolView>) -> bool {
    forall|c: Candidate, d: Candidate|
        #[trigger] stands(pool, c) && #[trigger] stands(pool, d) && c != d ==> area_of(pool, c).lt(
            area_of(pool, d),
        ) || area_of(pool, d).lt(area_of(pool, c))
}

/// Does one of any two composites take up a larger area than the other, wherever the parse chooses
/// one: among all symbols, among the parts of the one that it took, and among what that one left?
pub open spec fn always_untied(pool: Seq<SymbolView>) -> bool
    decreases pool.len(),
{
    &&& untied(pool)
    &&& match super::outermost(pool) {
        None => true,
        Some(c) => if stands(pool, c) {
            proof {
                super::lemma_composite_counts(pool, c, pool.len());
            }
            let n = pool.len();
            &&& always_untied(super::left_over(pool, c, n))
            &&& if c.fraction {
                &&& always_untied(super::picked(pool, super::side(pool, c.at, true, n)))
                &&& always_untied(super::picked(pool, super::side(pool, c.at, false, n)))
            } else {
                always_untied(super::picked(pool, super::inside(pool, c.at, n)))
            }
        } else {
            true
        },
    }
}

// ---------------------------------------------------------------------------------------------
// Bags without repetition
// ---------------------------------------------------------------------------------------------
/// Do two lists hold the same things, each of them once?
spec fn alike<A>(a: Seq<A>, b: Seq<A>) -> bool {
    &&& a.no_duplicates()
    &&& b.no_duplicates()
    &&& forall|s: A| #[trigger] a.contains(s) <==> b.contains(s)
}

proof fn lemma_alike_len<A>(a: Seq<A>, b: Seq<A>)
    requires
        alike(a, b),
    ensures
        a.len() == b.len(),
{
    a.unique_seq_to_set();
    b.unique_seq_to_set();
    assert(a.to_set() =~= b.to_set()) by {
        assert forall|s: A| a.to_set().contains(s) == b.to_set().contains(s) by {
            assert(a.contains(s) == b.contains(s));
        }
    }
}

/// Symbols with distinct left edges are distinct.
pub(super) proof fn lemma_spread_distinct(pool: Seq<SymbolView>)
    requires
        spread(pool),
    ensures
        pool.no_duplicates(),
{
    assert forall|i: int, j: int| 0 <= i < pool.len() && 0 <= j < pool.len() && i != j implies pool[i]
        != pool[j] by {
        reveal(F32::same_spec);
        reveal(F32::le_spec);
        assert(plain_box(pool[i].bbox));
        if i < j {
            assert(!pool[i].bbox.min_x.same(pool[j].bbox.min_x));
        } else {
            assert(!pool[j].bbox.min_x.same(pool[i].bbox.min_x));
        }
    }
}

/// Are two symbols of a spread pool that have one left edge the same symbol?
proof fn lemma_same_edge(pool: Seq<SymbolView>, s: SymbolView, t: SymbolView)
    requires
        spread(pool),
        pool.contains(s),
        pool.contains(t),
        s.bbox.min_x.same(t.bbox.min_x),
    ensures
        s == t,
{
    let i = choose|i: int| 0 <= i < pool.len() && pool[i] == s;
    let j = choose|j: int| 0 <= j < pool.len() && pool[j] == t;
    reveal(F32::same_spec);
    reveal(F32::le_spec);
    if i < j {
        assert(!pool[i].bbox.min_x.same(pool[j].bbox.min_x));
    } else if j < i {
        assert(!pool[j].bbox.min_x.same(pool[i].bbox.min_x));
    }
}

/// A list without repetition of symbols of a spread pool is spread.
proof fn lemma_spread_part(pool: Seq<SymbolView>, part: Seq<SymbolView>)
    requires
        spread(pool),
        part.no_duplicates(),
        forall|s: SymbolView| #[trigger] part.contains(s) ==> pool.contains(s),
    ensures
        spread(part),
{
    assert forall|i: int| 0 <= i < part.len() implies plain_box((#[trigger] part[i]).bbox) by {
        assert(part.contains(part[i]));
        let k = choose|k: int| 0 <= k < pool.len() && pool[k] == part[i];
        assert(plain_box(pool[k].bbox));
    }
    assert forall|i: int, j: int| 0 <= i < j < part.len() implies !(
    #[trigger] part[i]).bbox.min_x.same((#[trigger] part[j]).bbox.min_x) by {
        assert(part.contains(part[i]) && part.contains(part[j]));
        if part[i].bbox.min_x.same(part[j].bbox.min_x) {
            lemma_same_edge(pool, part[i], part[j]);
        }
    }
}

// ---------------------------------------------------------------------------------------------
// What a composite takes, without indices
// ---------------------------------------------------------------------------------------------
/// Does `s` belong to the fraction with the bar `b`?
pub(super) open spec fn of_fraction(b: SymbolView, s: SymbolView) -> bool {
    s != b && !s.bbox.contains(&b.bbox) && s.bbox.center_in_x(&b.bbox)
}

/// Is `s` above (or else below) the bar `b`, in its fraction?
spec fn of_side(b: SymbolView, above: bool, s: SymbolView) -> bool {
    of_fraction(b, s) && s.bbox.cy().lt(b.bbox.cy()) == above
}

/// Does `s` lie under the radical `r`?
spec fn of_radical(r: SymbolView, s: SymbolView) -> bool {
    s != r && r.bbox.contains_center(&s.bbox)
}

/// The symbols of one side of a fraction, each once.
proof fn lemma_side(pool: Seq<SymbolView>, i: int, above: bool, n: nat)
    requires
        pool.no_duplicates(),
        0 <= i < pool.len(),
        n <= pool.len(),
    ensures
        forall|j: int|
            0 <= j < super::side(pool, i, above, n).len() ==> 0 <= #[trigger] super::side(
                pool,
                i,
                above,
                n,
            )[j] < n,
        super::picked(pool, super::side(pool, i, above, n)).no_duplicates(),
        forall|s: SymbolView| #[trigger]
            super::picked(pool, super::side(pool, i, above, n)).contains(s) <==> of_side(
                pool[i],
                above,
                s,
            ) && pool.take(n as int).contains(s),
    decreases n,
{
    let now = super::side(pool, i, above, n);
    if n > 0 {
        let last = n - 1;
        let before = super::side(pool, i, above, last as nat);
        lemma_side(pool, i, above, last as nat);
        lemma_take_one(pool, n as int);
        assert((pool[last] == pool[i]) == (last == i));
        let part = super::picked(pool, before);
        assert(super::in_fraction(pool, i, last) == of_fraction(pool[i], pool[last]));
        if super::in_fraction(pool, i, last) && super::upper(pool, i, last) == above {
            lemma_one_more(pool, last, before, part, super::picked(pool, now));
        }
    } else {
        assert(super::picked(pool, now) =~= Seq::<SymbolView>::empty());
        assert(pool.take(0) =~= Seq::<SymbolView>::empty());
    }
}

/// The symbols under a radical, each once.
proof fn lemma_inside(pool: Seq<SymbolView>, i: int, n: nat)
    requires
        pool.no_duplicates(),
        0 <= i < pool.len(),
        n <= pool.len(),
    ensures
        forall|j: int|
            0 <= j < super::inside(pool, i, n).len() ==> 0 <= #[trigger] super::inside(pool, i, n)[j]
                < n,
        super::picked(pool, super::inside(pool, i, n)).no_duplicates(),
        forall|s: SymbolView| #[trigger]
            super::picked(pool, super::inside(pool, i, n)).contains(s) <==> of_radical(pool[i], s)
                && pool.take(n as int).contains(s),
    decreases n,
{
    let now = super::inside(pool, i, n);
    if n > 0 {
        let last = n - 1;
        let before = super::inside(pool, i, last as nat);
        lemma_inside(pool, i, last as nat);
        lemma_take_one(pool, n as int);
        assert((pool[last] == pool[i]) == (last == i));
        let part = super::picked(pool, before);
        if super::in_radical(pool, i, last) {
            lemma_one_more(pool, last, before, part, super::picked(pool, now));
        }
    } else {
        assert(super::picked(pool, now) =~= Seq::<SymbolView>::empty());
        assert(pool.take(0) =~= Seq::<SymbolView>::empty());
    }
}

/// What the first symbols hold, with one more.
proof fn lemma_take_one(pool: Seq<SymbolView>, n: int)
    requires
        pool.no_duplicates(),
        0 < n <= pool.len(),
    ensures
        forall|s: SymbolView| #[trigger]
            pool.take(n).contains(s) <==> pool.take(n - 1).contains(s) || s == pool[n - 1],
        !pool.take(n - 1).contains(pool[n - 1]),
{
    let (a, b) = (pool.take(n - 1), pool.take(n));
    let t = pool[n - 1];
    assert(b =~= a.push(t));
    assert forall|s: SymbolView| #[trigger] b.contains(s) <==> a.contains(s) || s == t by {
        if a.contains(s) {
            let k = choose|k: int| 0 <= k < a.len() && a[k] == s;
            assert(b[k] == s);
        }
        if s == t {
            assert(b[n - 1] == s);
        }
    }
}

/// A part with one more symbol behind it.
proof fn lemma_one_more(
    pool: Seq<SymbolView>,
    last: int,
    before: Seq<int>,
    part: Seq<SymbolView>,
    now: Seq<SymbolView>,
)
    requires
        0 <= last < pool.len(),
        part == super::picked(pool, before),
        now == super::picked(pool, before.push(last)),
        part.no_duplicates(),
        !part.contains(pool[last]),
    ensures
        now == part.push(pool[last]),
        now.no_duplicates(),
        forall|s: SymbolView| #[trigger] now.contains(s) <==> part.contains(s) || s == pool[last],
{
    assert(now =~= part.push(pool[last]));
    lemma_push_distinct(part, pool[last]);
}

proof fn lemma_push_distinct<A>(part: Seq<A>, x: A)
    requires
        part.no_duplicates(),
        !part.contains(x),
    ensures
        part.push(x).no_duplicates(),
        forall|s: A| #[trigger] part.push(x).contains(s) <==> part.contains(s) || s == x,
{
    let now = part.push(x);
    assert forall|s: A| #[trigger] now.contains(s) <==> part.contains(s) || s == x by {
        if part.contains(s) {
            let k = choose|k: int| 0 <= k < part.len() && part[k] == s;
            assert(now[k] == s);
        }
        if s == x {
            assert(now[part.len() as int] == s);
        }
    }
    assert forall|i: int, j: int| 0 <= i < now.len() && 0 <= j < now.len() && i != j implies now[i]
        != now[j] by {
        if i == part.len() {
            assert(part.contains(part[j]));
        } else if j == part.len() {
            assert(part.contains(part[i]));
        }
    }
}

/// Does the composite at `b` take `s`?
spec fn taken(b: SymbolView, fraction: bool, s: SymbolView) -> bool {
    s == b || if fraction {
        of_fraction(b, s)
    } else {
        of_radical(b, s)
    }
}

/// What a composite leaves, each once.
proof fn lemma_left_over(pool: Seq<SymbolView>, c: Candidate, n: nat)
    requires
        pool.no_duplicates(),
        0 <= c.at < pool.len(),
        n <= pool.len(),
    ensures
        super::left_over(pool, c, n).no_duplicates(),
        forall|s: SymbolView| #[trigger]
            super::left_over(pool, c, n).contains(s) <==> !taken(pool[c.at], c.fraction, s)
                && pool.take(n as int).contains(s),
    decreases n,
{
    let now = super::left_over(pool, c, n);
    if n > 0 {
        let last = n - 1;
        let before = super::left_over(pool, c, last as nat);
        lemma_left_over(pool, c, last as nat);
        lemma_take_one(pool, n as int);
        assert((pool[last] == pool[c.at]) == (last == c.at));
        assert(super::consumes(pool, c, last) == taken(pool[c.at], c.fraction, pool[last]));
        if !super::consumes(pool, c, last) {
            lemma_push_distinct(before, pool[last]);
        }
    } else {
        assert(pool.take(0) =~= Seq::<SymbolView>::empty());
    }
}

// ---------------------------------------------------------------------------------------------
// The box of a fraction
// ---------------------------------------------------------------------------------------------
/// Where a number other than NaN stands among all of them, the negative zero before the positive
/// one.
pub(super) open spec fn place(a: F32) -> int {
    if a.negative() {
        -a.magnitude() - 1
    } else {
        a.magnitude()
    }
}

pub(super) proof fn lemma_place(a: F32, b: F32)
    requires
        !a.nan(),
        !b.nan(),
    ensures
        place(a) == place(b) ==> a == b,
        a.min(b) == if place(b) < place(a) {
            b
        } else {
            a
        },
        a.max(b) == if place(a) < place(b) {
            b
        } else {
            a
        },
{
    reveal(F32::min_spec);
    reveal(F32::max_spec);
    reveal(F32::lt_spec);
}

/// Is the box made of edges of the bar and of the fraction's symbols among the first `n`, none of
/// which reach further?
pub(super) open spec fn tight(pool: Seq<SymbolView>, b: SymbolView, n: nat, x: BBox) -> bool {
    let first = pool.take(n as int);
    &&& plain_box(x)
    &&& exists|s: SymbolView| #[trigger] covers(first, b, s) && s.bbox.min_x == x.min_x
    &&& exists|s: SymbolView| #[trigger] covers(first, b, s) && s.bbox.min_y == x.min_y
    &&& exists|s: SymbolView| #[trigger] covers(first, b, s) && s.bbox.max_x == x.max_x
    &&& exists|s: SymbolView| #[trigger] covers(first, b, s) && s.bbox.max_y == x.max_y
    &&& forall|s: SymbolView| #[trigger]
        covers(first, b, s) ==> place(x.min_x) <= place(s.bbox.min_x) && place(x.min_y) <= place(
            s.bbox.min_y,
        ) && place(s.bbox.max_x) <= place(x.max_x) && place(s.bbox.max_y) <= place(x.max_y)
}

/// Is `s` the bar, or one of the fraction's symbols in the list?
pub(super) open spec fn covers(list: Seq<SymbolView>, b: SymbolView, s: SymbolView) -> bool {
    s == b || (list.contains(s) && of_fraction(b, s))
}

pub(super) proof fn lemma_fraction_box(pool: Seq<SymbolView>, i: int, n: nat)
    requires
        spread(pool),
        0 <= i < pool.len(),
        n <= pool.len(),
    ensures
        tight(pool, pool[i], n, super::fraction_box(pool, i, n)),
    decreases n,
{
    let b = pool[i];
    let x = super::fraction_box(pool, i, n);
    let first = pool.take(n as int);
    assert(plain_box(pool[i].bbox));
    lemma_spread_distinct(pool);
    if n == 0 {
        assert(first =~= Seq::<SymbolView>::empty());
        assert(covers(first, b, b));
    } else {
        let last = n - 1;
        let y = super::fraction_box(pool, i, last as nat);
        let rest = pool.take(last);
        let t = pool[last];
        lemma_fraction_box(pool, i, last as nat);
        lemma_take_one(pool, n as int);
        assert(plain_box(pool[last].bbox));
        assert((t == b) == (last == i));
        assert(super::in_fraction(pool, i, last) == of_fraction(b, t));
        assert forall|s: SymbolView| #[trigger] covers(rest, b, s) implies covers(first, b, s) by {}
        let s1 = choose|s: SymbolView| #[trigger] covers(rest, b, s) && s.bbox.min_x == y.min_x;
        let s2 = choose|s: SymbolView| #[trigger] covers(rest, b, s) && s.bbox.min_y == y.min_y;
        let s3 = choose|s: SymbolView| #[trigger] covers(rest, b, s) && s.bbox.max_x == y.max_x;
        let s4 = choose|s: SymbolView| #[trigger] covers(rest, b, s) && s.bbox.max_y == y.max_y;
        assert(covers(first, b, s1) && covers(first, b, s2) && covers(first, b, s3) && covers(
            first,
            b,
            s4,
        ));
        if super::in_fraction(pool, i, last) {
            assert(first.contains(t));
            assert(covers(first, b, t));
            lemma_place(y.min_x, t.bbox.min_x);
            lemma_place(y.min_y, t.bbox.min_y);
            lemma_place(y.max_x, t.bbox.max_x);
            lemma_place(y.max_y, t.bbox.max_y);
        }
        assert forall|s: SymbolView| #[trigger] covers(first, b, s) implies place(x.min_x) <= place(
            s.bbox.min_x,
        ) && place(x.min_y) <= place(s.bbox.min_y) && place(s.bbox.max_x) <= place(x.max_x) && place(
            s.bbox.max_y,
        ) <= place(x.max_y) by {
            if s != t || s == b {
                assert(covers(rest, b, s));
            }
        }
    }
}

/// The box of a fraction does not depend on the order of the symbols.
proof fn lemma_fraction_box_same(p: Seq<SymbolView>, i: int, q: Seq<SymbolView>, j: int)
    requires
        spread(p),
        spread(q),
        alike(p, q),
        0 <= i < p.len(),
        0 <= j < q.len(),
        p[i] == q[j],
    ensures
        super::fraction_box(p, i, p.len()) == super::fraction_box(q, j, q.len()),
{
    let b = p[i];
    let (x, y) = (super::fraction_box(p, i, p.len()), super::fraction_box(q, j, q.len()));
    lemma_fraction_box(p, i, p.len());
    lemma_fraction_box(q, j, q.len());
    assert(p.take(p.len() as int) =~= p);
    assert(q.take(q.len() as int) =~= q);
    assert forall|s: SymbolView| #[trigger] covers(p, b, s) == covers(q, b, s) by {
        assert(p.contains(s) == q.contains(s));
    }
    let s1 = choose|s: SymbolView| #[trigger] covers(p, b, s) && s.bbox.min_x == x.min_x;
    let s2 = choose|s: SymbolView| #[trigger] covers(p, b, s) && s.bbox.min_y == x.min_y;
    let s3 = choose|s: SymbolView| #[trigger] covers(p, b, s) && s.bbox.max_x == x.max_x;
    let s4 = choose|s: SymbolView| #[trigger] covers(p, b, s) && s.bbox.max_y == x.max_y;
    let t1 = choose|s: SymbolView| #[trigger] covers(q, b, s) && s.bbox.min_x == y.min_x;
    let t2 = choose|s: SymbolView| #[trigger] covers(q, b, s) && s.bbox.min_y == y.min_y;
    let t3 = choose|s: SymbolView| #[trigger] covers(q, b, s) && s.bbox.max_x == y.max_x;
    let t4 = choose|s: SymbolView| #[trigger] covers(q, b, s) && s.bbox.max_y == y.max_y;
    assert(covers(q, b, s1) && covers(q, b, s2) && covers(q, b, s3) && covers(q, b, s4));
    assert(covers(p, b, t1) && covers(p, b, t2) && covers(p, b, t3) && covers(p, b, t4));
    lemma_place(x.min_x, y.min_x);
    lemma_place(x.min_y, y.min_y);
    lemma_place(x.max_x, y.max_x);
    lemma_place(x.max_y, y.max_y);
}

// ---------------------------------------------------------------------------------------------
// The outermost composite
// ---------------------------------------------------------------------------------------------
/// A composite stands for itself in every order of the symbols, and takes up the same region.
proof fn lemma_counterpart(p: Seq<SymbolView>, q: Seq<SymbolView>, c: Candidate) -> (d: Candidate)
    requires
        spread(p),
        spread(q),
        alike(p, q),
        stands(p, c),
    ensures
        stands(q, d),
        d.fraction == c.fraction,
        q[d.at] == p[c.at],
        super::region(q, d) == super::region(p, c),
{
    let b = p[c.at];
    assert(p.contains(b));
    assert(q.contains(b));
    let j = choose|j: int| 0 <= j < q.len() && q[j] == b;
    let d = Candidate { fraction: c.fraction, at: j };
    assert(p.take(p.len() as int) =~= p);
    assert(q.take(q.len() as int) =~= q);
    if c.fraction {
        lemma_side_stays(p, c.at, q, j, true);
        lemma_side_stays(p, c.at, q, j, false);
        lemma_fraction_box_same(p, c.at, q, j);
    } else {
        lemma_inside_stays(p, c.at, q, j);
    }
    d
}

proof fn lemma_side_stays(p: Seq<SymbolView>, i: int, q: Seq<SymbolView>, j: int, above: bool)
    requires
        alike(p, q),
        0 <= i < p.len(),
        0 <= j < q.len(),
        p[i] == q[j],
    ensures
        alike(
            super::picked(p, super::side(p, i, above, p.len())),
            super::picked(q, super::side(q, j, above, q.len())),
        ),
        super::side(p, i, above, p.len()).len() == super::side(q, j, above, q.len()).len(),
        forall|s: SymbolView| #[trigger]
            super::picked(p, super::side(p, i, above, p.len())).contains(s) ==> p.contains(s)
                && of_fraction(p[i], s),
{
    let (a, b) = (
        super::picked(p, super::side(p, i, above, p.len())),
        super::picked(q, super::side(q, j, above, q.len())),
    );
    lemma_side(p, i, above, p.len());
    lemma_side(q, j, above, q.len());
    assert(p.take(p.len() as int) =~= p);
    assert(q.take(q.len() as int) =~= q);
    assert forall|s: SymbolView| #[trigger] a.contains(s) <==> b.contains(s) by {
        assert(p.contains(s) == q.contains(s));
    }
    lemma_alike_len(a, b);
}

proof fn lemma_inside_stays(p: Seq<SymbolView>, i: int, q: Seq<SymbolView>, j: int)
    requires
        alike(p, q),
        0 <= i < p.len(),
        0 <= j < q.len(),
        p[i] == q[j],
    ensures
        alike(
            super::picked(p, super::inside(p, i, p.len())),
            super::picked(q, super::inside(q, j, q.len())),
        ),
        super::inside(p, i, p.len()).len() == super::inside(q, j, q.len()).len(),
        forall|s: SymbolView| #[trigger]
            super::picked(p, super::inside(p, i, p.len())).contains(s) ==> p.contains(s),
{
    let (a, b) = (
        super::picked(p, super::inside(p, i, p.len())),
        super::picked(q, super::inside(q, j, q.len())),
    );
    lemma_inside(p, i, p.len());
    lemma_inside(q, j, q.len());
    assert(p.take(p.len() as int) =~= p);
    assert(q.take(q.len() as int) =~= q);
    assert forall|s: SymbolView| #[trigger] a.contains(s) <==> b.contains(s) by {
        assert(p.contains(s) == q.contains(s));
    }
    lemma_alike_len(a, b);
}

/// Is the candidate the best so far, or smaller than it?
spec fn beaten(pool: Seq<SymbolView>, best: Option<Candidate>, d: Candidate) -> bool {
    best is Some && (best->0 == d || area_of(pool, d).lt(area_of(pool, best->0)))
}

/// Whatever was beaten stays beaten by the better one, and the new candidate is beaten too.
proof fn lemma_better(pool: Seq<SymbolView>, best: Option<Candidate>, c: Candidate)
    requires
        untied(pool),
        0 <= c.at < pool.len(),
        best is Some ==> stands(pool, best->0) && best->0 != c,
    ensures
        ({
            let now = super::better(pool, best, c);
            &&& now is Some ==> stands(pool, now->0) && (now == best || now->0 == c)
            &&& forall|d: Candidate| #[trigger] beaten(pool, best, d) ==> beaten(pool, now, d)
            &&& stands(pool, c) ==> beaten(pool, now, c)
        }),
{
    let now = super::better(pool, best, c);
    reveal(F32::lt_spec);
    if stands(pool, c) && best is Some {
        assert(stands(pool, best->0));
        assert(area_of(pool, c).lt(area_of(pool, best->0)) || area_of(pool, best->0).lt(
            area_of(pool, c),
        ));
    }
}

proof fn lemma_best_fraction(pool: Seq<SymbolView>, n: nat)
    requires
        untied(pool),
        n <= pool.len(),
    ensures
        ({
            let best = super::best_fraction(pool, n);
            &&& best is Some ==> stands(pool, best->0) && best->0.fraction && best->0.at < n
            &&& forall|d: Candidate| #[trigger]
                stands(pool, d) && d.fraction && d.at < n ==> beaten(pool, best, d)
        }),
    decreases n,
{
    if n > 0 {
        let before = super::best_fraction(pool, (n - 1) as nat);
        let c = Candidate { fraction: true, at: n - 1 };
        lemma_best_fraction(pool, (n - 1) as nat);
        lemma_better(pool, before, c);
        let best = super::best_fraction(pool, n);
        assert forall|d: Candidate| #[trigger]
            stands(pool, d) && d.fraction && d.at < n implies beaten(pool, best, d) by {
            if d.at == n - 1 {
                assert(d == c);
            } else {
                assert(beaten(pool, before, d));
            }
        }
    }
}

proof fn lemma_best_of(pool: Seq<SymbolView>, n: nat)
    requires
        untied(pool),
        n <= pool.len(),
    ensures
        ({
            let best = super::best_of(pool, n);
            &&& best is Some ==> stands(pool, best->0) && (best->0.fraction || best->0.at < n)
            &&& forall|d: Candidate| #[trigger]
                stands(pool, d) && (d.fraction || d.at < n) ==> beaten(pool, best, d)
        }),
    decreases n,
{
    if n > 0 {
        let before = super::best_of(pool, (n - 1) as nat);
        let c = Candidate { fraction: false, at: n - 1 };
        lemma_best_of(pool, (n - 1) as nat);
        lemma_better(pool, before, c);
        let best = super::best_of(pool, n);
        assert forall|d: Candidate| #[trigger]
            stands(pool, d) && (d.fraction || d.at < n) implies beaten(pool, best, d) by {
            if !d.fraction && d.at == n - 1 {
                assert(d == c);
            } else {
                assert(beaten(pool, before, d));
            }
        }
    } else {
        lemma_best_fraction(pool, pool.len());
    }
}

/// The outermost composite is the same in every order of the symbols.
proof fn lemma_outermost_same(p: Seq<SymbolView>, q: Seq<SymbolView>)
    requires
        spread(p),
        spread(q),
        alike(p, q),
        untied(p),
    ensures
        match (super::outermost(p), super::outermost(q)) {
            (None, None) => true,
            (Some(c), Some(d)) => {
                &&& stands(p, c)
                &&& stands(q, d)
                &&& c.fraction == d.fraction
                &&& p[c.at] == q[d.at]
                &&& super::region(p, c) == super::region(q, d)
            },
            _ => false,
        },
{
    lemma_untied_stays(p, q);
    lemma_best_of(p, p.len());
    lemma_best_of(q, q.len());
    reveal(F32::lt_spec);
    if super::outermost(p) is Some {
        let c = super::outermost(p)->0;
        let c2 = lemma_counterpart(p, q, c);
        assert(beaten(q, super::outermost(q), c2));
        let d = super::outermost(q)->0;
        let d2 = lemma_counterpart(q, p, d);
        assert(beaten(p, super::outermost(p), d2));
        if c2 != d {
            assert(area_of(q, c2).lt(area_of(q, d)));
            assert(c == d2 || area_of(p, d2).lt(area_of(p, c)));
            if c == d2 {
                assert(area_of(p, c) == area_of(q, d));
            }
        }
    } else if super::outermost(q) is Some {
        let d2 = lemma_counterpart(q, p, super::outermost(q)->0);
        assert(beaten(p, super::outermost(p), d2));
    }
}

proof fn lemma_untied_stays(p: Seq<SymbolView>, q: Seq<SymbolView>)
    requires
        spread(p),
        spread(q),
        alike(p, q),
        untied(p),
    ensures
        untied(q),
{
    assert forall|c: Candidate, d: Candidate|
        #[trigger] stands(q, c) && #[trigger] stands(q, d) && c != d implies area_of(q, c).lt(
        area_of(q, d),
    ) || area_of(q, d).lt(area_of(q, c)) by {
        let c2 = lemma_counterpart(q, p, c);
        let d2 = lemma_counterpart(q, p, d);
        if c2 == d2 {
            assert(q[c.at] == q[d.at]);
            assert(c.at == d.at);
        }
        assert(stands(p, c2) && stands(p, d2));
    }
}

// ---------------------------------------------------------------------------------------------
// Units from left to right
// ---------------------------------------------------------------------------------------------
/// Are the left edges of the units numbers, and distinct?
pub(super) open spec fn apart(units: Seq<UnitView>) -> bool {
    &&& forall|i: int| 0 <= i < units.len() ==> !(#[trigger] units[i]).bbox.min_x.nan()
    &&& forall|i: int, j: int|
        0 <= i < j < units.len() ==> !(#[trigger] units[i]).bbox.min_x.same(
            (#[trigger] units[j]).bbox.min_x,
        )
}

/// Do the left edges of the units ascend?
pub(super) open spec fn ascends(units: Seq<UnitView>) -> bool {
    forall|i: int, j: int|
        0 <= i < j < units.len() ==> (#[trigger] units[i]).bbox.min_x.lt(
            (#[trigger] units[j]).bbox.min_x,
        )
}

/// Two ascending lists of the same units are equal.
pub(super) proof fn lemma_ascending_unique(a: Seq<UnitView>, b: Seq<UnitView>)
    requires
        ascends(a),
        ascends(b),
        a.len() == b.len(),
        forall|u: UnitView| #[trigger] a.contains(u) <==> b.contains(u),
    ensures
        a == b,
    decreases a.len(),
{
    reveal(F32::lt_spec);
    if a.len() == 0 {
        assert(a =~= b);
    } else {
        assert(a.contains(a[0]) && b.contains(b[0]));
        assert(a.contains(b[0]));
        let k = choose|k: int| 0 <= k < b.len() && b[k] == a[0];
        let l = choose|l: int| 0 <= l < a.len() && a[l] == b[0];
        assert(a[0] == b[0]) by {
            if k > 0 && l > 0 {
                assert(b[0].bbox.min_x.lt(b[k].bbox.min_x));
                assert(a[0].bbox.min_x.lt(a[l].bbox.min_x));
            }
        }
        let (c, d) = (a.drop_first(), b.drop_first());
        assert forall|i: int, j: int| 0 <= i < j < c.len() implies (
        #[trigger] c[i]).bbox.min_x.lt((#[trigger] c[j]).bbox.min_x) by {
            assert(c[i] == a[i + 1] && c[j] == a[j + 1]);
        }
        assert forall|i: int, j: int| 0 <= i < j < d.len() implies (
        #[trigger] d[i]).bbox.min_x.lt((#[trigger] d[j]).bbox.min_x) by {
            assert(d[i] == b[i + 1] && d[j] == b[j + 1]);
        }
        assert forall|u: UnitView| #[trigger] c.contains(u) <==> d.contains(u) by {
            if c.contains(u) {
                let i = choose|i: int| 0 <= i < c.len() && c[i] == u;
                assert(a[i + 1] == u);
                assert(a.contains(u));
                let j = choose|j: int| 0 <= j < b.len() && b[j] == u;
                assert(a[0].bbox.min_x.lt(a[i + 1].bbox.min_x));
                assert(j > 0);
                assert(d[j - 1] == u);
            }
            if d.contains(u) {
                let i = choose|i: int| 0 <= i < d.len() && d[i] == u;
                assert(b[i + 1] == u);
                assert(a.contains(u));
                let j = choose|j: int| 0 <= j < a.len() && a[j] == u;
                assert(b[0].bbox.min_x.lt(b[i + 1].bbox.min_x));
                assert(j > 0);
                assert(c[j - 1] == u);
            }
        }
        lemma_ascending_unique(c, d);
        assert(a =~= seq![a[0]] + c);
        assert(b =~= seq![b[0]] + d);
    }
}

/// Units that are apart ascend from left to right, and are the same units.
pub(super) proof fn lemma_left_to_right(units: Seq<UnitView>)
    requires
        apart(units),
    ensures
        ascends(super::by_left_edge(units)),
        forall|u: UnitView| #[trigger]
            super::by_left_edge(units).contains(u) <==> units.contains(u),
{
    let keys = super::left_edges(units);
    let order = crate::sort::stable_order(keys);
    let sorted = super::by_left_edge(units);
    crate::sort::lemma_order_is_permutation(keys, keys.len());
    assert forall|k: int| 0 <= k < keys.len() implies !(#[trigger] keys[k]).nan() by {
        assert(!units[k].bbox.min_x.nan());
    }
    reveal(F32::lt_spec);
    reveal(F32::le_spec);
    reveal(F32::same_spec);
    assert forall|i: int, j: int| 0 <= i < j < sorted.len() implies (
    #[trigger] sorted[i]).bbox.min_x.lt((#[trigger] sorted[j]).bbox.min_x) by {
        crate::sort::law_order_is_ascending_and_stable(keys, keys.len(), i, j);
        let (x, y) = (order[i], order[j]);
        assert(x != y);
        assert(sorted[i] == units[x] && sorted[j] == units[y]);
        if x < y {
            assert(!units[x].bbox.min_x.same(units[y].bbox.min_x));
        } else {
            assert(!units[y].bbox.min_x.same(units[x].bbox.min_x));
        }
    }
    assert forall|u: UnitView| #[trigger] sorted.contains(u) <==> units.contains(u) by {
        if sorted.contains(u) {
            let i = choose|i: int| 0 <= i < sorted.len() && sorted[i] == u;
            assert(units[order[i]] == u);
        }
        if units.contains(u) {
            let k = choose|k: int| 0 <= k < units.len() && units[k] == u;
            assert(order.contains(k));
            let i = choose|i: int| 0 <= i < order.len() && order[i] == k;
            assert(sorted[i] == u);
        }
    }
}

/// Is the left edge of the unit that of one of the symbols?
spec fn edge_of(pool: Seq<SymbolView>, u: UnitView) -> bool {
    exists|s: SymbolView| #[trigger] pool.contains(s) && s.bbox.min_x == u.bbox.min_x
}

/// The left edge of a composite is that of a symbol that it takes.
proof fn lemma_composite_edge(pool: Seq<SymbolView>, c: Candidate) -> (s: SymbolView)
    requires
        spread(pool),
        stands(pool, c),
    ensures
        pool.contains(s),
        taken(pool[c.at], c.fraction, s),
        s.bbox.min_x == super::region(pool, c).min_x,
{
    let b = pool[c.at];
    assert(pool.contains(b));
    if c.fraction {
        let x = super::region(pool, c);
        lemma_fraction_box(pool, c.at, pool.len());
        assert(pool.take(pool.len() as int) =~= pool);
        choose|s: SymbolView| #[trigger] covers(pool, b, s) && s.bbox.min_x == x.min_x
    } else {
        b
    }
}

/// The units of a pool are apart.
proof fn lemma_units_apart(pool: Seq<SymbolView>)
    requires
        spread(pool),
    ensures
        apart(super::units_of(pool)),
        forall|i: int|
            0 <= i < super::units_of(pool).len() ==> edge_of(
                pool,
                #[trigger] super::units_of(pool)[i],
            ),
    decreases pool.len(),
{
    let units = super::units_of(pool);
    lemma_spread_distinct(pool);
    super::lemma_outermost(pool);
    match super::outermost(pool) {
        None => {
            assert forall|i: int| 0 <= i < units.len() implies edge_of(pool, #[trigger] units[i])
                && !units[i].bbox.min_x.nan() by {
                assert(pool.contains(pool[i]));
                assert(plain_box(pool[i].bbox));
            }
            assert forall|i: int, j: int| 0 <= i < j < units.len() implies !(
            #[trigger] units[i]).bbox.min_x.same((#[trigger] units[j]).bbox.min_x) by {
                assert(!pool[i].bbox.min_x.same(pool[j].bbox.min_x));
            }
        },
        Some(c) => {
            let n = pool.len();
            super::lemma_composite_counts(pool, c, n);
            let rest = super::left_over(pool, c, n);
            let tail = super::units_of(rest);
            let head = super::composite_unit(pool, c);
            lemma_left_over(pool, c, n);
            assert(pool.take(n as int) =~= pool);
            lemma_spread_part(pool, rest);
            lemma_units_apart(rest);
            let s = lemma_composite_edge(pool, c);
            assert(units =~= seq![head] + tail);
            let k = choose|k: int| 0 <= k < pool.len() && pool[k] == s;
            assert(plain_box(pool[k].bbox));
            assert forall|i: int| 0 <= i < units.len() implies edge_of(pool, #[trigger] units[i])
                && !units[i].bbox.min_x.nan() by {
                if i == 0 {
                    assert(pool.contains(s));
                } else {
                    assert(units[i] == tail[i - 1]);
                    assert(edge_of(rest, tail[i - 1]));
                    let t = choose|t: SymbolView| #[trigger]
                        rest.contains(t) && t.bbox.min_x == tail[i - 1].bbox.min_x;
                    assert(pool.contains(t));
                }
            }
            assert forall|i: int, j: int| 0 <= i < j < units.len() implies !(
            #[trigger] units[i]).bbox.min_x.same((#[trigger] units[j]).bbox.min_x) by {
                assert(units[j] == tail[j - 1]);
                if i == 0 {
                    assert(edge_of(rest, tail[j - 1]));
                    let t = choose|t: SymbolView| #[trigger]
                        rest.contains(t) && t.bbox.min_x == tail[j - 1].bbox.min_x;
                    if s.bbox.min_x.same(t.bbox.min_x) {
                        lemma_same_edge(pool, s, t);
                    }
                } else {
                    assert(units[i] == tail[i - 1]);
                    assert(!tail[i - 1].bbox.min_x.same(tail[j - 1].bbox.min_x));
                }
            }
        },
    }
}

// ---------------------------------------------------------------------------------------------
// The law
// ---------------------------------------------------------------------------------------------
/// The unit of a plain symbol.
spec fn plain_unit(s: SymbolView) -> UnitView {
    UnitView { bbox: s.bbox, base: BaseView::Symbol(s.label) }
}

proof fn lemma_units_same(p: Seq<SymbolView>, q: Seq<SymbolView>)
    requires
        spread(p),
        spread(q),
        alike(p, q),
        always_untied(p),
    ensures
        forall|u: UnitView| #[trigger]
            super::units_of(p).contains(u) <==> super::units_of(q).contains(u),
        super::units_of(p).len() == super::units_of(q).len(),
    decreases p.len(), 1nat,
{
    let (a, b) = (super::units_of(p), super::units_of(q));
    lemma_outermost_same(p, q);
    lemma_alike_len(p, q);
    match super::outermost(p) {
        None => {
            lemma_plain_units(p, q, a, b);
            lemma_plain_units(q, p, b, a);
        },
        Some(c) => {
            let d = super::outermost(q)->0;
            let n = p.len();
            super::lemma_composite_counts(p, c, n);
            super::lemma_composite_counts(q, d, q.len());
            lemma_left_over(p, c, n);
            lemma_left_over(q, d, q.len());
            assert(p.take(n as int) =~= p);
            assert(q.take(q.len() as int) =~= q);
            let (r, t) = (super::left_over(p, c, n), super::left_over(q, d, q.len()));
            assert forall|s: SymbolView| #[trigger] r.contains(s) <==> t.contains(s) by {
                assert(p.contains(s) == q.contains(s));
            }
            lemma_spread_part(p, r);
            lemma_spread_part(q, t);
            lemma_units_same(r, t);
            let (u, v) = (super::composite_unit(p, c), super::composite_unit(q, d));
            if c.fraction {
                lemma_side_same(p, c.at, q, d.at, true);
                lemma_side_same(p, c.at, q, d.at, false);
            } else {
                lemma_inside_stays(p, c.at, q, d.at);
                lemma_inside_stays(q, d.at, p, c.at);
                let (x, y) = (
                    super::picked(p, super::inside(p, c.at, n)),
                    super::picked(q, super::inside(q, d.at, q.len())),
                );
                lemma_spread_part(p, x);
                lemma_spread_part(q, y);
                lemma_tree_same(x, y);
            }
            assert(u == v);
            let (f, g) = (super::units_of(r), super::units_of(t));
            assert(a =~= seq![u] + f);
            assert(b =~= seq![u] + g);
            assert forall|w: UnitView| #[trigger] a.contains(w) <==> b.contains(w) by {
                lemma_front(u, f, w);
                lemma_front(u, g, w);
                assert(f.contains(w) == g.contains(w));
            }
        },
    }
}

proof fn lemma_front(u: UnitView, units: Seq<UnitView>, w: UnitView)
    ensures
        (seq![u] + units).contains(w) <==> w == u || units.contains(w),
{
    let all = seq![u] + units;
    if w == u {
        assert(all[0] == w);
    }
    if units.contains(w) {
        let k = choose|k: int| 0 <= k < units.len() && units[k] == w;
        assert(all[k + 1] == w);
    }
    if all.contains(w) {
        let k = choose|k: int| 0 <= k < all.len() && all[k] == w;
        if k > 0 {
            assert(units[k - 1] == w);
        }
    }
}

proof fn lemma_plain_units(
    p: Seq<SymbolView>,
    q: Seq<SymbolView>,
    a: Seq<UnitView>,
    b: Seq<UnitView>,
)
    requires
        alike(p, q),
        a.len() == p.len(),
        b.len() == q.len(),
        forall|k: int| 0 <= k < p.len() ==> #[trigger] a[k] == plain_unit(p[k]),
        forall|k: int| 0 <= k < q.len() ==> #[trigger] b[k] == plain_unit(q[k]),
    ensures
        forall|u: UnitView| #[trigger] a.contains(u) ==> b.contains(u),
{
    assert forall|u: UnitView| #[trigger] a.contains(u) implies b.contains(u) by {
        let k = choose|k: int| 0 <= k < a.len() && a[k] == u;
        assert(p.contains(p[k]));
        assert(q.contains(p[k]));
        let j = choose|j: int| 0 <= j < q.len() && q[j] == p[k];
        assert(b[j] == u);
    }
}

/// One side of the fraction parses to the same tree.
proof fn lemma_side_same(p: Seq<SymbolView>, i: int, q: Seq<SymbolView>, j: int, above: bool)
    requires
        spread(p),
        spread(q),
        alike(p, q),
        0 <= i < p.len(),
        0 <= j < q.len(),
        p[i] == q[j],
        always_untied(super::picked(p, super::side(p, i, above, p.len()))),
        super::side(p, i, above, p.len()).len() < p.len(),
    ensures
        super::tree(super::picked(p, super::side(p, i, above, p.len()))) == super::tree(
            super::picked(q, super::side(q, j, above, q.len())),
        ),
    decreases p.len(), 0nat,
{
    let (x, y) = (
        super::picked(p, super::side(p, i, above, p.len())),
        super::picked(q, super::side(q, j, above, q.len())),
    );
    lemma_side_stays(p, i, q, j, above);
    lemma_side_stays(q, j, p, i, above);
    lemma_spread_part(p, x);
    lemma_spread_part(q, y);
    lemma_tree_same(x, y);
}

proof fn lemma_tree_same(p: Seq<SymbolView>, q: Seq<SymbolView>)
    requires
        spread(p),
        spread(q),
        alike(p, q),
        always_untied(p),
    ensures
        super::tree(p) == super::tree(q),
    decreases p.len(), 2nat,
{
    let (a, b) = (super::units_of(p), super::units_of(q));
    lemma_units_same(p, q);
    lemma_units_apart(p);
    lemma_units_apart(q);
    lemma_left_to_right(a);
    lemma_left_to_right(b);
    let (x, y) = (super::by_left_edge(a), super::by_left_edge(b));
    assert forall|u: UnitView| #[trigger] x.contains(u) <==> y.contains(u) by {
        assert(a.contains(u) == b.contains(u));
    }
    lemma_ascending_unique(x, y);
}

/// The order of the symbols does not matter: one bag of symbols parses to one tree, in whatever
/// order they are given. Their left edges must be distinct, and wherever the parse chooses the
/// largest composite, no two may take up equal areas.
pub proof fn law_the_order_of_the_symbols_does_not_matter(p: Seq<SymbolView>, q: Seq<SymbolView>)
    requires
        p.to_multiset() == q.to_multiset(),
        spread(p),
        always_untied(p),
    ensures
        super::tree(p) == super::tree(q),
{
    lemma_spread_distinct(p);
    p.to_multiset_ensures();
    q.to_multiset_ensures();
    assert forall|s: SymbolView| #[trigger] p.contains(s) <==> q.contains(s) by {
        assert(p.contains(s) <==> p.to_multiset().count(s) > 0);
        assert(q.contains(s) <==> q.to_multiset().count(s) > 0);
    }
    p.lemma_multiset_has_no_duplicates();
    assert(q.no_duplicates()) by {
        q.lemma_multiset_has_no_duplicates_conv();
    }
    lemma_spread_part(p, q);
    lemma_tree_same(p, q);
}

} // verus!
