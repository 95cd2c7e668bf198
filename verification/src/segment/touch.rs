//! Which strokes proximity puts into one symbol: those that touch, through any number of others,
//! and no others. What counts as near is a quarter of the usual size of a stroke.
use crate::elementary::Fn2;
use crate::float::{num, F32};
use crate::stroke::{BBox, Point};
use vstd::prelude::*;

verus! {

// ---------------------------------------------------------------------------------------------
// The middle value
// ---------------------------------------------------------------------------------------------
/// The middle value is one of the values, no smaller than half of them and no larger than the other
/// half.
pub proof fn law_the_middle_value_parts_the_others(values: Seq<F32>) -> (order: Seq<int>)
    requires
        values.len() > 0,
        forall|k: int| 0 <= k < values.len() ==> !(#[trigger] values[k]).nan(),
    ensures
        crate::sort::is_permutation(order, values.len()),
        super::middle(values) == values[order[values.len() as int / 2]],
        forall|i: int|
            0 <= i < values.len() as int / 2 ==> values[#[trigger] order[i]].le(
                super::middle(values),
            ),
        forall|i: int|
            values.len() as int / 2 <= i < values.len() ==> super::middle(values).le(
                values[#[trigger] order[i]],
            ),
{
    let order = crate::sort::stable_order(values);
    let n = values.len();
    let h = n as int / 2;
    crate::sort::lemma_order_is_permutation(values, n);
    assert forall|i: int| 0 <= i < h implies values[#[trigger] order[i]].le(
        super::middle(values),
    ) by {
        crate::sort::law_order_is_ascending_and_stable(values, n, i, h);
    }
    assert forall|i: int| h <= i < n implies super::middle(values).le(
        values[#[trigger] order[i]],
    ) by {
        if h < i {
            crate::sort::law_order_is_ascending_and_stable(values, n, h, i);
        } else {
            assert(!values[order[h]].nan());
            reveal(F32::le_spec);
        }
    }
    order
}

// ---------------------------------------------------------------------------------------------
// The threshold
// ---------------------------------------------------------------------------------------------
/// The larger side of a box.
pub open spec fn larger_side(b: BBox) -> F32 {
    b.max_x.minus(b.min_x).max(b.max_y.minus(b.min_y))
}

/// Is the larger side of the box at most two and a half times the smaller one?
pub open spec fn stout(b: BBox) -> bool {
    let w = b.max_x.minus(b.min_x);
    let h = b.max_y.minus(b.min_y);
    w.max(h).over(w.min(h).max(num(0x3586_37bd))).le(num(0x4020_0000))
}

/// Does the stroke have a point, and if asked for, is it stout?
pub open spec fn counts(ink: Seq<Seq<Point>>, only_stout: bool, i: int) -> bool {
    ink[i].len() > 0 && (only_stout ==> stout(crate::stroke::extent(ink[i])))
}

/// The sizes of the strokes that count, in their order.
pub open spec fn sizes_of(ink: Seq<Seq<Point>>, only_stout: bool) -> Seq<F32> {
    Seq::new(ink.len(), |i: int| i).filter(|i: int| counts(ink, only_stout, i)).map_values(
        |i: int| larger_side(crate::stroke::extent(ink[i])),
    )
}

proof fn lemma_sizes(ink: Seq<Seq<Point>>, only_stout: bool, n: nat)
    requires
        n <= ink.len(),
    ensures
        super::sizes(ink, super::live(ink, n), only_stout, super::live(ink, n).len()) == Seq::new(
            n,
            |i: int| i,
        ).filter(|i: int| counts(ink, only_stout, i)).map_values(
            |i: int| larger_side(crate::stroke::extent(ink[i])),
        ),
    decreases n,
{
    reveal(Seq::filter);
    let all = Seq::new(n, |i: int| i);
    let items = super::live(ink, n);
    if n > 0 {
        let m = (n - 1) as nat;
        lemma_sizes(ink, only_stout, m);
        assert(all.drop_last() =~= Seq::new(m, |i: int| i));
        let before = super::live(ink, m);
        if ink[n - 1].len() > 0 {
            lemma_sizes_prefix(ink, before, n - 1, only_stout, before.len());
        }
    }
    assert(super::sizes(ink, items, only_stout, items.len()) =~= all.filter(
        |i: int| counts(ink, only_stout, i),
    ).map_values(|i: int| larger_side(crate::stroke::extent(ink[i]))));
}

proof fn lemma_sizes_prefix(
    ink: Seq<Seq<Point>>,
    items: Seq<int>,
    x: int,
    only_stout: bool,
    n: nat,
)
    requires
        n <= items.len(),
    ensures
        super::sizes(ink, items.push(x), only_stout, n) == super::sizes(ink, items, only_stout, n),
    decreases n,
{
    if n > 0 {
        lemma_sizes_prefix(ink, items, x, only_stout, (n - 1) as nat);
        assert(items.push(x)[n - 1] == items[n - 1]);
    }
}

/// Ink is near within a quarter of the middle size of the strokes. Strokes that are far longer than
/// wide do not count, unless there are no others; a size counts as a millionth at least.
pub proof fn law_the_threshold_is_a_quarter_of_the_usual_size(ink: Seq<Seq<Point>>)
    ensures
        sizes_of(ink, true).len() > 0 ==> super::threshold(ink) == num(0x3e80_0000).times(
            super::middle(sizes_of(ink, true)).max(num(0x3586_37bd)),
        ),
        sizes_of(ink, true).len() == 0 ==> super::threshold(ink) == num(0x3e80_0000).times(
            super::middle(sizes_of(ink, false)).max(num(0x3586_37bd)),
        ),
{
    lemma_sizes(ink, true, ink.len());
    lemma_sizes(ink, false, ink.len());
}

// ---------------------------------------------------------------------------------------------
// Connected strokes
// ---------------------------------------------------------------------------------------------
proof fn lemma_same(ink: Seq<Seq<Point>>, t: F32, x: int)
    ensures
        super::linked(ink, t, x, x),
{
}

proof fn lemma_back(ink: Seq<Seq<Point>>, t: F32, x: int, y: int)
    requires
        super::linked(ink, t, x, y),
    ensures
        super::linked(ink, t, y, x),
{
    assert forall|s: Set<int>| #[trigger] super::uncut(ink, t, s) && s.contains(y) implies s.contains(
        x,
    ) by {
        let c = s.complement();
        assert(super::uncut(ink, t, c));
        if !s.contains(x) {
            assert(c.contains(x));
            assert(c.contains(y));
        }
    }
}

proof fn lemma_on(ink: Seq<Seq<Point>>, t: F32, x: int, y: int, z: int)
    requires
        super::linked(ink, t, x, y),
        super::linked(ink, t, y, z),
    ensures
        super::linked(ink, t, x, z),
{
    assert forall|s: Set<int>| #[trigger] super::uncut(ink, t, s) && s.contains(x) implies s.contains(
        z,
    ) by {
        assert(s.contains(y));
    }
}

/// Are the members of each group connected to its first, and the first ones of different groups not
/// to each other?
spec fn classes(ink: Seq<Seq<Point>>, t: F32, groups: Seq<Seq<int>>) -> bool {
    &&& forall|g: int| 0 <= g < groups.len() ==> (#[trigger] groups[g]).len() > 0
    &&& forall|g: int, j: int|
        0 <= g < groups.len() && 0 <= j < groups[g].len() ==> super::linked(
            ink,
            t,
            groups[g][0],
            #[trigger] groups[g][j],
        )
    &&& forall|g: int, h: int|
        0 <= g < h < groups.len() ==> !super::linked(
            ink,
            t,
            (#[trigger] groups[g])[0],
            (#[trigger] groups[h])[0],
        )
}

proof fn lemma_home(ink: Seq<Seq<Point>>, t: F32, groups: Seq<Seq<int>>, x: int, from: nat)
    ensures
        ({
            let h = super::home(ink, t, groups, x, from) as int;
            &&& from <= h
            &&& from <= groups.len() ==> h <= groups.len()
            &&& forall|g: int| from <= g < h ==> !super::linked(ink, t, #[trigger] groups[g][0], x)
            &&& h < groups.len() ==> super::linked(ink, t, groups[h][0], x)
        }),
    decreases groups.len() - from,
{
    if !(from >= groups.len() || super::linked(ink, t, groups[from as int][0], x)) {
        lemma_home(ink, t, groups, x, from + 1);
    }
}

proof fn lemma_classes(ink: Seq<Seq<Point>>, t: F32, items: Seq<int>, n: nat)
    requires
        n <= items.len(),
    ensures
        classes(ink, t, super::gathered(ink, t, items, n)),
    decreases n,
{
    if n > 0 {
        let before = super::gathered(ink, t, items, (n - 1) as nat);
        let now = super::gathered(ink, t, items, n);
        lemma_classes(ink, t, items, (n - 1) as nat);
        let x = items[n - 1];
        lemma_home(ink, t, before, x, 0);
        let h = super::home(ink, t, before, x, 0) as int;
        lemma_same(ink, t, x);
        assert forall|g: int| 0 <= g < now.len() implies (#[trigger] now[g]).len() > 0 && (g
            < before.len() ==> now[g][0] == before[g][0]) by {
            if g < before.len() {
                assert(before[g].len() > 0);
            }
        }
        assert forall|g: int, j: int| 0 <= g < now.len() && 0 <= j < now[g].len() implies super::linked(
            ink,
            t,
            now[g][0],
            #[trigger] now[g][j],
        ) by {
            assert(now[g].len() > 0);
            if g < before.len() {
                if j < before[g].len() {
                    assert(now[g][j] == before[g][j]);
                    assert(super::linked(ink, t, before[g][0], before[g][j]));
                } else {
                    assert(g == h);
                    assert(now[g][j] == x);
                }
            }
        }
        assert forall|g: int, k: int| 0 <= g < k < now.len() implies !super::linked(
            ink,
            t,
            (#[trigger] now[g])[0],
            (#[trigger] now[k])[0],
        ) by {
            assert(now[g].len() > 0 && now[k].len() > 0);
            assert(before[g][0] == now[g][0]);
            if k < before.len() {
                assert(!super::linked(ink, t, before[g][0], before[k][0]));
            } else {
                assert(now[k][0] == x);
                assert(!super::linked(ink, t, before[g][0], x));
            }
        }
    }
}

/// Two members of one group are connected; two strokes in different groups are not.
proof fn lemma_together(ink: Seq<Seq<Point>>, a: int, b: int, i: int, j: int)
    requires
        0 <= a < super::clusters(ink).len(),
        0 <= b < super::clusters(ink).len(),
        super::clusters(ink)[a].contains(i),
        super::clusters(ink)[b].contains(j),
    ensures
        (a == b) == super::linked(ink, super::threshold(ink), i, j),
{
    let t = super::threshold(ink);
    let items = super::live(ink, ink.len());
    let found = super::gathered(ink, t, items, items.len());
    let keys = super::left_edges(ink, found);
    let order = crate::sort::stable_order(keys);
    lemma_classes(ink, t, items, items.len());
    crate::sort::lemma_order_is_permutation(keys, keys.len());
    let (p, q) = (order[a], order[b]);
    assert(super::clusters(ink)[a] == found[p] && super::clusters(ink)[b] == found[q]);
    let m = choose|m: int| 0 <= m < found[p].len() && found[p][m] == i;
    let k = choose|k: int| 0 <= k < found[q].len() && found[q][k] == j;
    assert(super::linked(ink, t, found[p][0], found[p][m]));
    assert(super::linked(ink, t, found[q][0], found[q][k]));
    lemma_back(ink, t, found[p][0], i);
    lemma_back(ink, t, found[q][0], j);
    if a == b {
        lemma_on(ink, t, i, found[p][0], j);
    } else if super::linked(ink, t, i, j) {
        lemma_on(ink, t, found[p][0], i, j);
        lemma_on(ink, t, found[p][0], j, found[q][0]);
        assert(p != q);
        if p < q {
            assert(!super::linked(ink, t, found[p][0], found[q][0]));
        } else {
            lemma_back(ink, t, found[p][0], found[q][0]);
            assert(!super::linked(ink, t, found[q][0], found[p][0]));
        }
    }
}

/// Where a stroke with a point is among the clusters.
proof fn lemma_somewhere(ink: Seq<Seq<Point>>, v: int) -> (a: int)
    requires
        0 <= v < ink.len(),
        ink[v].len() > 0,
    ensures
        0 <= a < super::clusters(ink).len(),
        super::clusters(ink)[a].contains(v),
{
    let groups = super::clusters(ink);
    let items = super::live(ink, ink.len());
    let t = super::threshold(ink);
    let found = super::gathered(ink, t, items, items.len());
    super::lemma_times_live(ink, ink.len(), v);
    super::lemma_times_gathered(ink, t, items, items.len(), v);
    assert(items.take(items.len() as int) =~= items);
    super::lemma_times_sorted(found, super::left_edges(ink, found), found.len(), v);
    assert(found.take(found.len() as int) =~= found);
    assert(groups =~= Seq::new(
        found.len(),
        |i: int| found[crate::sort::ordered(super::left_edges(ink, found), found.len())[i]],
    ));
    lemma_found(groups, v)
}

proof fn lemma_found(groups: Seq<Seq<int>>, v: int) -> (a: int)
    requires
        super::times_in_groups(groups, v) > 0,
    ensures
        0 <= a < groups.len(),
        groups[a].contains(v),
    decreases groups.len(),
{
    let last = groups.len() - 1;
    if super::times_in(groups[last], v) > 0 {
        lemma_member(groups[last], v);
        last
    } else {
        let a = lemma_found(groups.drop_last(), v);
        assert(groups[a] == groups.drop_last()[a]);
        a
    }
}

proof fn lemma_member(s: Seq<int>, v: int)
    requires
        super::times_in(s, v) > 0,
    ensures
        s.contains(v),
    decreases s.len(),
{
    let last = s.len() - 1;
    if s[last] != v {
        lemma_member(s.drop_last(), v);
        let k = choose|k: int| 0 <= k < s.drop_last().len() && s.drop_last()[k] == v;
        assert(s[k] == v);
    }
}

/// What is in one cluster is in one symbol.
proof fn lemma_kept(ink: Seq<Seq<Point>>, groups: Seq<Seq<int>>, i: nat, a: int, angle: Fn2) -> (g: int)
    requires
        i <= a < groups.len(),
    ensures
        0 <= g < super::with_equals(ink, groups, i, angle).len(),
        forall|v: int|
            groups[a].contains(v) ==> #[trigger] super::with_equals(
                ink,
                groups,
                i,
                angle,
            )[g].contains(v),
    decreases groups.len() - i,
{
    let all = super::with_equals(ink, groups, i, angle);
    let q = i as int;
    let pair = super::equals_sign(ink, groups, q, angle);
    let (head, next) = if pair {
        (groups[q] + groups[q + 1], i + 2)
    } else {
        (groups[q], i + 1)
    };
    let tail = super::with_equals(ink, groups, next, angle);
    assert(all =~= seq![head] + tail);
    if a < next {
        assert forall|v: int| groups[a].contains(v) implies #[trigger] all[0].contains(v) by {
            let k = choose|k: int| 0 <= k < groups[a].len() && groups[a][k] == v;
            if a == q {
                assert(head[k] == v);
            } else {
                assert(head[groups[q].len() + k] == v);
            }
        }
        0
    } else {
        let g = lemma_kept(ink, groups, next, a, angle);
        assert(all[g + 1] == tail[g]);
        g + 1
    }
}

/// Strokes that touch are in one symbol.
proof fn lemma_touching(ink: Seq<Seq<Point>>, i: int, j: int, angle: Fn2) -> (g: int)
    requires
        0 <= i < j < ink.len(),
        ink[i].len() > 0 && ink[j].len() > 0,
        super::touching(ink, super::threshold(ink), i, j),
    ensures
        0 <= g < super::symbols_of(ink, angle).len(),
        super::symbols_of(ink, angle)[g].contains(i),
        super::symbols_of(ink, angle)[g].contains(j),
{
    let a = lemma_somewhere(ink, i);
    let b = lemma_somewhere(ink, j);
    lemma_together(ink, a, b, i, j);
    assert(super::linked(ink, super::threshold(ink), i, j));
    lemma_kept(ink, super::clusters(ink), 0, a, angle)
}

// ---------------------------------------------------------------------------------------------
// Near and far
// ---------------------------------------------------------------------------------------------
/// The threshold is more than nothing.
proof fn lemma_positive(ink: Seq<Seq<Point>>)
    ensures
        num(0).lt(super::threshold(ink)),
{
    let items = super::live(ink, ink.len());
    let narrow = super::sizes(ink, items, true, items.len());
    let used = if narrow.len() > 0 {
        narrow
    } else {
        super::sizes(ink, items, false, items.len())
    };
    let m = super::middle(used).max(num(0x3586_37bd));
    crate::float::order::lemma_min_max(super::middle(used), num(0x3586_37bd));
    reveal(F32::le_spec);
    reveal(F32::lt_spec);
    assert(m.rank() >= 0x3586_37bd);
    lemma_quarter(m);
}

proof fn lemma_quarter(m: F32)
    requires
        !m.nan(),
        m.rank() >= 0x3586_37bd,
    ensures
        num(0).lt(num(0x3e80_0000).times(m)),
{
    reveal(F32::lt_spec);
    reveal(F32::times_spec);
    if m.finite() {
        let one = crate::float::arith::one_units();
        vstd::arithmetic::power2::lemma_pow2_pos(149);
        let q = num(0x3e80_0000);
        let n = q.size() * m.size();
        crate::float::monotone::lemma_nearest(n, one);
        // a quarter of it is a quarter of a millionth at least, and that is a number
        let t = num(0x3586_37bd);
        crate::float::bound::lemma_size_ordered(t.magnitude(), m.magnitude());
        assert(q.size() * t.size() <= n) by (nonlinear_arith)
            requires
                n == q.size() * m.size(),
                t.size() <= m.size(),
        ;
        crate::float::monotone::lemma_nearest_monotone(q.size() * t.size(), n, one);
        let r = q.times(t);
        assert(r.magnitude() > 0) by {
            lemma_quarter_of_a_millionth();
        }
        crate::float::monotone::lemma_nearest(q.size() * t.size(), one);
    }
}

/// A quarter of a number, doubled twice, is the number.
proof fn lemma_quarter_of_a_millionth()
    ensures
        num(0x3e80_0000).times(num(0x3586_37bd)).magnitude() > 0,
{
    let t = num(0x3586_37bd);
    let half = num(0x3f00_0000).times(t);
    reveal(F32::times_spec);
    // one quarter, twice, is one half; and one half of twice a number is the number
    let u = num(0x3506_37bd);
    let v = num(0x3486_37bd);
    crate::float::scale::lemma_twice(u);
    crate::float::scale::lemma_twice(v);
    crate::float::scale::lemma_twice(num(0x3e80_0000));
    crate::float::scale::lemma_half_of_twice(u);
    crate::float::scale::lemma_half_of_twice(v);
    assert(crate::float::scale::twice(u) == t);
    assert(crate::float::scale::twice(v) == u);
    assert(crate::float::scale::twice(num(0x3e80_0000)) == num(0x3f00_0000));
    crate::float::scale::lemma_shifted_product(num(0x3e80_0000), u);
    assert(u.times(num(0x3f00_0000)) == v);
    let one = crate::float::arith::one_units();
    assert(u.size() * num(0x3f00_0000).size() == num(0x3f00_0000).size() * u.size())
        by (nonlinear_arith);
    assert(num(0x3f00_0000).times(u) == v);
    assert(num(0x3e80_0000).times(t) == v);
}

/// Is the coordinate a number of ordinary size: at most 2 to the power of 60, either way?
pub open spec fn ordinary(p: Point) -> bool {
    p.x.magnitude() <= 0x5d80_0000 && p.y.magnitude() <= 0x5d80_0000
}

proof fn lemma_ordinary_difference(a: F32, b: F32)
    requires
        a.magnitude() <= 0x5d80_0000,
        b.magnitude() <= 0x5d80_0000,
    ensures
        a.minus(b).finite(),
{
    crate::float::scale::lemma_plus_within(b, b, 0x5d80_0000);
    crate::float::scale::lemma_plus_within(a, b.neg(), 0x5d80_0000);
}

/// A number minus itself is zero.
pub(crate) proof fn lemma_no_difference(a: F32)
    requires
        a.finite(),
    ensures
        a.minus(a).magnitude() == 0,
{
    reveal(F32::plus_spec);
    crate::float::monotone::lemma_opposite(a);
}

/// Nothing times a number is nothing.
pub(crate) proof fn lemma_nothing_times(z: F32, a: F32)
    requires
        z.magnitude() == 0,
        a.finite(),
    ensures
        z.times(a).magnitude() == 0,
{
    reveal(F32::times_spec);
    let one = crate::float::arith::one_units();
    vstd::arithmetic::power2::lemma_pow2_pos(149);
    assert(crate::float::mag(0) == 0);
    assert(z.size() * a.size() == 0) by (nonlinear_arith)
        requires
            z.size() == 0,
    ;
    crate::float::lemma_nearest_zero(one);
}

/// A number plus nothing has the same place.
pub(crate) proof fn lemma_plus_nothing(a: F32, z: F32)
    requires
        z.magnitude() == 0,
        a.finite(),
    ensures
        a.plus(z).finite(),
        a.plus(z).units() == a.units(),
{
    assert(crate::float::mag(0) == 0);
    crate::float::bound::lemma_sum_between(a, z, a, a);
}

/// The start of a segment is no distance from it.
proof fn lemma_start(p: Point, q: Point)
    requires
        ordinary(p) && ordinary(q),
    ensures
        super::point_distance(super::pt(p), super::pt(p), super::pt(q)) == num(0),
{
    let (zx, zy) = (p.x.minus(p.x), p.y.minus(p.y));
    let (abx, aby) = (q.x.minus(p.x), q.y.minus(p.y));
    lemma_no_difference(p.x);
    lemma_no_difference(p.y);
    lemma_ordinary_difference(q.x, p.x);
    lemma_ordinary_difference(q.y, p.y);
    let len2 = abx.times(abx).plus(aby.times(aby));
    if len2.le(num(0x3400_0000)) {
        crate::float::bound::lemma_no_hypotenuse(zx, zy);
    } else {
        lemma_nothing_times(zx, abx);
        lemma_nothing_times(zy, aby);
        let top = zx.times(abx).plus(zy.times(aby));
        lemma_plus_nothing(zx.times(abx), zy.times(aby));
        assert(top.magnitude() == 0) by {
            assert(crate::float::mag(0) == 0);
            if top.magnitude() > 0 {
                crate::float::lemma_mag_ordered(0, top.magnitude());
            }
        }
        lemma_square_sum(abx, aby);
        let t = top.over(len2).clamp(num(0), num(0x3f80_0000));
        assert(t.magnitude() == 0) by {
            reveal(F32::over_spec);
            reveal(F32::clamp_spec);
            reveal(F32::lt_spec);
            reveal(F32::le_spec);
            assert(crate::float::mag(0) == 0);
            if len2.finite() {
                crate::float::lemma_mag_ordered(0, len2.magnitude());
                assert(0 * crate::float::arith::one_units() == 0);
                crate::float::lemma_nearest_zero(len2.size());
            }
        }
        lemma_nothing_times(t, abx);
        lemma_nothing_times(t, aby);
        lemma_plus_nothing(p.x, t.times(abx));
        lemma_plus_nothing(p.y, t.times(aby));
        lemma_equal_difference(p.x, p.x.plus(t.times(abx)));
        lemma_equal_difference(p.y, p.y.plus(t.times(aby)));
        crate::float::bound::lemma_no_hypotenuse(
            p.x.minus(p.x.plus(t.times(abx))),
            p.y.minus(p.y.plus(t.times(aby))),
        );
    }
}

proof fn lemma_equal_difference(a: F32, b: F32)
    requires
        a.finite(),
        b.finite(),
        a.units() == b.units(),
    ensures
        a.minus(b).magnitude() == 0,
{
    reveal(F32::plus_spec);
    crate::float::monotone::lemma_opposite(b);
}

/// A sum of squares is a number, and if it is not small it is more than nothing.
proof fn lemma_square_sum(a: F32, b: F32)
    requires
        a.finite(),
        b.finite(),
    ensures
        ({
            let s = a.times(a).plus(b.times(b));
            &&& !s.nan()
            &&& !s.le(num(0x3400_0000)) ==> s.magnitude() != 0
        }),
{
    reveal(F32::times_spec);
    reveal(F32::plus_spec);
    reveal(F32::le_spec);
    let one = crate::float::arith::one_units();
    vstd::arithmetic::power2::lemma_pow2_pos(149);
    crate::float::monotone::lemma_nearest(a.size() * a.size(), one);
    crate::float::monotone::lemma_nearest(b.size() * b.size(), one);
    let (p, q) = (a.times(a), b.times(b));
    if p.finite() && q.finite() {
        crate::float::monotone::lemma_sum_monotone(p, q, p, q);
    }
}

/// Two strokes with a point in common are one symbol, unless both are lines that end there.
pub proof fn law_strokes_that_meet_are_one_symbol(
    ink: Seq<Seq<Point>>,
    i: int,
    j: int,
    k: int,
    l: int,
    angle: Fn2,
) -> (g: int)
    requires
        0 <= i < j < ink.len(),
        0 <= k < ink[i].len(),
        0 <= l < ink[j].len(),
        forall|m: int| 0 <= m < ink[i].len() ==> ordinary(#[trigger] ink[i][m]),
        forall|m: int| 0 <= m < ink[j].len() ==> ordinary(#[trigger] ink[j][m]),
        ink[i][k].x == ink[j][l].x && ink[i][k].y == ink[j][l].y,
        ink[i].len() == 1 || ink[j].len() == 1 || k < ink[i].len() - 1 || l < ink[j].len() - 1,
    ensures
        0 <= g < super::symbols_of(ink, angle).len(),
        super::symbols_of(ink, angle)[g].contains(i),
        super::symbols_of(ink, angle)[g].contains(j),
{
    let t = super::threshold(ink);
    let (a, b) = (ink[i], ink[j]);
    let (p, q) = (crate::stroke::extent(a), crate::stroke::extent(b));
    lemma_positive(ink);
    assert(ordinary(a[k]) && ordinary(b[l]));
    assert forall|m: int| 0 <= m < a.len() implies (#[trigger] a[m]).x.finite() && a[m].y.finite() by {
        assert(ordinary(a[m]));
    }
    assert forall|m: int| 0 <= m < b.len() implies (#[trigger] b[m]).x.finite() && b[m].y.finite() by {
        assert(ordinary(b[m]));
    }
    crate::stroke::law_extent_holds_every_point(a, k);
    crate::stroke::law_extent_holds_every_point(b, l);
    crate::stroke::lemma_extent_finite(a);
    crate::stroke::lemma_extent_finite(b);
    super::law_the_gap_is_a_lower_bound(a, b, k, l);
    lemma_no_difference(a[k].x);
    lemma_no_difference(a[k].y);
    crate::float::bound::lemma_no_hypotenuse(a[k].x.minus(b[l].x), a[k].y.minus(b[l].y));
    lemma_overlap(p, q, a[k].x, t);
    reveal(super::touching);
    assert(!super::gap_of(p, q).ge(t)) by {
        reveal(F32::le_spec);
        reveal(F32::lt_spec);
    }
    if a.len() == 1 || b.len() == 1 {
        assert(super::samples_near(a, b, k, l, t));
    } else {
        let u = if k < a.len() - 1 {
            k
        } else {
            k - 1
        };
        let v = if l < b.len() - 1 {
            l
        } else {
            l - 1
        };
        assert(ordinary(a[u]) && ordinary(a[u + 1]) && ordinary(b[v]) && ordinary(b[v + 1]));
        lemma_meeting(a[u], a[u + 1], b[v], b[v + 1], t);
        assert(super::segments_near(a, b, u, v, t));
    }
    assert(super::touching(ink, t, i, j));
    lemma_touching(ink, i, j, angle)
}

/// Segments with an end in common that is the start of one of them are near each other.
proof fn lemma_meeting(p: Point, q: Point, r: Point, s: Point, t: F32)
    requires
        ordinary(p) && ordinary(q) && ordinary(r) && ordinary(s),
        num(0).lt(t),
        ({
            ||| p.x == r.x && p.y == r.y
            ||| p.x == s.x && p.y == s.y
            ||| q.x == r.x && q.y == r.y
        }),
    ensures
        !super::boxes_apart(p, q, r, s, t),
        super::segment_distance(super::pt(p), super::pt(q), super::pt(r), super::pt(s)).lt(t),
{
    let (a, b, c, d) = (super::pt(p), super::pt(q), super::pt(r), super::pt(s));
    lemma_start(p, q);
    lemma_start(r, s);
    let (e, f, g, h) = (
        super::point_distance(a, c, d),
        super::point_distance(b, c, d),
        super::point_distance(c, a, b),
        super::point_distance(d, a, b),
    );
    crate::float::order::lemma_min_max(e, f);
    crate::float::order::lemma_min_max(e.min(f), g);
    crate::float::order::lemma_min_max(e.min(f).min(g), h);
    if p.x == r.x && p.y == r.y {
        assert(a == c);
    } else if p.x == s.x && p.y == s.y {
        assert(d == a);
    } else {
        assert(b == c);
    }
    assert(super::segment_distance(a, b, c, d).lt(t)) by {
        reveal(F32::le_spec);
        reveal(F32::lt_spec);
    }
    let x = if p.x == r.x && p.y == r.y || p.x == s.x && p.y == s.y {
        p
    } else {
        q
    };
    lemma_not_apart(p.x, q.x, r.x, s.x, x.x, t);
    lemma_not_apart(p.y, q.y, r.y, s.y, x.y, t);
}

proof fn lemma_not_apart(p: F32, q: F32, r: F32, s: F32, x: F32, t: F32)
    requires
        p.finite() && q.finite() && r.finite() && s.finite(),
        x == p || x == q,
        x == r || x == s,
        num(0).lt(t),
    ensures
        !r.min(s).gt(p.max(q).plus(t)),
        !r.max(s).lt(p.min(q).minus(t)),
{
    crate::float::order::lemma_min_max(p, q);
    crate::float::order::lemma_min_max(r, s);
    reveal(F32::le_spec);
    reveal(F32::lt_spec);
    let (hi, lo) = (p.max(q), p.min(q));
    if t.finite() {
        crate::float::monotone::lemma_units_ordered(num(0), t);
        crate::float::monotone::lemma_opposite(t);
        assert(crate::float::mag(0) == 0);
        crate::float::monotone::lemma_sum_monotone(hi, num(0), hi, t);
        crate::float::monotone::lemma_sum_monotone(lo, t.neg(), lo, num(0));
        lemma_plus_nothing(hi, num(0));
        lemma_plus_nothing(lo, num(0));
        crate::float::monotone::lemma_units_ordered(hi, hi.plus(num(0)));
        crate::float::monotone::lemma_units_ordered(lo.plus(num(0)), lo);
    } else {
        reveal(F32::plus_spec);
        reveal(F32::neg_spec);
    }
}

/// Boxes with a coordinate in common are allowed the whole threshold.
proof fn lemma_overlap(p: BBox, q: BBox, x: F32, t: F32)
    requires
        p.min_x.finite() && p.max_x.finite() && q.min_x.finite() && q.max_x.finite(),
        p.min_x.le(x) && x.le(p.max_x),
        q.min_x.le(x) && x.le(q.max_x),
    ensures
        super::allowance(p, q, t) == t,
{
    let (l, r) = (p.min_x.max(q.min_x), p.max_x.min(q.max_x));
    crate::float::order::lemma_min_max(p.min_x, q.min_x);
    crate::float::order::lemma_min_max(p.max_x, q.max_x);
    reveal(F32::le_spec);
    reveal(F32::lt_spec);
    assert(l.le(r));
    crate::float::monotone::lemma_difference(l, r, r);
}

/// Are two strokes with these boxes too far apart to touch: is one at least the threshold beside, above
/// or below the other? Strokes that share no x-range need only 0.35 of it.
pub open spec fn far(a: BBox, b: BBox, t: F32) -> bool {
    let between = a.min_x.max(b.min_x).minus(a.max_x.min(b.max_x));
    let reach = if num(0).lt(between) {
        num(0x3eb3_3333).times(t)
    } else {
        t
    };
    ||| reach.le(a.min_x.minus(b.max_x))
    ||| reach.le(b.min_x.minus(a.max_x))
    ||| reach.le(a.min_y.minus(b.max_y))
    ||| reach.le(b.min_y.minus(a.max_y))
}

/// Strokes on two sides of which no two are near each other are never put into one cluster.
pub proof fn law_strokes_that_are_far_apart_stay_apart(
    ink: Seq<Seq<Point>>,
    side: Set<int>,
    g: int,
    i: int,
    j: int,
)
    requires
        forall|a: int, b: int|
            0 <= a < b < ink.len() && ink[a].len() > 0 && ink[b].len() > 0 && side.contains(a)
                != side.contains(b) ==> #[trigger] far(
                crate::stroke::extent(ink[a]),
                crate::stroke::extent(ink[b]),
                super::threshold(ink),
            ),
        0 <= g < super::clusters(ink).len(),
        super::clusters(ink)[g].contains(i),
        super::clusters(ink)[g].contains(j),
    ensures
        side.contains(i) == side.contains(j),
{
    let t = super::threshold(ink);
    lemma_together(ink, g, g, i, j);
    reveal(super::touching);
    assert forall|a: int, b: int|
        0 <= a < b < ink.len() && ink[a].len() > 0 && ink[b].len() > 0 && #[trigger] super::touching(
            ink,
            t,
            a,
            b,
        ) implies side.contains(a) == side.contains(b) by {
        let (p, q) = (crate::stroke::extent(ink[a]), crate::stroke::extent(ink[b]));
        if side.contains(a) != side.contains(b) {
            assert(far(p, q, t));
            lemma_far(p, q, t);
        }
    }
    assert(super::uncut(ink, t, side));
    let c = side.complement();
    assert(super::uncut(ink, t, c));
    if side.contains(i) {
        assert(side.contains(j));
    } else {
        assert(c.contains(i));
        assert(c.contains(j));
    }
}

proof fn lemma_far(a: BBox, b: BBox, t: F32)
    requires
        far(a, b, t),
    ensures
        super::gap_of(a, b).ge(super::allowance(a, b, t)),
{
    let (p, q) = (a.min_x.minus(b.max_x), b.min_x.minus(a.max_x));
    let (r, s) = (a.min_y.minus(b.max_y), b.min_y.minus(a.max_y));
    crate::float::order::lemma_min_max(p, q);
    crate::float::order::lemma_min_max(p.max(q), num(0));
    crate::float::order::lemma_min_max(r, s);
    crate::float::order::lemma_min_max(r.max(s), num(0));
    crate::float::order::lemma_min_max(p.max(q).max(num(0)), r.max(s).max(num(0)));
    reveal(F32::le_spec);
}

/// Do the stretches from `p` to `q` and from `r` to `s` have a place in common?
pub open spec fn overlap(p: F32, q: F32, r: F32, s: F32) -> bool {
    p.min(q).le(r.max(s)) && r.min(s).le(p.max(q))
}

/// Do the lines from `p` to `q` and from `r` to `s` cross, between their ends?
pub open spec fn cross(p: Point, q: Point, r: Point, s: Point) -> bool {
    let (ax, ay) = (q.x.minus(p.x), q.y.minus(p.y));
    let (bx, by) = (s.x.minus(r.x), s.y.minus(r.y));
    let (cx, cy) = (r.x.minus(p.x), r.y.minus(p.y));
    let d = ax.times(by).minus(ay.times(bx));
    let t = cx.times(by).minus(cy.times(bx)).over(d);
    let u = cx.times(ay).minus(cy.times(ax)).over(d);
    &&& num(0x2b8c_bccc).lt(d.abs())
    &&& num(0).le(t) && t.le(num(0x3f80_0000))
    &&& num(0).le(u) && u.le(num(0x3f80_0000))
}

proof fn lemma_in_reach(p: F32, q: F32, r: F32, s: F32, t: F32)
    requires
        p.finite() && q.finite() && r.finite() && s.finite(),
        overlap(p, q, r, s),
        num(0).lt(t),
    ensures
        !r.min(s).gt(p.max(q).plus(t)),
        !r.max(s).lt(p.min(q).minus(t)),
{
    crate::float::order::lemma_min_max(p, q);
    crate::float::order::lemma_min_max(r, s);
    lemma_not_apart(p, p, p, p, p, t);
    lemma_not_apart(q, q, q, q, q, t);
    reveal(F32::le_spec);
    reveal(F32::lt_spec);
    reveal(F32::min_spec);
    reveal(F32::max_spec);
}

/// Two strokes that cross are one symbol: those of an `x`, for instance.
pub proof fn law_strokes_that_cross_are_one_symbol(
    ink: Seq<Seq<Point>>,
    i: int,
    j: int,
    k: int,
    l: int,
    angle: Fn2,
) -> (g: int)
    requires
        0 <= i < j < ink.len(),
        0 <= k && k + 1 < ink[i].len(),
        0 <= l && l + 1 < ink[j].len(),
        forall|m: int| 0 <= m < ink[i].len() ==> ordinary(#[trigger] ink[i][m]),
        forall|m: int| 0 <= m < ink[j].len() ==> ordinary(#[trigger] ink[j][m]),
        cross(ink[i][k], ink[i][k + 1], ink[j][l], ink[j][l + 1]),
        overlap(ink[i][k].x, ink[i][k + 1].x, ink[j][l].x, ink[j][l + 1].x),
        overlap(ink[i][k].y, ink[i][k + 1].y, ink[j][l].y, ink[j][l + 1].y),
    ensures
        0 <= g < super::symbols_of(ink, angle).len(),
        super::symbols_of(ink, angle)[g].contains(i),
        super::symbols_of(ink, angle)[g].contains(j),
{
    let t = super::threshold(ink);
    let (a, b) = (ink[i], ink[j]);
    let (p, q) = (crate::stroke::extent(a), crate::stroke::extent(b));
    lemma_positive(ink);
    assert forall|m: int| 0 <= m < a.len() implies (#[trigger] a[m]).x.finite() && a[m].y.finite() by {
        assert(ordinary(a[m]));
    }
    assert forall|m: int| 0 <= m < b.len() implies (#[trigger] b[m]).x.finite() && b[m].y.finite() by {
        assert(ordinary(b[m]));
    }
    crate::stroke::law_extent_holds_every_point(a, k);
    crate::stroke::law_extent_holds_every_point(a, k + 1);
    crate::stroke::law_extent_holds_every_point(b, l);
    crate::stroke::law_extent_holds_every_point(b, l + 1);
    crate::stroke::lemma_extent_finite(a);
    crate::stroke::lemma_extent_finite(b);
    lemma_in_reach(a[k].x, a[k + 1].x, b[l].x, b[l + 1].x, t);
    lemma_in_reach(a[k].y, a[k + 1].y, b[l].y, b[l + 1].y, t);
    lemma_stretch(a[k].x, a[k + 1].x, b[l].x, b[l + 1].x, p.min_x, p.max_x, q.min_x, q.max_x);
    lemma_stretch(a[k].y, a[k + 1].y, b[l].y, b[l + 1].y, p.min_y, p.max_y, q.min_y, q.max_y);
    assert(p.min_x.le(p.max_x) && p.min_y.le(p.max_y) && q.min_x.le(q.max_x) && q.min_y.le(
        q.max_y,
    )) by {
        reveal(F32::le_spec);
    }
    lemma_touching_boxes(p, q, t);
    reveal(super::touching);
    assert(super::segments_near(a, b, k, l, t));
    assert(super::touching(ink, t, i, j));
    lemma_touching(ink, i, j, angle)
}

proof fn lemma_stretch(p: F32, q: F32, r: F32, s: F32, a0: F32, a1: F32, b0: F32, b1: F32)
    requires
        overlap(p, q, r, s),
        a0.le(p) && p.le(a1) && a0.le(q) && q.le(a1),
        b0.le(r) && r.le(b1) && b0.le(s) && s.le(b1),
    ensures
        a0.le(b1) && b0.le(a1),
{
    crate::float::order::lemma_min_max(p, q);
    crate::float::order::lemma_min_max(r, s);
    reveal(F32::le_spec);
}

/// Boxes that overlap have no gap between them, and are allowed the whole threshold.
proof fn lemma_touching_boxes(a: BBox, b: BBox, t: F32)
    requires
        a.min_x.finite() && a.max_x.finite() && a.min_y.finite() && a.max_y.finite(),
        b.min_x.finite() && b.max_x.finite() && b.min_y.finite() && b.max_y.finite(),
        a.min_x.le(a.max_x) && a.min_y.le(a.max_y),
        b.min_x.le(b.max_x) && b.min_y.le(b.max_y),
        a.min_x.le(b.max_x) && b.min_x.le(a.max_x),
        a.min_y.le(b.max_y) && b.min_y.le(a.max_y),
        num(0).lt(t),
    ensures
        super::allowance(a, b, t) == t,
        !super::gap_of(a, b).ge(t),
{
    crate::float::monotone::lemma_difference(a.min_x, b.max_x, b.max_x);
    crate::float::monotone::lemma_difference(b.min_x, a.max_x, a.max_x);
    crate::float::monotone::lemma_difference(a.min_y, b.max_y, b.max_y);
    crate::float::monotone::lemma_difference(b.min_y, a.max_y, a.max_y);
    let (l, r) = (a.min_x.max(b.min_x), a.max_x.min(b.max_x));
    crate::float::order::lemma_min_max(a.min_x, b.min_x);
    crate::float::order::lemma_min_max(a.max_x, b.max_x);
    reveal(F32::le_spec);
    reveal(F32::lt_spec);
    assert(l.le(r));
    crate::float::monotone::lemma_difference(l, r, r);
    let (p, q) = (a.min_x.minus(b.max_x), b.min_x.minus(a.max_x));
    let (u, v) = (a.min_y.minus(b.max_y), b.min_y.minus(a.max_y));
    crate::float::order::lemma_min_max(p, q);
    crate::float::order::lemma_min_max(p.max(q), num(0));
    crate::float::order::lemma_min_max(u, v);
    crate::float::order::lemma_min_max(u.max(v), num(0));
    crate::float::order::lemma_min_max(p.max(q).max(num(0)), u.max(v).max(num(0)));
}

// ---------------------------------------------------------------------------------------------
// Order
// ---------------------------------------------------------------------------------------------
proof fn lemma_left_edge(ink: Seq<Seq<Point>>, group: Seq<int>, k: int)
    requires
        group.len() > 0,
        forall|m: int|
            0 <= m < group.len() ==> !crate::stroke::extent(ink[#[trigger] group[m]]).min_x.nan(),
    ensures
        exists|m: int|
            0 <= m < group.len() && super::left_edge(ink, group) == crate::stroke::extent(
                ink[#[trigger] group[m]],
            ).min_x,
        0 <= k < group.len() ==> super::left_edge(ink, group).le(
            crate::stroke::extent(ink[group[k]]).min_x,
        ),
    decreases group.len(),
{
    let last = group.len() - 1;
    reveal(F32::le_spec);
    assert(!crate::stroke::extent(ink[group[last]]).min_x.nan());
    if group.len() == 1 {
        assert(super::left_edge(ink, group) == crate::stroke::extent(ink[group[0]]).min_x);
    } else {
        let before = group.drop_last();
        assert forall|m: int| 0 <= m < before.len() implies !crate::stroke::extent(
            ink[#[trigger] before[m]],
        ).min_x.nan() by {
            assert(before[m] == group[m]);
        }
        lemma_left_edge(ink, before, k);
        let m = choose|m: int|
            0 <= m < before.len() && super::left_edge(ink, before) == crate::stroke::extent(
                ink[#[trigger] before[m]],
            ).min_x;
        assert(group[m] == before[m]);
        let v = crate::stroke::extent(ink[group[last]]).min_x;
        crate::float::order::lemma_min_max(super::left_edge(ink, before), v);
        assert(super::left_edge(ink, group) == crate::stroke::extent(ink[group[m]]).min_x
            || super::left_edge(ink, group) == crate::stroke::extent(ink[group[last]]).min_x);
        if 0 <= k < last {
            assert(group[k] == before[k]);
        }
    }
}

/// Clusters go from left to right: some stroke of an earlier one begins no further to the right than
/// any stroke of a later one.
pub proof fn law_clusters_go_from_left_to_right(ink: Seq<Seq<Point>>, a: int, b: int, k: int) -> (m:
    int)
    requires
        0 <= a < b < super::clusters(ink).len(),
        0 <= k < super::clusters(ink)[b].len(),
        forall|i: int|
            0 <= i < ink.len() && ink[i].len() > 0 ==> !crate::stroke::extent(
                #[trigger] ink[i],
            ).min_x.nan(),
    ensures
        0 <= m < super::clusters(ink)[a].len(),
        crate::stroke::extent(ink[super::clusters(ink)[a][m]]).min_x.le(
            crate::stroke::extent(ink[super::clusters(ink)[b][k]]).min_x,
        ),
{
    let groups = super::clusters(ink);
    let t = super::threshold(ink);
    let items = super::live(ink, ink.len());
    let found = super::gathered(ink, t, items, items.len());
    let keys = super::left_edges(ink, found);
    let order = crate::sort::stable_order(keys);
    lemma_classes(ink, t, items, items.len());
    super::lemma_clusters_in_range(ink);
    crate::sort::lemma_order_is_permutation(keys, keys.len());
    assert forall|g: int| 0 <= g < keys.len() implies !(#[trigger] keys[g]).nan() by {
        assert(order.contains(g));
        let h = choose|h: int| 0 <= h < order.len() && order[h] == g;
        assert(groups[h] == found[g]);
        assert(found[g].len() > 0);
        assert forall|m: int| 0 <= m < found[g].len() implies !crate::stroke::extent(
            ink[#[trigger] found[g][m]],
        ).min_x.nan() by {
            assert(groups[h][m] == found[g][m]);
        }
        lemma_left_edge(ink, found[g], 0);
    }
    crate::sort::law_order_is_ascending_and_stable(keys, keys.len(), a, b);
    let (p, q) = (groups[a], groups[b]);
    assert(p == found[order[a]] && q == found[order[b]]);
    assert(found[order[a]].len() > 0);
    assert forall|m: int| 0 <= m < p.len() implies !crate::stroke::extent(
        ink[#[trigger] p[m]],
    ).min_x.nan() by {
        assert(groups[a][m] == p[m]);
    }
    assert forall|m: int| 0 <= m < q.len() implies !crate::stroke::extent(
        ink[#[trigger] q[m]],
    ).min_x.nan() by {
        assert(groups[b][m] == q[m]);
    }
    lemma_left_edge(ink, p, 0);
    lemma_left_edge(ink, q, k);
    reveal(F32::le_spec);
    choose|m: int|
        0 <= m < p.len() && super::left_edge(ink, p) == crate::stroke::extent(
            ink[#[trigger] p[m]],
        ).min_x
}

/// The distance of two segments is none if they cross. Else it is that of the one of their four ends that is
/// closest to the other segment: none is closer.
pub proof fn law_the_distance_of_segments_is_that_of_the_closest_end(
    p: Point,
    q: Point,
    r: Point,
    s: Point,
)
    requires
        ({
            let (a, b, c, d) = (super::pt(p), super::pt(q), super::pt(r), super::pt(s));
            &&& !super::point_distance(a, c, d).nan() && !super::point_distance(b, c, d).nan()
            &&& !super::point_distance(c, a, b).nan() && !super::point_distance(d, a, b).nan()
        }),
    ensures
        ({
            let (a, b, c, d) = (super::pt(p), super::pt(q), super::pt(r), super::pt(s));
            let v = super::segment_distance(a, b, c, d);
            let (e, f) = (super::point_distance(a, c, d), super::point_distance(b, c, d));
            let (g, h) = (super::point_distance(c, a, b), super::point_distance(d, a, b));
            if cross(p, q, r, s) {
                v == num(0)
            } else {
                &&& v.le(e) && v.le(f) && v.le(g) && v.le(h)
                &&& v == e || v == f || v == g || v == h
            }
        }),
{
    let (a, b, c, d) = (super::pt(p), super::pt(q), super::pt(r), super::pt(s));
    let (e, f) = (super::point_distance(a, c, d), super::point_distance(b, c, d));
    let (g, h) = (super::point_distance(c, a, b), super::point_distance(d, a, b));
    crate::float::order::lemma_min_max(e, f);
    crate::float::order::lemma_min_max(e.min(f), g);
    crate::float::order::lemma_min_max(e.min(f).min(g), h);
    reveal(F32::le_spec);
}

/// The distance of a point from a segment is that from the nearest place on it: its start, its end, or the
/// foot of the perpendicular between them.
pub proof fn law_the_distance_from_a_segment_is_to_the_nearest_place(p: Point, a: Point, b: Point)
    ensures
        ({
            let (u, v) = (b.x.minus(a.x), b.y.minus(a.y));
            let (x, y) = (p.x.minus(a.x), p.y.minus(a.y));
            let l = u.times(u).plus(v.times(v));
            let along = x.times(u).plus(y.times(v)).over(l);
            let d = super::point_distance(super::pt(p), super::pt(a), super::pt(b));
            let one = num(0x3f80_0000);
            if l.le(num(0x3400_0000)) {
                d == x.hypot(y)
            } else {
                &&& along.lt(num(0)) ==> d == p.x.minus(a.x.plus(num(0).times(u))).hypot(
                    p.y.minus(a.y.plus(num(0).times(v))),
                )
                &&& one.lt(along) ==> d == p.x.minus(a.x.plus(one.times(u))).hypot(
                    p.y.minus(a.y.plus(one.times(v))),
                )
                &&& num(0).le(along) && along.le(one) ==> d == p.x.minus(
                    a.x.plus(along.times(u)),
                ).hypot(p.y.minus(a.y.plus(along.times(v))))
            }
        }),
{
    reveal(F32::clamp_spec);
    reveal(F32::lt_spec);
    reveal(F32::le_spec);
}

/// How close the ink of two strokes has to come: within the threshold, or within 0.35 of it if they share no
/// x-range.
pub open spec fn reach(a: BBox, b: BBox, t: F32) -> F32 {
    if num(0).lt(a.min_x.max(b.min_x).minus(a.max_x.min(b.max_x))) {
        num(0x3eb3_3333).times(t)
    } else {
        t
    }
}

/// Two dots that are closer than they have to come are one symbol.
pub proof fn law_close_dots_are_one_symbol(ink: Seq<Seq<Point>>, i: int, j: int, angle: Fn2) -> (g:
    int)
    requires
        0 <= i < j < ink.len(),
        ink[i].len() == 1 && ink[j].len() == 1,
        ink[i][0].x.finite() && ink[i][0].y.finite(),
        ink[j][0].x.finite() && ink[j][0].y.finite(),
        ink[i][0].x.minus(ink[j][0].x).hypot(ink[i][0].y.minus(ink[j][0].y)).lt(
            reach(
                crate::stroke::extent(ink[i]),
                crate::stroke::extent(ink[j]),
                super::threshold(ink),
            ),
        ),
    ensures
        0 <= g < super::symbols_of(ink, angle).len(),
        super::symbols_of(ink, angle)[g].contains(i),
        super::symbols_of(ink, angle)[g].contains(j),
{
    let t = super::threshold(ink);
    let (a, b) = (ink[i], ink[j]);
    let d = reach(crate::stroke::extent(a), crate::stroke::extent(b), t);
    super::law_the_gap_is_a_lower_bound(a, b, 0, 0);
    reveal(super::touching);
    reveal(F32::le_spec);
    reveal(F32::lt_spec);
    assert(super::samples_near(a, b, 0, 0, d));
    assert(super::touching(ink, t, i, j));
    lemma_touching(ink, i, j, angle)
}

/// Two strokes of which a piece of one comes closer to a piece of the other than they have to are one
/// symbol, if the boxes of the strokes and of the pieces are as close.
pub proof fn law_close_strokes_are_one_symbol(
    ink: Seq<Seq<Point>>,
    i: int,
    j: int,
    k: int,
    l: int,
    angle: Fn2,
) -> (g: int)
    requires
        0 <= i < j < ink.len(),
        0 <= k && k + 1 < ink[i].len(),
        0 <= l && l + 1 < ink[j].len(),
        ({
            let (p, q) = (crate::stroke::extent(ink[i]), crate::stroke::extent(ink[j]));
            let d = reach(p, q, super::threshold(ink));
            let (a, b) = (ink[i][k], ink[i][k + 1]);
            let (r, s) = (ink[j][l], ink[j][l + 1]);
            &&& super::segment_distance(super::pt(a), super::pt(b), super::pt(r), super::pt(s)).lt(d)
            &&& !a.x.max(b.x).plus(d).lt(r.x.min(s.x)) && !r.x.max(s.x).lt(a.x.min(b.x).minus(d))
            &&& !a.y.max(b.y).plus(d).lt(r.y.min(s.y)) && !r.y.max(s.y).lt(a.y.min(b.y).minus(d))
            &&& super::gap_of(p, q).lt(d)
        }),
    ensures
        0 <= g < super::symbols_of(ink, angle).len(),
        super::symbols_of(ink, angle)[g].contains(i),
        super::symbols_of(ink, angle)[g].contains(j),
{
    let t = super::threshold(ink);
    let d = reach(crate::stroke::extent(ink[i]), crate::stroke::extent(ink[j]), t);
    reveal(super::touching);
    reveal(F32::le_spec);
    reveal(F32::lt_spec);
    assert(super::segments_near(ink[i], ink[j], k, l, d));
    assert(super::touching(ink, t, i, j));
    lemma_touching(ink, i, j, angle)
}

/// The gap of two boxes is how far apart they are from left to right or from top to bottom, whichever is
/// more; it is none where they overlap both ways.
pub proof fn law_the_gap_is_the_larger_of_two(a: BBox, b: BBox)
    requires
        !a.min_x.minus(b.max_x).nan() && !b.min_x.minus(a.max_x).nan(),
        !a.min_y.minus(b.max_y).nan() && !b.min_y.minus(a.max_y).nan(),
    ensures
        ({
            let g = super::gap_of(a, b);
            let (p, q) = (a.min_x.minus(b.max_x), b.min_x.minus(a.max_x));
            let (r, s) = (a.min_y.minus(b.max_y), b.min_y.minus(a.max_y));
            &&& p.le(g) && q.le(g) && r.le(g) && s.le(g) && num(0).le(g)
            &&& g == p || g == q || g == r || g == s || g == num(0)
        }),
{
    let (p, q) = (a.min_x.minus(b.max_x), b.min_x.minus(a.max_x));
    let (r, s) = (a.min_y.minus(b.max_y), b.min_y.minus(a.max_y));
    crate::float::order::lemma_min_max(p, q);
    crate::float::order::lemma_min_max(p.max(q), num(0));
    crate::float::order::lemma_min_max(r, s);
    crate::float::order::lemma_min_max(r.max(s), num(0));
    crate::float::order::lemma_min_max(p.max(q).max(num(0)), r.max(s).max(num(0)));
    reveal(F32::le_spec);
}

} // verus!
