//! When two bars are one equals sign, and when they are not.
use crate::elementary::Fn2;
use crate::float::{num, F32};
use crate::stroke::{BBox, Point};
use vstd::prelude::*;

verus! {

// ---------------------------------------------------------------------------------------------
// Geometry
// ---------------------------------------------------------------------------------------------
/// The middle between two coordinates.
pub open spec fn halfway(a: F32, b: F32) -> F32 {
    a.plus(b).over(num(0x4000_0000))
}

/// How far apart the middles of two boxes are, from top to bottom.
pub open spec fn height_apart(a: BBox, b: BBox) -> F32 {
    halfway(a.min_y, a.max_y).minus(halfway(b.min_y, b.max_y)).abs()
}

/// Is the middle of `c` in the x-range that the two bars share, and just above the upper or just
/// below the lower of them: by less than twice their distance?
pub open spec fn in_the_way(upper: BBox, lower: BBox, c: BBox) -> bool {
    let reach = num(0x4000_0000).times(height_apart(upper, lower));
    let x = halfway(c.min_x, c.max_x);
    let y = halfway(c.min_y, c.max_y);
    &&& upper.min_x.lt(x) && lower.min_x.lt(x)
    &&& x.lt(upper.max_x) && x.lt(lower.max_x)
    &&& {
        ||| upper.min_y.minus(reach).lt(y) && y.lt(upper.min_y)
        ||| lower.max_y.lt(y) && y.lt(lower.max_y.plus(reach))
    }
}

/// Is the first box the upper one? Of two at the same height it is.
pub open spec fn is_upper(a: BBox, b: BBox) -> bool {
    a.min_y.plus(a.max_y).le(b.min_y.plus(b.max_y))
}

/// Is the middle of `d` in the x-range of the three bars, and not above or below all of them by twice the
/// distance of the first two?
pub open spec fn around(a: BBox, b: BBox, c: BBox, d: BBox) -> bool {
    let reach = num(0x4000_0000).times(height_apart(a, b));
    let x = halfway(d.min_x, d.max_x);
    let y = halfway(d.min_y, d.max_y);
    &&& a.min_x.min(b.min_x).min(c.min_x).lt(x) && x.lt(a.max_x.max(b.max_x).max(c.max_x))
    &&& a.min_y.min(b.min_y).min(c.min_y).minus(reach).lt(y)
    &&& y.lt(a.max_y.max(b.max_y).max(c.max_y).plus(reach))
}

/// Do two bars look alike: do they slant by the same within 25 degrees, is the wider one less than
/// 2.4 times as wide as the other, do they overlap by more than 0.6 of the narrower one's width, and
/// are they closer than 1.2 times the wider one's width?
pub open spec fn alike(a: BBox, slant_a: F32, b: BBox, slant_b: F32) -> bool {
    let wa = a.max_x.minus(a.min_x);
    let wb = b.max_x.minus(b.min_x);
    let shared = a.max_x.min(b.max_x).minus(a.min_x.max(b.min_x)).max(num(0));
    &&& !num(0x3edf_66f3).lt(slant_a.minus(slant_b).abs())
    &&& !num(0x4019_999a).le(wa.max(wb).over(wa.min(wb).max(num(0x3586_37bd))))
    &&& !shared.le(num(0x3f19_999a).times(wa.min(wb)))
    &&& !num(0x3f99_999a).times(wa.max(wb)).le(height_apart(a, b))
}

/// Is a stroke from `p` to `q`, without a point between them, a bar: within 40 degrees of the
/// horizontal, and longer than nothing?
pub open spec fn straight_bar(p: Point, q: Point, slant: F32) -> bool {
    let dx = q.x.minus(p.x);
    let dy = q.y.minus(p.y);
    let len = dx.hypot(dy);
    let off0 = p.x.minus(p.x).times(dy.over(len)).minus(p.y.minus(p.y).times(dx.over(len))).abs();
    let off1 = dx.times(dy.over(len)).minus(dy.times(dx.over(len))).abs();
    &&& !num(0x3f32_b8c2).lt(slant.abs())
    &&& !len.lt(num(0x3586_37bd))
    &&& !num(0x3fac_cccd).lt(num(0).plus(len).over(len))
    &&& num(0x4020_0000).lt(len.over(num(0).max(off0).max(off1).max(num(0x3586_37bd))))
}

// ---------------------------------------------------------------------------------------------
// In the open
// ---------------------------------------------------------------------------------------------
/// Are the groups `q` and `q + 1` put together to this group, as the bars of an equals sign?
spec fn joined_at(
    ink: Seq<Seq<Point>>,
    groups: Seq<Seq<int>>,
    angle: Fn2,
    group: Seq<int>,
    q: int,
) -> bool {
    &&& 0 <= q && q + 1 < groups.len()
    &&& super::equals_sign(ink, groups, q, angle)
    &&& group == groups[q] + groups[q + 1]
}

/// Is this group one of the groups as it was, or two of them put together?
spec fn origin(ink: Seq<Seq<Point>>, groups: Seq<Seq<int>>, angle: Fn2, group: Seq<int>) -> bool {
    (exists|q: int| 0 <= q < groups.len() && group == #[trigger] groups[q]) || exists|q: int|
        joined_at(ink, groups, angle, group, q)
}

proof fn lemma_origin(ink: Seq<Seq<Point>>, groups: Seq<Seq<int>>, i: nat, angle: Fn2)
    ensures
        forall|g: int|
            0 <= g < super::with_equals(ink, groups, i, angle).len() ==> origin(
                ink,
                groups,
                angle,
                #[trigger] super::with_equals(ink, groups, i, angle)[g],
            ),
    decreases groups.len() - i,
{
    let all = super::with_equals(ink, groups, i, angle);
    if i < groups.len() {
        let q = i as int;
        let pair = super::equals_sign(ink, groups, q, angle);
        let next = if pair {
            i + 2
        } else {
            i + 1
        };
        let head = if pair {
            groups[q] + groups[q + 1]
        } else {
            groups[q]
        };
        let tail = super::with_equals(ink, groups, next, angle);
        lemma_origin(ink, groups, next, angle);
        assert(all =~= seq![head] + tail);
        if pair {
            assert(joined_at(ink, groups, angle, head, q));
        }
        assert(origin(ink, groups, angle, head));
        assert forall|g: int| 0 <= g < all.len() implies origin(
            ink,
            groups,
            angle,
            #[trigger] all[g],
        ) by {
            if g > 0 {
                assert(all[g] == tail[g - 1]);
            }
        }
    }
}

/// Is no stroke in two groups?
pub open spec fn disjoint(groups: Seq<Seq<int>>) -> bool {
    forall|a: int, b: int, v: int|
        0 <= a < groups.len() && 0 <= b < groups.len() && #[trigger] groups[a].contains(v)
            && #[trigger] groups[b].contains(v) ==> a == b
}

/// The box of a group of one stroke is that of the stroke.
proof fn lemma_box_of_one(ink: Seq<Seq<Point>>, s: int)
    ensures
        super::group_box(ink, seq![s]) == crate::stroke::extent_of(ink[s]),
{
    assert(seq![s].drop_last() =~= Seq::<int>::empty());
    reveal_with_fuel(super::group_box, 2);
}

proof fn lemma_in_the_way(a: BBox, b: BBox, c: BBox)
    requires
        in_the_way(
            if is_upper(a, b) {
                a
            } else {
                b
            },
            if is_upper(a, b) {
                b
            } else {
                a
            },
            c,
        ),
        !a.min_x.nan() && !a.max_x.nan() && !b.min_x.nan() && !b.max_x.nan(),
        !halfway(a.min_y, a.max_y).nan() && !halfway(b.min_y, b.max_y).nan(),
        halfway(a.min_y, a.max_y).finite() && halfway(b.min_y, b.max_y).finite(),
    ensures
        super::in_corridor(a, b, c),
{
    lemma_apart_either_way(a, b);
    crate::float::order::lemma_min_max(a.min_x, b.min_x);
    crate::float::order::lemma_min_max(a.max_x, b.max_x);
}

/// It does not matter which of two boxes is named first.
proof fn lemma_apart_either_way(a: BBox, b: BBox)
    requires
        halfway(a.min_y, a.max_y).finite() && halfway(b.min_y, b.max_y).finite(),
    ensures
        height_apart(a, b) == height_apart(b, a),
{
    let (p, q) = (halfway(a.min_y, a.max_y), halfway(b.min_y, b.max_y));
    reveal(F32::plus_spec);
    reveal(F32::neg_spec);
    reveal(F32::abs_spec);
    crate::float::monotone::lemma_opposite(p);
    crate::float::monotone::lemma_opposite(q);
    let d = p.units() - q.units();
    if d != 0 {
        crate::float::monotone::lemma_nearest(if d > 0 {
            d as nat
        } else {
            (-d) as nat
        }, 1);
    }
}

/// Two bars become one symbol only in the open: no other symbol has its middle in the x-range that the
/// bars share, above the upper bar or below the lower one by less than twice their distance. A fraction
/// always has something there. The one exception is a third bar that is like one of the two, with
/// nothing else around the three.
pub proof fn law_an_equals_sign_stands_in_the_open(
    ink: Seq<Seq<Point>>,
    groups: Seq<Seq<int>>,
    angle: Fn2,
    g: int,
    a: int,
    b: int,
    k: int,
)
    requires
        disjoint(groups),
        0 <= a < b < groups.len(),
        groups[a].len() > 0 && groups[b].len() > 0,
        0 <= g < super::with_equals(ink, groups, 0, angle).len(),
        super::with_equals(ink, groups, 0, angle)[g].contains(groups[a][0]),
        super::with_equals(ink, groups, 0, angle)[g].contains(groups[b][0]),
        0 <= k < groups.len() && k != a && k != b,
        // it is no bar, or one unlike both of them, or there is something else around the three
        super::bar(ink, groups[k], angle) is None || (super::bar(ink, groups[a], angle) is Some
            && super::bar(ink, groups[b], angle) is Some && ({
            let p = super::bar(ink, groups[a], angle)->0;
            let q = super::bar(ink, groups[b], angle)->0;
            let r = super::bar(ink, groups[k], angle)->0;
            ||| !alike(p.0, p.1, r.0, r.1) && !alike(q.0, q.1, r.0, r.1)
            ||| exists|l: int|
                0 <= l < groups.len() && l != a && l != b && l != k && super::group_box(
                    ink,
                    #[trigger] groups[l],
                ) is Some && around(p.0, q.0, r.0, super::group_box(ink, groups[l])->0)
        })),
        super::group_box(ink, groups[k]) is Some,
        super::group_box(ink, groups[a]) is Some && super::group_box(ink, groups[b]) is Some,
        ({
            let x = super::group_box(ink, groups[a])->0;
            let y = super::group_box(ink, groups[b])->0;
            &&& !x.min_x.nan() && !x.max_x.nan() && !y.min_x.nan() && !y.max_x.nan()
            &&& halfway(x.min_y, x.max_y).finite() && halfway(y.min_y, y.max_y).finite()
        }),
    ensures
        ({
            let x = super::group_box(ink, groups[a])->0;
            let y = super::group_box(ink, groups[b])->0;
            let c = super::group_box(ink, groups[k])->0;
            &&& is_upper(x, y) ==> !in_the_way(x, y, c)
            &&& !is_upper(x, y) ==> !in_the_way(y, x, c)
        }),
        groups[a].len() == 1 && groups[b].len() == 1 && b == a + 1,
{
    let all = super::with_equals(ink, groups, 0, angle);
    let group = all[g];
    let (s, t) = (groups[a][0], groups[b][0]);
    lemma_origin(ink, groups, 0, angle);
    assert(origin(ink, groups, angle, group));
    assert(groups[a].contains(s) && groups[b].contains(t));
    if exists|q: int| 0 <= q < groups.len() && group == #[trigger] groups[q] {
        let q = choose|q: int| 0 <= q < groups.len() && group == #[trigger] groups[q];
        assert(groups[q].contains(s) && groups[q].contains(t));
        assert(false);
    }
    let q = choose|q: int| joined_at(ink, groups, angle, group, q);
    let (p, r) = (groups[q], groups[q + 1]);
    let i = choose|i: int| 0 <= i < group.len() && group[i] == s;
    let j = choose|j: int| 0 <= j < group.len() && group[j] == t;
    assert(p.contains(s) || r.contains(s)) by {
        if i < p.len() {
            assert(p[i] == s);
        } else {
            assert(r[i - p.len()] == s);
        }
    }
    assert(p.contains(t) || r.contains(t)) by {
        if j < p.len() {
            assert(p[j] == t);
        } else {
            assert(r[j - p.len()] == t);
        }
    }
    assert(groups[q] == p && groups[q + 1] == r);
    assert(q == a && q + 1 == b);
    assert(super::pair_at(ink, groups, q, angle) is Some);
    let x = super::bar(ink, groups[q], angle)->0;
    let y = super::bar(ink, groups[q + 1], angle)->0;
    assert(!super::crowds(ink, groups, q, x, y, k, angle));
    assert(p =~= seq![p[0]] && r =~= seq![r[0]]);
    if super::bar(ink, groups[k], angle) is Some {
        let z = super::bar(ink, groups[k], angle)->0;
        assert(!super::third_bar(ink, groups, q, x, y, k, angle)) by {
            if alike(x.0, x.1, z.0, z.1) || alike(y.0, y.1, z.0, z.1) {
                let l = choose|l: int|
                    0 <= l < groups.len() && l != a && l != b && l != k && super::group_box(
                        ink,
                        #[trigger] groups[l],
                    ) is Some && around(x.0, y.0, z.0, super::group_box(ink, groups[l])->0);
                let bars = x.0.union(&y.0).union(&z.0);
                let reach = num(0x4000_0000).times(super::bar_distance(x.0, y.0));
                assert(super::attends(ink, groups, q, k, bars, reach, l));
            }
        }
    }
    lemma_box_of_one(ink, p[0]);
    lemma_box_of_one(ink, r[0]);
    let c = super::group_box(ink, groups[k])->0;
    if is_upper(x.0, y.0) {
        if in_the_way(x.0, y.0, c) {
            lemma_in_the_way(x.0, y.0, c);
        }
    } else {
        if in_the_way(y.0, x.0, c) {
            lemma_in_the_way(x.0, y.0, c);
        }
    }
}

// ---------------------------------------------------------------------------------------------
// Two strokes
// ---------------------------------------------------------------------------------------------
/// The box of the points `p` and `q`.
pub open spec fn box_of_two(p: Point, q: Point) -> BBox {
    BBox {
        min_x: p.x.min(p.x).min(q.x),
        min_y: p.y.min(p.y).min(q.y),
        max_x: p.x.max(p.x).max(q.x),
        max_y: p.y.max(p.y).max(q.y),
    }
}

proof fn lemma_two_points(p: Point, q: Point)
    ensures
        crate::stroke::extent(seq![p, q]) == box_of_two(p, q),
{
    let points = seq![p, q];
    assert(points.drop_last() =~= seq![p]);
    assert(seq![p].drop_last() =~= Seq::<Point>::empty());
    reveal_with_fuel(crate::stroke::hull, 3);
}

proof fn lemma_straight_bar(ink: Seq<Seq<Point>>, s: int, p: Point, q: Point, angle: Fn2)
    requires
        ink[s] == seq![p, q],
    ensures
        super::bar(ink, seq![s], angle) == if straight_bar(
            p,
            q,
            angle(q.y.minus(p.y), q.x.minus(p.x).abs()),
        ) {
            Some((box_of_two(p, q), angle(q.y.minus(p.y), q.x.minus(p.x).abs())))
        } else {
            None
        },
{
    lemma_two_points(p, q);
    reveal_with_fuel(super::path_length, 3);
    reveal_with_fuel(super::thickness, 3);
}

/// Two straight strokes by themselves are one symbol if both are bars and they look alike, and two
/// symbols otherwise.
pub proof fn law_two_bars_that_look_alike_are_one_symbol(
    ink: Seq<Seq<Point>>,
    s: int,
    t: int,
    p: Point,
    q: Point,
    u: Point,
    v: Point,
    angle: Fn2,
)
    requires
        ink[s] == seq![p, q],
        ink[t] == seq![u, v],
    ensures
        ({
            let a = angle(q.y.minus(p.y), q.x.minus(p.x).abs());
            let b = angle(v.y.minus(u.y), v.x.minus(u.x).abs());
            super::with_equals(ink, seq![seq![s], seq![t]], 0, angle) == if straight_bar(p, q, a)
                && straight_bar(u, v, b) && alike(box_of_two(p, q), a, box_of_two(u, v), b) {
                seq![seq![s, t]]
            } else {
                seq![seq![s], seq![t]]
            }
        }),
{
    let groups = seq![seq![s], seq![t]];
    lemma_straight_bar(ink, s, p, q, angle);
    lemma_straight_bar(ink, t, u, v, angle);
    reveal_with_fuel(super::with_equals, 3);
    let all = super::with_equals(ink, groups, 0, angle);
    assert(super::pair_at(ink, groups, 1, angle) is None);
    if super::equals_sign(ink, groups, 0, angle) {
        assert(seq![s] + seq![t] =~= seq![s, t]);
        assert(all =~= seq![seq![s, t]]);
    } else {
        assert(all =~= groups);
    }
    let (x, y) = (super::bar(ink, groups[0], angle), super::bar(ink, groups[1], angle));
    if x is Some && y is Some {
        assert forall|k: int| 0 <= k < groups.len() implies !#[trigger] super::crowds(
            ink,
            groups,
            0,
            x->0,
            y->0,
            k,
            angle,
        ) by {}
    }
}

/// Two neighbouring bars that look alike become one symbol, if nothing is in the way and neither has
/// another bar next to it.
pub proof fn law_bars_in_the_open_are_put_together(
    ink: Seq<Seq<Point>>,
    groups: Seq<Seq<int>>,
    i: int,
    angle: Fn2,
)
    requires
        0 <= i && i + 1 < groups.len(),
        super::bar(ink, groups[i], angle) is Some,
        super::bar(ink, groups[i + 1], angle) is Some,
        ({
            let a = super::bar(ink, groups[i], angle)->0;
            let b = super::bar(ink, groups[i + 1], angle)->0;
            &&& alike(a.0, a.1, b.0, b.1)
            &&& halfway(a.0.min_y, a.0.max_y).finite() && halfway(b.0.min_y, b.0.max_y).finite()
            &&& !a.0.min_x.nan() && !a.0.max_x.nan() && !b.0.min_x.nan() && !b.0.max_x.nan()
            &&& forall|k: int|
                0 <= k < groups.len() && k != i && k != i + 1 && super::group_box(
                    ink,
                    #[trigger] groups[k],
                ) is Some ==> {
                    let c = super::group_box(ink, groups[k])->0;
                    &&& is_upper(a.0, b.0) ==> !in_the_way(a.0, b.0, c)
                    &&& !is_upper(a.0, b.0) ==> !in_the_way(b.0, a.0, c)
                }
        }),
        i > 0 ==> super::bar(ink, groups[i - 1], angle) is None,
        i + 2 < groups.len() ==> super::bar(ink, groups[i + 2], angle) is None,
    ensures
        super::with_equals(ink, groups, 0, angle).contains(groups[i] + groups[i + 1]),
{
    let a = super::bar(ink, groups[i], angle)->0;
    let b = super::bar(ink, groups[i + 1], angle)->0;
    lemma_apart_either_way(a.0, b.0);
    crate::float::order::lemma_min_max(a.0.min_x, b.0.min_x);
    crate::float::order::lemma_min_max(a.0.max_x, b.0.max_x);
    crate::float::order::law_comparison_is_a_total_order(a.0.min_x, a.0.min_x, b.0.min_x);
    assert forall|k: int| 0 <= k < groups.len() implies !#[trigger] super::crowds(
        ink,
        groups,
        i,
        a,
        b,
        k,
        angle,
    ) by {
        if k != i && k != i + 1 && super::group_box(ink, groups[k]) is Some {
            let c = super::group_box(ink, groups[k])->0;
            let x = halfway(c.min_x, c.max_x);
            let (l, r) = (a.0.min_x.max(b.0.min_x), a.0.max_x.min(b.0.max_x));
            if super::in_corridor(a.0, b.0, c) {
                crate::float::order::law_comparison_is_a_total_order(a.0.min_x, l, x);
                crate::float::order::law_comparison_is_a_total_order(b.0.min_x, l, x);
                crate::float::order::law_comparison_is_a_total_order(x, r, a.0.max_x);
                crate::float::order::law_comparison_is_a_total_order(x, r, b.0.max_x);
                assert(false);
            }
        }
    }
    assert(super::equals_sign(ink, groups, i, angle));
    lemma_reaches(ink, groups, 0, i, angle);
}

proof fn lemma_reaches(ink: Seq<Seq<Point>>, groups: Seq<Seq<int>>, j: nat, i: int, angle: Fn2)
    requires
        j <= i && i + 1 < groups.len(),
        super::equals_sign(ink, groups, i, angle),
        i > 0 ==> !super::equals_sign(ink, groups, i - 1, angle),
    ensures
        super::with_equals(ink, groups, j, angle).contains(groups[i] + groups[i + 1]),
    decreases i - j,
{
    let all = super::with_equals(ink, groups, j, angle);
    let q = j as int;
    if q == i {
        assert(all[0] == groups[i] + groups[i + 1]);
    } else {
        let pair = super::equals_sign(ink, groups, q, angle);
        let next = if pair {
            j + 2
        } else {
            j + 1
        };
        let head = if pair {
            groups[q] + groups[q + 1]
        } else {
            groups[q]
        };
        lemma_reaches(ink, groups, next, i, angle);
        let tail = super::with_equals(ink, groups, next, angle);
        assert(all =~= seq![head] + tail);
        let k = choose|k: int| 0 <= k < tail.len() && tail[k] == groups[i] + groups[i + 1];
        assert(all[k + 1] == groups[i] + groups[i + 1]);
    }
}

/// The groups that proximity makes hold no stroke twice.
pub proof fn law_no_stroke_is_in_two_clusters(ink: Seq<Seq<Point>>)
    ensures
        disjoint(super::clusters(ink)),
{
    let groups = super::clusters(ink);
    let items = super::live(ink, ink.len());
    let thresh = super::threshold(ink);
    let found = super::gathered(ink, thresh, items, items.len());
    assert forall|a: int, b: int, v: int|
        0 <= a < groups.len() && 0 <= b < groups.len() && #[trigger] groups[a].contains(v)
            && #[trigger] groups[b].contains(v) implies a == b by {
        super::lemma_times_live(ink, ink.len(), v);
        super::lemma_times_gathered(ink, thresh, items, items.len(), v);
        assert(items.take(items.len() as int) =~= items);
        super::lemma_times_sorted(found, super::left_edges(ink, found), found.len(), v);
        assert(found.take(found.len() as int) =~= found);
        assert(groups =~= Seq::new(
            found.len(),
            |i: int| found[crate::sort::ordered(super::left_edges(ink, found), found.len())[i]],
        ));
        if a != b {
            lemma_twice(groups, if a < b {
                a
            } else {
                b
            }, if a < b {
                b
            } else {
                a
            }, v);
        }
    }
}

proof fn lemma_once(s: Seq<int>, v: int)
    requires
        s.contains(v),
    ensures
        super::times_in(s, v) >= 1,
    decreases s.len(),
{
    let k = choose|k: int| 0 <= k < s.len() && s[k] == v;
    if k < s.len() - 1 {
        assert(s.drop_last()[k] == v);
        lemma_once(s.drop_last(), v);
    }
}

proof fn lemma_twice(groups: Seq<Seq<int>>, a: int, b: int, v: int)
    requires
        0 <= a < b < groups.len(),
        groups[a].contains(v) && groups[b].contains(v),
    ensures
        super::times_in_groups(groups, v) >= 2,
    decreases groups.len(),
{
    let rest = groups.drop_last();
    if b < groups.len() - 1 {
        lemma_twice(rest, a, b, v);
    } else {
        lemma_once(groups[b], v);
        lemma_at_least(rest, a, v);
    }
}

proof fn lemma_at_least(groups: Seq<Seq<int>>, a: int, v: int)
    requires
        0 <= a < groups.len(),
        groups[a].contains(v),
    ensures
        super::times_in_groups(groups, v) >= 1,
    decreases groups.len(),
{
    if a < groups.len() - 1 {
        lemma_at_least(groups.drop_last(), a, v);
    } else {
        lemma_once(groups[a], v);
    }
}

// ---------------------------------------------------------------------------------------------
// Three bars
// ---------------------------------------------------------------------------------------------
/// Are the numbers of a bar's box and slant of ordinary size?
pub open spec fn plain_bar(b: (BBox, F32)) -> bool {
    &&& b.0.min_x.finite() && b.0.max_x.finite()
    &&& b.0.max_x.minus(b.0.min_x).finite()
    &&& halfway(b.0.min_y, b.0.max_y).finite()
    &&& b.1.finite()
}

/// It does not matter in which order two bars are compared.
proof fn lemma_alike_either_way(a: (BBox, F32), b: (BBox, F32))
    requires
        plain_bar(a),
        plain_bar(b),
    ensures
        alike(a.0, a.1, b.0, b.1) == alike(b.0, b.1, a.0, a.1),
{
    let wa = a.0.max_x.minus(a.0.min_x);
    let wb = b.0.max_x.minus(b.0.min_x);
    lemma_apart_either_way(a.0, b.0);
    lemma_either_way(wa, wb);
    lemma_either_way(a.0.max_x, b.0.max_x);
    lemma_either_way(a.0.min_x, b.0.min_x);
    lemma_distance_either_way(a.1, b.1);
}

proof fn lemma_either_way(a: F32, b: F32)
    requires
        a.finite(),
        b.finite(),
    ensures
        a.min(b) == b.min(a),
        a.max(b) == b.max(a),
{
    reveal(F32::min_spec);
    reveal(F32::max_spec);
    reveal(F32::lt_spec);
}

proof fn lemma_distance_either_way(p: F32, q: F32)
    requires
        p.finite(),
        q.finite(),
    ensures
        p.minus(q).abs() == q.minus(p).abs(),
{
    reveal(F32::plus_spec);
    reveal(F32::neg_spec);
    reveal(F32::abs_spec);
    crate::float::monotone::lemma_opposite(p);
    crate::float::monotone::lemma_opposite(q);
    let d = p.units() - q.units();
    if d != 0 {
        crate::float::monotone::lemma_nearest(if d > 0 {
            d as nat
        } else {
            (-d) as nat
        }, 1);
    }
}

/// Of three bars by themselves of which each is like the next, the two that are closer become one symbol,
/// and the third is left; of equal distances it is the first two.
pub proof fn law_of_three_bars_the_closest_two_are_put_together(
    ink: Seq<Seq<Point>>,
    s: int,
    t: int,
    u: int,
    angle: Fn2,
)
    requires
        super::bar(ink, seq![s], angle) is Some,
        super::bar(ink, seq![t], angle) is Some,
        super::bar(ink, seq![u], angle) is Some,
        ({
            let a = super::bar(ink, seq![s], angle)->0;
            let b = super::bar(ink, seq![t], angle)->0;
            let c = super::bar(ink, seq![u], angle)->0;
            &&& plain_bar(a) && plain_bar(b) && plain_bar(c)
            &&& alike(a.0, a.1, b.0, b.1) && alike(b.0, b.1, c.0, c.1)
        }),
    ensures
        ({
            let (a, _) = super::bar(ink, seq![s], angle)->0;
            let (b, _) = super::bar(ink, seq![t], angle)->0;
            let (c, _) = super::bar(ink, seq![u], angle)->0;
            super::with_equals(ink, seq![seq![s], seq![t], seq![u]], 0, angle) == if height_apart(
                b,
                c,
            ).lt(height_apart(a, b)) {
                seq![seq![s], seq![t, u]]
            } else {
                seq![seq![s, t], seq![u]]
            }
        }),
{
    let groups = seq![seq![s], seq![t], seq![u]];
    let a = super::bar(ink, seq![s], angle)->0;
    let b = super::bar(ink, seq![t], angle)->0;
    let c = super::bar(ink, seq![u], angle)->0;
    lemma_alike_either_way(a, b);
    assert forall|k: int| 0 <= k < groups.len() implies !#[trigger] super::crowds(
        ink,
        groups,
        0,
        a,
        b,
        k,
        angle,
    ) by {
        if k == 2 {
            assert(super::third_bar(ink, groups, 0, a, b, 2, angle));
        }
    }
    assert forall|k: int| 0 <= k < groups.len() implies !#[trigger] super::crowds(
        ink,
        groups,
        1,
        b,
        c,
        k,
        angle,
    ) by {
        if k == 0 {
            assert(super::third_bar(ink, groups, 1, b, c, 0, angle));
        }
    }
    assert(super::pair_at(ink, groups, 0, angle) == Some(height_apart(a.0, b.0)));
    assert(super::pair_at(ink, groups, 1, angle) == Some(height_apart(b.0, c.0)));
    assert(super::pair_at(ink, groups, 2, angle) is None);
    reveal_with_fuel(super::with_equals, 4);
    let all = super::with_equals(ink, groups, 0, angle);
    if height_apart(b.0, c.0).lt(height_apart(a.0, b.0)) {
        assert(seq![t] + seq![u] =~= seq![t, u]);
        assert(super::with_equals(ink, groups, 1, angle) =~= seq![seq![t, u]]);
        assert(all =~= seq![seq![s], seq![t, u]]);
    } else {
        assert(seq![s] + seq![t] =~= seq![s, t]);
        assert(super::with_equals(ink, groups, 2, angle) =~= seq![seq![u]]);
        assert(all =~= seq![seq![s, t], seq![u]]);
    }
}

} // verus!
