//! How a bag of symbols is read: what a raised or lowered neighbour becomes, when a bar is a
//! fraction, what a radical takes in, and what stays on the line.
use super::{BaseView, Candidate, SltView, SymbolView, TermView, UnitView};
use crate::float::{num, F32};
use crate::stroke::BBox;
use vstd::prelude::*;

verus! {

// ---------------------------------------------------------------------------------------------
// Geometry
// ---------------------------------------------------------------------------------------------
/// The middle of a box, from left to right.
pub open spec fn across(b: BBox) -> F32 {
    b.min_x.plus(b.max_x).times(num(0x3f00_0000))
}

/// The middle of a box, from top to bottom.
pub open spec fn down(b: BBox) -> F32 {
    b.min_y.plus(b.max_y).times(num(0x3f00_0000))
}

/// A quarter of the height of a box, which counts as a millionth at least.
pub open spec fn quarter(b: BBox) -> F32 {
    num(0x3e80_0000).times(b.max_y.minus(b.min_y).max(num(0x3586_37bd)))
}

/// Does the middle of `u` lie above that of `base` by more than a quarter of the base's height? The
/// height of `u` does not matter.
pub open spec fn high(base: BBox, u: BBox) -> bool {
    down(u).minus(down(base)).lt(quarter(base).neg())
}

/// Does the middle of `u` lie below that of `base` by more than a quarter of the base's height?
pub open spec fn low(base: BBox, u: BBox) -> bool {
    quarter(base).lt(down(u).minus(down(base)))
}

/// Can the symbol be a fraction bar: is it labelled as a rule or a minus, or more than two and a half
/// times as wide as tall?
pub open spec fn rule(s: SymbolView) -> bool {
    let h = s.bbox.max_y.minus(s.bbox.min_y);
    ||| s.label == "-"@
    ||| s.label == "\\frac"@
    ||| s.label == "\\hline"@
    ||| s.label == "_"@
    ||| num(0x3586_37bd).lt(h) && num(0x4020_0000).lt(s.bbox.max_x.minus(s.bbox.min_x).over(h))
}

/// Is the symbol a radical sign?
pub open spec fn root(s: SymbolView) -> bool {
    ||| s.label == "\\sqrt"@
    ||| s.label == "\\sqrt{}"@
    ||| s.label == "\\surd"@
    ||| s.label == "\\textsurd"@
    ||| s.label == "\u{221a}"@
    ||| s.label == "sqrt"@
}

/// Does the box hold all of the other?
pub open spec fn encloses(a: BBox, b: BBox) -> bool {
    a.min_x.le(b.min_x) && b.max_x.le(a.max_x) && a.min_y.le(b.min_y) && b.max_y.le(a.max_y)
}

/// Is `s` centered over the width of the bar, without enclosing it?
pub open spec fn beside(bar: SymbolView, s: SymbolView) -> bool {
    &&& s != bar
    &&& !encloses(s.bbox, bar.bbox)
    &&& bar.bbox.min_x.le(across(s.bbox)) && across(s.bbox).le(bar.bbox.max_x)
}

/// Is `s` above the bar?
pub open spec fn above(bar: SymbolView, s: SymbolView) -> bool {
    beside(bar, s) && down(s.bbox).lt(down(bar.bbox))
}

/// Is `s` below the bar?
pub open spec fn below(bar: SymbolView, s: SymbolView) -> bool {
    beside(bar, s) && !down(s.bbox).lt(down(bar.bbox))
}

/// Is `s` centered within the radical's box?
pub open spec fn under(radical: SymbolView, s: SymbolView) -> bool {
    &&& s != radical
    &&& radical.bbox.min_x.le(across(s.bbox)) && across(s.bbox).le(radical.bbox.max_x)
    &&& radical.bbox.min_y.le(down(s.bbox)) && down(s.bbox).le(radical.bbox.max_y)
}

/// Is the symbol a bar with something above and something below it?
pub open spec fn divides(p: Seq<SymbolView>, s: SymbolView) -> bool {
    &&& rule(s)
    &&& exists|t: SymbolView| #[trigger] p.contains(t) && above(s, t)
    &&& exists|t: SymbolView| #[trigger] p.contains(t) && below(s, t)
}

/// Is the symbol a radical with something inside?
pub open spec fn roofs(p: Seq<SymbolView>, s: SymbolView) -> bool {
    root(s) && exists|t: SymbolView| #[trigger] p.contains(t) && under(s, t)
}

/// Is no symbol a fraction bar or a radical with contents, but for `s`?
pub open spec fn only(p: Seq<SymbolView>, s: SymbolView) -> bool {
    forall|t: SymbolView| #[trigger] p.contains(t) && t != s ==> !divides(p, t) && !roofs(p, t)
}

/// Is no symbol a fraction bar or a radical with contents?
pub open spec fn plain(p: Seq<SymbolView>) -> bool {
    forall|t: SymbolView| #[trigger] p.contains(t) ==> !divides(p, t) && !roofs(p, t)
}

/// Do the left edges ascend?
pub open spec fn left_to_right(p: Seq<SymbolView>) -> bool {
    forall|i: int, j: int|
        0 <= i < j < p.len() ==> (#[trigger] p[i]).bbox.min_x.lt((#[trigger] p[j]).bbox.min_x)
}

/// The symbol as a unit of a line.
pub open spec fn unit(s: SymbolView) -> UnitView {
    UnitView { bbox: s.bbox, base: BaseView::Symbol(s.label) }
}

/// The symbols as units of a line.
pub open spec fn units(p: Seq<SymbolView>) -> Seq<UnitView> {
    Seq::new(p.len(), |i: int| unit(p[i]))
}

/// Do the left edges of the units ascend, and are they numbers?
pub open spec fn in_line(line: Seq<UnitView>) -> bool {
    &&& forall|i: int| 0 <= i < line.len() ==> !(#[trigger] line[i]).bbox.min_x.nan()
    &&& forall|i: int, j: int|
        0 <= i < j < line.len() ==> (#[trigger] line[i]).bbox.min_x.lt((#[trigger] line[j]).bbox.min_x)
}

/// The units that are high above the base, in their order.
pub open spec fn high_units(base: BBox, s: Seq<UnitView>) -> Seq<UnitView> {
    s.filter(|u: UnitView| high(base, u.bbox))
}

/// The other units, in their order.
pub open spec fn other_units(base: BBox, s: Seq<UnitView>) -> Seq<UnitView> {
    s.filter(|u: UnitView| !high(base, u.bbox))
}

/// The symbols that are high above the base, in their order.
pub open spec fn high_symbols(base: BBox, s: Seq<SymbolView>) -> Seq<SymbolView> {
    s.filter(|u: SymbolView| high(base, u.bbox))
}

/// The other symbols, in their order.
pub open spec fn other_symbols(base: BBox, s: Seq<SymbolView>) -> Seq<SymbolView> {
    s.filter(|u: SymbolView| !high(base, u.bbox))
}

/// The tree of some terms, if there are any.
pub open spec fn some_terms(terms: Seq<TermView>) -> Option<SltView> {
    if terms.len() == 0 {
        None
    } else {
        Some(SltView { terms })
    }
}

/// The tree of some symbols, if there are any.
pub open spec fn tree_of_some(p: Seq<SymbolView>) -> Option<SltView> {
    if p.len() == 0 {
        None
    } else {
        Some(super::tree(p))
    }
}

// ---------------------------------------------------------------------------------------------
// Composites
// ---------------------------------------------------------------------------------------------
proof fn lemma_geometry(p: Seq<SymbolView>, i: int, k: int)
    requires
        p.no_duplicates(),
        0 <= i < p.len(),
        0 <= k < p.len(),
    ensures
        super::in_fraction(p, i, k) == beside(p[i], p[k]),
        (super::in_fraction(p, i, k) && super::upper(p, i, k)) == above(p[i], p[k]),
        (super::in_fraction(p, i, k) && !super::upper(p, i, k)) == below(p[i], p[k]),
        super::in_radical(p, i, k) == under(p[i], p[k]),
        super::bar_like(p[i]) == rule(p[i]),
        super::radical_label(p[i].label) == root(p[i]),
{
    assert((p[i] == p[k]) == (i == k));
}

/// The symbols above the bar, in their order.
pub open spec fn upper_part(p: Seq<SymbolView>, bar: SymbolView) -> Seq<SymbolView> {
    p.filter(|t: SymbolView| above(bar, t))
}

/// The symbols below the bar, in their order.
pub open spec fn lower_part(p: Seq<SymbolView>, bar: SymbolView) -> Seq<SymbolView> {
    p.filter(|t: SymbolView| below(bar, t))
}

/// The symbols under the radical, in their order.
pub open spec fn inner_part(p: Seq<SymbolView>, radical: SymbolView) -> Seq<SymbolView> {
    p.filter(|t: SymbolView| under(radical, t))
}

/// Does the fraction leave the symbol?
pub open spec fn off_bar(bar: SymbolView, t: SymbolView) -> bool {
    t != bar && !beside(bar, t)
}

/// Does the radical leave the symbol?
pub open spec fn off_radical(radical: SymbolView, t: SymbolView) -> bool {
    t != radical && !under(radical, t)
}

/// The symbols that a fraction leaves, in their order.
pub open spec fn beyond_bar(p: Seq<SymbolView>, bar: SymbolView) -> Seq<SymbolView> {
    p.filter(|t: SymbolView| off_bar(bar, t))
}

/// The symbols that a radical leaves, in their order.
pub open spec fn beyond_radical(p: Seq<SymbolView>, radical: SymbolView) -> Seq<SymbolView> {
    p.filter(|t: SymbolView| off_radical(radical, t))
}

proof fn lemma_filter<A>(p: Seq<A>, f: spec_fn(A) -> bool)
    ensures
        forall|t: A| #[trigger] p.filter(f).contains(t) <==> p.contains(t) && f(t),
        p.filter(f).len() > 0 ==> exists|t: A| #[trigger] p.contains(t) && f(t),
    decreases p.len(),
{
    reveal(Seq::filter);
    if p.len() > 0 {
        let before = p.drop_last();
        lemma_filter(before, f);
        let now = p.filter(f);
        assert forall|t: A| #[trigger] now.contains(t) <==> p.contains(t) && f(t) by {
            if now.contains(t) {
                let k = choose|k: int| 0 <= k < now.len() && now[k] == t;
                if k < before.filter(f).len() {
                    assert(before.filter(f).contains(t));
                    let j = choose|j: int| 0 <= j < before.len() && before[j] == t;
                    assert(p[j] == t);
                } else {
                    assert(p[p.len() - 1] == t);
                }
            }
            if p.contains(t) && f(t) {
                let j = choose|j: int| 0 <= j < p.len() && p[j] == t;
                if j < before.len() {
                    assert(before[j] == t);
                    assert(before.filter(f).contains(t));
                    let k = choose|k: int|
                        0 <= k < before.filter(f).len() && before.filter(f)[k] == t;
                    assert(now[k] == t);
                } else {
                    assert(now[now.len() - 1] == t);
                }
            }
        }
        if now.len() > 0 {
            assert(now.contains(now[0]));
        }
    }
}

/// The parts that a composite takes and leaves, among the first `n` symbols.
proof fn lemma_parts(p: Seq<SymbolView>, i: int, n: nat)
    requires
        p.no_duplicates(),
        0 <= i < p.len(),
        n <= p.len(),
    ensures
        super::picked(p, super::side(p, i, true, n)) == upper_part(p.take(n as int), p[i]),
        super::picked(p, super::side(p, i, false, n)) == lower_part(p.take(n as int), p[i]),
        super::picked(p, super::inside(p, i, n)) == inner_part(p.take(n as int), p[i]),
        super::left_over(p, Candidate { fraction: true, at: i }, n) == beyond_bar(
            p.take(n as int),
            p[i],
        ),
        super::left_over(p, Candidate { fraction: false, at: i }, n) == beyond_radical(
            p.take(n as int),
            p[i],
        ),
    decreases n,
{
    reveal(Seq::filter);
    let first = p.take(n as int);
    if n > 0 {
        let last = n - 1;
        lemma_parts(p, i, last as nat);
        lemma_geometry(p, i, last);
        assert(first.drop_last() =~= p.take(last));
        assert(first.last() == p[last]);
        assert((p[last] == p[i]) == (last == i));
    }
    assert(super::picked(p, super::side(p, i, true, n)) =~= upper_part(first, p[i]));
    assert(super::picked(p, super::side(p, i, false, n)) =~= lower_part(first, p[i]));
    assert(super::picked(p, super::inside(p, i, n)) =~= inner_part(first, p[i]));
    assert(super::left_over(p, Candidate { fraction: true, at: i }, n) =~= beyond_bar(first, p[i]));
    assert(super::left_over(p, Candidate { fraction: false, at: i }, n) =~= beyond_radical(
        first,
        p[i],
    ));
}

/// A composite is a bar with something on both sides, or a radical with something inside.
proof fn lemma_stands(p: Seq<SymbolView>, i: int)
    requires
        p.no_duplicates(),
        0 <= i < p.len(),
    ensures
        super::bag::stands(p, Candidate { fraction: true, at: i }) == divides(p, p[i]),
        super::bag::stands(p, Candidate { fraction: false, at: i }) == roofs(p, p[i]),
{
    let n = p.len();
    let s = p[i];
    lemma_parts(p, i, n);
    lemma_geometry(p, i, i);
    assert(p.take(n as int) =~= p);
    lemma_filter(p, |t: SymbolView| above(s, t));
    lemma_filter(p, |t: SymbolView| below(s, t));
    lemma_filter(p, |t: SymbolView| under(s, t));
    let (a, b, c) = (upper_part(p, s), lower_part(p, s), inner_part(p, s));
    assert(a.len() == super::side(p, i, true, n).len());
    assert(b.len() == super::side(p, i, false, n).len());
    assert(c.len() == super::inside(p, i, n).len());
    if divides(p, s) {
        let t = choose|t: SymbolView| #[trigger] p.contains(t) && above(s, t);
        let u = choose|t: SymbolView| #[trigger] p.contains(t) && below(s, t);
        assert(a.contains(t) && b.contains(u));
    }
    if roofs(p, s) {
        let t = choose|t: SymbolView| #[trigger] p.contains(t) && under(s, t);
        assert(c.contains(t));
    }
}

/// Is this the composite that takes up the largest area, or is there none?
spec fn leads(p: Seq<SymbolView>, best: Option<Candidate>) -> bool {
    match best {
        None => forall|c: Candidate| !#[trigger] super::bag::stands(p, c),
        Some(d) => {
            &&& super::bag::stands(p, d)
            &&& forall|c: Candidate| #[trigger]
                super::bag::stands(p, c) && c != d ==> super::bag::area_of(p, c).lt(
                    super::bag::area_of(p, d),
                )
        },
    }
}

proof fn lemma_best_fraction(p: Seq<SymbolView>, best: Option<Candidate>, n: nat)
    requires
        leads(p, best),
        n <= p.len(),
    ensures
        best is Some && best->0.fraction && best->0.at < n ==> super::best_fraction(p, n) == best,
        super::best_fraction(p, n) is Some ==> super::bag::stands(p, super::best_fraction(p, n)->0)
            && super::best_fraction(p, n)->0.fraction && super::best_fraction(p, n)->0.at < n,
    decreases n,
{
    if n > 0 {
        let c = Candidate { fraction: true, at: n - 1 };
        lemma_best_fraction(p, best, (n - 1) as nat);
        let before = super::best_fraction(p, (n - 1) as nat);
        assert(super::bag::stands(p, c) == super::is_composite(p, c));
        reveal(F32::lt_spec);
    }
}

proof fn lemma_best(p: Seq<SymbolView>, best: Option<Candidate>, n: nat)
    requires
        leads(p, best),
        n <= p.len(),
    ensures
        best is Some && (best->0.fraction || best->0.at < n) ==> super::best_of(p, n) == best,
        super::best_of(p, n) is Some ==> super::bag::stands(p, super::best_of(p, n)->0) && (
        super::best_of(p, n)->0.fraction || super::best_of(p, n)->0.at < n),
    decreases n,
{
    if n > 0 {
        let c = Candidate { fraction: false, at: n - 1 };
        lemma_best(p, best, (n - 1) as nat);
        assert(super::bag::stands(p, c) == super::is_composite(p, c));
        reveal(F32::lt_spec);
    } else {
        lemma_best_fraction(p, best, p.len());
    }
}

proof fn lemma_leads(p: Seq<SymbolView>, best: Option<Candidate>)
    requires
        leads(p, best),
    ensures
        super::outermost(p) == best,
{
    lemma_best(p, best, p.len());
}

/// Symbols without a composite are units as they are.
proof fn lemma_plain(p: Seq<SymbolView>)
    requires
        p.no_duplicates(),
        plain(p),
    ensures
        super::units_of(p) == units(p),
        super::tree(p).terms == super::run(units(p)),
{
    assert forall|c: Candidate| !#[trigger] super::bag::stands(p, c) by {
        if 0 <= c.at < p.len() {
            lemma_stands(p, c.at);
            assert(p.contains(p[c.at]));
            if c.fraction {
                assert(c == (Candidate { fraction: true, at: c.at }));
            } else {
                assert(c == (Candidate { fraction: false, at: c.at }));
            }
        }
    }
    lemma_leads(p, None);
    assert(super::units_of(p) =~= units(p));
}

/// What holds some of the symbols is plain too.
proof fn lemma_plain_part(p: Seq<SymbolView>, q: Seq<SymbolView>)
    requires
        plain(p),
        forall|t: SymbolView| #[trigger] q.contains(t) ==> p.contains(t),
    ensures
        plain(q),
{
    assert forall|t: SymbolView| #[trigger] q.contains(t) implies !divides(q, t) && !roofs(q, t) by {
        assert(p.contains(t));
        if divides(q, t) {
            let u = choose|u: SymbolView| #[trigger] q.contains(u) && above(t, u);
            let v = choose|u: SymbolView| #[trigger] q.contains(u) && below(t, u);
            assert(p.contains(u) && p.contains(v));
        }
        if roofs(q, t) {
            let u = choose|u: SymbolView| #[trigger] q.contains(u) && under(t, u);
            assert(p.contains(u));
        }
    }
}

// ---------------------------------------------------------------------------------------------
// Lines
// ---------------------------------------------------------------------------------------------
/// Units in a line are in their order already.
proof fn lemma_in_line(line: Seq<UnitView>)
    requires
        in_line(line),
    ensures
        super::by_left_edge(line) == line,
{
    assert(super::bag::apart(line)) by {
        reveal(F32::lt_spec);
        reveal(F32::same_spec);
    }
    assert(super::bag::ascends(line));
    super::bag::lemma_left_to_right(line);
    super::bag::lemma_ascending_unique(super::by_left_edge(line), line);
}

proof fn lemma_scripts_end(b: UnitView, s: Seq<UnitView>, r: Seq<UnitView>, j: nat)
    requires
        forall|i: int|
            0 <= i < s.len() ==> high(b.bbox, (#[trigger] s[i]).bbox) || low(b.bbox, s[i].bbox),
        r.len() > 0 ==> !high(b.bbox, r[0].bbox) && !low(b.bbox, r[0].bbox),
        1 <= j <= 1 + s.len(),
    ensures
        super::scripts_end(seq![b] + s + r, j) == 1 + s.len(),
    decreases 1 + s.len() - j,
{
    let p = seq![b] + s + r;
    if j < 1 + s.len() {
        lemma_scripts_end(b, s, r, j + 1);
        assert(p[j as int] == s[j - 1]);
    } else if r.len() > 0 {
        assert(p[j as int] == r[0]);
    }
}

proof fn lemma_scripts(b: UnitView, s: Seq<UnitView>, r: Seq<UnitView>, j: nat)
    requires
        1 <= j <= 1 + s.len(),
    ensures
        super::scripts(seq![b] + s + r, true, j) == high_units(b.bbox, s.take(j - 1)),
        super::scripts(seq![b] + s + r, false, j) == other_units(b.bbox, s.take(j - 1)),
    decreases j,
{
    reveal(Seq::filter);
    let p = seq![b] + s + r;
    let first = s.take(j - 1);
    if j > 1 {
        lemma_scripts(b, s, r, (j - 1) as nat);
        assert(p[j - 1] == s[j - 2]);
        assert(first.drop_last() =~= s.take(j - 2));
        assert(first.last() == s[j - 2]);
    }
    assert(super::scripts(p, true, j) =~= high_units(b.bbox, first));
    assert(super::scripts(p, false, j) =~= other_units(b.bbox, first));
}

/// A line is read from left to right. Its first unit is a base, which takes the units right behind it
/// that lie high above or low below its middle: the high ones are read as its superscript, the low
/// ones as its subscript. The rest, from the first unit at the height of the base on, goes on as a
/// line of its own.
pub proof fn law_a_base_takes_the_scripts_behind_it(
    b: UnitView,
    s: Seq<UnitView>,
    r: Seq<UnitView>,
)
    requires
        in_line(seq![b] + s + r),
        forall|i: int|
            0 <= i < s.len() ==> high(b.bbox, (#[trigger] s[i]).bbox) || low(b.bbox, s[i].bbox),
        r.len() > 0 ==> !high(b.bbox, r[0].bbox) && !low(b.bbox, r[0].bbox),
    ensures
        super::run(seq![b] + s + r) == seq![
            TermView {
                base: b.base,
                sup: some_terms(super::run(high_units(b.bbox, s))),
                sub: some_terms(super::run(other_units(b.bbox, s))),
            },
        ] + super::run(r),
{
    let p = seq![b] + s + r;
    let end = 1 + s.len();
    lemma_in_line(p);
    lemma_scripts_end(b, s, r, 1);
    lemma_scripts(b, s, r, end);
    assert(s.take(s.len() as int) =~= s);
    assert(p.skip(end as int) =~= r);
    assert forall|i: int| 0 <= i < r.len() implies !(#[trigger] r[i]).bbox.min_x.nan() by {
        assert(p[end + i] == r[i]);
    }
    assert forall|i: int, j: int| 0 <= i < j < r.len() implies (#[trigger] r[i]).bbox.min_x.lt(
        (#[trigger] r[j]).bbox.min_x,
    ) by {
        assert(p[end + i] == r[i] && p[end + j] == r[j]);
    }
    lemma_in_line(r);
    assert(p[0] == b);
}

proof fn lemma_units_filter(base: BBox, s: Seq<SymbolView>)
    ensures
        units(high_symbols(base, s)) == high_units(base, units(s)),
        units(other_symbols(base, s)) == other_units(base, units(s)),
    decreases s.len(),
{
    reveal(Seq::filter);
    if s.len() > 0 {
        lemma_units_filter(base, s.drop_last());
        assert(units(s).drop_last() =~= units(s.drop_last()));
        assert(units(s).last() == unit(s.last()));
    }
    assert(units(high_symbols(base, s)) =~= high_units(base, units(s)));
    assert(units(other_symbols(base, s)) =~= other_units(base, units(s)));
}

proof fn lemma_filter_distinct<A>(p: Seq<A>, f: spec_fn(A) -> bool)
    requires
        p.no_duplicates(),
    ensures
        p.filter(f).no_duplicates(),
    decreases p.len(),
{
    reveal(Seq::filter);
    if p.len() > 0 {
        let before = p.drop_last();
        lemma_filter_distinct(before, f);
        lemma_filter(before, f);
        let part = before.filter(f);
        let now = p.filter(f);
        let last = p.len() - 1;
        assert forall|i: int, j: int|
            0 <= i < now.len() && 0 <= j < now.len() && i != j implies now[i] != now[j] by {
            if f(p[last]) {
                let k = if i == part.len() {
                    j
                } else {
                    i
                };
                if i == part.len() || j == part.len() {
                    assert(part.contains(part[k]));
                    assert(before.contains(part[k]));
                    let m = choose|m: int| 0 <= m < before.len() && before[m] == part[k];
                    assert(p[m] != p[last]);
                }
            }
        }
    }
}

/// The terms of a tree are there, if there are symbols.
proof fn lemma_some(p: Seq<SymbolView>)
    requires
        p.no_duplicates(),
        plain(p),
    ensures
        some_terms(super::run(units(p))) == tree_of_some(p),
{
    lemma_plain(p);
    if p.len() == 0 {
        assert(super::by_left_edge(units(p)) =~= Seq::<UnitView>::empty());
    } else {
        let line = super::by_left_edge(units(p));
        let end = super::scripts_end(line, 1);
        assert(super::run_from(line).len() > 0);
    }
}

/// Symbols that form no fraction and no radical are read as a line: the first is a base, the high
/// ones right behind it are read as its superscript and the low ones as its subscript, each as an
/// expression of its own, and so is the rest, from the first symbol at the height of the base on.
pub proof fn law_neighbours_are_read_as_scripts(
    b: SymbolView,
    s: Seq<SymbolView>,
    r: Seq<SymbolView>,
)
    requires
        left_to_right(seq![b] + s + r),
        super::bag::spread(seq![b] + s + r),
        plain(seq![b] + s + r),
        forall|i: int|
            0 <= i < s.len() ==> high(b.bbox, (#[trigger] s[i]).bbox) || low(b.bbox, s[i].bbox),
        r.len() > 0 ==> !high(b.bbox, r[0].bbox) && !low(b.bbox, r[0].bbox),
    ensures
        super::tree(seq![b] + s + r).terms == seq![
            TermView {
                base: BaseView::Symbol(b.label),
                sup: tree_of_some(high_symbols(b.bbox, s)),
                sub: tree_of_some(other_symbols(b.bbox, s)),
            },
        ] + super::tree(r).terms,
{
    let p = seq![b] + s + r;
    super::bag::lemma_spread_distinct(p);
    lemma_plain(p);
    let line = units(p);
    assert(line =~= seq![unit(b)] + units(s) + units(r));
    assert forall|i: int| 0 <= i < line.len() implies !(#[trigger] line[i]).bbox.min_x.nan() by {
        assert(super::bag::plain_box(p[i].bbox));
    }
    assert forall|i: int, j: int| 0 <= i < j < line.len() implies (#[trigger] line[i]).bbox.min_x.lt(
        (#[trigger] line[j]).bbox.min_x,
    ) by {
        assert(p[i].bbox.min_x.lt(p[j].bbox.min_x));
    }
    assert forall|i: int| 0 <= i < units(s).len() implies high(
        b.bbox,
        (#[trigger] units(s)[i]).bbox,
    ) || low(b.bbox, units(s)[i].bbox) by {
        assert(units(s)[i].bbox == s[i].bbox);
    }
    law_a_base_takes_the_scripts_behind_it(unit(b), units(s), units(r));
    lemma_units_filter(b.bbox, s);
    assert(s.no_duplicates()) by {
        assert forall|i: int, j: int| 0 <= i < s.len() && 0 <= j < s.len() && i != j implies s[i]
            != s[j] by {
            assert(p[i + 1] == s[i] && p[j + 1] == s[j]);
        }
    }
    assert(r.no_duplicates()) by {
        let n = 1 + s.len();
        assert forall|i: int, j: int| 0 <= i < r.len() && 0 <= j < r.len() && i != j implies r[i]
            != r[j] by {
            assert(p[n + i] == r[i] && p[n + j] == r[j]);
        }
    }
    let f = |u: SymbolView| high(b.bbox, u.bbox);
    let g = |u: SymbolView| !high(b.bbox, u.bbox);
    lemma_filter(s, f);
    lemma_filter(s, g);
    lemma_filter_distinct(s, f);
    lemma_filter_distinct(s, g);
    assert forall|t: SymbolView| #[trigger] s.contains(t) implies p.contains(t) by {
        let k = choose|k: int| 0 <= k < s.len() && s[k] == t;
        assert(p[k + 1] == t);
    }
    assert forall|t: SymbolView| #[trigger] r.contains(t) implies p.contains(t) by {
        let k = choose|k: int| 0 <= k < r.len() && r[k] == t;
        assert(p[1 + s.len() + k] == t);
    }
    lemma_plain_part(p, high_symbols(b.bbox, s));
    lemma_plain_part(p, other_symbols(b.bbox, s));
    lemma_plain_part(p, r);
    lemma_some(high_symbols(b.bbox, s));
    lemma_some(other_symbols(b.bbox, s));
    lemma_plain(r);
}

/// The term of a symbol without scripts.
pub open spec fn bare(s: SymbolView) -> TermView {
    TermView { base: BaseView::Symbol(s.label), sup: None, sub: None }
}

/// One symbol is read as it is.
pub proof fn law_one_symbol_is_one_term(s: SymbolView)
    requires
        super::bag::plain_box(s.bbox),
    ensures
        super::tree(seq![s]) == (SltView { terms: seq![bare(s)] }),
{
    let p = seq![s];
    let none = Seq::<SymbolView>::empty();
    assert(seq![s] + none + none =~= p);
    assert forall|t: SymbolView| #[trigger] p.contains(t) implies !divides(p, t) && !roofs(p, t) by {
        assert(t == s);
        if divides(p, t) {
            let u = choose|u: SymbolView| #[trigger] p.contains(u) && above(t, u);
            assert(u == s);
        }
        if roofs(p, t) {
            let u = choose|u: SymbolView| #[trigger] p.contains(u) && under(t, u);
            assert(u == s);
        }
    }
    law_neighbours_are_read_as_scripts(s, none, none);
    reveal(Seq::filter);
    lemma_plain(none);
    assert(super::by_left_edge(units(none)) =~= Seq::<UnitView>::empty());
    assert(super::tree(p).terms =~= seq![bare(s)]);
}

/// Two symbols of which neither is a radical around the other: the right one is a superscript of the
/// left one if its middle is higher by more than a quarter of the left one's height, a subscript if
/// it is lower by more than that, and else the next term. Its own height does not matter.
pub proof fn law_two_symbols(b: SymbolView, u: SymbolView)
    requires
        super::bag::plain_box(b.bbox) && super::bag::plain_box(u.bbox),
        b.bbox.min_x.lt(u.bbox.min_x),
        !(root(b) && under(b, u)) && !(root(u) && under(u, b)),
    ensures
        super::tree(seq![b, u]) == (SltView {
            terms: if high(b.bbox, u.bbox) {
                seq![
                    TermView {
                        sup: Some(SltView { terms: seq![bare(u)] }),
                        ..bare(b)
                    },
                ]
            } else if low(b.bbox, u.bbox) {
                seq![
                    TermView {
                        sub: Some(SltView { terms: seq![bare(u)] }),
                        ..bare(b)
                    },
                ]
            } else {
                seq![bare(b), bare(u)]
            },
        }),
{
    let p = seq![b, u];
    let none = Seq::<SymbolView>::empty();
    reveal(F32::lt_spec);
    reveal(F32::same_spec);
    assert(super::bag::spread(p));
    assert forall|t: SymbolView| #[trigger] p.contains(t) implies !divides(p, t) && !roofs(p, t) by {
        if divides(p, t) {
            let x = choose|x: SymbolView| #[trigger] p.contains(x) && above(t, x);
            let y = choose|x: SymbolView| #[trigger] p.contains(x) && below(t, x);
            assert(x != t && y != t && x != y);
        }
        if roofs(p, t) {
            let x = choose|x: SymbolView| #[trigger] p.contains(x) && under(t, x);
            assert(x != t);
        }
    }
    reveal_with_fuel(Seq::filter, 2);
    lemma_plain(none);
    assert(super::by_left_edge(units(none)) =~= Seq::<UnitView>::empty());
    law_one_symbol_is_one_term(u);
    if high(b.bbox, u.bbox) || low(b.bbox, u.bbox) {
        assert(seq![b] + seq![u] + none =~= p);
        law_neighbours_are_read_as_scripts(b, seq![u], none);
        assert(seq![u].drop_last() =~= none);
        if high(b.bbox, u.bbox) {
            assert(high_symbols(b.bbox, seq![u]) =~= seq![u]);
            assert(other_symbols(b.bbox, seq![u]) =~= none);
        } else {
            assert(high_symbols(b.bbox, seq![u]) =~= none);
            assert(other_symbols(b.bbox, seq![u]) =~= seq![u]);
        }
    } else {
        assert(seq![b] + none + seq![u] =~= p);
        law_neighbours_are_read_as_scripts(b, none, seq![u]);
        assert(high_symbols(b.bbox, none) =~= none);
        assert(other_symbols(b.bbox, none) =~= none);
        assert(super::tree(p).terms =~= seq![bare(b), bare(u)]);
    }
}

// ---------------------------------------------------------------------------------------------
// Fractions and radicals
// ---------------------------------------------------------------------------------------------
/// Is `s` the bar, or one of the symbols above and below it?
pub open spec fn of_bar(p: Seq<SymbolView>, bar: SymbolView, s: SymbolView) -> bool {
    s == bar || (p.contains(s) && beside(bar, s))
}

/// Is this the smallest box around a bar and the symbols above and below it?
pub open spec fn frames(p: Seq<SymbolView>, bar: SymbolView, x: BBox) -> bool {
    &&& forall|s: SymbolView| #[trigger] of_bar(p, bar, s) ==> encloses(x, s.bbox)
    &&& exists|s: SymbolView| #[trigger] of_bar(p, bar, s) && s.bbox.min_x == x.min_x
    &&& exists|s: SymbolView| #[trigger] of_bar(p, bar, s) && s.bbox.min_y == x.min_y
    &&& exists|s: SymbolView| #[trigger] of_bar(p, bar, s) && s.bbox.max_x == x.max_x
    &&& exists|s: SymbolView| #[trigger] of_bar(p, bar, s) && s.bbox.max_y == x.max_y
}

proof fn lemma_frames(p: Seq<SymbolView>, i: int)
    requires
        super::bag::spread(p),
        0 <= i < p.len(),
    ensures
        frames(p, p[i], super::fraction_box(p, i, p.len())),
{
    let bar = p[i];
    let x = super::fraction_box(p, i, p.len());
    super::bag::lemma_fraction_box(p, i, p.len());
    assert(p.take(p.len() as int) =~= p);
    assert forall|s: SymbolView| #[trigger] of_bar(p, bar, s) == super::bag::covers(p, bar, s) by {}
    assert forall|s: SymbolView| #[trigger] of_bar(p, bar, s) implies encloses(x, s.bbox) by {
        assert(super::bag::covers(p, bar, s));
        assert(p.contains(bar));
        let k = if s == bar {
            i
        } else {
            choose|k: int| 0 <= k < p.len() && p[k] == s
        };
        assert(super::bag::plain_box(p[k].bbox));
        reveal(F32::le_spec);
    }
    let a = choose|s: SymbolView| #[trigger] super::bag::covers(p, bar, s) && s.bbox.min_x == x.min_x;
    let b = choose|s: SymbolView| #[trigger] super::bag::covers(p, bar, s) && s.bbox.min_y == x.min_y;
    let c = choose|s: SymbolView| #[trigger] super::bag::covers(p, bar, s) && s.bbox.max_x == x.max_x;
    let d = choose|s: SymbolView| #[trigger] super::bag::covers(p, bar, s) && s.bbox.max_y == x.max_y;
    assert(of_bar(p, bar, a) && of_bar(p, bar, b) && of_bar(p, bar, c) && of_bar(p, bar, d));
}

/// The unit of a fraction: as large as the bar with all that is above and below it, with what is
/// above as its numerator and what is below as its denominator.
pub open spec fn fraction_unit(p: Seq<SymbolView>, bar: SymbolView, x: BBox) -> UnitView {
    UnitView {
        bbox: x,
        base: BaseView::Frac {
            num: super::tree(upper_part(p, bar)),
            den: super::tree(lower_part(p, bar)),
        },
    }
}

/// The unit of a radical: as large as the radical sign, with what is under it as its radicand.
pub open spec fn radical_unit(p: Seq<SymbolView>, radical: SymbolView) -> UnitView {
    UnitView { bbox: radical.bbox, base: BaseView::Sqrt(super::tree(inner_part(p, radical))) }
}

/// Does this composite take up a larger area than any other?
pub open spec fn outgrows(p: Seq<SymbolView>, c: Candidate) -> bool {
    forall|d: Candidate| #[trigger]
        super::bag::stands(p, d) && d != c ==> super::bag::area_of(p, d).lt(
            super::bag::area_of(p, c),
        )
}

/// Of several fractions and radicals the largest is read first: what is above its bar is read as the
/// numerator and what is below as the denominator, by themselves; it then stands in the line as one
/// unit, in the smallest box around it, beside what it leaves.
pub proof fn law_the_largest_fraction_is_read_first(p: Seq<SymbolView>, i: int) -> (x: BBox)
    requires
        super::bag::spread(p),
        0 <= i < p.len(),
        divides(p, p[i]),
        outgrows(p, Candidate { fraction: true, at: i }),
    ensures
        frames(p, p[i], x),
        super::tree(p).terms == super::run(
            seq![fraction_unit(p, p[i], x)] + super::units_of(beyond_bar(p, p[i])),
        ),
{
    let c = Candidate { fraction: true, at: i };
    super::bag::lemma_spread_distinct(p);
    lemma_stands(p, i);
    lemma_leads(p, Some(c));
    lemma_parts(p, i, p.len());
    assert(p.take(p.len() as int) =~= p);
    lemma_frames(p, i);
    let x = super::fraction_box(p, i, p.len());
    assert(super::composite_unit(p, c) =~= fraction_unit(p, p[i], x));
    x
}

/// The same for a radical, which takes in what is centered within it.
pub proof fn law_the_largest_radical_is_read_first(p: Seq<SymbolView>, i: int)
    requires
        super::bag::spread(p),
        0 <= i < p.len(),
        roofs(p, p[i]),
        outgrows(p, Candidate { fraction: false, at: i }),
    ensures
        super::tree(p).terms == super::run(
            seq![radical_unit(p, p[i])] + super::units_of(beyond_radical(p, p[i])),
        ),
{
    let c = Candidate { fraction: false, at: i };
    super::bag::lemma_spread_distinct(p);
    lemma_stands(p, i);
    lemma_leads(p, Some(c));
    lemma_parts(p, i, p.len());
    assert(p.take(p.len() as int) =~= p);
    assert(super::composite_unit(p, c) =~= radical_unit(p, p[i]));
}

/// Where there is no other composite, this one outgrows all others, and leaves plain symbols.
proof fn lemma_only(p: Seq<SymbolView>, i: int, c: Candidate)
    requires
        p.no_duplicates(),
        0 <= i < p.len(),
        c.at == i,
        only(p, p[i]),
        c.fraction ==> !roofs(p, p[i]),
        !c.fraction ==> !divides(p, p[i]),
    ensures
        outgrows(p, c),
        c.fraction ==> super::units_of(beyond_bar(p, p[i])) == units(beyond_bar(p, p[i])),
        !c.fraction ==> super::units_of(beyond_radical(p, p[i])) == units(beyond_radical(p, p[i])),
{
    assert forall|d: Candidate| #[trigger] super::bag::stands(p, d) implies d == c by {
        lemma_stands(p, d.at);
        assert(p.contains(p[d.at]));
        if d.fraction {
            assert(d == (Candidate { fraction: true, at: d.at }));
        } else {
            assert(d == (Candidate { fraction: false, at: d.at }));
        }
    }
    let s = p[i];
    let q = if c.fraction {
        beyond_bar(p, s)
    } else {
        beyond_radical(p, s)
    };
    lemma_filter(p, |t: SymbolView| off_bar(s, t));
    lemma_filter_distinct(p, |t: SymbolView| off_bar(s, t));
    lemma_filter(p, |t: SymbolView| off_radical(s, t));
    lemma_filter_distinct(p, |t: SymbolView| off_radical(s, t));
    assert forall|t: SymbolView| #[trigger] q.contains(t) implies p.contains(t) && t != s by {
        if c.fraction {
            assert(beyond_bar(p, s).contains(t));
        } else {
            assert(beyond_radical(p, s).contains(t));
        }
    }
    assert forall|t: SymbolView| #[trigger] q.contains(t) implies !divides(q, t) && !roofs(q, t) by {
        assert(p.contains(t) && t != s);
        if divides(q, t) {
            let u = choose|u: SymbolView| #[trigger] q.contains(u) && above(t, u);
            let v = choose|u: SymbolView| #[trigger] q.contains(u) && below(t, u);
            assert(p.contains(u) && p.contains(v));
        }
        if roofs(q, t) {
            let u = choose|u: SymbolView| #[trigger] q.contains(u) && under(t, u);
            assert(p.contains(u));
        }
    }
    lemma_plain(q);
}

/// A bar with symbols above and below it is a fraction: what is above is read as the numerator and
/// what is below as the denominator, by themselves. It stands in the line as one unit, in the
/// smallest box around it.
pub proof fn law_a_bar_between_symbols_is_a_fraction(p: Seq<SymbolView>, i: int) -> (x: BBox)
    requires
        super::bag::spread(p),
        0 <= i < p.len(),
        divides(p, p[i]),
        !roofs(p, p[i]),
        only(p, p[i]),
    ensures
        frames(p, p[i], x),
        super::tree(p).terms == super::run(
            seq![fraction_unit(p, p[i], x)] + units(beyond_bar(p, p[i])),
        ),
        beyond_bar(p, p[i]).len() == 0 ==> super::tree(p).terms == seq![
            TermView { base: fraction_unit(p, p[i], x).base, sup: None, sub: None },
        ],
{
    super::bag::lemma_spread_distinct(p);
    lemma_only(p, i, Candidate { fraction: true, at: i });
    let x = law_the_largest_fraction_is_read_first(p, i);
    if beyond_bar(p, p[i]).len() == 0 {
        let u = fraction_unit(p, p[i], x);
        assert(!x.min_x.nan()) by {
            assert(of_bar(p, p[i], p[i]));
            reveal(F32::le_spec);
        }
        lemma_unit_alone(u);
        assert(seq![u] + units(beyond_bar(p, p[i])) =~= seq![u]);
    }
    x
}

/// A radical with symbols centered within it takes them in: they are read as its radicand, by
/// themselves. It stands in the line as one unit, in its own box.
pub proof fn law_a_radical_takes_in_what_is_under_it(p: Seq<SymbolView>, i: int)
    requires
        super::bag::spread(p),
        0 <= i < p.len(),
        roofs(p, p[i]),
        !divides(p, p[i]),
        only(p, p[i]),
    ensures
        super::tree(p).terms == super::run(
            seq![radical_unit(p, p[i])] + units(beyond_radical(p, p[i])),
        ),
        beyond_radical(p, p[i]).len() == 0 ==> super::tree(p).terms == seq![
            TermView { base: radical_unit(p, p[i]).base, sup: None, sub: None },
        ],
{
    super::bag::lemma_spread_distinct(p);
    lemma_only(p, i, Candidate { fraction: false, at: i });
    law_the_largest_radical_is_read_first(p, i);
    if beyond_radical(p, p[i]).len() == 0 {
        let u = radical_unit(p, p[i]);
        assert(super::bag::plain_box(p[i].bbox));
        lemma_unit_alone(u);
        assert(seq![u] + units(beyond_radical(p, p[i])) =~= seq![u]);
    }
}

proof fn lemma_unit_alone(u: UnitView)
    requires
        !u.bbox.min_x.nan(),
    ensures
        super::run(seq![u]) == seq![TermView { base: u.base, sup: None, sub: None }],
{
    let none = Seq::<UnitView>::empty();
    assert(seq![u] + none + none =~= seq![u]);
    law_a_base_takes_the_scripts_behind_it(u, none, none);
    reveal(Seq::filter);
    assert(super::by_left_edge(none) =~= none);
    assert(super::run(seq![u]) =~= seq![TermView { base: u.base, sup: None, sub: None }]);
}

/// Symbols of which each is at the height of the one before it stay on the line, in their order from
/// left to right.
pub proof fn law_symbols_at_one_height_stay_on_the_line(p: Seq<SymbolView>)
    requires
        left_to_right(p),
        super::bag::spread(p),
        plain(p),
        forall|i: int|
            0 < i < p.len() ==> !high(p[i - 1].bbox, (#[trigger] p[i]).bbox) && !low(
                p[i - 1].bbox,
                p[i].bbox,
            ),
    ensures
        super::tree(p).terms == Seq::new(p.len(), |i: int| bare(p[i])),
    decreases p.len(),
{
    let none = Seq::<SymbolView>::empty();
    let want = Seq::new(p.len(), |i: int| bare(p[i]));
    if p.len() == 0 {
        assert(p =~= none);
        lemma_plain(p);
        assert(super::by_left_edge(units(p)) =~= Seq::<UnitView>::empty());
        assert(super::tree(p).terms =~= want);
    } else {
        let r = p.skip(1);
        assert(seq![p[0]] + none + r =~= p);
        assert(r.len() > 0 ==> r[0] == p[1]);
        law_neighbours_are_read_as_scripts(p[0], none, r);
        reveal(Seq::filter);
        assert forall|i: int, j: int| 0 <= i < j < r.len() implies (#[trigger] r[i]).bbox.min_x.lt(
            (#[trigger] r[j]).bbox.min_x,
        ) by {
            assert(p[i + 1].bbox.min_x.lt(p[j + 1].bbox.min_x));
        }
        assert(super::bag::spread(r)) by {
            assert forall|i: int| 0 <= i < r.len() implies super::bag::plain_box(
                (#[trigger] r[i]).bbox,
            ) by {
                assert(r[i] == p[i + 1]);
            }
            assert forall|i: int, j: int| 0 <= i < j < r.len() implies !(
            #[trigger] r[i]).bbox.min_x.same((#[trigger] r[j]).bbox.min_x) by {
                assert(r[i] == p[i + 1] && r[j] == p[j + 1]);
            }
        }
        assert forall|t: SymbolView| #[trigger] r.contains(t) implies p.contains(t) by {
            let k = choose|k: int| 0 <= k < r.len() && r[k] == t;
            assert(p[k + 1] == t);
        }
        lemma_plain_part(p, r);
        assert forall|i: int| 0 < i < r.len() implies !high(r[i - 1].bbox, (#[trigger] r[i]).bbox)
            && !low(r[i - 1].bbox, r[i].bbox) by {
            assert(r[i] == p[i + 1] && r[i - 1] == p[i]);
        }
        law_symbols_at_one_height_stay_on_the_line(r);
        assert(super::tree(p).terms =~= want);
    }
}

} // verus!
