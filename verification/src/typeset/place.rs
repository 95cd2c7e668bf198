//! Where things stand on the page: a fraction's parts above and below its bar, a radicand under the
//! bar of its radical, scripts at the upper and the lower right of their base, and the terms of a
//! run side by side on one baseline.
use super::{ItemView, LBoxView};
use crate::float::{num, F32};
use crate::glyphs::RawGlyphView;
use crate::structure::{BaseView, SltView, TermView};
use vstd::prelude::*;

verus! {

/// Is `b` the drawable `a`, moved by `(dx, dy)` and otherwise as it was?
pub open spec fn moved_by(a: ItemView, b: ItemView, dx: int, dy: int) -> bool {
    match (a, b) {
        (
            ItemView::Text { x, y, size, s },
            ItemView::Text { x: x2, y: y2, size: size2, s: s2 },
        ) => x2 == x + dx && y2 == y + dy && size2 == size && s2 == s,
        (
            ItemView::Line { x1, y1, x2, y2, stroke },
            ItemView::Line { x1: u1, y1: v1, x2: u2, y2: v2, stroke: stroke2 },
        ) => u1 == x1 + dx && v1 == y1 + dy && u2 == x2 + dx && v2 == y2 + dy && stroke2 == stroke,
        _ => false,
    }
}

/// Does the whole hold the part's drawables from index `from` on, moved by `(dx, dy)`?
pub open spec fn holds(part: LBoxView, whole: LBoxView, from: int, dx: int, dy: int) -> bool {
    &&& 0 <= from && from + part.items.len() <= whole.items.len()
    &&& forall|i: int|
        #![trigger part.items[i]]
        0 <= i < part.items.len() ==> moved_by(part.items[i], whole.items[from + i], dx, dy)
}

/// Is the item the line from `(x1, y1)` to `(x2, y2)`?
pub open spec fn is_line(item: ItemView, x1: int, y1: int, x2: int, y2: int) -> bool {
    match item {
        ItemView::Line { x1: a, y1: b, x2: c, y2: d, stroke } => a == x1 && b == y1 && c == x2 && d
            == y2,
        _ => false,
    }
}

/// The tree of a single term.
pub open spec fn alone(t: TermView) -> SltView {
    SltView { terms: seq![t] }
}

/// The term without scripts.
pub open spec fn bare(base: BaseView) -> TermView {
    TermView { base, sup: None, sub: None }
}

proof fn lemma_shifted(items: Seq<ItemView>, dx: int, dy: int)
    ensures
        super::shifted(items, dx, dy).len() == items.len(),
        forall|i: int|
            #![trigger items[i]]
            0 <= i < items.len() ==> moved_by(items[i], super::shifted(items, dx, dy)[i], dx, dy),
{
}

/// The layout of a single term is that of the term.
proof fn lemma_alone(t: TermView, size: int, font: Seq<RawGlyphView>)
    ensures
        ({
            let own = super::term_layout(t, size, font);
            let whole = super::layout_of(alone(t), size, font);
            &&& whole.items == own.items
            &&& whole.h == own.h
            &&& whole.baseline == own.baseline
            &&& whole.w == if own.w >= 0 {
                own.w
            } else {
                0
            }
        }),
{
    let terms = alone(t).terms;
    let own = super::term_layout(t, size, font);
    let boxes = super::layouts_of(terms, size, font);
    assert(terms.drop_last() =~= Seq::<TermView>::empty());
    reveal_with_fuel(super::layouts_of, 2);
    assert(boxes =~= seq![own]);
    let gaps = super::gaps_of(terms, size);
    reveal_with_fuel(super::left_of, 2);
    reveal_with_fuel(super::run_items, 2);
    assert(super::shifted(own.items, 0, 0) =~= own.items);
    assert(super::layout_of(alone(t), size, font).items =~= own.items);
}

/// The layout of a term without scripts is that of its base.
proof fn lemma_bare(base: BaseView, size: int, font: Seq<RawGlyphView>)
    ensures
        ({
            let own = super::base_layout(base, size, font);
            let whole = super::layout_of(alone(bare(base)), size, font);
            &&& whole.items == own.items
            &&& whole.h == own.h
            &&& whole.baseline == own.baseline
            &&& whole.w == if own.w >= 0 {
                own.w
            } else {
                0
            }
        }),
{
    let own = super::base_layout(base, size, font);
    lemma_alone(bare(base), size, font);
    assert(super::shifted(own.items, 0, 0) =~= own.items);
    assert(super::term_layout(bare(base), size, font).items =~= own.items);
}

/// A symbol is one text, its LaTeX token, whose baseline is four fifths of the way down its box.
pub proof fn law_a_symbol_is_one_text(label: Seq<char>, size: int, font: Seq<RawGlyphView>)
    requires
        0 <= size,
    ensures
        ({
            let b = super::layout_of(alone(bare(BaseView::Symbol(label))), size, font);
            &&& b.items == seq![
                ItemView::Text {
                    x: 0,
                    y: 800 * size / 1000,
                    size,
                    s: crate::latex::command_of(label),
                },
            ]
            &&& b.baseline == 800 * size / 1000
            &&& b.h == 1000 * size / 1000
        }),
{
    lemma_bare(BaseView::Symbol(label), size, font);
}

/// A fraction shows its numerator above the bar, centered, then the bar, then its denominator below
/// it, centered; both are set at 85 percent of the size. The numerator's box ends above the bar, and
/// the denominator's begins below it.
pub proof fn law_a_fraction_shows_its_numerator_on_top(
    num: SltView,
    den: SltView,
    size: int,
    font: Seq<RawGlyphView>,
)
    requires
        25 <= size,
        0 <= super::layout_of(num, size * 850 / 1000, font).w,
        0 <= super::layout_of(den, size * 850 / 1000, font).w,
    ensures
        ({
            let top = super::layout_of(num, size * 850 / 1000, font);
            let bottom = super::layout_of(den, size * 850 / 1000, font);
            let whole = super::layout_of(alone(bare(BaseView::Frac { num, den })), size, font);
            let n = top.items.len() as int;
            let bar = top.h + 120 * size / 1000 + 60 * size / 1000 / 2;
            let under = top.h + 2 * (120 * size / 1000) + 60 * size / 1000;
            &&& whole.items.len() == n + 1 + bottom.items.len()
            &&& holds(top, whole, 0, (whole.w - top.w) / 2, 0)
            &&& is_line(whole.items[n], 0, bar, whole.w, bar)
            &&& holds(bottom, whole, n + 1, (whole.w - bottom.w) / 2, under)
            &&& top.h < bar < under
            &&& under + bottom.h == whole.h
            &&& top.w < whole.w && bottom.w < whole.w
            &&& whole.baseline == bar + 300 * size / 1000
        }),
{
    let base = BaseView::Frac { num, den };
    let part = size * 850 / 1000;
    let top = super::layout_of(num, part, font);
    let bottom = super::layout_of(den, part, font);
    let own = super::base_layout(base, size, font);
    lemma_bare(base, size, font);
    assert(super::scaled(size, 850) == part);
    let w = own.w;
    lemma_shifted(top.items, (w - top.w) / 2, 0);
    lemma_shifted(
        bottom.items,
        (w - bottom.w) / 2,
        top.h + 120 * size / 1000 + 60 * size / 1000 + 120 * size / 1000,
    );
}

/// The fraction of two symbols: the numerator's text stands higher on the page than the bar, and the
/// denominator's lower.
pub proof fn law_the_fraction_of_two_symbols(
    a: Seq<char>,
    b: Seq<char>,
    size: int,
    font: Seq<RawGlyphView>,
)
    requires
        25 <= size,
    ensures
        ({
            let num = alone(bare(BaseView::Symbol(a)));
            let den = alone(bare(BaseView::Symbol(b)));
            let whole = super::layout_of(alone(bare(BaseView::Frac { num, den })), size, font);
            match (whole.items[0], whole.items[1], whole.items[2]) {
                (
                    ItemView::Text { x, y, size: s1, s },
                    ItemView::Line { x1, y1, x2, y2, stroke },
                    ItemView::Text { x: u, y: v, size: s2, s: t },
                ) => {
                    &&& s == crate::latex::command_of(a) && t == crate::latex::command_of(b)
                    &&& y < y1 && y1 == y2 && y1 < v
                    &&& 0 <= x && 0 <= u && x1 == 0
                },
                _ => false,
            }
        }),
{
    let num = alone(bare(BaseView::Symbol(a)));
    let den = alone(bare(BaseView::Symbol(b)));
    let part = size * 850 / 1000;
    law_a_symbol_is_one_text(a, part, font);
    law_a_symbol_is_one_text(b, part, font);
    lemma_bare(BaseView::Symbol(a), part, font);
    lemma_bare(BaseView::Symbol(b), part, font);
    law_a_fraction_shows_its_numerator_on_top(num, den, size, font);
    let top = super::layout_of(num, part, font);
    let bottom = super::layout_of(den, part, font);
    let whole = super::layout_of(alone(bare(BaseView::Frac { num, den })), size, font);
    assert(moved_by(top.items[0], whole.items[0], (whole.w - top.w) / 2, 0));
    assert(moved_by(
        bottom.items[0],
        whole.items[2],
        (whole.w - bottom.w) / 2,
        top.h + 2 * (120 * size / 1000) + 60 * size / 1000,
    ));
    assert(is_line(whole.items[1], 0, top.h + 120 * size / 1000 + 60 * size / 1000 / 2, whole.w,
        top.h + 120 * size / 1000 + 60 * size / 1000 / 2));
}

/// A radical shows its radicand to the right of its tick and under its bar, which is at least as
/// wide; the tick goes down to the foot of the radicand's height and up to the bar.
pub proof fn law_a_radical_covers_its_radicand(r: SltView, size: int, font: Seq<RawGlyphView>)
    requires
        25 <= size,
        0 <= super::layout_of(r, size, font).w,
    ensures
        ({
            let inner = super::layout_of(r, size, font);
            let whole = super::layout_of(alone(bare(BaseView::Sqrt(r))), size, font);
            let tick = 450 * size / 1000;
            let bar = 60 * size / 1000 / 2;
            let right = tick + inner.w + 100 * size / 1000;
            let dx = tick + 50 * size / 1000;
            let dy = 2 * (60 * size / 1000);
            &&& whole.items.len() == 3 + inner.items.len()
            &&& is_line(whole.items[0], 0, inner.h * 6 / 10, tick / 2, inner.h)
            &&& is_line(whole.items[1], tick / 2, inner.h, tick, bar)
            &&& is_line(whole.items[2], tick, bar, right, bar)
            &&& holds(inner, whole, 3, dx, dy)
            &&& tick < dx && dx + inner.w < right && right < whole.w
            &&& bar < dy
            &&& whole.h == inner.h + dy
            &&& whole.baseline == inner.baseline + dy
        }),
{
    let base = BaseView::Sqrt(r);
    let inner = super::layout_of(r, size, font);
    lemma_bare(base, size, font);
    lemma_shifted(inner.items, 450 * size / 1000 + 50 * size / 1000, 2 * (60 * size / 1000));
}

/// Scripts are set at 70 percent of the size, at the right of their base: a superscript's baseline is
/// above that of the base, a subscript's below it, and the box has room for both.
pub proof fn law_scripts_stand_above_and_below(t: TermView, size: int, font: Seq<RawGlyphView>)
    requires
        25 <= size,
        0 < super::layout_of(alone(bare(t.base)), size, font).w,
    ensures
        ({
            let base = super::layout_of(alone(bare(t.base)), size, font);
            let whole = super::layout_of(alone(t), size, font);
            let small = size * 700 / 1000;
            let x = base.w + 40 * size / 1000;
            let n = base.items.len() as int;
            &&& holds(base, whole, 0, 0, whole.baseline - base.baseline)
            &&& base.baseline <= whole.baseline
            &&& base.w < x && base.w <= whole.w
            &&& t.sup is Some ==> {
                let s = super::layout_of(t.sup->0, small, font);
                let y = whole.baseline - 450 * size / 1000 - s.baseline;
                &&& holds(s, whole, n, x, y)
                &&& 0 <= y
                &&& x + s.w <= whole.w
            }
            &&& t.sub is Some ==> {
                let s = super::layout_of(t.sub->0, small, font);
                let before = if t.sup is Some {
                    super::layout_of(t.sup->0, small, font).items.len() as int
                } else {
                    0
                };
                let y = whole.baseline + 250 * size / 1000 - s.baseline;
                &&& holds(s, whole, n + before, x, y)
                &&& y + s.h <= whole.h
                &&& x + s.w <= whole.w
                &&& whole.items.len() == n + before + s.items.len()
            }
            &&& t.sub is None && t.sup is Some ==> whole.items.len() == n + super::layout_of(
                t.sup->0,
                small,
                font,
            ).items.len()
            &&& t.sub is None && t.sup is None ==> whole == base
        }),
{
    let own = super::base_layout(t.base, size, font);
    let base = super::layout_of(alone(bare(t.base)), size, font);
    let whole = super::layout_of(alone(t), size, font);
    let small = size * 700 / 1000;
    lemma_bare(t.base, size, font);
    lemma_alone(t, size, font);
    let x = base.w + 40 * size / 1000;
    let up = match t.sup {
        Some(s) => Some(super::layout_of(s, small, font)),
        None => None,
    };
    let low = match t.sub {
        Some(s) => Some(super::layout_of(s, small, font)),
        None => None,
    };
    let top = super::overshoot_above(own, up, size);
    let first = super::shifted(own.items, 0, top);
    let second = match up {
        Some(s) => super::shifted(s.items, x, super::rise(own, s, size) + top),
        None => Seq::empty(),
    };
    let third = match low {
        Some(s) => super::shifted(s.items, x, super::sink(own, s, size) + top),
        None => Seq::empty(),
    };
    assert(super::scaled(size, 700) == small);
    assert(whole.items == first + second + third);
    lemma_shifted(own.items, 0, top);
    assert(holds(base, whole, 0, 0, top));
    let n = base.items.len() as int;
    if t.sup is Some {
        let s = up->0;
        let y = super::rise(own, s, size) + top;
        lemma_shifted(s.items, x, y);
        assert forall|i: int|
            #![trigger s.items[i]]
            0 <= i < s.items.len() implies moved_by(s.items[i], whole.items[n + i], x, y) by {
            assert(whole.items[n + i] == second[i]);
        }
        assert(holds(s, whole, n, x, y));
    }
    if t.sub is Some {
        let s = low->0;
        let y = super::sink(own, s, size) + top;
        let m = n + second.len();
        lemma_shifted(s.items, x, y);
        assert forall|i: int|
            #![trigger s.items[i]]
            0 <= i < s.items.len() implies moved_by(s.items[i], whole.items[m + i], x, y) by {
            assert(whole.items[m + i] == third[i]);
        }
        assert(holds(s, whole, m, x, y));
    }
    if t.sub is None && t.sup is None {
        assert(bare(t.base) == t);
    }
}

// ---------------------------------------------------------------------------------------------
// Runs
// ---------------------------------------------------------------------------------------------
/// How much air a term asks for at each side: a relation most, a binary operator some.
pub open spec fn air(t: TermView) -> int {
    match t.base {
        BaseView::Symbol(l) => {
            let s = crate::latex::command_of(l);
            if s == "="@ || s == "<"@ || s == ">"@ || s == "\\leq"@ || s == "\\geq"@ || s
                == "\\neq"@ {
                150
            } else if s == "+"@ || s == "-"@ || s == "\\pm"@ || s == "\\times"@ || s == "\\cdot"@
                || s == "\\div"@ {
                70
            } else {
                0
            }
        },
        _ => 0,
    }
}

proof fn lemma_layouts_len(terms: Seq<TermView>, size: int, font: Seq<RawGlyphView>)
    ensures
        super::layouts_of(terms, size, font).len() == terms.len(),
    decreases terms.len(),
{
    if terms.len() > 0 {
        lemma_layouts_len(terms.drop_last(), size, font);
    }
}

proof fn lemma_left_same(a: Seq<LBoxView>, g: Seq<int>, b: LBoxView, h: Seq<int>, n: nat)
    requires
        n < a.len(),
        g.len() + 1 == a.len(),
        h.len() == a.len(),
        forall|i: int| 0 <= i < g.len() ==> #[trigger] g[i] == h[i],
    ensures
        super::left_of(a.push(b), h, n) == super::left_of(a, g, n),
    decreases n,
{
    if n > 0 {
        lemma_left_same(a, g, b, h, (n - 1) as nat);
        assert(a.push(b)[n - 1] == a[n - 1]);
        assert(g[n - 1] == h[n - 1]);
    }
}

proof fn lemma_items_same(
    a: Seq<LBoxView>,
    g: Seq<int>,
    b: LBoxView,
    h: Seq<int>,
    low: int,
    high: int,
    n: nat,
)
    requires
        n <= a.len(),
        g.len() + 1 == a.len(),
        h.len() == a.len(),
        forall|i: int| 0 <= i < g.len() ==> #[trigger] g[i] == h[i],
    ensures
        super::run_items(a.push(b), h, high, n) == super::shifted(
            super::run_items(a, g, low, n),
            0,
            high - low,
        ),
    decreases n,
{
    let now = super::run_items(a.push(b), h, high, n);
    let want = super::shifted(super::run_items(a, g, low, n), 0, high - low);
    if n > 0 {
        lemma_items_same(a, g, b, h, low, high, (n - 1) as nat);
        lemma_left_same(a, g, b, h, (n - 1) as nat);
        assert(a.push(b)[n - 1] == a[n - 1]);
        let x = super::left_of(a, g, (n - 1) as nat);
        let own = a[n - 1];
        assert(super::shifted(super::shifted(own.items, x, low - own.baseline), 0, high - low)
            =~= super::shifted(own.items, x, high - own.baseline));
    }
    assert(now =~= want);
}

/// The terms of a run stand side by side on one baseline, in their order: with one more term, the
/// others stay where they are, but that the common baseline may sink; the new one begins behind
/// them and a gap, and sits on the same baseline.
pub proof fn law_terms_stand_side_by_side(
    terms: Seq<TermView>,
    t: TermView,
    size: int,
    font: Seq<RawGlyphView>,
)
    requires
        0 <= size,
        terms.len() > 0,
        0 < super::layout_of(SltView { terms }, size, font).w,
        0 < super::layout_of(alone(t), size, font).w,
    ensures
        ({
            let before = super::layout_of(SltView { terms }, size, font);
            let new = super::layout_of(alone(t), size, font);
            let whole = super::layout_of(SltView { terms: terms.push(t) }, size, font);
            let x = before.w + (90 + air(terms.last()) + air(t)) * size / 1000;
            &&& whole.items.len() == before.items.len() + new.items.len()
            &&& holds(before, whole, 0, 0, whole.baseline - before.baseline)
            &&& holds(new, whole, before.items.len() as int, x, whole.baseline - new.baseline)
            &&& whole.w == x + new.w
            &&& whole.baseline == if before.baseline >= new.baseline {
                before.baseline
            } else {
                new.baseline
            }
            &&& before.h - before.baseline <= whole.h - whole.baseline
            &&& new.h - new.baseline <= whole.h - whole.baseline
        }),
{
    let all = terms.push(t);
    assert(all.drop_last() =~= terms);
    let a = super::layouts_of(terms, size, font);
    let b = super::term_layout(t, size, font);
    let g = super::gaps_of(terms, size);
    let h = super::gaps_of(all, size);
    lemma_layouts_len(terms, size, font);
    lemma_alone(t, size, font);
    assert(super::layouts_of(all, size, font) == a.push(b));
    assert forall|i: int| 0 <= i < g.len() implies #[trigger] g[i] == h[i] by {
        assert(all[i] == terms[i] && all[i + 1] == terms[i + 1]);
    }
    let n = a.len();
    let low = super::common_baseline(a);
    assert(a.push(b).drop_last() =~= a);
    let high = super::common_baseline(a.push(b));
    lemma_left_same(a, g, b, h, (n - 1) as nat);
    lemma_items_same(a, g, b, h, low, high, n);
    assert(a.push(b)[n - 1] == a[n - 1] && a.push(b)[n as int] == b);
    assert(h[n - 1] == super::scaled(90 + air(terms.last()) + air(t), size)) by {
        assert(all[n - 1] == terms.last() && all[n as int] == t);
    }
    let before = super::layout_of(SltView { terms }, size, font);
    let whole = super::layout_of(SltView { terms: all }, size, font);
    let x = super::left_of(a.push(b), h, n);
    assert(x == super::left_of(a, g, n) + h[n - 1]);
    lemma_shifted(before.items, 0, high - low);
    lemma_shifted(b.items, x, high - b.baseline);
    assert(whole.items == super::shifted(before.items, 0, high - low) + super::shifted(
        b.items,
        x,
        high - b.baseline,
    ));
}

// ---------------------------------------------------------------------------------------------
// Pen strokes
// ---------------------------------------------------------------------------------------------
/// A glyph is drawn upright where its text stands: what is further right in the glyph is further right on
/// the page, what is lower is lower, and its baseline is the text's.
pub proof fn law_glyphs_are_drawn_upright(
    p: (F32, F32),
    q: (F32, F32),
    x: F32,
    y: F32,
    k: F32,
)
    requires
        p.0.finite() && p.1.finite() && q.0.finite() && q.1.finite(),
        p.1.minus(num(0x4448_0000)).finite() && q.1.minus(num(0x4448_0000)).finite(),
        x.finite() && y.finite(),
        k.finite() && !k.negative(),
    ensures
        p.0.le(q.0) ==> super::inked_point(p, x, y, k).0.le(super::inked_point(q, x, y, k).0),
        p.1.le(q.1) ==> super::inked_point(p, x, y, k).1.le(super::inked_point(q, x, y, k).1),
        p.1 == num(0x4448_0000) ==> super::inked_point(p, x, y, k).1.units() == y.units(),
{
    if p.0.le(q.0) {
        crate::float::monotone::lemma_place_keeps_order(x, p.0, q.0, k);
    }
    if p.1.le(q.1) {
        crate::float::monotone::lemma_difference(p.1, q.1, num(0x4448_0000));
        crate::float::monotone::lemma_place_keeps_order(
            y,
            p.1.minus(num(0x4448_0000)),
            q.1.minus(num(0x4448_0000)),
            k,
        );
    }
    if p.1 == num(0x4448_0000) {
        crate::segment::touch::lemma_no_difference(p.1);
        crate::segment::touch::lemma_nothing_times(p.1.minus(p.1), k);
        crate::segment::touch::lemma_plus_nothing(y, p.1.minus(p.1).times(k));
    }
}

/// A line of a layout is drawn from one of its ends to the other.
pub proof fn law_a_line_is_drawn_from_end_to_end(
    x1: int,
    y1: int,
    x2: int,
    y2: int,
    stroke: int,
    font: Seq<RawGlyphView>,
)
    ensures
        super::item_lines(ItemView::Line { x1, y1, x2, y2, stroke }, font) == seq![
            seq![
                (crate::float::convert::of_int(x1), crate::float::convert::of_int(y1)),
                (crate::float::convert::of_int(x2), crate::float::convert::of_int(y2)),
            ],
        ],
{
}

/// A text is drawn character by character: the first stands where the text does, and one more begins where
/// those before end, by their advances.
pub proof fn law_a_text_is_drawn_from_left_to_right(
    units: Seq<Seq<char>>,
    u: Seq<char>,
    x: F32,
    y: F32,
    k: F32,
    font: Seq<RawGlyphView>,
)
    ensures
        super::pen_after(units, 0, x, k, font) == x,
        ({
            let all = units.push(u);
            let n = units.len();
            let pen = super::pen_after(units, n, x, k, font);
            let before = super::unit_lines(units, n, x, y, k, font);
            match crate::glyphs::glyph_of(u, font) {
                Some(g) => {
                    &&& super::pen_after(all, n + 1, x, k, font) == pen.plus(g.advance.times(k))
                    &&& super::unit_lines(all, n + 1, x, y, k, font) == before + Seq::new(
                        g.polylines.len(),
                        |i: int| super::inked(g.polylines[i], pen, y, k),
                    )
                },
                None => {
                    &&& super::pen_after(all, n + 1, x, k, font) == pen.plus(
                        num(0x4416_0000).times(k),
                    )
                    &&& super::unit_lines(all, n + 1, x, y, k, font) == before
                },
            }
        }),
{
    lemma_units_prefix(units, u, x, y, k, font, units.len());
    assert(super::unit_lines(units, units.len(), x, y, k, font) + Seq::<Seq<(F32, F32)>>::empty()
        =~= super::unit_lines(units, units.len(), x, y, k, font));
}

proof fn lemma_units_prefix(
    units: Seq<Seq<char>>,
    u: Seq<char>,
    x: F32,
    y: F32,
    k: F32,
    font: Seq<RawGlyphView>,
    n: nat,
)
    requires
        n <= units.len(),
    ensures
        super::pen_after(units.push(u), n, x, k, font) == super::pen_after(units, n, x, k, font),
        super::unit_lines(units.push(u), n, x, y, k, font) == super::unit_lines(
            units,
            n,
            x,
            y,
            k,
            font,
        ),
    decreases n,
{
    if n > 0 {
        lemma_units_prefix(units, u, x, y, k, font, (n - 1) as nat);
        assert(units.push(u)[n - 1] == units[n - 1]);
    }
}

/// A plan is the ink of the layout, moved as a whole: two points of it are as they were to each other, the
/// one further right still further right, and the lower one still lower.
pub proof fn law_a_plan_is_moved_as_a_whole(
    lines: Seq<Seq<(F32, F32)>>,
    w: F32,
    h: F32,
    i: int,
    k: int,
    j: int,
    l: int,
)
    requires
        super::all_finite(lines),
        0 <= i < lines.len() && 0 <= k < lines[i].len(),
        0 <= j < lines.len() && 0 <= l < lines[j].len(),
    ensures
        ({
            let (p, q) = (lines[i][k], lines[j][l]);
            let (u, v) = (super::framed(lines, w, h).0[i][k], super::framed(lines, w, h).0[j][l]);
            &&& p.0.le(q.0) ==> u.0.le(v.0)
            &&& p.1.le(q.1) ==> u.1.le(v.1)
        }),
{
    super::lemma_ink_inside(lines);
    let b = super::ink_box(lines);
    let (p, q) = (lines[i][k], lines[j][l]);
    assert(p.0.finite() && p.1.finite() && q.0.finite() && q.1.finite());
    if p.0.le(q.0) {
        crate::float::monotone::lemma_difference(p.0, q.0, b.min_x);
    }
    if p.1.le(q.1) {
        crate::float::monotone::lemma_difference(p.1, q.1, b.min_y);
    }
}

} // verus!
