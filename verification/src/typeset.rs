//! A small typesetter for layout trees.
//!
//! It lays out exactly what the structure parse can produce (baseline runs, scripts, fractions and
//! radicals), so it cannot disagree with the parse that it renders. Everything is measured in
//! thousandths of an em, in integers. The result is a self-contained SVG document, or a plan of
//! pen strokes. Metrics are approximations: good enough to read.
use crate::float::{num, F32};
use crate::glyphs::{trace, Font, RawGlyphView};
use crate::latex::symbol_command;
use crate::stroke::{BBox, LARGEST, SMALLEST};
use crate::structure::{Base, BaseView, Slt, SltView, Term, TermView};
use crate::text::{append, chars_of, push_signed, text_of};
use vstd::prelude::*;

pub mod place;

verus! {

/// One em.
pub const EM: i32 = 1000;

/// The advance of a token that has no glyph.
pub const CHAR_W: i32 = 600;

/// Scripts are set at this size.
pub const SCRIPT_SCALE: i32 = 700;

/// The parts of a fraction are set at this size.
pub const FRACTION_SCALE: i32 = 850;

/// The thickness of a fraction bar and of the bar of a radical.
pub const RULE: i32 = 60;

/// The margin around an SVG document.
pub const PAD: i32 = 150;

/// 1000, as a number.
pub const THOUSAND: u32 = 0x447a_0000;

/// 800, the baseline of a glyph.
pub const GLYPH_BASELINE: u32 = 0x4448_0000;

/// 600, the gap that a token without a glyph leaves.
pub const GLYPH_GAP: u32 = 0x4416_0000;

// ---------------------------------------------------------------------------------------------
// Boxes
// ---------------------------------------------------------------------------------------------
/// One drawable, positioned relative to the top left of its box.
enum Item {
    Text { x: i32, y: i32, size: i32, s: Vec<char> },
    Line { x1: i32, y1: i32, x2: i32, y2: i32, stroke: i32 },
}

/// A drawable: some text on a baseline, or a line.
#[verifier::ext_equal]
pub enum ItemView {
    Text { x: int, y: int, size: int, s: Seq<char> },
    Line { x1: int, y1: int, x2: int, y2: int, stroke: int },
}

impl View for Item {
    type V = ItemView;

    closed spec fn view(&self) -> ItemView {
        match self {
            Item::Text { x, y, size, s } => ItemView::Text {
                x: *x as int,
                y: *y as int,
                size: *size as int,
                s: s@,
            },
            Item::Line { x1, y1, x2, y2, stroke } => ItemView::Line {
                x1: *x1 as int,
                y1: *y1 as int,
                x2: *x2 as int,
                y2: *y2 as int,
                stroke: *stroke as int,
            },
        }
    }
}

/// A laid out box. `baseline` is the distance from its top to the baseline.
struct LBox {
    w: i32,
    h: i32,
    baseline: i32,
    items: Vec<Item>,
}

/// A laid out box: its size, its baseline, and what it holds.
#[verifier::ext_equal]
pub struct LBoxView {
    pub w: int,
    pub h: int,
    pub baseline: int,
    pub items: Seq<ItemView>,
}

spec fn item_views(items: Seq<Item>) -> Seq<ItemView> {
    Seq::new(items.len(), |i: int| items[i]@)
}

impl View for LBox {
    type V = LBoxView;

    closed spec fn view(&self) -> LBoxView {
        LBoxView {
            w: self.w as int,
            h: self.h as int,
            baseline: self.baseline as int,
            items: item_views(self.items@),
        }
    }
}

/// Can this number be told in 32 bits?
pub open spec fn fits_number(v: int) -> bool {
    i32::MIN <= v <= i32::MAX
}

pub open spec fn fits_item(item: ItemView) -> bool {
    match item {
        ItemView::Text { x, y, size, s } => fits_number(x) && fits_number(y),
        ItemView::Line { x1, y1, x2, y2, stroke } => fits_number(x1) && fits_number(y1)
            && fits_number(x2) && fits_number(y2),
    }
}

pub open spec fn fits_items(items: Seq<ItemView>) -> bool {
    forall|i: int| 0 <= i < items.len() ==> fits_item(#[trigger] items[i])
}

/// Can all numbers of a box be told in 32 bits?
pub open spec fn fits_box(b: LBoxView) -> bool {
    fits_number(b.w) && fits_number(b.h) && fits_number(b.baseline) && fits_items(b.items)
}

/// A thousandth part of `v * factor`, rounded toward zero.
pub open spec fn scaled(v: int, factor: int) -> int {
    if v >= 0 {
        v * factor / 1000
    } else {
        -((-v) * factor / 1000)
    }
}

pub open spec fn larger(a: int, b: int) -> int {
    if a >= b {
        a
    } else {
        b
    }
}

/// A drawable, moved.
pub open spec fn shifted_item(item: ItemView, dx: int, dy: int) -> ItemView {
    match item {
        ItemView::Text { x, y, size, s } => ItemView::Text { x: x + dx, y: y + dy, size, s },
        ItemView::Line { x1, y1, x2, y2, stroke } => ItemView::Line {
            x1: x1 + dx,
            y1: y1 + dy,
            x2: x2 + dx,
            y2: y2 + dy,
            stroke,
        },
    }
}

/// Drawables, moved.
pub open spec fn shifted(items: Seq<ItemView>, dx: int, dy: int) -> Seq<ItemView> {
    Seq::new(items.len(), |i: int| shifted_item(items[i], dx, dy))
}

fn scale(v: i32, factor: i32) -> (r: i32)
    requires
        0 <= factor <= 1000,
    ensures
        r == scaled(v as int, factor as int),
        v >= 0 ==> 0 <= r <= v,
        v <= 0 ==> v <= r <= 0,
{
    let m: i64 = if v >= 0 {
        v as i64
    } else {
        -(v as i64)
    };
    assert(0 <= m * factor <= m * 1000) by (nonlinear_arith)
        requires
            0 <= factor <= 1000,
            0 <= m,
    ;
    let q: i64 = m * (factor as i64) / 1000;
    if v >= 0 {
        q as i32
    } else {
        (-q) as i32
    }
}

// ---------------------------------------------------------------------------------------------
// Tokens
// ---------------------------------------------------------------------------------------------
/// Is this token a command?
pub open spec fn is_command(s: Seq<char>) -> bool {
    s.len() > 0 && s[0] == '\\'
}

/// The parts of a token that have a glyph each: a command is one, a run has one per character.
pub open spec fn token_units(s: Seq<char>) -> Seq<Seq<char>> {
    if is_command(s) {
        seq![s]
    } else {
        Seq::new(s.len(), |i: int| seq![s[i]])
    }
}

/// The advance of one part: that of its glyph, in whole thousandths.
pub open spec fn unit_width(u: Seq<char>, font: Seq<RawGlyphView>) -> int {
    match crate::glyphs::glyph_of(u, font) {
        Some(g) => g.advance.to_i32() as int,
        None => CHAR_W as int,
    }
}

/// The advance of the first `n` parts.
pub open spec fn units_width(units: Seq<Seq<char>>, n: nat, font: Seq<RawGlyphView>) -> int
    decreases n,
{
    if n == 0 {
        0
    } else {
        units_width(units, (n - 1) as nat, font) + unit_width(units[n - 1], font)
    }
}

/// The advance that tracing a token takes. A run is given at least half a character.
pub open spec fn token_width(s: Seq<char>, font: Seq<RawGlyphView>) -> int {
    let total = units_width(token_units(s), token_units(s).len(), font);
    if is_command(s) {
        total
    } else {
        larger(total, CHAR_W as int / 2)
    }
}

/// The box of a token.
pub open spec fn text_layout(s: Seq<char>, size: int, font: Seq<RawGlyphView>) -> LBoxView {
    LBoxView {
        w: scaled(token_width(s, font), size),
        h: scaled(EM as int, size),
        baseline: scaled(800, size),
        items: seq![ItemView::Text { x: 0, y: scaled(800, size), size, s }],
    }
}

/// How much air a term gets on each side: relations breathe widest, binary operators get a medium
/// cushion, everything else sits close.
pub open spec fn spacing_of(t: TermView) -> int {
    match t.base {
        BaseView::Symbol(l) => {
            let s = crate::latex::command_of(l);
            if s == "="@ || s == "<"@ || s == ">"@ || s == "\\leq"@ || s == "\\geq"@ || s
                == "\\neq"@ {
                150
            } else if s == "+"@ || s == "-"@ || s == "\\pm"@ || s == "\\times"@ || s == "\\cdot"@
                || s == "\\div"@ {
                70
            } else {
                0
            }
        },
        _ => 0,
    }
}

/// The advance of one part.
fn unit_advance(u: &Vec<char>, font: &Font) -> (r: i32)
    ensures
        r == unit_width(u@, font@),
{
    match trace(u, font) {
        Some(g) => g.advance.to_i32(),
        None => CHAR_W,
    }
}

/// The parts of a token that have a glyph each.
fn find_units(s: &Vec<char>) -> (r: Vec<Vec<char>>)
    ensures
        crate::text::line_views(r@) == token_units(s@),
{
    let mut out: Vec<Vec<char>> = Vec::new();
    if s.len() > 0 && s[0] == '\\' {
        let u = crate::text::slice(s, 0, s.len());
        assert(u@ =~= s@);
        out.push(u);
        assert(crate::text::line_views(out@) =~= seq![s@]);
        return out;
    }
    let mut i: usize = 0;
    assert(crate::text::line_views(out@) =~= token_units(s@).take(0));
    while i < s.len()
        invariant
            i <= s.len(),
            !is_command(s@),
            crate::text::line_views(out@) == token_units(s@).take(i as int),
        decreases s.len() - i,
    {
        let mut u: Vec<char> = Vec::new();
        u.push(s[i]);
        proof {
            assert(u@ =~= seq![s@[i as int]]);
            assert(crate::text::line_views(out@.push(u)) =~= crate::text::line_views(out@).push(
                u@,
            ));
            assert(token_units(s@).take(i + 1) =~= token_units(s@).take(i as int).push(u@));
        }
        out.push(u);
        i = i + 1;
    }
    assert(token_units(s@).take(i as int) =~= token_units(s@));
    out
}

/// The advance that tracing a token takes, if it can be told in 32 bits.
fn token_advance(s: &Vec<char>, font: &Font) -> (r: Option<i32>)
    ensures
        match r {
            Some(w) => w == token_width(s@, font@),
            None => !fits_number(token_width(s@, font@)),
        },
{
    let units = find_units(s);
    let ghost views = token_units(s@);
    let mut total: i128 = 0;
    let mut i: usize = 0;
    while i < units.len()
        invariant
            i <= units.len(),
            views == crate::text::line_views(units@),
            total == units_width(views, i as nat, font@),
            -(0x8000_0000 * i) <= total <= 0x8000_0000 * i,
        decreases units.len() - i,
    {
        assert(views[i as int] == units[i as int]@);
        total = total + unit_advance(&units[i], font) as i128;
        i = i + 1;
    }
    if !(s.len() > 0 && s[0] == '\\') && total < (CHAR_W / 2) as i128 {
        total = (CHAR_W / 2) as i128;
    }
    if -0x8000_0000 <= total && total <= 0x7fff_ffff {
        Some(total as i32)
    } else {
        None
    }
}

fn text_box(s: &Vec<char>, size: i32, font: &Font) -> (r: Option<LBox>)
    requires
        0 <= size <= 1000,
    ensures
        match r {
            Some(b) => fits_number(token_width(s@, font@)) && b@ == text_layout(
                s@,
                size as int,
                font@,
            ),
            None => !fits_number(token_width(s@, font@)),
        },
{
    let advance = match token_advance(s, font) {
        Some(w) => w,
        None => {
            return None;
        },
    };
    let y = scale(800, size);
    let text = crate::text::slice(s, 0, s.len());
    assert(text@ =~= s@);
    let mut items: Vec<Item> = Vec::new();
    items.push(Item::Text { x: 0, y, size, s: text });
    let b = LBox { w: scale(advance, size), h: scale(EM, size), baseline: y, items };
    assert(b@.items =~= text_layout(s@, size as int, font@).items);
    Some(b)
}

fn is_one_of(s: &Vec<char>, a: &str, b: &str, c: &str) -> (r: bool)
    ensures
        r == (s@ == a@ || s@ == b@ || s@ == c@),
{
    let t = text_of(s);
    crate::text::same_text(t.as_str(), a) || crate::text::same_text(t.as_str(), b)
        || crate::text::same_text(t.as_str(), c)
}

fn display(label: &String) -> (r: Vec<char>)
    ensures
        r@ == crate::latex::command_of(label@),
{
    chars_of(symbol_command(label.as_str()).as_str())
}

fn spacing_class(t: &Term) -> (r: i32)
    ensures
        r == spacing_of(t@),
        0 <= r <= 150,
{
    match &t.base {
        Base::Symbol(l) => {
            let s = display(l);
            if is_one_of(&s, "=", "<", ">") || is_one_of(&s, "\\leq", "\\geq", "\\neq") {
                150
            } else if is_one_of(&s, "+", "-", "\\pm") || is_one_of(&s, "\\times", "\\cdot", "\\div") {
                70
            } else {
                0
            }
        },
        _ => 0,
    }
}

// ---------------------------------------------------------------------------------------------
// Layout
// ---------------------------------------------------------------------------------------------
/// Where the box after the first `n` of a run starts: behind their widths and the gaps between.
pub open spec fn left_of(boxes: Seq<LBoxView>, gaps: Seq<int>, n: nat) -> int
    decreases n,
{
    if n == 0 {
        0
    } else {
        left_of(boxes, gaps, (n - 1) as nat) + boxes[n - 1].w + if n < boxes.len() {
            gaps[n - 1]
        } else {
            0
        }
    }
}

/// The lowest of the baselines, as measured from the tops.
pub open spec fn common_baseline(boxes: Seq<LBoxView>) -> int
    decreases boxes.len(),
{
    if boxes.len() <= 1 {
        boxes[0].baseline
    } else {
        larger(common_baseline(boxes.drop_last()), boxes.last().baseline)
    }
}

/// How far the boxes reach below their baseline.
pub open spec fn common_depth(boxes: Seq<LBoxView>) -> int
    decreases boxes.len(),
{
    if boxes.len() <= 1 {
        boxes[0].h - boxes[0].baseline
    } else {
        larger(common_depth(boxes.drop_last()), boxes.last().h - boxes.last().baseline)
    }
}

/// What the first `n` boxes of a run hold, when they sit on the baseline `base`.
pub open spec fn run_items(boxes: Seq<LBoxView>, gaps: Seq<int>, base: int, n: nat) -> Seq<ItemView>
    decreases n,
{
    if n == 0 {
        Seq::empty()
    } else {
        run_items(boxes, gaps, base, (n - 1) as nat) + shifted(
            boxes[n - 1].items,
            left_of(boxes, gaps, (n - 1) as nat),
            base - boxes[n - 1].baseline,
        )
    }
}

/// A horizontal run: the boxes sit on a shared baseline, with a gap at every boundary.
pub open spec fn run_layout(boxes: Seq<LBoxView>, gaps: Seq<int>) -> LBoxView {
    let base = common_baseline(boxes);
    LBoxView {
        w: larger(left_of(boxes, gaps, boxes.len()), 0),
        h: base + common_depth(boxes),
        baseline: base,
        items: run_items(boxes, gaps, base, boxes.len()),
    }
}

/// Can all numbers of a run be told in 32 bits?
pub open spec fn fits_run(boxes: Seq<LBoxView>, gaps: Seq<int>) -> bool {
    &&& forall|n: nat| n <= boxes.len() ==> fits_number(#[trigger] left_of(boxes, gaps, n))
    &&& fits_box(run_layout(boxes, gaps))
}

/// The gaps between terms: some air, and the cushion of each neighbour.
pub open spec fn gaps_of(terms: Seq<TermView>, size: int) -> Seq<int> {
    Seq::new(
        (terms.len() - 1) as nat,
        |i: int| scaled(90 + spacing_of(terms[i]) + spacing_of(terms[i + 1]), size),
    )
}

/// A fraction: numerator and denominator centered above and below a bar.
pub open spec fn fraction_layout(n: LBoxView, d: LBoxView, size: int) -> LBoxView {
    let w = larger(n.w, d.w) + scaled(200, size);
    let bar = scaled(RULE as int, size);
    let gap = scaled(120, size);
    let y = n.h + gap + bar / 2;
    LBoxView {
        w,
        h: n.h + gap + bar + gap + d.h,
        baseline: y + scaled(300, size),
        items: shifted(n.items, (w - n.w) / 2, 0).push(
            ItemView::Line { x1: 0, y1: y, x2: w, y2: y, stroke: bar },
        ) + shifted(d.items, (w - d.w) / 2, n.h + gap + bar + gap),
    }
}

/// A radical: down-stroke, up-stroke and bar, with the radicand under it.
pub open spec fn radical_layout(c: LBoxView, size: int) -> LBoxView {
    let tick = scaled(450, size);
    let bar = scaled(RULE as int, size);
    let drop = bar + scaled(60, size);
    LBoxView {
        w: tick + c.w + scaled(150, size),
        h: c.h + drop,
        baseline: c.baseline + drop,
        items: seq![
            ItemView::Line { x1: 0, y1: c.h * 6 / 10, x2: tick / 2, y2: c.h, stroke: bar },
            ItemView::Line { x1: tick / 2, y1: c.h, x2: tick, y2: bar / 2, stroke: bar },
            ItemView::Line {
                x1: tick,
                y1: bar / 2,
                x2: tick + c.w + scaled(100, size),
                y2: bar / 2,
                stroke: bar,
            },
        ] + shifted(c.items, tick + scaled(50, size), drop),
    }
}

/// How far below the top of its base a superscript starts: its baseline sits above the base's.
pub open spec fn rise(base: LBoxView, s: LBoxView, size: int) -> int {
    base.baseline - scaled(450, size) - s.baseline
}

/// How far below the top of its base a subscript starts: its baseline sits below the base's.
pub open spec fn sink(base: LBoxView, s: LBoxView, size: int) -> int {
    base.baseline + scaled(250, size) - s.baseline
}

/// How far a superscript stands out above its base.
pub open spec fn overshoot_above(base: LBoxView, sup: Option<LBoxView>, size: int) -> int {
    match sup {
        Some(s) => larger(0, -rise(base, s, size)),
        None => 0,
    }
}

/// How far a subscript stands out below its base.
pub open spec fn overshoot_below(base: LBoxView, sub: Option<LBoxView>, size: int) -> int {
    match sub {
        Some(s) => larger(0, sink(base, s, size) + s.h - base.h),
        None => 0,
    }
}

/// A base with its scripts at its right.
pub open spec fn scripted_layout(
    base: LBoxView,
    sup: Option<LBoxView>,
    sub: Option<LBoxView>,
    size: int,
) -> LBoxView {
    let x = base.w + scaled(40, size);
    let top = overshoot_above(base, sup, size);
    let w1 = match sup {
        Some(s) => larger(base.w, x + s.w),
        None => base.w,
    };
    LBoxView {
        w: match sub {
            Some(s) => larger(w1, x + s.w),
            None => w1,
        },
        h: base.h + top + overshoot_below(base, sub, size),
        baseline: base.baseline + top,
        items: shifted(base.items, 0, top) + (match sup {
            Some(s) => shifted(s.items, x, rise(base, s, size) + top),
            None => Seq::empty(),
        }) + (match sub {
            Some(s) => shifted(s.items, x, sink(base, s, size) + top),
            None => Seq::empty(),
        }),
    }
}

/// The box of a tree.
pub open spec fn layout_of(t: SltView, size: int, font: Seq<RawGlyphView>) -> LBoxView
    decreases t,
{
    if t.terms.len() == 0 {
        text_layout(" "@, size, font)
    } else {
        run_layout(layouts_of(t.terms, size, font), gaps_of(t.terms, size))
    }
}

pub open spec fn layouts_of(terms: Seq<TermView>, size: int, font: Seq<RawGlyphView>) -> Seq<
    LBoxView,
>
    decreases terms,
{
    if terms.len() == 0 {
        Seq::empty()
    } else {
        layouts_of(terms.drop_last(), size, font).push(term_layout(terms.last(), size, font))
    }
}

/// The box of a term.
pub open spec fn term_layout(t: TermView, size: int, font: Seq<RawGlyphView>) -> LBoxView
    decreases t,
{
    let small = scaled(size, SCRIPT_SCALE as int);
    scripted_layout(
        base_layout(t.base, size, font),
        match t.sup {
            Some(s) => Some(layout_of(s, small, font)),
            None => None,
        },
        match t.sub {
            Some(s) => Some(layout_of(s, small, font)),
            None => None,
        },
        size,
    )
}

/// The box of a term without its scripts.
pub open spec fn base_layout(b: BaseView, size: int, font: Seq<RawGlyphView>) -> LBoxView
    decreases b,
{
    let part = scaled(size, FRACTION_SCALE as int);
    match b {
        BaseView::Symbol(l) => text_layout(crate::latex::command_of(l), size, font),
        BaseView::Frac { num, den } => fraction_layout(
            layout_of(num, part, font),
            layout_of(den, part, font),
            size,
        ),
        BaseView::Sqrt(r) => radical_layout(layout_of(r, size, font), size),
    }
}

/// Can all numbers in the layout of a tree be told in 32 bits?
pub open spec fn fits(t: SltView, size: int, font: Seq<RawGlyphView>) -> bool
    decreases t,
{
    if t.terms.len() == 0 {
        fits_number(token_width(" "@, font))
    } else {
        fits_terms(t.terms, size, font) && fits_run(
            layouts_of(t.terms, size, font),
            gaps_of(t.terms, size),
        )
    }
}

pub open spec fn fits_terms(terms: Seq<TermView>, size: int, font: Seq<RawGlyphView>) -> bool
    decreases terms,
{
    terms.len() == 0 || (fits_terms(terms.drop_last(), size, font) && fits_term(
        terms.last(),
        size,
        font,
    ))
}

pub open spec fn fits_term(t: TermView, size: int, font: Seq<RawGlyphView>) -> bool
    decreases t,
{
    let small = scaled(size, SCRIPT_SCALE as int);
    &&& fits_base(t.base, size, font)
    &&& match t.sup {
        Some(s) => fits(s, small, font),
        None => true,
    }
    &&& match t.sub {
        Some(s) => fits(s, small, font),
        None => true,
    }
    &&& fits_box(term_layout(t, size, font))
}

pub open spec fn fits_base(b: BaseView, size: int, font: Seq<RawGlyphView>) -> bool
    decreases b,
{
    let part = scaled(size, FRACTION_SCALE as int);
    match b {
        BaseView::Symbol(l) => fits_number(token_width(crate::latex::command_of(l), font)),
        BaseView::Frac { num, den } => fits(num, part, font) && fits(den, part, font) && fits_box(
            base_layout(b, size, font),
        ),
        BaseView::Sqrt(r) => fits(r, size, font) && fits_box(base_layout(b, size, font)),
    }
}

/// How far a box may be moved at once.
const REACH: i64 = 0x100_0000_0000;

fn number_fits(v: i64) -> (r: bool)
    ensures
        r == fits_number(v as int),
{
    -0x8000_0000 <= v && v <= 0x7fff_ffff
}

/// A drawable, moved, if its numbers can be told in 32 bits.
fn shift_item(item: &Item, dx: i64, dy: i64) -> (r: Option<Item>)
    requires
        -REACH <= dx <= REACH,
        -REACH <= dy <= REACH,
    ensures
        match r {
            Some(moved) => moved@ == shifted_item(item@, dx as int, dy as int) && fits_item(moved@),
            None => !fits_item(shifted_item(item@, dx as int, dy as int)),
        },
{
    match item {
        Item::Text { x, y, size, s } => {
            let (a, b) = (*x as i64 + dx, *y as i64 + dy);
            if number_fits(a) && number_fits(b) {
                let t = crate::text::slice(s, 0, s.len());
                assert(t@ =~= s@);
                Some(Item::Text { x: a as i32, y: b as i32, size: *size, s: t })
            } else {
                None
            }
        },
        Item::Line { x1, y1, x2, y2, stroke } => {
            let (a, b) = (*x1 as i64 + dx, *y1 as i64 + dy);
            let (c, d) = (*x2 as i64 + dx, *y2 as i64 + dy);
            if number_fits(a) && number_fits(b) && number_fits(c) && number_fits(d) {
                Some(
                    Item::Line {
                        x1: a as i32,
                        y1: b as i32,
                        x2: c as i32,
                        y2: d as i32,
                        stroke: *stroke,
                    },
                )
            } else {
                None
            }
        },
    }
}

/// Append drawables, moved; `false` if their numbers cannot be told in 32 bits.
fn shift(out: &mut Vec<Item>, items: &Vec<Item>, dx: i64, dy: i64) -> (ok: bool)
    requires
        -REACH <= dx <= REACH,
        -REACH <= dy <= REACH,
    ensures
        ok == fits_items(shifted(item_views(items@), dx as int, dy as int)),
        ok ==> item_views(final(out)@) == item_views(old(out)@) + shifted(
            item_views(items@),
            dx as int,
            dy as int,
        ),
{
    let ghost start = item_views(out@);
    let ghost want = shifted(item_views(items@), dx as int, dy as int);
    let mut i: usize = 0;
    assert(item_views(out@) =~= start + want.take(0));
    while i < items.len()
        invariant
            i <= items.len(),
            -REACH <= dx <= REACH,
            -REACH <= dy <= REACH,
            want == shifted(item_views(items@), dx as int, dy as int),
            item_views(out@) == start + want.take(i as int),
            forall|k: int| 0 <= k < i ==> fits_item(#[trigger] want[k]),
        decreases items.len() - i,
    {
        match shift_item(&items[i], dx, dy) {
            Some(moved) => {
                proof {
                    assert(want[i as int] == moved@);
                    assert(item_views(out@.push(moved)) =~= item_views(out@).push(moved@));
                    assert(start + want.take(i + 1) =~= (start + want.take(i as int)).push(moved@));
                }
                out.push(moved);
            },
            None => {
                assert(!fits_item(want[i as int]));
                return false;
            },
        }
        i = i + 1;
    }
    assert(want.take(i as int) =~= want);
    true
}

spec fn box_views(boxes: Seq<LBox>) -> Seq<LBoxView> {
    Seq::new(boxes.len(), |i: int| boxes[i]@)
}

spec fn as_numbers(s: Seq<i32>) -> Seq<int> {
    Seq::new(s.len(), |i: int| s[i] as int)
}

proof fn lemma_fits_parts(a: Seq<ItemView>, b: Seq<ItemView>)
    ensures
        fits_items(a + b) == (fits_items(a) && fits_items(b)),
{
    if fits_items(a + b) {
        assert forall|i: int| 0 <= i < a.len() implies fits_item(#[trigger] a[i]) by {
            assert((a + b)[i] == a[i]);
        }
        assert forall|i: int| 0 <= i < b.len() implies fits_item(#[trigger] b[i]) by {
            assert((a + b)[a.len() + i] == b[i]);
        }
    }
}

proof fn lemma_run_prefix(boxes: Seq<LBoxView>, gaps: Seq<int>, base: int, n: nat, m: nat)
    requires
        n <= m,
        fits_items(run_items(boxes, gaps, base, m)),
    ensures
        fits_items(run_items(boxes, gaps, base, n)),
    decreases m,
{
    if n < m {
        lemma_fits_parts(
            run_items(boxes, gaps, base, (m - 1) as nat),
            shifted(
                boxes[m - 1].items,
                left_of(boxes, gaps, (m - 1) as nat),
                base - boxes[m - 1].baseline,
            ),
        );
        lemma_run_prefix(boxes, gaps, base, n, (m - 1) as nat);
    }
}

/// The shared baseline and depth of a run.
fn find_lines(boxes: &Vec<LBox>) -> (r: (i64, i64))
    requires
        boxes.len() > 0,
        forall|i: int| 0 <= i < boxes.len() ==> (#[trigger] boxes[i]).h >= 0,
    ensures
        r.0 == common_baseline(box_views(boxes@)),
        r.1 == common_depth(box_views(boxes@)),
        fits_number(r.0 as int),
        -0x1_0000_0000 <= r.1 <= 0x1_0000_0000,
        r.0 + r.1 >= 0,
{
    let ghost views = box_views(boxes@);
    let mut base: i64 = boxes[0].baseline as i64;
    let mut depth: i64 = boxes[0].h as i64 - boxes[0].baseline as i64;
    let mut i: usize = 1;
    assert(views.take(1)[0] == boxes[0]@);
    while i < boxes.len()
        invariant
            1 <= i <= boxes.len(),
            forall|i: int| 0 <= i < boxes.len() ==> (#[trigger] boxes[i]).h >= 0,
            views == box_views(boxes@),
            base == common_baseline(views.take(i as int)),
            depth == common_depth(views.take(i as int)),
            fits_number(base as int),
            -0x1_0000_0000 <= depth <= 0x1_0000_0000,
            base + depth >= 0,
        decreases boxes.len() - i,
    {
        proof {
            assert(views.take(i + 1).drop_last() =~= views.take(i as int));
            assert(views.take(i + 1).last() == boxes[i as int]@);
        }
        let b = boxes[i].baseline as i64;
        let d = boxes[i].h as i64 - b;
        if b > base {
            base = b;
        }
        if d > depth {
            depth = d;
        }
        i = i + 1;
    }
    assert(views.take(i as int) =~= views);
    (base, depth)
}

/// Lay out a horizontal run: boxes sit on a shared baseline, with a gap at every boundary.
fn hbox_gaps(boxes: &Vec<LBox>, gaps: &Vec<i32>) -> (r: Option<LBox>)
    requires
        boxes.len() > 0,
        gaps.len() + 1 == boxes.len(),
        forall|i: int| 0 <= i < boxes.len() ==> (#[trigger] boxes[i]).h >= 0,
    ensures
        match r {
            Some(b) => fits_run(box_views(boxes@), as_numbers(gaps@)) && b@ == run_layout(
                box_views(boxes@),
                as_numbers(gaps@),
            ) && b.w >= 0 && b.h >= 0,
            None => !fits_run(box_views(boxes@), as_numbers(gaps@)),
        },
{
    let ghost views = box_views(boxes@);
    let ghost air = as_numbers(gaps@);
    let (base, depth) = find_lines(boxes);
    let mut items: Vec<Item> = Vec::new();
    let mut x: i64 = 0;
    let mut i: usize = 0;
    assert(item_views(items@) =~= run_items(views, air, base as int, 0));
    while i < boxes.len()
        invariant
            i <= boxes.len(),
            gaps.len() + 1 == boxes.len(),
            views == box_views(boxes@),
            air == as_numbers(gaps@),
            base == common_baseline(views),
            fits_number(base as int),
            x == left_of(views, air, i as nat),
            forall|n: nat| n <= i ==> fits_number(#[trigger] left_of(views, air, n)),
            item_views(items@) == run_items(views, air, base as int, i as nat),
            fits_items(run_items(views, air, base as int, i as nat)),
        decreases boxes.len() - i,
    {
        let b = &boxes[i];
        assert(views[i as int] == b@);
        let ghost before = item_views(items@);
        let ghost own = shifted(b@.items, x as int, base - b.baseline);
        assert(fits_number(left_of(views, air, i as nat)));
        let ok = shift(&mut items, &b.items, x, base - b.baseline as i64);
        proof {
            lemma_fits_parts(before, own);
            assert(run_items(views, air, base as int, (i + 1) as nat) == before + own);
        }
        if !ok {
            proof {
                if fits_run(views, air) {
                    lemma_run_prefix(views, air, base as int, (i + 1) as nat, views.len());
                }
            }
            return None;
        }
        let gap: i64 = if i + 1 < boxes.len() {
            gaps[i] as i64
        } else {
            0
        };
        x = x + b.w as i64 + gap;
        assert(x == left_of(views, air, (i + 1) as nat));
        if !number_fits(x) {
            return None;
        }
        i = i + 1;
    }
    let h = base + depth;
    let w: i64 = if x >= 0 {
        x
    } else {
        0
    };
    if !number_fits(h) {
        return None;
    }
    Some(LBox { w: w as i32, h: h as i32, baseline: base as i32, items })
}

proof fn lemma_scale_range(v: int, factor: int)
    requires
        0 <= v,
        0 <= factor <= 1000,
    ensures
        0 <= scaled(v, factor) <= v,
{
    assert(0 <= v * factor <= v * 1000) by (nonlinear_arith)
        requires
            0 <= v,
            0 <= factor <= 1000,
    ;
}

/// Set numerator and denominator above and below a bar.
fn set_fraction(n: &LBox, d: &LBox, size: i32) -> (r: Option<LBox>)
    requires
        0 <= size <= 1000,
        n.w >= 0,
        n.h >= 0,
        d.w >= 0,
        d.h >= 0,
    ensures
        match r {
            Some(b) => fits_box(b@) && b@ == fraction_layout(n@, d@, size as int) && b.h >= 0,
            None => !fits_box(fraction_layout(n@, d@, size as int)),
        },
{
    let ghost want = fraction_layout(n@, d@, size as int);
    let widest: i64 = if n.w >= d.w {
        n.w as i64
    } else {
        d.w as i64
    };
    let w: i64 = widest + scale(200, size) as i64;
    let bar: i64 = scale(RULE, size) as i64;
    let gap: i64 = scale(120, size) as i64;
    let y: i64 = n.h as i64 + gap + bar / 2;
    let under: i64 = n.h as i64 + gap + bar + gap;
    let h: i64 = under + d.h as i64;
    let baseline: i64 = y + scale(300, size) as i64;
    let mut items: Vec<Item> = Vec::new();
    let ghost first = shifted(n@.items, (w - n.w) / 2, 0);
    let ghost rule = ItemView::Line {
        x1: 0,
        y1: y as int,
        x2: w as int,
        y2: y as int,
        stroke: bar as int,
    };
    let ghost last = shifted(d@.items, (w - d.w) / 2, under as int);
    proof {
        assert(item_views(items@) =~= Seq::<ItemView>::empty());
        assert(want.items == first.push(rule) + last);
        assert(first.push(rule) =~= first + seq![rule]);
        lemma_fits_parts(first.push(rule), last);
        lemma_fits_parts(first, seq![rule]);
        assert(fits_items(seq![rule]) ==> fits_item(seq![rule][0]));
    }
    if !shift(&mut items, &n.items, (w - n.w as i64) / 2, 0) {
        return None;
    }
    assert(item_views(items@) =~= first);
    if !number_fits(w) || !number_fits(h) || !number_fits(baseline) {
        return None;
    }
    let line = Item::Line {
        x1: 0,
        y1: y as i32,
        x2: w as i32,
        y2: y as i32,
        stroke: bar as i32,
    };
    let ghost had = items@;
    items.push(line);
    proof {
        assert(item_views(items@) =~= item_views(had).push(line@));
        assert(line@ == rule);
        assert(fits_item(rule));
        assert(fits_items(seq![rule]));
    }
    if !shift(&mut items, &d.items, (w - d.w as i64) / 2, under) {
        return None;
    }
    Some(LBox { w: w as i32, h: h as i32, baseline: baseline as i32, items })
}

/// Set a radicand under its radical.
fn set_radical(c: &LBox, size: i32) -> (r: Option<LBox>)
    requires
        0 <= size <= 1000,
        c.w >= 0,
        c.h >= 0,
    ensures
        match r {
            Some(b) => fits_box(b@) && b@ == radical_layout(c@, size as int) && b.h >= 0,
            None => !fits_box(radical_layout(c@, size as int)),
        },
{
    let ghost want = radical_layout(c@, size as int);
    let tick = scale(450, size);
    let bar = scale(RULE, size);
    let drop: i64 = bar as i64 + scale(60, size) as i64;
    let w: i64 = tick as i64 + c.w as i64 + scale(150, size) as i64;
    let h: i64 = c.h as i64 + drop;
    let baseline: i64 = c.baseline as i64 + drop;
    let end: i64 = tick as i64 + c.w as i64 + scale(100, size) as i64;
    let knee: i64 = c.h as i64 * 6 / 10;
    let ghost lines = seq![
        ItemView::Line {
            x1: 0,
            y1: knee as int,
            x2: tick as int / 2,
            y2: c.h as int,
            stroke: bar as int,
        },
        ItemView::Line {
            x1: tick as int / 2,
            y1: c.h as int,
            x2: tick as int,
            y2: bar as int / 2,
            stroke: bar as int,
        },
        ItemView::Line {
            x1: tick as int,
            y1: bar as int / 2,
            x2: end as int,
            y2: bar as int / 2,
            stroke: bar as int,
        },
    ];
    let ghost inner = shifted(c@.items, tick + scaled(50, size as int), drop as int);
    proof {
        assert(want.items == lines + inner);
        lemma_fits_parts(lines, inner);
        assert(fits_items(lines) ==> fits_item(lines[2]));
    }
    if !number_fits(w) || !number_fits(h) || !number_fits(baseline) || !number_fits(end) {
        return None;
    }
    let mut items: Vec<Item> = Vec::new();
    items.push(Item::Line { x1: 0, y1: knee as i32, x2: tick / 2, y2: c.h, stroke: bar });
    items.push(Item::Line { x1: tick / 2, y1: c.h, x2: tick, y2: bar / 2, stroke: bar });
    items.push(Item::Line { x1: tick, y1: bar / 2, x2: end as i32, y2: bar / 2, stroke: bar });
    assert(item_views(items@) =~= lines);
    if !shift(&mut items, &c.items, tick as i64 + scale(50, size) as i64, drop) {
        return None;
    }
    Some(LBox { w: w as i32, h: h as i32, baseline: baseline as i32, items })
}

spec fn script_view(s: Option<LBox>) -> Option<LBoxView> {
    match s {
        Some(b) => Some(b@),
        None => None,
    }
}

/// Set the scripts of a base at its right.
fn set_scripts(base: &LBox, sup: &Option<LBox>, sub: &Option<LBox>, size: i32) -> (r: Option<LBox>)
    requires
        0 <= size <= 1000,
        base.h >= 0,
    ensures
        match r {
            Some(b) => fits_box(b@) && b@ == scripted_layout(
                base@,
                script_view(*sup),
                script_view(*sub),
                size as int,
            ) && b.h >= 0,
            None => !fits_box(
                scripted_layout(base@, script_view(*sup), script_view(*sub), size as int),
            ),
        },
{
    let ghost want = scripted_layout(base@, script_view(*sup), script_view(*sub), size as int);
    let x: i64 = base.w as i64 + scale(40, size) as i64;
    let mut w: i64 = base.w as i64;
    let mut top: i64 = 0;
    let mut up: i64 = 0;
    if let Some(s) = sup {
        up = base.baseline as i64 - scale(450, size) as i64 - s.baseline as i64;
        if -up > top {
            top = -up;
        }
        if x + s.w as i64 > w {
            w = x + s.w as i64;
        }
    }
    let mut down: i64 = 0;
    let mut bottom: i64 = 0;
    if let Some(s) = sub {
        down = base.baseline as i64 + scale(250, size) as i64 - s.baseline as i64;
        if down + s.h as i64 - base.h as i64 > bottom {
            bottom = down + s.h as i64 - base.h as i64;
        }
        if x + s.w as i64 > w {
            w = x + s.w as i64;
        }
    }
    let h: i64 = base.h as i64 + top + bottom;
    let baseline: i64 = base.baseline as i64 + top;
    let ghost own = shifted(base@.items, 0, top as int);
    let ghost above = match script_view(*sup) {
        Some(s) => shifted(s.items, x as int, up + top),
        None => Seq::empty(),
    };
    let ghost below = match script_view(*sub) {
        Some(s) => shifted(s.items, x as int, down + top),
        None => Seq::empty(),
    };
    proof {
        assert(want.items == own + above + below);
        lemma_fits_parts(own + above, below);
        lemma_fits_parts(own, above);
    }
    if !number_fits(w) || !number_fits(h) || !number_fits(baseline) {
        return None;
    }
    let mut items: Vec<Item> = Vec::new();
    assert(item_views(items@) =~= Seq::<ItemView>::empty());
    if !shift(&mut items, &base.items, 0, top) {
        return None;
    }
    assert(item_views(items@) =~= own);
    if let Some(s) = sup {
        if !shift(&mut items, &s.items, x, up + top) {
            return None;
        }
    }
    assert(item_views(items@) =~= own + above);
    if let Some(s) = sub {
        if !shift(&mut items, &s.items, x, down + top) {
            return None;
        }
    }
    assert(item_views(items@) =~= own + above + below);
    Some(LBox { w: w as i32, h: h as i32, baseline: baseline as i32, items })
}

proof fn lemma_fits_prefix(terms: Seq<TermView>, n: int, size: int, font: Seq<RawGlyphView>)
    requires
        0 <= n <= terms.len(),
        fits_terms(terms, size, font),
    ensures
        fits_terms(terms.take(n), size, font),
    decreases terms.len(),
{
    if n < terms.len() {
        assert(terms.drop_last().take(n) =~= terms.take(n));
        lemma_fits_prefix(terms.drop_last(), n, size, font);
    } else {
        assert(terms.take(n) =~= terms);
    }
}

/// The gaps between terms.
fn find_gaps(terms: &Vec<Term>, size: i32) -> (r: Vec<i32>)
    requires
        terms.len() > 0,
        0 <= size <= 1000,
    ensures
        as_numbers(r@) == gaps_of(crate::structure::terms_view(terms@), size as int),
{
    let ghost views = crate::structure::terms_view(terms@);
    let ghost want = gaps_of(views, size as int);
    let mut out: Vec<i32> = Vec::new();
    let mut i: usize = 0;
    proof {
        crate::structure::lemma_terms_view(terms@);
        assert(as_numbers(out@) =~= want.take(0));
    }
    while i + 1 < terms.len()
        invariant
            i + 1 <= terms.len(),
            0 <= size <= 1000,
            views == crate::structure::terms_view(terms@),
            views.len() == terms.len(),
            forall|i: int| 0 <= i < terms.len() ==> #[trigger] views[i] == terms[i]@,
            want == gaps_of(views, size as int),
            as_numbers(out@) == want.take(i as int),
        decreases terms.len() - i,
    {
        let g = scale(90 + spacing_class(&terms[i]) + spacing_class(&terms[i + 1]), size);
        proof {
            assert(views[i as int] == terms[i as int]@ && views[i + 1] == terms[i + 1]@);
            assert(want[i as int] == g);
            assert(as_numbers(out@.push(g)) =~= as_numbers(out@).push(g as int));
            assert(want.take(i + 1) =~= want.take(i as int).push(g as int));
        }
        out.push(g);
        i = i + 1;
    }
    assert(want.take(i as int) =~= want);
    out
}

/// Lay out a tree at the given size; `None` if a number cannot be told in 32 bits.
fn layout_slt(slt: &Slt, size: i32, font: &Font) -> (r: Option<LBox>)
    requires
        0 <= size <= 1000,
    ensures
        match r {
            Some(b) => fits(slt@, size as int, font@) && b@ == layout_of(
                slt@,
                size as int,
                font@,
            ) && b.w >= 0 && b.h >= 0,
            None => !fits(slt@, size as int, font@),
        },
    decreases slt,
{
    let ghost views = crate::structure::terms_view(slt.terms@);
    proof {
        crate::structure::lemma_terms_view(slt.terms@);
    }
    if slt.terms.len() == 0 {
        let blank = chars_of(" ");
        proof {
            reveal_strlit(" ");
            lemma_run_width(" "@, font@, size as int);
        }
        return text_box(&blank, size, font);
    }
    let mut boxes: Vec<LBox> = Vec::new();
    let mut i: usize = 0;
    assert(box_views(boxes@) =~= layouts_of(views.take(0), size as int, font@));
    while i < slt.terms.len()
        invariant
            i <= slt.terms.len(),
            0 <= size <= 1000,
            views == crate::structure::terms_view(slt.terms@),
            views.len() == slt.terms.len(),
            forall|i: int| 0 <= i < slt.terms.len() ==> #[trigger] views[i] == slt.terms[i]@,
            boxes.len() == i,
            box_views(boxes@) == layouts_of(views.take(i as int), size as int, font@),
            fits_terms(views.take(i as int), size as int, font@),
            forall|k: int| 0 <= k < boxes.len() ==> (#[trigger] boxes[k]).h >= 0,
        decreases slt.terms.len() - i,
    {
        assert(decreases_to!(slt => slt.terms@[i as int]));
        proof {
            assert(views.take(i + 1).drop_last() =~= views.take(i as int));
            assert(views.take(i + 1).last() == slt.terms[i as int]@);
        }
        match layout_term(&slt.terms[i], size, font) {
            Some(b) => {
                assert(box_views(boxes@.push(b)) =~= box_views(boxes@).push(b@));
                boxes.push(b);
            },
            None => {
                proof {
                    if fits_terms(views, size as int, font@) {
                        lemma_fits_prefix(views, i + 1, size as int, font@);
                    }
                }
                return None;
            },
        }
        i = i + 1;
    }
    assert(views.take(i as int) =~= views);
    let gaps = find_gaps(&slt.terms, size);
    assert(gaps_of(views, size as int).len() == views.len() - 1);
    assert(as_numbers(gaps@).len() == gaps.len());
    hbox_gaps(&boxes, &gaps)
}

/// A run of characters has a width that is not negative.
proof fn lemma_run_width(s: Seq<char>, font: Seq<RawGlyphView>, size: int)
    requires
        !is_command(s),
        0 <= size <= 1000,
    ensures
        scaled(token_width(s, font), size) >= 0,
{
    lemma_scale_range(token_width(s, font), size);
}

/// Lay out a term.
fn layout_term(t: &Term, size: i32, font: &Font) -> (r: Option<LBox>)
    requires
        0 <= size <= 1000,
    ensures
        match r {
            Some(b) => fits_term(t@, size as int, font@) && b@ == term_layout(
                t@,
                size as int,
                font@,
            ) && b.h >= 0,
            None => !fits_term(t@, size as int, font@),
        },
    decreases t,
{
    let base = match layout_base(&t.base, size, font) {
        Some(b) => b,
        None => {
            return None;
        },
    };
    let small = scale(size, SCRIPT_SCALE);
    let sup: Option<LBox> = match &t.sup {
        Some(s) => match layout_slt(s, small, font) {
            Some(b) => Some(b),
            None => {
                return None;
            },
        },
        None => None,
    };
    let sub: Option<LBox> = match &t.sub {
        Some(s) => match layout_slt(s, small, font) {
            Some(b) => Some(b),
            None => {
                return None;
            },
        },
        None => None,
    };
    set_scripts(&base, &sup, &sub, size)
}

/// Lay out a term without its scripts.
fn layout_base(b: &Base, size: i32, font: &Font) -> (r: Option<LBox>)
    requires
        0 <= size <= 1000,
    ensures
        match r {
            Some(l) => fits_base(b@, size as int, font@) && l@ == base_layout(
                b@,
                size as int,
                font@,
            ) && l.h >= 0,
            None => !fits_base(b@, size as int, font@),
        },
    decreases b,
{
    match b {
        Base::Symbol(l) => text_box(&display(l), size, font),
        Base::Frac { num, den } => {
            let part = scale(size, FRACTION_SCALE);
            let n = match layout_slt(num, part, font) {
                Some(n) => n,
                None => {
                    return None;
                },
            };
            let d = match layout_slt(den, part, font) {
                Some(d) => d,
                None => {
                    return None;
                },
            };
            set_fraction(&n, &d, size)
        },
        Base::Sqrt(inner) => {
            let c = match layout_slt(inner, size, font) {
                Some(c) => c,
                None => {
                    return None;
                },
            };
            set_radical(&c, size)
        },
    }
}

// ---------------------------------------------------------------------------------------------
// SVG
// ---------------------------------------------------------------------------------------------
/// A character as it stands in markup.
pub open spec fn escaped_char(c: char) -> Seq<char> {
    if c == '&' {
        "&amp;"@
    } else if c == '<' {
        "&lt;"@
    } else if c == '>' {
        "&gt;"@
    } else {
        seq![c]
    }
}

/// Text as it stands in markup.
pub open spec fn escaped(s: Seq<char>) -> Seq<char>
    decreases s.len(),
{
    if s.len() == 0 {
        Seq::empty()
    } else {
        escaped(s.drop_last()) + escaped_char(s.last())
    }
}

/// An attribute with a number.
pub open spec fn attribute(name: Seq<char>, v: int) -> Seq<char> {
    name + "=\""@ + crate::text::signed_decimal(v) + "\""@
}

/// The element for a drawable, with the margin added.
pub open spec fn element(item: ItemView) -> Seq<char> {
    match item {
        ItemView::Text { x, y, size, s } => "<text "@ + attribute("x"@, x + PAD) + " "@ + attribute(
            "y"@,
            y + PAD,
        ) + " "@ + attribute("font-size"@, size) + ">"@ + escaped(s) + "</text>"@,
        ItemView::Line { x1, y1, x2, y2, stroke } => "<line "@ + attribute("x1"@, x1 + PAD) + " "@
            + attribute("y1"@, y1 + PAD) + " "@ + attribute("x2"@, x2 + PAD) + " "@ + attribute(
            "y2"@,
            y2 + PAD,
        ) + " stroke=\"currentColor\" "@ + attribute("stroke-width"@, stroke) + "/>"@,
    }
}

/// The elements for the first `n` drawables.
pub open spec fn elements(items: Seq<ItemView>, n: nat) -> Seq<char>
    decreases n,
{
    if n == 0 {
        Seq::empty()
    } else {
        elements(items, (n - 1) as nat) + element(items[n - 1])
    }
}

/// The SVG document for a box, with a margin on each side.
pub open spec fn svg_of(b: LBoxView) -> Seq<char> {
    "<svg xmlns=\"http://www.w3.org/2000/svg\" viewBox=\"0 0 "@ + crate::text::signed_decimal(
        b.w + 2 * PAD,
    ) + " "@ + crate::text::signed_decimal(b.h + 2 * PAD) + "\" font-family=\"serif\">"@
        + elements(b.items, b.items.len()) + "</svg>"@
}

fn push_escaped(out: &mut Vec<char>, s: &Vec<char>)
    ensures
        final(out)@ == old(out)@ + escaped(s@),
{
    let ghost start = out@;
    let mut i: usize = 0;
    assert(out@ =~= start + escaped(s@.take(0)));
    while i < s.len()
        invariant
            i <= s.len(),
            out@ == start + escaped(s@.take(i as int)),
        decreases s.len() - i,
    {
        let c = s[i];
        assert(s@.take(i + 1).drop_last() =~= s@.take(i as int));
        if c == '&' {
            append(out, "&amp;");
        } else if c == '<' {
            append(out, "&lt;");
        } else if c == '>' {
            append(out, "&gt;");
        } else {
            out.push(c);
        }
        assert(out@ =~= start + escaped(s@.take(i + 1)));
        i = i + 1;
    }
    assert(s@.take(i as int) =~= s@);
}

fn push_attribute(out: &mut Vec<char>, name: &str, v: i64)
    requires
        v > i64::MIN,
    ensures
        final(out)@ == old(out)@ + attribute(name@, v as int),
{
    append(out, name);
    append(out, "=\"");
    push_signed(out, v);
    append(out, "\"");
    assert(out@ =~= old(out)@ + attribute(name@, v as int));
}

fn push_element(out: &mut Vec<char>, item: &Item)
    ensures
        final(out)@ == old(out)@ + element(item@),
{
    let pad: i64 = PAD as i64;
    match item {
        Item::Text { x, y, size, s } => {
            append(out, "<text ");
            push_attribute(out, "x", *x as i64 + pad);
            append(out, " ");
            push_attribute(out, "y", *y as i64 + pad);
            append(out, " ");
            push_attribute(out, "font-size", *size as i64);
            append(out, ">");
            push_escaped(out, s);
            append(out, "</text>");
        },
        Item::Line { x1, y1, x2, y2, stroke } => {
            append(out, "<line ");
            push_attribute(out, "x1", *x1 as i64 + pad);
            append(out, " ");
            push_attribute(out, "y1", *y1 as i64 + pad);
            append(out, " ");
            push_attribute(out, "x2", *x2 as i64 + pad);
            append(out, " ");
            push_attribute(out, "y2", *y2 as i64 + pad);
            append(out, " stroke=\"currentColor\" ");
            push_attribute(out, "stroke-width", *stroke as i64);
            append(out, "/>");
        },
    }
    assert(out@ =~= old(out)@ + element(item@));
}

fn render(b: &LBox) -> (r: String)
    ensures
        r@ == svg_of(b@),
{
    let pad: i64 = PAD as i64;
    let mut out: Vec<char> = Vec::new();
    append(&mut out, "<svg xmlns=\"http://www.w3.org/2000/svg\" viewBox=\"0 0 ");
    push_signed(&mut out, b.w as i64 + 2 * pad);
    append(&mut out, " ");
    push_signed(&mut out, b.h as i64 + 2 * pad);
    append(&mut out, "\" font-family=\"serif\">");
    let ghost head = out@;
    let mut i: usize = 0;
    assert(out@ =~= head + elements(b@.items, 0));
    while i < b.items.len()
        invariant
            i <= b.items.len(),
            out@ == head + elements(b@.items, i as nat),
        decreases b.items.len() - i,
    {
        push_element(&mut out, &b.items[i]);
        assert(out@ =~= head + elements(b@.items, (i + 1) as nat));
        i = i + 1;
    }
    append(&mut out, "</svg>");
    assert(out@ =~= svg_of(b@));
    text_of(&out)
}

/// Render a tree as a self-contained SVG document.
pub fn to_svg(slt: &Slt, font: &Font) -> (r: String)
    requires
        fits(slt@, EM as int, font@),
    ensures
        r@ == svg_of(layout_of(slt@, EM as int, font@)),
{
    match layout_slt(slt, EM, font) {
        Some(b) => render(&b),
        None => String::new(),
    }
}

/// Render a tree as an SVG document, if the layout's numbers can be told in 32 bits.
pub fn checked_svg(slt: &Slt, font: &Font) -> (r: Option<String>)
    ensures
        match r {
            Some(text) => fits(slt@, EM as int, font@) && text@ == svg_of(
                layout_of(slt@, EM as int, font@),
            ),
            None => !fits(slt@, EM as int, font@),
        },
{
    match layout_slt(slt, EM, font) {
        Some(b) => Some(render(&b)),
        None => None,
    }
}

// ---------------------------------------------------------------------------------------------
// Strokes
// ---------------------------------------------------------------------------------------------
/// A typeset expression as pen polylines, in the plan's own coordinates (thousandths of an em,
/// `y` down).
pub struct StrokePlan {
    pub polylines: Vec<Vec<(F32, F32)>>,
    pub w: F32,
    pub h: F32,
    /// Tokens without a glyph. They were skipped and leave their advance as a gap.
    pub missing: Vec<String>,
}

/// What a [`StrokePlan`] holds.
#[verifier::ext_equal]
pub struct PlanView {
    pub polylines: Seq<Seq<(F32, F32)>>,
    pub w: F32,
    pub h: F32,
    pub missing: Seq<Seq<char>>,
}

impl View for StrokePlan {
    type V = PlanView;

    open spec fn view(&self) -> PlanView {
        PlanView {
            polylines: crate::glyphs::nested(self.polylines@),
            w: self.w,
            h: self.h,
            missing: crate::text::text_views(self.missing@),
        }
    }
}

/// A point of a glyph on the page: the pen stands at `x` on the baseline `y`, at scale `k`.
pub open spec fn inked_point(p: (F32, F32), x: F32, y: F32, k: F32) -> (F32, F32) {
    (x.plus(p.0.times(k)), y.plus(p.1.minus(num(GLYPH_BASELINE)).times(k)))
}

pub open spec fn inked(pl: Seq<(F32, F32)>, x: F32, y: F32, k: F32) -> Seq<(F32, F32)> {
    Seq::new(pl.len(), |i: int| inked_point(pl[i], x, y, k))
}

/// Where the pen stands after the first `n` parts of a token.
pub open spec fn pen_after(
    units: Seq<Seq<char>>,
    n: nat,
    x: F32,
    k: F32,
    font: Seq<RawGlyphView>,
) -> F32
    decreases n,
{
    if n == 0 {
        x
    } else {
        let advance = match crate::glyphs::glyph_of(units[n - 1], font) {
            Some(g) => g.advance,
            None => num(GLYPH_GAP),
        };
        pen_after(units, (n - 1) as nat, x, k, font).plus(advance.times(k))
    }
}

/// The polylines of the first `n` parts of a token.
pub open spec fn unit_lines(
    units: Seq<Seq<char>>,
    n: nat,
    x: F32,
    y: F32,
    k: F32,
    font: Seq<RawGlyphView>,
) -> Seq<Seq<(F32, F32)>>
    decreases n,
{
    if n == 0 {
        Seq::empty()
    } else {
        let pen = pen_after(units, (n - 1) as nat, x, k, font);
        unit_lines(units, (n - 1) as nat, x, y, k, font) + match crate::glyphs::glyph_of(
            units[n - 1],
            font,
        ) {
            Some(g) => Seq::new(g.polylines.len(), |i: int| inked(g.polylines[i], pen, y, k)),
            None => Seq::empty(),
        }
    }
}

/// Those of the first `n` parts of a token that have no glyph.
pub open spec fn unit_gaps(units: Seq<Seq<char>>, n: nat, font: Seq<RawGlyphView>) -> Seq<Seq<char>>
    decreases n,
{
    if n == 0 {
        Seq::empty()
    } else {
        let before = unit_gaps(units, (n - 1) as nat, font);
        if crate::glyphs::glyph_of(units[n - 1], font) is None {
            before.push(units[n - 1])
        } else {
            before
        }
    }
}

/// The polylines of a drawable.
pub open spec fn item_lines(item: ItemView, font: Seq<RawGlyphView>) -> Seq<Seq<(F32, F32)>> {
    match item {
        ItemView::Text { x, y, size, s } => unit_lines(
            token_units(s),
            token_units(s).len(),
            crate::float::convert::of_int(x),
            crate::float::convert::of_int(y),
            crate::float::convert::of_int(size).over(num(THOUSAND)),
            font,
        ),
        ItemView::Line { x1, y1, x2, y2, stroke } => seq![
            seq![
                (crate::float::convert::of_int(x1), crate::float::convert::of_int(y1)),
                (crate::float::convert::of_int(x2), crate::float::convert::of_int(y2)),
            ],
        ],
    }
}

/// The parts of a drawable that have no glyph.
pub open spec fn item_gaps(item: ItemView, font: Seq<RawGlyphView>) -> Seq<Seq<char>> {
    match item {
        ItemView::Text { x, y, size, s } => unit_gaps(
            token_units(s),
            token_units(s).len(),
            font,
        ),
        _ => Seq::empty(),
    }
}

/// The polylines of the first `n` drawables.
pub open spec fn plan_lines(items: Seq<ItemView>, n: nat, font: Seq<RawGlyphView>) -> Seq<
    Seq<(F32, F32)>,
>
    decreases n,
{
    if n == 0 {
        Seq::empty()
    } else {
        plan_lines(items, (n - 1) as nat, font) + item_lines(items[n - 1], font)
    }
}

/// The parts of the first `n` drawables that have no glyph.
pub open spec fn plan_gaps(items: Seq<ItemView>, n: nat, font: Seq<RawGlyphView>) -> Seq<Seq<char>>
    decreases n,
{
    if n == 0 {
        Seq::empty()
    } else {
        plan_gaps(items, (n - 1) as nat, font) + item_gaps(items[n - 1], font)
    }
}

/// A box grown to hold a point.
pub open spec fn widened(b: BBox, p: (F32, F32)) -> BBox {
    BBox {
        min_x: b.min_x.min(p.0),
        min_y: b.min_y.min(p.1),
        max_x: b.max_x.max(p.0),
        max_y: b.max_y.max(p.1),
    }
}

pub open spec fn polyline_box(b: BBox, pl: Seq<(F32, F32)>) -> BBox
    decreases pl.len(),
{
    if pl.len() == 0 {
        b
    } else {
        widened(polyline_box(b, pl.drop_last()), pl.last())
    }
}

/// The box of all polylines.
pub open spec fn ink_box(polylines: Seq<Seq<(F32, F32)>>) -> BBox
    decreases polylines.len(),
{
    if polylines.len() == 0 {
        crate::stroke::void_box()
    } else {
        polyline_box(ink_box(polylines.drop_last()), polylines.last())
    }
}

/// A polyline, moved so that `(x, y)` becomes the origin.
pub open spec fn moved(pl: Seq<(F32, F32)>, x: F32, y: F32) -> Seq<(F32, F32)> {
    Seq::new(pl.len(), |i: int| (pl[i].0.minus(x), pl[i].1.minus(y)))
}

/// The plan for traced polylines: moved to the box of the ink, and of its size. Without an extent
/// in both directions the size is the given one.
pub open spec fn framed(polylines: Seq<Seq<(F32, F32)>>, w: F32, h: F32) -> (
    Seq<Seq<(F32, F32)>>,
    F32,
    F32,
) {
    let b = ink_box(polylines);
    if b.max_x.gt(b.min_x) && b.max_y.gt(b.min_y) {
        (
            Seq::new(polylines.len(), |i: int| moved(polylines[i], b.min_x, b.min_y)),
            b.max_x.minus(b.min_x),
            b.max_y.minus(b.min_y),
        )
    } else {
        (polylines, w, h)
    }
}

/// The plan for a box.
pub open spec fn plan_of(b: LBoxView, font: Seq<RawGlyphView>) -> PlanView {
    let (polylines, w, h) = framed(
        plan_lines(b.items, b.items.len(), font),
        crate::float::convert::of_int(b.w),
        crate::float::convert::of_int(b.h),
    );
    PlanView { polylines, w, h, missing: plan_gaps(b.items, b.items.len(), font) }
}

fn ink_polyline(pl: &Vec<(F32, F32)>, x: F32, y: F32, k: F32) -> (r: Vec<(F32, F32)>)
    ensures
        r@ == inked(pl@, x, y, k),
{
    let mut out: Vec<(F32, F32)> = Vec::new();
    let mut i: usize = 0;
    while i < pl.len()
        invariant
            i <= pl.len(),
            out@ == inked(pl@, x, y, k).take(i as int),
        decreases pl.len() - i,
    {
        let (px, py) = pl[i];
        out.push((x.plus(px.times(k)), y.plus(py.minus(num(GLYPH_BASELINE)).times(k))));
        i = i + 1;
    }
    assert(inked(pl@, x, y, k).take(i as int) =~= inked(pl@, x, y, k));
    out
}

/// Trace the glyph's polylines from where the pen stands.
fn ink_glyph(out: &mut Vec<Vec<(F32, F32)>>, lines: &Vec<Vec<(F32, F32)>>, x: F32, y: F32, k: F32)
    ensures
        crate::glyphs::nested(final(out)@) == crate::glyphs::nested(old(out)@) + Seq::new(
            lines@.len(),
            |i: int| inked(crate::glyphs::nested(lines@)[i], x, y, k),
        ),
{
    let ghost start = crate::glyphs::nested(out@);
    let ghost want = Seq::new(
        lines@.len(),
        |i: int| inked(crate::glyphs::nested(lines@)[i], x, y, k),
    );
    let mut i: usize = 0;
    assert(crate::glyphs::nested(out@) =~= start + want.take(0));
    while i < lines.len()
        invariant
            i <= lines.len(),
            want == Seq::new(
                lines@.len(),
                |i: int| inked(crate::glyphs::nested(lines@)[i], x, y, k),
            ),
            crate::glyphs::nested(out@) == start + want.take(i as int),
        decreases lines.len() - i,
    {
        let pl = ink_polyline(&lines[i], x, y, k);
        proof {
            crate::glyphs::lemma_nested_push(out@, pl);
            assert(want[i as int] == pl@);
            assert(start + want.take(i + 1) =~= (start + want.take(i as int)).push(pl@));
        }
        out.push(pl);
        i = i + 1;
    }
    assert(want.take(i as int) =~= want);
}

/// Trace a token. Runs of several characters advance glyph by glyph.
fn ink_text(
    out: &mut Vec<Vec<(F32, F32)>>,
    missing: &mut Vec<String>,
    s: &Vec<char>,
    x: F32,
    y: F32,
    k: F32,
    font: &Font,
)
    ensures
        crate::glyphs::nested(final(out)@) == crate::glyphs::nested(old(out)@) + unit_lines(
            token_units(s@),
            token_units(s@).len(),
            x,
            y,
            k,
            font@,
        ),
        crate::text::text_views(final(missing)@) == crate::text::text_views(old(missing)@) + unit_gaps(
            token_units(s@),
            token_units(s@).len(),
            font@,
        ),
{
    let ghost lines0 = crate::glyphs::nested(out@);
    let ghost gaps0 = crate::text::text_views(missing@);
    let ghost views = token_units(s@);
    let units = find_units(s);
    let mut pen: F32 = x;
    let mut i: usize = 0;
    proof {
        assert(crate::glyphs::nested(out@) =~= lines0 + unit_lines(views, 0, x, y, k, font@));
        assert(crate::text::text_views(missing@) =~= gaps0 + unit_gaps(views, 0, font@));
    }
    while i < units.len()
        invariant
            i <= units.len(),
            views == crate::text::line_views(units@),
            pen == pen_after(views, i as nat, x, k, font@),
            crate::glyphs::nested(out@) == lines0 + unit_lines(views, i as nat, x, y, k, font@),
            crate::text::text_views(missing@) == gaps0 + unit_gaps(views, i as nat, font@),
        decreases units.len() - i,
    {
        let u = &units[i];
        let ghost had = crate::glyphs::nested(out@);
        assert(views[i as int] == u@);
        match trace(u, font) {
            Some(g) => {
                ink_glyph(out, &g.polylines, pen, y, k);
                pen = pen.plus(g.advance.times(k));
                proof {
                    let own = Seq::new(
                        g@.polylines.len(),
                        |j: int|
                            inked(
                                g@.polylines[j],
                                pen_after(views, i as nat, x, k, font@),
                                y,
                                k,
                            ),
                    );
                    assert(crate::glyphs::nested(out@) =~= had + own);
                    assert(unit_lines(views, (i + 1) as nat, x, y, k, font@) =~= unit_lines(
                        views,
                        i as nat,
                        x,
                        y,
                        k,
                        font@,
                    ) + own);
                    assert(crate::glyphs::nested(out@) =~= lines0 + unit_lines(
                        views,
                        (i + 1) as nat,
                        x,
                        y,
                        k,
                        font@,
                    ));
                }
            },
            None => {
                let name = text_of(u);
                proof {
                    assert(crate::text::text_views(missing@.push(name)) =~= crate::text::text_views(missing@).push(name@));
                    assert(gaps0 + unit_gaps(views, (i + 1) as nat, font@) =~= (gaps0 + unit_gaps(
                        views,
                        i as nat,
                        font@,
                    )).push(u@));
                    assert(unit_lines(views, (i + 1) as nat, x, y, k, font@) =~= unit_lines(
                        views,
                        i as nat,
                        x,
                        y,
                        k,
                        font@,
                    ));
                }
                missing.push(name);
                pen = pen.plus(num(GLYPH_GAP).times(k));
            },
        }
        i = i + 1;
    }
}

/// Trace a drawable.
fn ink_item(
    out: &mut Vec<Vec<(F32, F32)>>,
    missing: &mut Vec<String>,
    item: &Item,
    font: &Font,
)
    ensures
        crate::glyphs::nested(final(out)@) == crate::glyphs::nested(old(out)@) + item_lines(
            item@,
            font@,
        ),
        crate::text::text_views(final(missing)@) == crate::text::text_views(old(missing)@) + item_gaps(item@, font@),
{
    match item {
        Item::Text { x, y, size, s } => {
            let k = F32::from_i32(*size).over(num(THOUSAND));
            ink_text(out, missing, s, F32::from_i32(*x), F32::from_i32(*y), k, font);
        },
        Item::Line { x1, y1, x2, y2, .. } => {
            let mut pl: Vec<(F32, F32)> = Vec::new();
            pl.push((F32::from_i32(*x1), F32::from_i32(*y1)));
            pl.push((F32::from_i32(*x2), F32::from_i32(*y2)));
            proof {
                crate::glyphs::lemma_nested_push(out@, pl);
                assert(item_lines(item@, font@) =~~= seq![pl@]);
                assert(crate::glyphs::nested(out@) + seq![pl@] =~= crate::glyphs::nested(out@).push(
                    pl@,
                ));
                assert(crate::text::text_views(missing@) + Seq::<Seq<char>>::empty() =~= crate::text::text_views(missing@));
            }
            out.push(pl);
        },
    }
}

/// The box of all polylines.
fn find_ink_box(polylines: &Vec<Vec<(F32, F32)>>) -> (r: BBox)
    ensures
        r == ink_box(crate::glyphs::nested(polylines@)),
{
    let ghost views = crate::glyphs::nested(polylines@);
    let mut b = BBox {
        min_x: num(LARGEST),
        min_y: num(LARGEST),
        max_x: num(SMALLEST),
        max_y: num(SMALLEST),
    };
    let mut i: usize = 0;
    while i < polylines.len()
        invariant
            i <= polylines.len(),
            views == crate::glyphs::nested(polylines@),
            b == ink_box(views.take(i as int)),
        decreases polylines.len() - i,
    {
        let pl = &polylines[i];
        let ghost start = b;
        let mut j: usize = 0;
        while j < pl.len()
            invariant
                j <= pl.len(),
                b == polyline_box(start, pl@.take(j as int)),
            decreases pl.len() - j,
        {
            let (x, y) = pl[j];
            assert(pl@.take(j + 1).drop_last() =~= pl@.take(j as int));
            b = BBox {
                min_x: b.min_x.min(x),
                min_y: b.min_y.min(y),
                max_x: b.max_x.max(x),
                max_y: b.max_y.max(y),
            };
            j = j + 1;
        }
        proof {
            assert(pl@.take(j as int) =~= pl@);
            assert(views.take(i + 1).drop_last() =~= views.take(i as int));
            assert(views.take(i + 1).last() == pl@);
        }
        i = i + 1;
    }
    assert(views.take(i as int) =~= views);
    b
}

fn move_polyline(pl: &Vec<(F32, F32)>, x: F32, y: F32) -> (r: Vec<(F32, F32)>)
    ensures
        r@ == moved(pl@, x, y),
{
    let mut out: Vec<(F32, F32)> = Vec::new();
    let mut i: usize = 0;
    while i < pl.len()
        invariant
            i <= pl.len(),
            out@ == moved(pl@, x, y).take(i as int),
        decreases pl.len() - i,
    {
        let (px, py) = pl[i];
        out.push((px.minus(x), py.minus(y)));
        i = i + 1;
    }
    assert(moved(pl@, x, y).take(i as int) =~= moved(pl@, x, y));
    out
}

fn move_polylines(polylines: &Vec<Vec<(F32, F32)>>, x: F32, y: F32) -> (r: Vec<Vec<(F32, F32)>>)
    ensures
        crate::glyphs::nested(r@) == Seq::new(
            polylines@.len(),
            |i: int| moved(crate::glyphs::nested(polylines@)[i], x, y),
        ),
{
    let ghost want = Seq::new(
        polylines@.len(),
        |i: int| moved(crate::glyphs::nested(polylines@)[i], x, y),
    );
    let mut out: Vec<Vec<(F32, F32)>> = Vec::new();
    let mut i: usize = 0;
    assert(crate::glyphs::nested(out@) =~= want.take(0));
    while i < polylines.len()
        invariant
            i <= polylines.len(),
            want == Seq::new(
                polylines@.len(),
                |i: int| moved(crate::glyphs::nested(polylines@)[i], x, y),
            ),
            crate::glyphs::nested(out@) == want.take(i as int),
        decreases polylines.len() - i,
    {
        let pl = move_polyline(&polylines[i], x, y);
        proof {
            crate::glyphs::lemma_nested_push(out@, pl);
            assert(want[i as int] == pl@);
            assert(want.take(i + 1) =~= want.take(i as int).push(pl@));
        }
        out.push(pl);
        i = i + 1;
    }
    assert(want.take(i as int) =~= want);
    out
}

/// Trace a box: text through the glyphs, rules as line segments. The plan is moved and sized to
/// the traced ink, not to the layout box, which has a full em of headroom.
fn ink_layout(b: &LBox, font: &Font) -> (r: StrokePlan)
    ensures
        r@ == plan_of(b@, font@),
{
    let mut polylines: Vec<Vec<(F32, F32)>> = Vec::new();
    let mut missing: Vec<String> = Vec::new();
    let mut i: usize = 0;
    proof {
        assert(crate::glyphs::nested(polylines@) =~= plan_lines(b@.items, 0, font@));
        assert(crate::text::text_views(missing@) =~= plan_gaps(b@.items, 0, font@));
    }
    while i < b.items.len()
        invariant
            i <= b.items.len(),
            crate::glyphs::nested(polylines@) == plan_lines(b@.items, i as nat, font@),
            crate::text::text_views(missing@) == plan_gaps(b@.items, i as nat, font@),
        decreases b.items.len() - i,
    {
        assert(b@.items[i as int] == b.items[i as int]@);
        ink_item(&mut polylines, &mut missing, &b.items[i], font);
        i = i + 1;
    }
    let frame = find_ink_box(&polylines);
    if frame.max_x.gt(frame.min_x) && frame.max_y.gt(frame.min_y) {
        let ghost traced = crate::glyphs::nested(polylines@);
        let placed = move_polylines(&polylines, frame.min_x, frame.min_y);
        assert(crate::glyphs::nested(placed@) =~= Seq::new(
            traced.len(),
            |i: int| moved(traced[i], frame.min_x, frame.min_y),
        ));
        StrokePlan {
            polylines: placed,
            w: frame.max_x.minus(frame.min_x),
            h: frame.max_y.minus(frame.min_y),
            missing,
        }
    } else {
        StrokePlan { polylines, w: F32::from_i32(b.w), h: F32::from_i32(b.h), missing }
    }
}

/// Lay out a tree and trace it as polylines. The caller scales and moves the plan onto the page.
pub fn to_strokes(slt: &Slt, font: &Font) -> (r: StrokePlan)
    requires
        fits(slt@, EM as int, font@),
    ensures
        r@ == plan_of(layout_of(slt@, EM as int, font@), font@),
{
    match layout_slt(slt, EM, font) {
        Some(b) => ink_layout(&b, font),
        None => StrokePlan {
            polylines: Vec::new(),
            w: num(0),
            h: num(0),
            missing: Vec::new(),
        },
    }
}

/// Lay out a tree and trace it, if the layout's numbers can be told in 32 bits.
pub fn checked_strokes(slt: &Slt, font: &Font) -> (r: Option<StrokePlan>)
    ensures
        match r {
            Some(plan) => fits(slt@, EM as int, font@) && plan@ == plan_of(
                layout_of(slt@, EM as int, font@),
                font@,
            ),
            None => !fits(slt@, EM as int, font@),
        },
{
    match layout_slt(slt, EM, font) {
        Some(b) => Some(ink_layout(&b, font)),
        None => None,
    }
}

// ---------------------------------------------------------------------------------------------
// Laws
// ---------------------------------------------------------------------------------------------
/// Escaped text holds no angle bracket, so a label cannot leak into the markup.
pub proof fn law_labels_stay_out_of_the_markup(s: Seq<char>)
    ensures
        forall|i: int|
            0 <= i < escaped(s).len() ==> #[trigger] escaped(s)[i] != '<' && escaped(s)[i] != '>',
    decreases s.len(),
{
    reveal_strlit("&amp;");
    reveal_strlit("&lt;");
    reveal_strlit("&gt;");
    if s.len() > 0 {
        law_labels_stay_out_of_the_markup(s.drop_last());
        let head = escaped(s.drop_last());
        let tail = escaped_char(s.last());
        assert forall|i: int| 0 <= i < escaped(s).len() implies #[trigger] escaped(s)[i] != '<'
            && escaped(s)[i] != '>' by {
            if i < head.len() {
                assert(escaped(s)[i] == head[i]);
            } else {
                assert(escaped(s)[i] == tail[i - head.len()]);
            }
        }
    }
}

/// Layout and tracing agree on a command: the layout gives it the advance of the one glyph that
/// the tracer draws for it, and that of a missing glyph where there is none.
pub proof fn law_a_command_is_as_wide_as_its_glyph(s: Seq<char>, font: Seq<RawGlyphView>)
    requires
        is_command(s),
    ensures
        token_width(s, font) == unit_width(s, font),
        token_units(s) == seq![s],
{
    reveal_with_fuel(units_width, 2);
}

/// Are all coordinates finite?
pub open spec fn all_finite(polylines: Seq<Seq<(F32, F32)>>) -> bool {
    forall|i: int, j: int|
        0 <= i < polylines.len() && 0 <= j < polylines[i].len() ==> (
        #[trigger] polylines[i][j]).0.finite() && polylines[i][j].1.finite()
}

/// Is the point in the box?
pub open spec fn inside(b: BBox, p: (F32, F32)) -> bool {
    b.min_x.le(p.0) && p.0.le(b.max_x) && b.min_y.le(p.1) && p.1.le(b.max_y)
}

pub open spec fn finite_box(b: BBox) -> bool {
    b.min_x.finite() && b.min_y.finite() && b.max_x.finite() && b.max_y.finite()
}

proof fn lemma_widened(b: BBox, p: (F32, F32), q: (F32, F32))
    requires
        finite_box(b),
        p.0.finite(),
        p.1.finite(),
    ensures
        finite_box(widened(b, p)),
        inside(widened(b, p), p),
        inside(b, q) ==> inside(widened(b, p), q),
{
    crate::float::order::lemma_min_max(b.min_x, p.0);
    crate::float::order::lemma_min_max(b.min_y, p.1);
    crate::float::order::lemma_min_max(b.max_x, p.0);
    crate::float::order::lemma_min_max(b.max_y, p.1);
    reveal(F32::le_spec);
}

proof fn lemma_polyline_inside(b: BBox, pl: Seq<(F32, F32)>, q: (F32, F32))
    requires
        finite_box(b),
        forall|j: int| 0 <= j < pl.len() ==> (#[trigger] pl[j]).0.finite() && pl[j].1.finite(),
    ensures
        finite_box(polyline_box(b, pl)),
        inside(b, q) ==> inside(polyline_box(b, pl), q),
        forall|j: int| 0 <= j < pl.len() ==> inside(polyline_box(b, pl), #[trigger] pl[j]),
    decreases pl.len(),
{
    if pl.len() > 0 {
        let rest = pl.drop_last();
        let last = pl[pl.len() - 1];
        assert forall|j: int| 0 <= j < rest.len() implies (#[trigger] rest[j]).0.finite()
            && rest[j].1.finite() by {
            assert(rest[j] == pl[j]);
        }
        lemma_polyline_inside(b, rest, q);
        lemma_widened(polyline_box(b, rest), last, q);
        assert forall|j: int| 0 <= j < pl.len() implies inside(
            polyline_box(b, pl),
            #[trigger] pl[j],
        ) by {
            if j < rest.len() {
                assert(rest[j] == pl[j]);
                lemma_widened(polyline_box(b, rest), last, pl[j]);
            }
        }
    }
}

proof fn lemma_ink_inside(polylines: Seq<Seq<(F32, F32)>>)
    requires
        all_finite(polylines),
    ensures
        finite_box(ink_box(polylines)),
        forall|i: int, j: int|
            0 <= i < polylines.len() && 0 <= j < polylines[i].len() ==> inside(
                ink_box(polylines),
                #[trigger] polylines[i][j],
            ),
    decreases polylines.len(),
{
    if polylines.len() > 0 {
        let rest = polylines.drop_last();
        let last = polylines[polylines.len() - 1];
        assert forall|i: int, j: int| 0 <= i < rest.len() && 0 <= j < rest[i].len() implies (
        #[trigger] rest[i][j]).0.finite() && rest[i][j].1.finite() by {
            assert(rest[i][j] == polylines[i][j]);
        }
        lemma_ink_inside(rest);
        assert forall|j: int| 0 <= j < last.len() implies (#[trigger] last[j]).0.finite()
            && last[j].1.finite() by {
            assert(last[j] == polylines[polylines.len() - 1][j]);
        }
        lemma_polyline_inside(ink_box(rest), last, (num(0), num(0)));
        assert forall|i: int, j: int|
            0 <= i < polylines.len() && 0 <= j < polylines[i].len() implies inside(
            ink_box(polylines),
            #[trigger] polylines[i][j],
        ) by {
            if i < rest.len() {
                assert(rest[i][j] == polylines[i][j]);
                lemma_polyline_inside(ink_box(rest), last, polylines[i][j]);
            }
        }
    }
}

/// A plan whose ink has an extent in both directions keeps every point inside its own bounds:
/// between zero and its width, and between zero and its height.
pub proof fn law_a_plan_stays_inside_its_bounds(
    polylines: Seq<Seq<(F32, F32)>>,
    w: F32,
    h: F32,
    i: int,
    j: int,
)
    requires
        all_finite(polylines),
        ink_box(polylines).max_x.gt(ink_box(polylines).min_x),
        ink_box(polylines).max_y.gt(ink_box(polylines).min_y),
        0 <= i < polylines.len(),
        0 <= j < polylines[i].len(),
    ensures
        num(0).le(framed(polylines, w, h).0[i][j].0),
        framed(polylines, w, h).0[i][j].0.le(framed(polylines, w, h).1),
        num(0).le(framed(polylines, w, h).0[i][j].1),
        framed(polylines, w, h).0[i][j].1.le(framed(polylines, w, h).2),
{
    let b = ink_box(polylines);
    let p = polylines[i][j];
    lemma_ink_inside(polylines);
    assert(inside(b, p));
    crate::float::monotone::lemma_difference(b.min_x, p.0, b.min_x);
    crate::float::monotone::lemma_difference(p.0, b.max_x, b.min_x);
    crate::float::monotone::lemma_difference(b.min_y, p.1, b.min_y);
    crate::float::monotone::lemma_difference(p.1, b.max_y, b.min_y);
    reveal(F32::le_spec);
}

} // verus!
