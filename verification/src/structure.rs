//! Symbol layout trees: turning a bag of positioned, classified symbols into a tree by geometry
//! and class-aware rules.
//!
//! Coordinates are normalized with `y` increasing downward: "higher on the page" is a smaller
//! `y`. The parse has two phases:
//!   1. composite constructs (fractions, radicals) collapse into single units, whose sub-regions
//!      are parsed in turn;
//!   2. the units are walked left to right, attaching super- and subscripts (and big-operator
//!      limits) to each base.
//!
//! Size-ambiguous symbols are resolved here: a horizontal bar with content above *and* below is a
//! fraction; the same bar with symbols left and right on one baseline is a minus sign.
use crate::float::{num, F32};
use crate::sort::sort_indices;
pub use crate::stroke::BBox;
use crate::stroke::{HALF, TINY};
use crate::text::same_text;
use vstd::prelude::*;

pub mod bag;
pub mod reading;

verus! {

/// 2.5: how much wider than tall a bar is.
pub const BAR_ASPECT: u32 = 0x4020_0000;

/// 0.25: the vertical offset, as a fraction of the base's height, that makes a neighbour a
/// super- or subscript.
pub const SCRIPT_DY: u32 = 0x3e80_0000;

// ---------------------------------------------------------------------------------------------
// Boxes
// ---------------------------------------------------------------------------------------------
impl BBox {
    pub fn new(min_x: F32, min_y: F32, max_x: F32, max_y: F32) -> (r: Self)
        ensures
            r == (BBox { min_x, min_y, max_x, max_y }),
    {
        BBox { min_x, min_y, max_x, max_y }
    }

    pub open spec fn cx_spec(&self) -> F32 {
        self.min_x.plus(self.max_x).times(num(HALF))
    }

    /// The horizontal center.
    #[verifier::when_used_as_spec(cx_spec)]
    pub fn cx(&self) -> (r: F32)
        ensures
            r == self.cx(),
    {
        self.min_x.plus(self.max_x).times(num(HALF))
    }

    pub open spec fn cy_spec(&self) -> F32 {
        self.min_y.plus(self.max_y).times(num(HALF))
    }

    /// The vertical center.
    #[verifier::when_used_as_spec(cy_spec)]
    pub fn cy(&self) -> (r: F32)
        ensures
            r == self.cy(),
    {
        self.min_y.plus(self.max_y).times(num(HALF))
    }

    pub open spec fn w_spec(&self) -> F32 {
        self.max_x.minus(self.min_x)
    }

    /// The width.
    #[verifier::when_used_as_spec(w_spec)]
    pub fn w(&self) -> (r: F32)
        ensures
            r == self.w(),
    {
        self.max_x.minus(self.min_x)
    }

    pub open spec fn h_spec(&self) -> F32 {
        self.max_y.minus(self.min_y)
    }

    /// The height.
    #[verifier::when_used_as_spec(h_spec)]
    pub fn h(&self) -> (r: F32)
        ensures
            r == self.h(),
    {
        self.max_y.minus(self.min_y)
    }

    pub open spec fn area_spec(&self) -> F32 {
        self.w().times(self.h())
    }

    /// The area.
    #[verifier::when_used_as_spec(area_spec)]
    pub fn area(&self) -> (r: F32)
        ensures
            r == self.area(),
    {
        self.w().times(self.h())
    }

    pub open spec fn union_spec(&self, o: &BBox) -> BBox {
        BBox {
            min_x: self.min_x.min(o.min_x),
            min_y: self.min_y.min(o.min_y),
            max_x: self.max_x.max(o.max_x),
            max_y: self.max_y.max(o.max_y),
        }
    }

    /// The smallest box that holds both.
    #[verifier::when_used_as_spec(union_spec)]
    pub fn union(&self, o: &BBox) -> (r: BBox)
        ensures
            r == self.union(o),
    {
        BBox {
            min_x: self.min_x.min(o.min_x),
            min_y: self.min_y.min(o.min_y),
            max_x: self.max_x.max(o.max_x),
            max_y: self.max_y.max(o.max_y),
        }
    }

    pub open spec fn contains_center_spec(&self, o: &BBox) -> bool {
        o.cx().ge(self.min_x) && o.cx().le(self.max_x) && o.cy().ge(self.min_y) && o.cy().le(
            self.max_y,
        )
    }

    /// Is the center of `o` inside this box? Used to find a radical's content.
    #[verifier::when_used_as_spec(contains_center_spec)]
    pub fn contains_center(&self, o: &BBox) -> (r: bool)
        ensures
            r == self.contains_center(o),
    {
        o.cx().ge(self.min_x) && o.cx().le(self.max_x) && o.cy().ge(self.min_y) && o.cy().le(
            self.max_y,
        )
    }

    pub open spec fn contains_spec(&self, o: &BBox) -> bool {
        self.min_x.le(o.min_x) && self.max_x.ge(o.max_x) && self.min_y.le(o.min_y)
            && self.max_y.ge(o.max_y)
    }

    /// Does this box fully contain `o`?
    #[verifier::when_used_as_spec(contains_spec)]
    pub fn contains(&self, o: &BBox) -> (r: bool)
        ensures
            r == self.contains(o),
    {
        self.min_x.le(o.min_x) && self.max_x.ge(o.max_x) && self.min_y.le(o.min_y)
            && self.max_y.ge(o.max_y)
    }

    pub open spec fn center_in_x_spec(&self, o: &BBox) -> bool {
        self.cx().ge(o.min_x) && self.cx().le(o.max_x)
    }

    /// Is this box's center within the x-range of `o`? Used to find a fraction's parts.
    #[verifier::when_used_as_spec(center_in_x_spec)]
    pub fn center_in_x(&self, o: &BBox) -> (r: bool)
        ensures
            r == self.center_in_x(o),
    {
        self.cx().ge(o.min_x) && self.cx().le(o.max_x)
    }
}

// ---------------------------------------------------------------------------------------------
// Symbols and trees
// ---------------------------------------------------------------------------------------------
/// A classified symbol with its position.
#[derive(Debug, PartialEq, Eq)]
pub struct Symbol {
    pub label: String,
    pub bbox: BBox,
}

/// What a [`Symbol`] holds.
#[verifier::ext_equal]
pub struct SymbolView {
    pub label: Seq<char>,
    pub bbox: BBox,
}

impl View for Symbol {
    type V = SymbolView;

    open spec fn view(&self) -> SymbolView {
        SymbolView { label: self.label@, bbox: self.bbox }
    }
}

impl Clone for Symbol {
    fn clone(&self) -> (r: Self)
        ensures
            r@ == self@,
    {
        Symbol { label: self.label.clone(), bbox: self.bbox }
    }
}

impl Symbol {
    pub fn new(label: String, bbox: BBox) -> (r: Self)
        ensures
            r@ == (SymbolView { label: label@, bbox }),
    {
        Symbol { label, bbox }
    }
}

/// What a list of symbols holds.
pub open spec fn symbol_views(symbols: Seq<Symbol>) -> Seq<SymbolView> {
    Seq::new(symbols.len(), |i: int| symbols[i]@)
}

/// A symbol layout tree: a horizontal run of terms, left to right.
#[derive(Debug, PartialEq, Eq)]
pub struct Slt {
    pub terms: Vec<Term>,
}

/// One term on a baseline: a base with optional super- and subscript trees.
#[derive(Debug, PartialEq, Eq)]
pub struct Term {
    pub base: Base,
    pub sup: Option<Slt>,
    pub sub: Option<Slt>,
}

/// What sits on the baseline: a plain symbol, a fraction, or a radical.
#[derive(Debug, PartialEq, Eq)]
pub enum Base {
    Symbol(String),
    Frac { num: Slt, den: Slt },
    Sqrt(Slt),
}

/// What an [`Slt`] holds.
#[verifier::ext_equal]
pub struct SltView {
    pub terms: Seq<TermView>,
}

/// What a [`Term`] holds.
#[verifier::ext_equal]
pub struct TermView {
    pub base: BaseView,
    pub sup: Option<SltView>,
    pub sub: Option<SltView>,
}

/// What a [`Base`] holds.
#[verifier::ext_equal]
pub enum BaseView {
    Symbol(Seq<char>),
    Frac { num: SltView, den: SltView },
    Sqrt(SltView),
}

pub open spec fn slt_view(s: Slt) -> SltView
    decreases s,
{
    SltView { terms: terms_view(s.terms@) }
}

pub open spec fn terms_view(terms: Seq<Term>) -> Seq<TermView>
    decreases terms,
{
    if terms.len() == 0 {
        Seq::empty()
    } else {
        terms_view(terms.drop_last()).push(term_view(terms.last()))
    }
}

pub open spec fn term_view(t: Term) -> TermView
    decreases t,
{
    TermView {
        base: base_view(t.base),
        sup: match t.sup {
            Some(s) => Some(slt_view(s)),
            None => None,
        },
        sub: match t.sub {
            Some(s) => Some(slt_view(s)),
            None => None,
        },
    }
}

pub open spec fn base_view(b: Base) -> BaseView
    decreases b,
{
    match b {
        Base::Symbol(l) => BaseView::Symbol(l@),
        Base::Frac { num, den } => BaseView::Frac { num: slt_view(num), den: slt_view(den) },
        Base::Sqrt(inner) => BaseView::Sqrt(slt_view(inner)),
    }
}

impl View for Slt {
    type V = SltView;

    open spec fn view(&self) -> SltView {
        slt_view(*self)
    }
}

impl View for Term {
    type V = TermView;

    open spec fn view(&self) -> TermView {
        term_view(*self)
    }
}

impl View for Base {
    type V = BaseView;

    open spec fn view(&self) -> BaseView {
        base_view(*self)
    }
}

/// The view of a list of terms, term by term.
pub proof fn lemma_terms_view(terms: Seq<Term>)
    ensures
        terms_view(terms).len() == terms.len(),
        forall|i: int| 0 <= i < terms.len() ==> #[trigger] terms_view(terms)[i] == terms[i]@,
    decreases terms.len(),
{
    if terms.len() > 0 {
        lemma_terms_view(terms.drop_last());
    }
}

impl Default for Slt {
    fn default() -> (r: Self)
        ensures
            r@ == (SltView { terms: Seq::empty() }),
    {
        Slt { terms: Vec::new() }
    }
}

fn copy_slt(s: &Slt) -> (r: Slt)
    ensures
        r@ == s@,
    decreases s,
{
    let mut terms: Vec<Term> = Vec::new();
    let mut i: usize = 0;
    while i < s.terms.len()
        invariant
            i <= s.terms.len(),
            terms_view(terms@) == terms_view(s.terms@.take(i as int)),
        decreases s.terms.len() - i,
    {
        assert(decreases_to!(s => s.terms@[i as int]));
        let t = copy_term(&s.terms[i]);
        proof {
            assert(s.terms@.take(i + 1).drop_last() =~= s.terms@.take(i as int));
            assert(terms@.push(t).drop_last() =~= terms@);
        }
        terms.push(t);
        i = i + 1;
    }
    assert(s.terms@.take(i as int) =~= s.terms@);
    Slt { terms }
}

fn copy_term(t: &Term) -> (r: Term)
    ensures
        r@ == t@,
    decreases t,
{
    let base = copy_base(&t.base);
    let sup = match &t.sup {
        Some(s) => Some(copy_slt(s)),
        None => None,
    };
    let sub = match &t.sub {
        Some(s) => Some(copy_slt(s)),
        None => None,
    };
    Term { base, sup, sub }
}

fn copy_base(b: &Base) -> (r: Base)
    ensures
        r@ == b@,
    decreases b,
{
    match b {
        Base::Symbol(l) => Base::Symbol(l.clone()),
        Base::Frac { num, den } => Base::Frac { num: copy_slt(num), den: copy_slt(den) },
        Base::Sqrt(inner) => Base::Sqrt(copy_slt(inner)),
    }
}

impl Clone for Slt {
    fn clone(&self) -> (r: Self)
        ensures
            r@ == self@,
    {
        copy_slt(self)
    }
}

impl Clone for Term {
    fn clone(&self) -> (r: Self)
        ensures
            r@ == self@,
    {
        copy_term(self)
    }
}

impl Clone for Base {
    fn clone(&self) -> (r: Self)
        ensures
            r@ == self@,
    {
        copy_base(self)
    }
}

/// A resolved layout unit: a box plus the base that it represents. Baseline parsing works over
/// these.
struct Unit {
    bbox: BBox,
    base: Base,
}

/// What a unit holds.
#[verifier::ext_equal]
pub struct UnitView {
    pub bbox: BBox,
    pub base: BaseView,
}

impl View for Unit {
    type V = UnitView;

    closed spec fn view(&self) -> UnitView {
        UnitView { bbox: self.bbox, base: self.base@ }
    }
}

spec fn unit_views(units: Seq<Unit>) -> Seq<UnitView> {
    Seq::new(units.len(), |i: int| units[i]@)
}

// ---------------------------------------------------------------------------------------------
// Composites
// ---------------------------------------------------------------------------------------------
/// Is this symbol a plausible fraction bar? A labelled rule or minus, or a wide, short mark.
pub open spec fn bar_like(s: SymbolView) -> bool {
    ||| s.label == "-"@
    ||| s.label == "\\frac"@
    ||| s.label == "\\hline"@
    ||| s.label == "_"@
    ||| s.bbox.h().gt(num(TINY)) && s.bbox.w().over(s.bbox.h()).gt(num(BAR_ASPECT))
}

/// Is this label one of those that a classifier gives to the radical glyph?
pub open spec fn radical_label(label: Seq<char>) -> bool {
    ||| label == "\\sqrt"@
    ||| label == "\\sqrt{}"@
    ||| label == "\\surd"@
    ||| label == "\\textsurd"@
    ||| label == "\u{221a}"@
    ||| label == "sqrt"@
}

/// A possible composite: the fraction with its bar, or the radical, at index `at`.
pub struct Candidate {
    pub fraction: bool,
    pub at: int,
}

/// Does symbol `k` belong to the fraction with the bar at `i`? Its center lies in the bar's
/// x-range, and it does not enclose the bar (as a radical around the whole fraction does).
pub open spec fn in_fraction(pool: Seq<SymbolView>, i: int, k: int) -> bool {
    k != i && !pool[k].bbox.contains(&pool[i].bbox) && pool[k].bbox.center_in_x(&pool[i].bbox)
}

/// Does symbol `k` lie under the radical at `i`?
pub open spec fn in_radical(pool: Seq<SymbolView>, i: int, k: int) -> bool {
    k != i && pool[i].bbox.contains_center(&pool[k].bbox)
}

/// Is symbol `k` in the upper part of the fraction with the bar at `i`?
pub open spec fn upper(pool: Seq<SymbolView>, i: int, k: int) -> bool {
    pool[k].bbox.cy().lt(pool[i].bbox.cy())
}

/// The symbols above (or else below) the bar at `i`, among the first `n`.
pub open spec fn side(pool: Seq<SymbolView>, i: int, above: bool, n: nat) -> Seq<int>
    decreases n,
{
    if n == 0 {
        Seq::empty()
    } else {
        let before = side(pool, i, above, (n - 1) as nat);
        if in_fraction(pool, i, n - 1) && upper(pool, i, n - 1) == above {
            before.push(n - 1)
        } else {
            before
        }
    }
}

/// The symbols under the radical at `i`, among the first `n`.
pub open spec fn inside(pool: Seq<SymbolView>, i: int, n: nat) -> Seq<int>
    decreases n,
{
    if n == 0 {
        Seq::empty()
    } else {
        let before = inside(pool, i, (n - 1) as nat);
        if in_radical(pool, i, n - 1) {
            before.push(n - 1)
        } else {
            before
        }
    }
}

/// The box of the bar at `i` and of its fraction's symbols among the first `n`.
pub open spec fn fraction_box(pool: Seq<SymbolView>, i: int, n: nat) -> BBox
    decreases n,
{
    if n == 0 {
        pool[i].bbox
    } else {
        let before = fraction_box(pool, i, (n - 1) as nat);
        if in_fraction(pool, i, n - 1) {
            before.union(&pool[n - 1].bbox)
        } else {
            before
        }
    }
}

/// Is the candidate a composite? A fraction has symbols on both sides of its bar, a radical has
/// some inside.
pub open spec fn is_composite(pool: Seq<SymbolView>, c: Candidate) -> bool {
    if c.fraction {
        &&& bar_like(pool[c.at])
        &&& side(pool, c.at, true, pool.len()).len() > 0
        &&& side(pool, c.at, false, pool.len()).len() > 0
    } else {
        &&& radical_label(pool[c.at].label)
        &&& inside(pool, c.at, pool.len()).len() > 0
    }
}

/// The region that a composite takes up.
pub open spec fn region(pool: Seq<SymbolView>, c: Candidate) -> BBox {
    if c.fraction {
        fraction_box(pool, c.at, pool.len())
    } else {
        pool[c.at].bbox
    }
}

/// The better of the best so far and a new candidate: the new one has to be a composite of a
/// larger region.
pub open spec fn better(
    pool: Seq<SymbolView>,
    best: Option<Candidate>,
    c: Candidate,
) -> Option<Candidate> {
    if is_composite(pool, c) && (best is None || region(pool, c).area().gt(
        region(pool, best->0).area(),
    )) {
        Some(c)
    } else {
        best
    }
}

/// The best of the fractions with a bar among the first `n` symbols.
pub open spec fn best_fraction(pool: Seq<SymbolView>, n: nat) -> Option<Candidate>
    decreases n,
{
    if n == 0 {
        None
    } else {
        better(
            pool,
            best_fraction(pool, (n - 1) as nat),
            Candidate { fraction: true, at: n - 1 },
        )
    }
}

/// The best of all fractions and of the radicals among the first `n` symbols.
pub open spec fn best_of(pool: Seq<SymbolView>, n: nat) -> Option<Candidate>
    decreases n,
{
    if n == 0 {
        best_fraction(pool, pool.len())
    } else {
        better(pool, best_of(pool, (n - 1) as nat), Candidate { fraction: false, at: n - 1 })
    }
}

/// The outermost composite in the pool, if any: the one whose region is largest. Of equal
/// regions the first is taken, fractions before radicals.
pub open spec fn outermost(pool: Seq<SymbolView>) -> Option<Candidate> {
    best_of(pool, pool.len())
}

/// Does the composite consume symbol `k`?
pub open spec fn consumes(pool: Seq<SymbolView>, c: Candidate, k: int) -> bool {
    k == c.at || if c.fraction {
        in_fraction(pool, c.at, k)
    } else {
        in_radical(pool, c.at, k)
    }
}

/// The symbols among the first `n` that the composite leaves.
pub open spec fn left_over(pool: Seq<SymbolView>, c: Candidate, n: nat) -> Seq<SymbolView>
    decreases n,
{
    if n == 0 {
        Seq::empty()
    } else {
        let before = left_over(pool, c, (n - 1) as nat);
        if consumes(pool, c, n - 1) {
            before
        } else {
            before.push(pool[n - 1])
        }
    }
}

/// The symbols at the given indices.
pub open spec fn picked(pool: Seq<SymbolView>, indices: Seq<int>) -> Seq<SymbolView> {
    Seq::new(indices.len(), |j: int| pool[indices[j]])
}

/// A composite and what it leaves account for every symbol once.
pub proof fn lemma_composite_counts(pool: Seq<SymbolView>, c: Candidate, n: nat)
    requires
        0 <= c.at,
    ensures
        ({
            let own: int = if c.at < n {
                1
            } else {
                0
            };
            let taken: int = if c.fraction {
                (side(pool, c.at, true, n).len() + side(pool, c.at, false, n).len()) as int
            } else {
                inside(pool, c.at, n).len() as int
            };
            own + taken + left_over(pool, c, n).len() == n
        }),
    decreases n,
{
    if n > 0 {
        lemma_composite_counts(pool, c, (n - 1) as nat);
    }
}

proof fn lemma_best_in_range(pool: Seq<SymbolView>, n: nat)
    requires
        n <= pool.len(),
    ensures
        best_fraction(pool, n) is Some ==> 0 <= best_fraction(pool, n)->0.at < n,
        best_of(pool, n) is Some ==> 0 <= best_of(pool, n)->0.at < pool.len(),
        best_fraction(pool, n) is Some ==> is_composite(pool, best_fraction(pool, n)->0),
        best_of(pool, n) is Some ==> is_composite(pool, best_of(pool, n)->0),
    decreases pool.len() + n,
{
    if n > 0 {
        lemma_best_in_range(pool, (n - 1) as nat);
    } else {
        lemma_best_fraction_in_range(pool, pool.len());
    }
}

proof fn lemma_best_fraction_in_range(pool: Seq<SymbolView>, n: nat)
    requires
        n <= pool.len(),
    ensures
        best_fraction(pool, n) is Some ==> 0 <= best_fraction(pool, n)->0.at < n,
        best_fraction(pool, n) is Some ==> is_composite(pool, best_fraction(pool, n)->0),
    decreases n,
{
    if n > 0 {
        lemma_best_fraction_in_range(pool, (n - 1) as nat);
    }
}

/// The outermost composite is one, at one of the symbols.
pub proof fn lemma_outermost(pool: Seq<SymbolView>)
    ensures
        outermost(pool) is Some ==> 0 <= outermost(pool)->0.at < pool.len() && is_composite(
            pool,
            outermost(pool)->0,
        ),
{
    lemma_best_in_range(pool, pool.len());
}

// ---------------------------------------------------------------------------------------------
// The tree of a bag of symbols
// ---------------------------------------------------------------------------------------------
/// The tree that a bag of symbols parses to.
pub open spec fn tree(pool: Seq<SymbolView>) -> SltView
    decreases pool.len(), 2nat,
{
    SltView { terms: run(units_of(pool)) }
}

/// The units of a bag of symbols: its composites, outermost first, then the plain symbols.
pub open spec fn units_of(pool: Seq<SymbolView>) -> Seq<UnitView>
    decreases pool.len(), 1nat,
{
    match outermost(pool) {
        None => Seq::new(
            pool.len(),
            |k: int| UnitView { bbox: pool[k].bbox, base: BaseView::Symbol(pool[k].label) },
        ),
        Some(c) => {
            proof {
                lemma_outermost(pool);
                lemma_composite_counts(pool, c, pool.len());
            }
            seq![composite_unit(pool, c)] + units_of(left_over(pool, c, pool.len()))
        },
    }
}

/// The unit of a composite, whose parts are parsed in turn.
pub open spec fn composite_unit(pool: Seq<SymbolView>, c: Candidate) -> UnitView
    decreases pool.len(), 0nat,
{
    if 0 <= c.at < pool.len() {
        proof {
            lemma_composite_counts(pool, c, pool.len());
        }
        UnitView {
            bbox: region(pool, c),
            base: if c.fraction {
                BaseView::Frac {
                    num: tree(picked(pool, side(pool, c.at, true, pool.len()))),
                    den: tree(picked(pool, side(pool, c.at, false, pool.len()))),
                }
            } else {
                BaseView::Sqrt(tree(picked(pool, inside(pool, c.at, pool.len()))))
            },
        }
    } else {
        arbitrary()
    }
}

/// The left edges of the units.
pub open spec fn left_edges(units: Seq<UnitView>) -> Seq<F32> {
    Seq::new(units.len(), |i: int| units[i].bbox.min_x)
}

/// The units from left to right.
pub open spec fn by_left_edge(units: Seq<UnitView>) -> Seq<UnitView> {
    Seq::new(
        units.len(),
        |i: int| units[crate::sort::stable_order(left_edges(units))[i]],
    )
}

/// How far the center of `u` lies below that of `base`.
pub open spec fn drop_of(base: BBox, u: BBox) -> F32 {
    u.cy().minus(base.cy())
}

/// How far off its baseline a unit has to be, to be a script of `base`.
pub open spec fn script_offset(base: BBox) -> F32 {
    num(SCRIPT_DY).times(base.h().max(num(TINY)))
}

/// Is `u` a superscript of `base`?
pub open spec fn raised(base: BBox, u: BBox) -> bool {
    drop_of(base, u).lt(script_offset(base).neg())
}

/// Is `u` a subscript of `base`?
pub open spec fn lowered(base: BBox, u: BBox) -> bool {
    !raised(base, u) && drop_of(base, u).gt(script_offset(base))
}

/// Where the run of scripts of the first unit ends, which goes on at `j`.
pub open spec fn scripts_end(units: Seq<UnitView>, j: nat) -> nat
    decreases units.len() - j,
{
    if j < units.len() && (raised(units[0].bbox, units[j as int].bbox) || lowered(
        units[0].bbox,
        units[j as int].bbox,
    )) {
        scripts_end(units, j + 1)
    } else {
        j
    }
}

/// The superscripts (or else subscripts) of the first unit, before index `j`.
pub open spec fn scripts(units: Seq<UnitView>, above: bool, j: nat) -> Seq<UnitView>
    decreases j,
{
    if j <= 1 {
        Seq::empty()
    } else {
        let before = scripts(units, above, (j - 1) as nat);
        if raised(units[0].bbox, units[j - 1].bbox) == above {
            before.push(units[j - 1])
        } else {
            before
        }
    }
}

pub proof fn lemma_scripts_end(units: Seq<UnitView>, j: nat)
    requires
        j <= units.len(),
    ensures
        j <= scripts_end(units, j) <= units.len(),
    decreases units.len() - j,
{
    if j < units.len() {
        lemma_scripts_end(units, j + 1);
    }
}

pub proof fn lemma_scripts_len(units: Seq<UnitView>, j: nat)
    requires
        j >= 1,
    ensures
        scripts(units, true, j).len() + scripts(units, false, j).len() == j - 1,
    decreases j,
{
    if j > 1 {
        lemma_scripts_len(units, (j - 1) as nat);
    }
}

/// The terms of a bag of units.
pub open spec fn run(units: Seq<UnitView>) -> Seq<TermView>
    decreases units.len(), 1nat,
{
    run_from(by_left_edge(units))
}

/// The tree of a script, if it has a term.
pub open spec fn script(terms: Seq<TermView>) -> Option<SltView> {
    if terms.len() == 0 {
        None
    } else {
        Some(SltView { terms })
    }
}

/// The terms of units in left-to-right order: the first unit with the scripts that follow it,
/// then the rest.
pub open spec fn run_from(units: Seq<UnitView>) -> Seq<TermView>
    decreases units.len(), 0nat,
{
    if units.len() == 0 {
        Seq::empty()
    } else {
        let end = scripts_end(units, 1);
        proof {
            lemma_scripts_end(units, 1);
            lemma_scripts_len(units, end);
        }
        seq![
            TermView {
                base: units[0].base,
                sup: script(run(scripts(units, true, end))),
                sub: script(run(scripts(units, false, end))),
            },
        ] + run_from(units.skip(end as int))
    }
}

// ---------------------------------------------------------------------------------------------
// Parsing
// ---------------------------------------------------------------------------------------------
fn is_bar_candidate(s: &Symbol) -> (r: bool)
    ensures
        r == bar_like(s@),
{
    same_text(s.label.as_str(), "-") || same_text(s.label.as_str(), "\\frac") || same_text(
        s.label.as_str(),
        "\\hline",
    ) || same_text(s.label.as_str(), "_") || (s.bbox.h().gt(num(TINY)) && s.bbox.w().over(
        s.bbox.h(),
    ).gt(num(BAR_ASPECT)))
}

/// Is this label one that the classifier gives to the radical glyph? The same ink is kept under
/// three classes (`\sqrt{}`, `\textsurd` and `\surd`), and all of them have to be accepted.
pub fn is_sqrt(label: &str) -> (r: bool)
    ensures
        r == radical_label(label@),
{
    same_text(label, "\\sqrt") || same_text(label, "\\sqrt{}") || same_text(label, "\\surd")
        || same_text(label, "\\textsurd") || same_text(label, "\u{221a}") || same_text(
        label,
        "sqrt",
    )
}

/// A composite found in the pool, with the indices of its parts and the region it takes up.
struct Composite {
    fraction: bool,
    at: usize,
    /// Above the bar, or under the radical.
    first: Vec<usize>,
    /// Below the bar.
    second: Vec<usize>,
    region: BBox,
}

impl Composite {
    spec fn candidate(&self) -> Candidate {
        Candidate { fraction: self.fraction, at: self.at as int }
    }

    /// Are the parts and the region those of this candidate in the pool?
    spec fn fits(&self, pool: Seq<SymbolView>) -> bool {
        &&& self.at < pool.len()
        &&& is_composite(pool, self.candidate())
        &&& self.region == region(pool, self.candidate())
        &&& if self.fraction {
            &&& crate::sort::as_ints(self.first@) == side(pool, self.at as int, true, pool.len())
            &&& crate::sort::as_ints(self.second@) == side(pool, self.at as int, false, pool.len())
        } else {
            crate::sort::as_ints(self.first@) == inside(pool, self.at as int, pool.len())
        }
    }
}

spec fn best_view(best: Option<Composite>) -> Option<Candidate> {
    match best {
        Some(c) => Some(c.candidate()),
        None => None,
    }
}

/// The parts of the fraction with the bar at `i`: above, below, and the region of both.
fn fraction_parts(pool: &Vec<Symbol>, i: usize) -> (r: (Vec<usize>, Vec<usize>, BBox))
    requires
        i < pool.len(),
    ensures
        crate::sort::as_ints(r.0@) == side(symbol_views(pool@), i as int, true, pool.len() as nat),
        crate::sort::as_ints(r.1@) == side(symbol_views(pool@), i as int, false, pool.len() as nat),
        r.2 == fraction_box(symbol_views(pool@), i as int, pool.len() as nat),
{
    let ghost view = symbol_views(pool@);
    let bar = pool[i].bbox;
    let mut above: Vec<usize> = Vec::new();
    let mut below: Vec<usize> = Vec::new();
    let mut whole: BBox = bar;
    let mut k: usize = 0;
    assert(crate::sort::as_ints(above@) =~= Seq::<int>::empty());
    while k < pool.len()
        invariant
            k <= pool.len(),
            i < pool.len(),
            view == symbol_views(pool@),
            bar == view[i as int].bbox,
            crate::sort::as_ints(above@) == side(view, i as int, true, k as nat),
            crate::sort::as_ints(below@) == side(view, i as int, false, k as nat),
            whole == fraction_box(view, i as int, k as nat),
        decreases pool.len() - k,
    {
        let t = pool[k].bbox;
        assert(t == view[k as int].bbox);
        if k != i && !t.contains(&bar) && t.center_in_x(&bar) {
            whole = whole.union(&t);
            if t.cy().lt(bar.cy()) {
                proof {
                    assert(crate::sort::as_ints(above@.push(k)) =~= crate::sort::as_ints(
                        above@,
                    ).push(k as int));
                }
                above.push(k);
            } else {
                proof {
                    assert(crate::sort::as_ints(below@.push(k)) =~= crate::sort::as_ints(
                        below@,
                    ).push(k as int));
                }
                below.push(k);
            }
        }
        k = k + 1;
    }
    (above, below, whole)
}

/// The symbols under the radical at `i`.
fn radical_parts(pool: &Vec<Symbol>, i: usize) -> (r: Vec<usize>)
    requires
        i < pool.len(),
    ensures
        crate::sort::as_ints(r@) == inside(symbol_views(pool@), i as int, pool.len() as nat),
{
    let ghost view = symbol_views(pool@);
    let root = pool[i].bbox;
    let mut out: Vec<usize> = Vec::new();
    let mut k: usize = 0;
    assert(crate::sort::as_ints(out@) =~= Seq::<int>::empty());
    while k < pool.len()
        invariant
            k <= pool.len(),
            i < pool.len(),
            view == symbol_views(pool@),
            root == view[i as int].bbox,
            crate::sort::as_ints(out@) == inside(view, i as int, k as nat),
        decreases pool.len() - k,
    {
        if k != i && root.contains_center(&pool[k].bbox) {
            proof {
                assert(crate::sort::as_ints(out@.push(k)) =~= crate::sort::as_ints(out@).push(
                    k as int,
                ));
            }
            out.push(k);
        }
        k = k + 1;
    }
    out
}

/// The outermost composite in the pool, if any: the one whose region is largest. Picking the
/// largest region first makes nesting resolve correctly whether a radical wraps a fraction or a
/// fraction's numerator holds a radical.
fn best_composite(pool: &Vec<Symbol>) -> (r: Option<Composite>)
    ensures
        best_view(r) == outermost(symbol_views(pool@)),
        r is Some ==> r->0.fits(symbol_views(pool@)),
{
    let ghost view = symbol_views(pool@);
    let mut best: Option<Composite> = None;
    let mut i: usize = 0;
    // fractions: a bar candidate with content both above and below
    while i < pool.len()
        invariant
            i <= pool.len(),
            view == symbol_views(pool@),
            best_view(best) == best_fraction(view, i as nat),
            best is Some ==> best->0.fits(view),
        decreases pool.len() - i,
    {
        assert(view[i as int] == pool[i as int]@);
        if is_bar_candidate(&pool[i]) {
            let (above, below, whole) = fraction_parts(pool, i);
            let ghost c = Candidate { fraction: true, at: i as int };
            assert(above.len() == side(view, i as int, true, view.len()).len());
            assert(below.len() == side(view, i as int, false, view.len()).len());
            if above.len() > 0 && below.len() > 0 {
                let wins = match &best {
                    Some(b) => whole.area().gt(b.region.area()),
                    None => true,
                };
                if wins {
                    best = Some(
                        Composite {
                            fraction: true,
                            at: i,
                            first: above,
                            second: below,
                            region: whole,
                        },
                    );
                }
            }
        }
        i = i + 1;
    }
    // radicals: one whose box encloses the centers of some symbols
    let mut j: usize = 0;
    while j < pool.len()
        invariant
            j <= pool.len(),
            view == symbol_views(pool@),
            best_view(best) == best_of(view, j as nat),
            best is Some ==> best->0.fits(view),
        decreases pool.len() - j,
    {
        assert(view[j as int] == pool[j as int]@);
        if is_sqrt(pool[j].label.as_str()) {
            let within = radical_parts(pool, j);
            let ghost c = Candidate { fraction: false, at: j as int };
            assert(within.len() == inside(view, j as int, view.len()).len());
            if within.len() > 0 {
                let whole = pool[j].bbox;
                let wins = match &best {
                    Some(b) => whole.area().gt(b.region.area()),
                    None => true,
                };
                if wins {
                    best = Some(
                        Composite {
                            fraction: false,
                            at: j,
                            first: within,
                            second: Vec::new(),
                            region: whole,
                        },
                    );
                }
            }
        }
        j = j + 1;
    }
    best
}

/// Copies of the symbols at the given indices.
fn pick(pool: &Vec<Symbol>, indices: &Vec<usize>) -> (r: Vec<Symbol>)
    requires
        forall|j: int| 0 <= j < indices.len() ==> #[trigger] indices[j] < pool.len(),
    ensures
        symbol_views(r@) == picked(symbol_views(pool@), crate::sort::as_ints(indices@)),
{
    let ghost want = picked(symbol_views(pool@), crate::sort::as_ints(indices@));
    let mut out: Vec<Symbol> = Vec::new();
    let mut j: usize = 0;
    while j < indices.len()
        invariant
            j <= indices.len(),
            forall|j: int| 0 <= j < indices.len() ==> #[trigger] indices[j] < pool.len(),
            want == picked(symbol_views(pool@), crate::sort::as_ints(indices@)),
            symbol_views(out@) == want.take(j as int),
        decreases indices.len() - j,
    {
        let s = pool[indices[j]].clone();
        proof {
            assert(symbol_views(out@.push(s)) =~= symbol_views(out@).push(s@));
            assert(want.take(j + 1) =~= want.take(j as int).push(s@));
        }
        out.push(s);
        j = j + 1;
    }
    assert(want.take(j as int) =~= want);
    out
}

/// Copies of the symbols that the composite leaves.
fn remainder(pool: &Vec<Symbol>, c: &Composite) -> (r: Vec<Symbol>)
    requires
        c.at < pool.len(),
    ensures
        symbol_views(r@) == left_over(symbol_views(pool@), c.candidate(), pool.len() as nat),
{
    let ghost view = symbol_views(pool@);
    let mut out: Vec<Symbol> = Vec::new();
    let mut k: usize = 0;
    assert(symbol_views(out@) =~= Seq::<SymbolView>::empty());
    while k < pool.len()
        invariant
            k <= pool.len(),
            c.at < pool.len(),
            view == symbol_views(pool@),
            symbol_views(out@) == left_over(view, c.candidate(), k as nat),
        decreases pool.len() - k,
    {
        let own = pool[c.at].bbox;
        let t = pool[k].bbox;
        assert(view[k as int].bbox == t && view[c.at as int].bbox == own);
        let taken = k == c.at || if c.fraction {
            k != c.at && !t.contains(&own) && t.center_in_x(&own)
        } else {
            k != c.at && own.contains_center(&t)
        };
        if !taken {
            let s = pool[k].clone();
            proof {
                assert(symbol_views(out@.push(s)) =~= symbol_views(out@).push(s@));
            }
            out.push(s);
        }
        k = k + 1;
    }
    out
}

proof fn lemma_parts_in_range(pool: Seq<SymbolView>, i: int, above: bool, n: nat)
    ensures
        forall|j: int|
            0 <= j < side(pool, i, above, n).len() ==> 0 <= #[trigger] side(
                pool,
                i,
                above,
                n,
            )[j] < n,
        forall|j: int|
            0 <= j < inside(pool, i, n).len() ==> 0 <= #[trigger] inside(pool, i, n)[j] < n,
    decreases n,
{
    if n > 0 {
        lemma_parts_in_range(pool, i, above, (n - 1) as nat);
        let before = side(pool, i, above, (n - 1) as nat);
        let within = inside(pool, i, (n - 1) as nat);
        assert forall|j: int| 0 <= j < side(pool, i, above, n).len() implies 0 <= #[trigger] side(
            pool,
            i,
            above,
            n,
        )[j] < n by {
            if j < before.len() {
                assert(0 <= before[j] < n - 1);
            }
        }
        assert forall|j: int| 0 <= j < inside(pool, i, n).len() implies 0 <= #[trigger] inside(
            pool,
            i,
            n,
        )[j] < n by {
            if j < within.len() {
                assert(0 <= within[j] < n - 1);
            }
        }
    }
}

/// Parse positioned symbols into a tree.
pub fn parse(symbols: &Vec<Symbol>) -> (r: Slt)
    ensures
        r@ == tree(symbol_views(symbols@)),
    decreases symbols.len(), 2nat,
{
    let units = form_units(symbols);
    baseline(units)
}

/// Collapse composites into single units, outermost first; everything left becomes a plain
/// symbol unit.
fn form_units(symbols: &Vec<Symbol>) -> (r: Vec<Unit>)
    ensures
        unit_views(r@) == units_of(symbol_views(symbols@)),
    decreases symbols.len(), 1nat,
{
    let ghost all = symbol_views(symbols@);
    let mut units: Vec<Unit> = Vec::new();
    let mut pool: Vec<Symbol> = copy_symbols(symbols);
    assert(unit_views(units@) =~= Seq::<UnitView>::empty());
    assert(unit_views(units@) + units_of(all) =~= units_of(all));
    loop
        invariant
            pool.len() <= symbols.len(),
            unit_views(units@) + units_of(symbol_views(pool@)) == units_of(all),
        ensures
            outermost(symbol_views(pool@)) is None,
            unit_views(units@) + units_of(symbol_views(pool@)) == units_of(all),
        decreases pool.len(),
    {
        let ghost view = symbol_views(pool@);
        let found = best_composite(&pool);
        if found.is_none() {
            break ;
        }
        let c = found.unwrap();
        let ghost cand = c.candidate();
        proof {
            lemma_composite_counts(view, cand, view.len());
            lemma_parts_in_range(view, cand.at, true, view.len());
            lemma_parts_in_range(view, cand.at, false, view.len());
            assert forall|j: int| 0 <= j < c.first.len() implies #[trigger] c.first[j]
                < pool.len() by {
                assert(crate::sort::as_ints(c.first@)[j] == c.first[j]);
            }
        }
        let first = pick(&pool, &c.first);
        let base = if c.fraction {
            proof {
                assert forall|j: int| 0 <= j < c.second.len() implies #[trigger] c.second[j]
                    < pool.len() by {
                    assert(crate::sort::as_ints(c.second@)[j] == c.second[j]);
                }
            }
            let second = pick(&pool, &c.second);
            assert(symbol_views(first@).len() == first.len());
            assert(symbol_views(second@).len() == second.len());
            Base::Frac { num: parse(&first), den: parse(&second) }
        } else {
            assert(symbol_views(first@).len() == first.len());
            Base::Sqrt(parse(&first))
        };
        let unit = Unit { bbox: c.region, base };
        assert(unit@ == composite_unit(view, cand));
        let rest = remainder(&pool, &c);
        proof {
            assert(symbol_views(rest@).len() == rest.len());
            assert(unit_views(units@.push(unit)) =~= unit_views(units@).push(unit@));
            assert(unit_views(units@.push(unit)) + units_of(symbol_views(rest@)) =~= unit_views(
                units@,
            ) + (seq![unit@] + units_of(symbol_views(rest@))));
        }
        units.push(unit);
        pool = rest;
    }
    let ghost view = symbol_views(pool@);
    let ghost built = unit_views(units@);
    let ghost plain = units_of(view);
    let mut k: usize = 0;
    assert(plain.take(0) =~= Seq::<UnitView>::empty());
    assert(built + plain.take(0) =~= built);
    while k < pool.len()
        invariant
            k <= pool.len(),
            view == symbol_views(pool@),
            outermost(view) is None,
            plain == units_of(view),
            plain.len() == pool.len(),
            unit_views(units@) == built + plain.take(k as int),
        decreases pool.len() - k,
    {
        let s = &pool[k];
        let unit = Unit { bbox: s.bbox, base: Base::Symbol(s.label.clone()) };
        proof {
            assert(view[k as int] == s@);
            assert(plain[k as int] == unit@);
            assert(unit_views(units@.push(unit)) =~= unit_views(units@).push(unit@));
            assert(plain.take(k + 1) =~= plain.take(k as int).push(unit@));
        }
        units.push(unit);
        k = k + 1;
    }
    assert(plain.take(k as int) =~= plain);
    units
}

/// The same symbols in a new vector.
fn copy_symbols(symbols: &Vec<Symbol>) -> (r: Vec<Symbol>)
    ensures
        symbol_views(r@) == symbol_views(symbols@),
        r.len() == symbols.len(),
{
    let ghost want = symbol_views(symbols@);
    let mut out: Vec<Symbol> = Vec::new();
    let mut k: usize = 0;
    while k < symbols.len()
        invariant
            k <= symbols.len(),
            want == symbol_views(symbols@),
            out.len() == k,
            symbol_views(out@) == want.take(k as int),
        decreases symbols.len() - k,
    {
        let s = symbols[k].clone();
        proof {
            assert(symbol_views(out@.push(s)) =~= symbol_views(out@).push(s@));
            assert(want.take(k + 1) =~= want.take(k as int).push(s@));
        }
        out.push(s);
        k = k + 1;
    }
    assert(want.take(k as int) =~= want);
    out
}

fn copy_unit(u: &Unit) -> (r: Unit)
    ensures
        r@ == u@,
{
    Unit { bbox: u.bbox, base: copy_base(&u.base) }
}

/// The units from left to right.
fn sort_units(units: &Vec<Unit>) -> (r: Vec<Unit>)
    ensures
        unit_views(r@) == by_left_edge(unit_views(units@)),
        r.len() == units.len(),
{
    let ghost view = unit_views(units@);
    let mut keys: Vec<F32> = Vec::new();
    let mut k: usize = 0;
    while k < units.len()
        invariant
            k <= units.len(),
            view == unit_views(units@),
            keys@ == left_edges(view).take(k as int),
        decreases units.len() - k,
    {
        assert(view[k as int] == units[k as int]@);
        assert(left_edges(view).take(k + 1) =~= left_edges(view).take(k as int).push(
            units[k as int].bbox.min_x,
        ));
        keys.push(units[k].bbox.min_x);
        k = k + 1;
    }
    assert(left_edges(view).take(k as int) =~= left_edges(view));
    let order = sort_indices(&keys);
    let ghost want = by_left_edge(view);
    let mut out: Vec<Unit> = Vec::new();
    let mut j: usize = 0;
    while j < order.len()
        invariant
            j <= order.len(),
            order.len() == units.len(),
            out.len() == j,
            view == unit_views(units@),
            want == by_left_edge(view),
            crate::sort::as_ints(order@) == crate::sort::stable_order(left_edges(view)),
            crate::sort::is_permutation(crate::sort::as_ints(order@), units.len() as nat),
            unit_views(out@) == want.take(j as int),
        decreases order.len() - j,
    {
        assert(crate::sort::as_ints(order@)[j as int] == order[j as int]);
        let u = copy_unit(&units[order[j]]);
        proof {
            assert(unit_views(out@.push(u)) =~= unit_views(out@).push(u@));
            assert(want.take(j + 1) =~= want.take(j as int).push(u@));
        }
        out.push(u);
        j = j + 1;
    }
    assert(want.take(j as int) =~= want);
    out
}

fn opt(slt: Slt) -> (r: Option<Slt>)
    ensures
        match r {
            Some(s) => script(slt@.terms) == Some(s@),
            None => script(slt@.terms) is None,
        },
{
    proof {
        lemma_terms_view(slt.terms@);
    }
    if slt.terms.len() == 0 {
        None
    } else {
        Some(slt)
    }
}

/// Walk units left to right, attaching super- and subscripts (and big-operator limits) to each
/// base. Recurses into every region.
fn baseline(units: Vec<Unit>) -> (r: Slt)
    ensures
        r@ == (SltView { terms: run(unit_views(units@)) }),
    decreases units.len(),
{
    let sorted = sort_units(&units);
    let ghost all = unit_views(sorted@);
    let mut terms: Vec<Term> = Vec::new();
    let mut i: usize = 0;
    assert(all.skip(0) =~= all);
    assert(terms_view(terms@) + run_from(all) =~= run_from(all));
    while i < sorted.len()
        invariant
            i <= sorted.len(),
            sorted.len() == units.len(),
            all == unit_views(sorted@),
            terms_view(terms@) + run_from(all.skip(i as int)) == run_from(all),
        decreases sorted.len() - i,
    {
        let ghost rest = all.skip(i as int);
        let base_box = sorted[i].bbox;
        assert(rest[0] == sorted[i as int]@);
        let mut sup: Vec<Unit> = Vec::new();
        let mut sub: Vec<Unit> = Vec::new();
        let mut j: usize = i + 1;
        let offset = num(SCRIPT_DY).times(base_box.h().max(num(TINY)));
        assert(unit_views(sup@) =~= Seq::<UnitView>::empty());
        assert(unit_views(sub@) =~= Seq::<UnitView>::empty());
        let mut going = true;
        while going && j < sorted.len()
            invariant
                i < j <= sorted.len(),
                sorted.len() == units.len(),
                all == unit_views(sorted@),
                rest == all.skip(i as int),
                base_box == rest[0].bbox,
                offset == script_offset(base_box),
                unit_views(sup@) == scripts(rest, true, (j - i) as nat),
                unit_views(sub@) == scripts(rest, false, (j - i) as nat),
                going ==> scripts_end(rest, 1) == scripts_end(rest, (j - i) as nat),
                !going ==> scripts_end(rest, 1) == j - i,
                sup.len() + sub.len() == j - i - 1,
            decreases
                    sorted.len() - j + if going {
                        1int
                    } else {
                        0
                    },
        {
            let u = &sorted[j];
            let dy = u.bbox.cy().minus(base_box.cy());
            let above = dy.lt(offset.neg());
            let below = dy.gt(offset);
            assert(rest[j - i] == u@);
            if above {
                let c = copy_unit(u);
                proof {
                    assert(unit_views(sup@.push(c)) =~= unit_views(sup@).push(c@));
                }
                sup.push(c);
                j = j + 1;
            } else if below {
                let c = copy_unit(u);
                proof {
                    assert(unit_views(sub@.push(c)) =~= unit_views(sub@).push(c@));
                }
                sub.push(c);
                j = j + 1;
            } else {
                going = false;
            }
        }
        let ghost end = (j - i) as nat;
        assert(scripts_end(rest, 1) == end);
        let ghost sup_view = unit_views(sup@);
        let ghost sub_view = unit_views(sub@);
        let base = copy_base(&sorted[i].base);
        let sup_tree = baseline(sup);
        let sub_tree = baseline(sub);
        let term = Term { base, sup: opt(sup_tree), sub: opt(sub_tree) };
        proof {
            assert(run_from(rest) == seq![term@] + run_from(rest.skip(end as int)));
            assert(rest.skip(end as int) =~= all.skip(j as int));
            assert(terms@.push(term).drop_last() =~= terms@);
            assert(terms_view(terms@.push(term)) + run_from(all.skip(j as int)) =~= terms_view(
                terms@,
            ) + (seq![term@] + run_from(all.skip(j as int))));
        }
        terms.push(term);
        i = j;
    }
    assert(all.skip(i as int) =~= Seq::<UnitView>::empty());
    assert(terms_view(terms@) + run_from(all.skip(i as int)) =~= terms_view(terms@));
    Slt { terms }
}

// ---------------------------------------------------------------------------------------------
// Nothing is lost
// ---------------------------------------------------------------------------------------------
/// How many symbols a tree stands for: each leaf, fraction bar and radical is one.
pub open spec fn symbols_in(t: SltView) -> nat
    decreases t,
{
    symbols_in_terms(t.terms)
}

pub open spec fn symbols_in_terms(terms: Seq<TermView>) -> nat
    decreases terms,
{
    if terms.len() == 0 {
        0
    } else {
        symbols_in_terms(terms.drop_last()) + symbols_in_term(terms.last())
    }
}

pub open spec fn symbols_in_term(t: TermView) -> nat
    decreases t,
{
    symbols_in_base(t.base) + (match t.sup {
        Some(s) => symbols_in(s),
        None => 0,
    }) + (match t.sub {
        Some(s) => symbols_in(s),
        None => 0,
    })
}

pub open spec fn symbols_in_base(b: BaseView) -> nat
    decreases b,
{
    match b {
        BaseView::Symbol(_) => 1,
        BaseView::Frac { num, den } => 1 + symbols_in(num) + symbols_in(den),
        BaseView::Sqrt(inner) => 1 + symbols_in(inner),
    }
}

/// How many symbols a list of units stands for.
pub open spec fn symbols_in_units(units: Seq<UnitView>) -> nat
    decreases units.len(),
{
    if units.len() == 0 {
        0
    } else {
        symbols_in_units(units.drop_last()) + symbols_in_base(units.last().base)
    }
}

proof fn lemma_count_terms(a: Seq<TermView>, b: Seq<TermView>)
    ensures
        symbols_in_terms(a + b) == symbols_in_terms(a) + symbols_in_terms(b),
    decreases b.len(),
{
    if b.len() == 0 {
        assert(a + b =~= a);
    } else {
        assert((a + b).drop_last() =~= a + b.drop_last());
        lemma_count_terms(a, b.drop_last());
    }
}

proof fn lemma_count_units(a: Seq<UnitView>, b: Seq<UnitView>)
    ensures
        symbols_in_units(a + b) == symbols_in_units(a) + symbols_in_units(b),
    decreases b.len(),
{
    if b.len() == 0 {
        assert(a + b =~= a);
    } else {
        assert((a + b).drop_last() =~= a + b.drop_last());
        lemma_count_units(a, b.drop_last());
    }
}

proof fn lemma_count_insert(units: Seq<UnitView>, at: int, u: UnitView)
    requires
        0 <= at <= units.len(),
    ensures
        symbols_in_units(units.insert(at, u)) == symbols_in_units(units) + symbols_in_base(u.base),
{
    let a = units.take(at);
    let b = units.skip(at);
    assert(units =~= a + b);
    assert(units.insert(at, u) =~= a.push(u) + b);
    lemma_count_units(a, b);
    lemma_count_units(a.push(u), b);
    assert(a.push(u).drop_last() =~= a);
}

/// Sorting the first `n` units keeps their count.
proof fn lemma_count_sorted(units: Seq<UnitView>, n: nat)
    requires
        n <= units.len(),
    ensures
        ({
            let order = crate::sort::ordered(left_edges(units), n);
            symbols_in_units(Seq::new(n, |i: int| units[order[i]])) == symbols_in_units(
                units.take(n as int),
            )
        }),
    decreases n,
{
    let keys = left_edges(units);
    let order = crate::sort::ordered(keys, n);
    let now = Seq::new(n, |i: int| units[order[i]]);
    crate::sort::lemma_order_is_permutation(keys, n);
    if n > 0 {
        lemma_count_sorted(units, (n - 1) as nat);
        let prev = crate::sort::ordered(keys, (n - 1) as nat);
        crate::sort::lemma_order_is_permutation(keys, (n - 1) as nat);
        crate::sort::lemma_insertion_point(keys, prev, keys[n - 1]);
        let at = crate::sort::insertion_point(keys, prev, keys[n - 1]);
        let before = Seq::new((n - 1) as nat, |i: int| units[prev[i]]);
        assert(now =~= before.insert(at, units[n - 1]));
        lemma_count_insert(before, at, units[n - 1]);
        assert(units.take(n as int).drop_last() =~= units.take(n - 1));
    } else {
        assert(now =~= units.take(0));
    }
}

proof fn lemma_count_scripts(units: Seq<UnitView>, j: nat)
    requires
        1 <= j <= units.len(),
    ensures
        symbols_in_units(units.take(j as int)) == symbols_in_base(units[0].base)
            + symbols_in_units(scripts(units, true, j)) + symbols_in_units(scripts(units, false, j)),
    decreases j,
{
    assert(units.take(j as int).drop_last() =~= units.take(j - 1));
    if j > 1 {
        lemma_count_scripts(units, (j - 1) as nat);
        let u = units[j - 1];
        let above = raised(units[0].bbox, u.bbox);
        let before = scripts(units, above, (j - 1) as nat);
        assert(before.push(u).drop_last() =~= before);
    } else {
        assert(units.take(0) =~= Seq::<UnitView>::empty());
        reveal_with_fuel(symbols_in_units, 2);
    }
}

/// A run stands for the symbols of its units.
proof fn lemma_count_run(units: Seq<UnitView>)
    ensures
        symbols_in_terms(run(units)) == symbols_in_units(units),
    decreases units.len(), 1nat,
{
    lemma_count_run_from(by_left_edge(units));
    lemma_count_sorted(units, units.len());
    assert(units.take(units.len() as int) =~= units);
}

proof fn lemma_count_run_from(units: Seq<UnitView>)
    ensures
        symbols_in_terms(run_from(units)) == symbols_in_units(units),
    decreases units.len(), 0nat,
{
    if units.len() > 0 {
        let end = scripts_end(units, 1);
        lemma_scripts_end(units, 1);
        lemma_scripts_len(units, end);
        let sup = scripts(units, true, end);
        let sub = scripts(units, false, end);
        lemma_count_run(sup);
        lemma_count_run(sub);
        lemma_count_run_from(units.skip(end as int));
        lemma_count_scripts(units, end);
        assert(units =~= units.take(end as int) + units.skip(end as int));
        lemma_count_units(units.take(end as int), units.skip(end as int));
        let term = TermView {
            base: units[0].base,
            sup: script(run(sup)),
            sub: script(run(sub)),
        };
        let one = seq![term];
        lemma_count_terms(one, run_from(units.skip(end as int)));
        assert(one.drop_last() =~= Seq::<TermView>::empty());
        reveal_with_fuel(symbols_in_terms, 2);
        assert(symbols_in_terms(one) == symbols_in_term(term));
        assert(run(sup).len() == 0 ==> symbols_in_terms(run(sup)) == 0);
        assert(run(sub).len() == 0 ==> symbols_in_terms(run(sub)) == 0);
    }
}

/// Nothing is lost and nothing is made up: the tree of a bag of symbols stands for exactly as
/// many symbols as were in the bag.
pub proof fn law_every_symbol_is_used_once(pool: Seq<SymbolView>)
    ensures
        symbols_in(tree(pool)) == pool.len(),
    decreases pool.len(), 1nat,
{
    lemma_count_units_of(pool);
    lemma_count_run(units_of(pool));
}

proof fn lemma_count_units_of(pool: Seq<SymbolView>)
    ensures
        symbols_in_units(units_of(pool)) == pool.len(),
    decreases pool.len(), 0nat,
{
    match outermost(pool) {
        None => {
            lemma_count_plain(units_of(pool));
        },
        Some(c) => {
            lemma_outermost(pool);
            lemma_composite_counts(pool, c, pool.len());
            let n = pool.len();
            if c.fraction {
                law_every_symbol_is_used_once(picked(pool, side(pool, c.at, true, n)));
                law_every_symbol_is_used_once(picked(pool, side(pool, c.at, false, n)));
            } else {
                law_every_symbol_is_used_once(picked(pool, inside(pool, c.at, n)));
            }
            let unit = composite_unit(pool, c);
            let rest = left_over(pool, c, n);
            lemma_count_units_of(rest);
            lemma_count_units(seq![unit], units_of(rest));
            assert(seq![unit].drop_last() =~= Seq::<UnitView>::empty());
            reveal_with_fuel(symbols_in_units, 2);
            assert(symbols_in_units(seq![unit]) == symbols_in_base(unit.base));
        },
    }
}

proof fn lemma_count_plain(units: Seq<UnitView>)
    requires
        forall|k: int| 0 <= k < units.len() ==> (#[trigger] units[k]).base is Symbol,
    ensures
        symbols_in_units(units) == units.len(),
    decreases units.len(),
{
    if units.len() > 0 {
        assert(units[units.len() - 1].base is Symbol);
        lemma_count_plain(units.drop_last());
    }
}

} // verus!
