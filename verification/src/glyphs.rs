//! Single-stroke vector glyphs: the handwriting that a beautifier writes back onto the page.
//!
//! The glyphs of a plotter font are polylines drawn by a moving pen tip, without fill or hinting,
//! which is what a tablet's digitizer takes. Fonts come in the JHF format: one glyph per record,
//! with 5 characters of id (ignored), 3 characters of vertex count, then vertices as pairs of
//! characters offset from `R`. The first pair holds the left and right bounds of the advance, the
//! pair of a space and `R` lifts the pen, and records longer than a line wrap, so that only the
//! vertex count tells where one ends. `y` grows downward; the baseline sits at 9 and the tops of
//! capitals at -12.
use crate::float::{num, F32};
use crate::text::{
    append_chars, chars_of, lines, parse_number, same_chars, slice, trim,
};
use vstd::prelude::*;

verus! {

/// Font units to thousandths of an em: 600 / 21, because 21 units of cap height become 600.
pub const UNIT: u32 = 0x41e4_9249;

/// Where the baseline is in an em of 1000: 800.
pub const BASELINE_EM: u32 = 0x4448_0000;

/// Where the baseline is in font units: 9.
pub const BASELINE_UNITS: u32 = 0x4110_0000;

/// The tangent of the slant of italic letters: 0.21.
pub const SLANT: u32 = 0x3e57_0a3d;

/// How much of the slant's width goes to the advance: 0.35.
pub const SLANT_ADVANCE: u32 = 0x3eb3_3333;

/// Three quarters.
pub const THREE_QUARTERS: u32 = 0x3f40_0000;

/// One quarter.
pub const QUARTER: u32 = 0x3e80_0000;

/// How often the corners of a glyph are cut.
pub const ROUNDS: usize = 2;

/// What a list of lists holds.
pub open spec fn nested<T>(lists: Seq<Vec<T>>) -> Seq<Seq<T>> {
    Seq::new(lists.len(), |i: int| lists[i]@)
}

/// A glyph in font units: the bounds of its advance and its polylines.
#[derive(Debug)]
pub struct RawGlyph {
    pub left: i32,
    pub right: i32,
    pub polylines: Vec<Vec<(i32, i32)>>,
}

/// What a [`RawGlyph`] holds.
#[verifier::ext_equal]
pub struct RawGlyphView {
    pub left: i32,
    pub right: i32,
    pub polylines: Seq<Seq<(i32, i32)>>,
}

impl View for RawGlyph {
    type V = RawGlyphView;

    open spec fn view(&self) -> RawGlyphView {
        RawGlyphView {
            left: self.left,
            right: self.right,
            polylines: nested(self.polylines@),
        }
    }
}

/// A font: glyphs for the printable ASCII characters, from the space on.
#[derive(Debug)]
pub struct Font {
    pub glyphs: Vec<RawGlyph>,
}

impl View for Font {
    type V = Seq<RawGlyphView>;

    open spec fn view(&self) -> Seq<RawGlyphView> {
        Seq::new(self.glyphs@.len(), |i: int| self.glyphs@[i]@)
    }
}

/// A glyph ready to trace: polylines in an em of 1000 (`y` down, baseline at 800, left edge at 0)
/// and the horizontal advance.
#[derive(Debug)]
pub struct Glyph {
    pub polylines: Vec<Vec<(F32, F32)>>,
    pub advance: F32,
}

/// What a [`Glyph`] holds.
#[verifier::ext_equal]
pub struct GlyphView {
    pub polylines: Seq<Seq<(F32, F32)>>,
    pub advance: F32,
}

impl View for Glyph {
    type V = GlyphView;

    open spec fn view(&self) -> GlyphView {
        GlyphView { polylines: nested(self.polylines@), advance: self.advance }
    }
}

// ---------------------------------------------------------------------------------------------
// Reading a font
// ---------------------------------------------------------------------------------------------
/// The coordinate that a character stands for.
pub open spec fn coordinate(c: char) -> i32 {
    (c as int - 'R' as int) as i32
}

/// The polylines that are finished after the first `n` pairs of a record's vertices, and the one
/// that is being drawn. A polyline of a single vertex draws nothing and is dropped.
pub open spec fn drawn(vertices: Seq<char>, n: nat) -> (Seq<Seq<(i32, i32)>>, Seq<(i32, i32)>)
    decreases n,
{
    if n == 0 {
        (Seq::empty(), Seq::empty())
    } else {
        let (done, cur) = drawn(vertices, (n - 1) as nat);
        let x = vertices[2 * (n - 1)];
        let y = vertices[2 * (n - 1) + 1];
        if x == ' ' && y == 'R' {
            (finished(done, cur), Seq::empty())
        } else {
            (done, cur.push((coordinate(x), coordinate(y))))
        }
    }
}

/// The finished polylines, when the pen is lifted.
pub open spec fn finished(done: Seq<Seq<(i32, i32)>>, cur: Seq<(i32, i32)>) -> Seq<
    Seq<(i32, i32)>,
> {
    if cur.len() > 1 {
        done.push(cur)
    } else {
        done
    }
}

/// The glyph of a record with the given pairs, the advance bounds first.
pub open spec fn record_glyph(pairs: Seq<char>) -> RawGlyphView {
    let vertices = pairs.skip(2);
    let (done, cur) = drawn(vertices, vertices.len() / 2);
    RawGlyphView {
        left: coordinate(pairs[0]),
        right: coordinate(pairs[1]),
        polylines: finished(done, cur),
    }
}

/// The vertex count of a record, if it starts with one.
pub open spec fn vertex_count(record: Seq<char>) -> Option<nat> {
    if record.len() < 8 {
        None
    } else {
        crate::text::number(crate::text::trimmed(record.subrange(5, 8)))
    }
}

/// The glyphs read from the first `n` lines, and the record that is not complete yet. A record
/// without a vertex count is dropped; one that counts no vertices has no advance, so the lines are
/// no font.
pub open spec fn read_lines(lines: Seq<Seq<char>>, n: nat) -> Option<
    (Seq<RawGlyphView>, Seq<char>),
>
    decreases n,
{
    if n == 0 {
        Some((Seq::empty(), Seq::empty()))
    } else {
        match read_lines(lines, (n - 1) as nat) {
            None => None,
            Some((glyphs, open)) => {
                let line = lines[n - 1];
                let record = open + line;
                if line.len() == 0 {
                    Some((glyphs, open))
                } else {
                    match vertex_count(record) {
                        None => Some((glyphs, Seq::empty())),
                        Some(count) => if record.len() < 8 + 2 * count {
                            Some((glyphs, record))
                        } else if count == 0 {
                            None
                        } else {
                            Some(
                                (
                                    glyphs.push(
                                        record_glyph(record.subrange(8, 8 + 2 * count as int)),
                                    ),
                                    Seq::empty(),
                                ),
                            )
                        },
                    }
                }
            },
        }
    }
}

pub open spec fn ascii(text: Seq<char>) -> bool {
    forall|i: int| 0 <= i < text.len() ==> (#[trigger] text[i] as int) < 128
}

/// The glyphs in a JHF text, if it is one.
pub open spec fn font_of(text: Seq<char>) -> Option<Seq<RawGlyphView>> {
    if !ascii(text) {
        None
    } else {
        match read_lines(crate::text::lines_of(text), crate::text::lines_of(text).len()) {
            None => None,
            Some((glyphs, _)) => Some(glyphs),
        }
    }
}

fn coord(c: char) -> (r: i32)
    requires
        (c as int) < 128,
    ensures
        r == coordinate(c),
{
    c as u32 as i32 - 82
}

/// Adding a list adds what it holds.
pub proof fn lemma_nested_push<T>(lists: Seq<Vec<T>>, list: Vec<T>)
    ensures
        nested(lists.push(list)) == nested(lists).push(list@),
{
    assert(nested(lists.push(list)) =~= nested(lists).push(list@));
}

fn read_record(record: &Vec<char>, count: usize) -> (r: RawGlyph)
    requires
        ascii(record@),
        0 < count <= 999,
        8 + 2 * count <= record.len(),
    ensures
        r@ == record_glyph(record@.subrange(8, 8 + 2 * count as int)),
{
    let ghost pairs = record@.subrange(8, 8 + 2 * count as int);
    let ghost vertices = pairs.skip(2);
    let mut done: Vec<Vec<(i32, i32)>> = Vec::new();
    let mut cur: Vec<(i32, i32)> = Vec::new();
    let mut n: usize = 0;
    assert(nested(done@) =~= Seq::<Seq<(i32, i32)>>::empty());
    while n + 1 < count
        invariant
            n + 1 <= count <= 999,
            8 + 2 * count <= record.len(),
            ascii(record@),
            pairs == record@.subrange(8, 8 + 2 * count as int),
            vertices == pairs.skip(2),
            drawn(vertices, n as nat) == (nested(done@), cur@),
        decreases count - n,
    {
        let x = record[10 + 2 * n];
        let y = record[11 + 2 * n];
        assert(vertices[2 * n] == x && vertices[2 * n + 1] == y);
        if x == ' ' && y == 'R' {
            if cur.len() > 1 {
                proof {
                    lemma_nested_push(done@, cur);
                }
                done.push(cur);
            }
            cur = Vec::new();
        } else {
            cur.push((coord(x), coord(y)));
        }
        n = n + 1;
    }
    assert(vertices.len() / 2 == n);
    if cur.len() > 1 {
        proof {
            lemma_nested_push(done@, cur);
        }
        done.push(cur);
    }
    RawGlyph { left: coord(record[8]), right: coord(record[9]), polylines: done }
}

fn find_count(record: &Vec<char>) -> (r: Option<usize>)
    ensures
        match r {
            Some(n) => n <= 999 && vertex_count(record@) == Some(n as nat),
            None => vertex_count(record@) is None,
        },
{
    if record.len() < 8 {
        return None;
    }
    let field = trim(&slice(record, 5, 8));
    proof {
        lemma_trimmed_len(record@.subrange(5, 8));
        lemma_small_number(field@);
    }
    match parse_number(&field) {
        Some(n) => Some(n as usize),
        None => None,
    }
}

proof fn lemma_trim_start_len(s: Seq<char>)
    ensures
        crate::text::trim_start(s).len() <= s.len(),
    decreases s.len(),
{
    reveal_with_fuel(crate::text::trim_start, 2);
    if s.len() > 0 && crate::text::white(s[0]) {
        lemma_trim_start_len(s.skip(1));
    }
}

proof fn lemma_trim_end_len(s: Seq<char>)
    ensures
        crate::text::trim_end(s).len() <= s.len(),
    decreases s.len(),
{
    reveal_with_fuel(crate::text::trim_end, 2);
    if s.len() > 0 && crate::text::white(s.last()) {
        lemma_trim_end_len(s.drop_last());
    }
}

proof fn lemma_trimmed_len(s: Seq<char>)
    ensures
        crate::text::trimmed(s).len() <= s.len(),
{
    lemma_trim_start_len(s);
    lemma_trim_end_len(s);
    lemma_trim_start_len(crate::text::trim_end(s));
    lemma_trim_end_len(crate::text::trim_start(s));
}

/// A numeral of at most three characters stands for at most 999.
proof fn lemma_small_number(s: Seq<char>)
    requires
        s.len() <= 3,
    ensures
        crate::text::number(s) matches Some(v) ==> v <= 999,
{
    let body = if s.len() > 0 && s[0] == '+' {
        s.skip(1)
    } else {
        s
    };
    if crate::text::all_digits(body) {
        reveal_with_fuel(crate::text::digits_value, 4);
        assert(forall|i: int| 0 <= i < body.len() ==> crate::text::is_digit(#[trigger] body[i]));
    }
}

proof fn lemma_split_ascii(text: Seq<char>, sep: char)
    requires
        ascii(text),
    ensures
        crate::text::split(text, sep).len() > 0,
        forall|i: int|
            0 <= i < crate::text::split(text, sep).len() ==> ascii(
                #[trigger] crate::text::split(text, sep)[i],
            ),
    decreases text.len(),
{
    if text.len() > 0 {
        assert(ascii(text.drop_last()));
        lemma_split_ascii(text.drop_last(), sep);
        let before = crate::text::split(text.drop_last(), sep);
        let now = crate::text::split(text, sep);
        assert((text[text.len() - 1] as int) < 128);
        assert forall|i: int| 0 <= i < now.len() implies ascii(#[trigger] now[i]) by {
            if text.last() != sep && i == before.len() - 1 {
                assert(ascii(before[i]));
                assert(now[i] == before[i].push(text.last()));
            } else if i < before.len() {
                assert(now[i] == before[i]);
            }
        }
    }
}

proof fn lemma_lines_ascii(text: Seq<char>)
    requires
        ascii(text),
    ensures
        forall|i: int|
            0 <= i < crate::text::lines_of(text).len() ==> ascii(
                #[trigger] crate::text::lines_of(text)[i],
            ),
{
    lemma_split_ascii(text, '\n');
    let parts = crate::text::split(text, '\n');
    assert forall|i: int| 0 <= i < crate::text::lines_of(text).len() implies ascii(
        #[trigger] crate::text::lines_of(text)[i],
    ) by {
        assert(ascii(parts[i]));
    }
}

fn is_ascii(text: &Vec<char>) -> (r: bool)
    ensures
        r == ascii(text@),
{
    let mut i: usize = 0;
    while i < text.len()
        invariant
            i <= text.len(),
            forall|k: int| 0 <= k < i ==> (#[trigger] text@[k] as int) < 128,
        decreases text.len() - i,
    {
        let c = text[i];
        if c > '\x7f' {
            assert((text@[i as int] as int) >= 128);
            return false;
        }
        i = i + 1;
    }
    true
}

/// Read every glyph record of a text. Wrapped lines are joined by trusting the vertex count, not
/// the lines.
fn parse_jhf(text: &Vec<char>) -> (r: Option<Vec<RawGlyph>>)
    requires
        ascii(text@),
    ensures
        match r {
            Some(glyphs) => font_of(text@) == Some((Font { glyphs })@),
            None => font_of(text@) is None,
        },
{
    let parts = lines(text);
    let ghost views = crate::text::lines_of(text@);
    let mut font = Font { glyphs: Vec::new() };
    let mut open: Vec<char> = Vec::new();
    let mut i: usize = 0;
    proof {
        lemma_lines_ascii(text@);
        assert(font@ =~= Seq::<RawGlyphView>::empty());
    }
    while i < parts.len()
        invariant
            i <= parts.len(),
            views == crate::text::line_views(parts@),
            views == crate::text::lines_of(text@),
            ascii(text@),
            forall|k: int| 0 <= k < views.len() ==> ascii(#[trigger] views[k]),
            ascii(open@),
            read_lines(views, i as nat) == Some((font@, open@)),
        decreases parts.len() - i,
    {
        let part = &parts[i];
        assert(views[i as int] == part@);
        if part.len() > 0 {
            append_chars(&mut open, part);
            match find_count(&open) {
                None => {
                    open = Vec::new();
                },
                Some(count) => {
                    if open.len() >= 8 + 2 * count {
                        if count == 0 {
                            proof {
                                lemma_no_font(views, i as nat + 1, views.len());
                            }
                            return None;
                        }
                        let g = read_record(&open, count);
                        let ghost had = font@;
                        font.glyphs.push(g);
                        assert(font@ =~= had.push(g@));
                        open = Vec::new();
                    }
                },
            }
        }
        i = i + 1;
    }
    Some(font.glyphs)
}

proof fn lemma_no_font(lines: Seq<Seq<char>>, n: nat, m: nat)
    requires
        n <= m,
        read_lines(lines, n) is None,
    ensures
        read_lines(lines, m) is None,
    decreases m,
{
    if n < m {
        lemma_no_font(lines, n, (m - 1) as nat);
    }
}

impl Font {
    /// The font in a JHF text: `None` if the text is not ASCII or has a record without bounds.
    pub fn from_jhf(text: &str) -> (r: Option<Self>)
        ensures
            match r {
                Some(font) => font_of(text@) == Some(font@),
                None => font_of(text@) is None,
            },
    {
        let chars = chars_of(text);
        if !is_ascii(&chars) {
            return None;
        }
        match parse_jhf(&chars) {
            Some(glyphs) => Some(Font { glyphs }),
            None => None,
        }
    }
}

// ---------------------------------------------------------------------------------------------
// Glyphs for commands
// ---------------------------------------------------------------------------------------------
/// Glyphs for commands that an ASCII font lacks, in the same coordinates.
pub open spec fn composed_of(cmd: Seq<char>) -> Option<RawGlyphView> {
    if cmd == "\\pm"@ {
        Some(
            RawGlyphView {
                left: -11i32,
                right: 11,
                polylines: seq![
                    seq![(0i32, -10i32), (0i32, 4i32)],
                    seq![(-8i32, -3i32), (8i32, -3i32)],
                    seq![(-8i32, 9i32), (8i32, 9i32)],
                ],
            },
        )
    } else if cmd == "\\times"@ {
        Some(
            RawGlyphView {
                left: -9i32,
                right: 9,
                polylines: seq![
                    seq![(-6i32, -7i32), (6i32, 5i32)],
                    seq![(6i32, -7i32), (-6i32, 5i32)],
                ],
            },
        )
    } else if cmd == "\\cdot"@ {
        Some(
            RawGlyphView {
                left: -4i32,
                right: 4,
                polylines: seq![
                    seq![(-1i32, 0i32), (1i32, 0i32), (1i32, 2i32), (-1i32, 2i32), (-1i32, 0i32)],
                ],
            },
        )
    } else if cmd == "\\leq"@ {
        Some(
            RawGlyphView {
                left: -10i32,
                right: 10,
                polylines: seq![
                    seq![(7i32, -9i32), (-7i32, -1i32), (7i32, 7i32)],
                    seq![(-7i32, 11i32), (7i32, 11i32)],
                ],
            },
        )
    } else if cmd == "\\geq"@ {
        Some(
            RawGlyphView {
                left: -10i32,
                right: 10,
                polylines: seq![
                    seq![(-7i32, -9i32), (7i32, -1i32), (-7i32, 7i32)],
                    seq![(-7i32, 11i32), (7i32, 11i32)],
                ],
            },
        )
    } else if cmd == "\\neq"@ {
        Some(
            RawGlyphView {
                left: -10i32,
                right: 10,
                polylines: seq![
                    seq![(-9i32, -3i32), (9i32, -3i32)],
                    seq![(-9i32, 3i32), (9i32, 3i32)],
                    seq![(4i32, -10i32), (-4i32, 10i32)],
                ],
            },
        )
    } else {
        None
    }
}

/// A glyph for a command that an ASCII font lacks.
fn composed(cmd: &Vec<char>) -> (r: Option<RawGlyph>)
    ensures
        match r {
            Some(g) => composed_of(cmd@) == Some(g@),
            None => composed_of(cmd@) is None,
        },
{
    if same_chars(cmd, "\\pm") {
        let mut polylines: Vec<Vec<(i32, i32)>> = Vec::new();
        polylines.push(vec![(0, -10), (0, 4)]);
        polylines.push(vec![(-8, -3), (8, -3)]);
        polylines.push(vec![(-8, 9), (8, 9)]);
        let g = RawGlyph { left: -11, right: 11, polylines };
        assert(g@.polylines =~~= composed_of(cmd@)->Some_0.polylines);
        Some(g)
    } else if same_chars(cmd, "\\times") {
        let mut polylines: Vec<Vec<(i32, i32)>> = Vec::new();
        polylines.push(vec![(-6, -7), (6, 5)]);
        polylines.push(vec![(6, -7), (-6, 5)]);
        let g = RawGlyph { left: -9, right: 9, polylines };
        assert(g@.polylines =~~= composed_of(cmd@)->Some_0.polylines);
        Some(g)
    } else if same_chars(cmd, "\\cdot") {
        let mut polylines: Vec<Vec<(i32, i32)>> = Vec::new();
        polylines.push(vec![(-1, 0), (1, 0), (1, 2), (-1, 2), (-1, 0)]);
        let g = RawGlyph { left: -4, right: 4, polylines };
        assert(g@.polylines =~~= composed_of(cmd@)->Some_0.polylines);
        Some(g)
    } else if same_chars(cmd, "\\leq") {
        let mut polylines: Vec<Vec<(i32, i32)>> = Vec::new();
        polylines.push(vec![(7, -9), (-7, -1), (7, 7)]);
        polylines.push(vec![(-7, 11), (7, 11)]);
        let g = RawGlyph { left: -10, right: 10, polylines };
        assert(g@.polylines =~~= composed_of(cmd@)->Some_0.polylines);
        Some(g)
    } else if same_chars(cmd, "\\geq") {
        let mut polylines: Vec<Vec<(i32, i32)>> = Vec::new();
        polylines.push(vec![(-7, -9), (7, -1), (-7, 7)]);
        polylines.push(vec![(-7, 11), (7, 11)]);
        let g = RawGlyph { left: -10, right: 10, polylines };
        assert(g@.polylines =~~= composed_of(cmd@)->Some_0.polylines);
        Some(g)
    } else if same_chars(cmd, "\\neq") {
        let mut polylines: Vec<Vec<(i32, i32)>> = Vec::new();
        polylines.push(vec![(-9, -3), (9, -3)]);
        polylines.push(vec![(-9, 3), (9, 3)]);
        polylines.push(vec![(4, -10), (-4, 10)]);
        let g = RawGlyph { left: -10, right: 10, polylines };
        assert(g@.polylines =~~= composed_of(cmd@)->Some_0.polylines);
        Some(g)
    } else {
        None
    }
}

// ---------------------------------------------------------------------------------------------
// Glyphs ready to trace
// ---------------------------------------------------------------------------------------------
/// A point of a glyph in an em of 1000, with the left bound at 0 and the baseline at 800.
pub open spec fn em_point(left: i32, p: (i32, i32)) -> (F32, F32) {
    (
        F32::from_i32(p.0).minus(F32::from_i32(left)).times(num(UNIT)),
        num(BASELINE_EM).plus(
            F32::from_i32(p.1).minus(num(BASELINE_UNITS)).times(num(UNIT)),
        ),
    )
}

pub open spec fn em_polyline(left: i32, pl: Seq<(i32, i32)>) -> Seq<(F32, F32)> {
    Seq::new(pl.len(), |i: int| em_point(left, pl[i]))
}

/// The advance of a glyph in an em of 1000.
pub open spec fn em_advance(raw: RawGlyphView) -> F32 {
    F32::from_i32(raw.right).minus(F32::from_i32(raw.left)).times(num(UNIT))
}

/// A point between two others, at the given weights.
pub open spec fn between(a: (F32, F32), b: (F32, F32), wa: F32, wb: F32) -> (F32, F32) {
    (a.0.times(wa).plus(b.0.times(wb)), a.1.times(wa).plus(b.1.times(wb)))
}

/// The points at one and three quarters of each of the first `n` segments.
pub open spec fn cuts(pl: Seq<(F32, F32)>, n: nat) -> Seq<(F32, F32)>
    decreases n,
{
    if n == 0 {
        Seq::empty()
    } else {
        let a = pl[n - 1];
        let b = pl[n as int];
        cuts(pl, (n - 1) as nat).push(between(a, b, num(THREE_QUARTERS), num(QUARTER))).push(
            between(a, b, num(QUARTER), num(THREE_QUARTERS)),
        )
    }
}

/// A polyline with its corners cut. Its ends stay.
pub open spec fn corner_cut(pl: Seq<(F32, F32)>) -> Seq<(F32, F32)> {
    (seq![pl[0]] + cuts(pl, (pl.len() - 1) as nat)).push(pl.last())
}

/// A polyline after some rounds of corner cutting. Without a corner there is nothing to cut.
pub open spec fn smoothed(pl: Seq<(F32, F32)>, rounds: nat) -> Seq<(F32, F32)>
    decreases rounds,
{
    if rounds == 0 || pl.len() < 3 {
        pl
    } else {
        smoothed(corner_cut(pl), (rounds - 1) as nat)
    }
}

/// A point of an italic letter: sheared about the baseline.
pub open spec fn slanted_point(p: (F32, F32)) -> (F32, F32) {
    (p.0.plus(num(BASELINE_EM).minus(p.1).times(num(SLANT))), p.1)
}

pub open spec fn slanted(pl: Seq<(F32, F32)>) -> Seq<(F32, F32)> {
    Seq::new(pl.len(), |i: int| slanted_point(pl[i]))
}

/// Is this the name of a variable, which mathematics sets in italic: a single letter?
pub open spec fn italic(cmd: Seq<char>) -> bool {
    cmd.len() == 1 && (('A' <= cmd[0] <= 'Z') || ('a' <= cmd[0] <= 'z'))
}

/// The glyph in font units for a token: a composed one, or that of a single ASCII character.
pub open spec fn raw_of(cmd: Seq<char>, font: Seq<RawGlyphView>) -> Option<RawGlyphView> {
    if composed_of(cmd) is Some {
        composed_of(cmd)
    } else if cmd.len() == 1 && ' ' <= cmd[0] <= '~' && (cmd[0] as int) < font.len() + 32 {
        Some(font[cmd[0] as int - 32])
    } else {
        None
    }
}

/// A polyline of the glyph for a token.
pub open spec fn finished_polyline(cmd: Seq<char>, left: i32, pl: Seq<(i32, i32)>) -> Seq<
    (F32, F32),
> {
    let smooth = smoothed(em_polyline(left, pl), ROUNDS as nat);
    if italic(cmd) {
        slanted(smooth)
    } else {
        smooth
    }
}

/// The glyph for a token, if there is one.
pub open spec fn glyph_of(cmd: Seq<char>, font: Seq<RawGlyphView>) -> Option<GlyphView> {
    match raw_of(cmd, font) {
        None => None,
        Some(raw) => Some(
            GlyphView {
                polylines: Seq::new(
                    raw.polylines.len(),
                    |i: int| finished_polyline(cmd, raw.left, raw.polylines[i]),
                ),
                advance: if italic(cmd) {
                    em_advance(raw).plus(
                        num(BASELINE_EM).times(num(SLANT)).times(num(SLANT_ADVANCE)),
                    )
                } else {
                    em_advance(raw)
                },
            },
        ),
    }
}

/// Font units to an em of 1000.
fn to_em(left: i32, pl: &Vec<(i32, i32)>) -> (r: Vec<(F32, F32)>)
    ensures
        r@ == em_polyline(left, pl@),
{
    let mut out: Vec<(F32, F32)> = Vec::new();
    let mut i: usize = 0;
    while i < pl.len()
        invariant
            i <= pl.len(),
            out@ == em_polyline(left, pl@).take(i as int),
        decreases pl.len() - i,
    {
        let (px, py) = pl[i];
        let x = F32::from_i32(px).minus(F32::from_i32(left)).times(num(UNIT));
        let y = num(BASELINE_EM).plus(
            F32::from_i32(py).minus(num(BASELINE_UNITS)).times(num(UNIT)),
        );
        out.push((x, y));
        i = i + 1;
    }
    assert(em_polyline(left, pl@).take(i as int) =~= em_polyline(left, pl@));
    out
}

fn blend(a: (F32, F32), b: (F32, F32), wa: F32, wb: F32) -> (r: (F32, F32))
    ensures
        r == between(a, b, wa, wb),
{
    (a.0.times(wa).plus(b.0.times(wb)), a.1.times(wa).plus(b.1.times(wb)))
}

fn cut_corners(pl: &Vec<(F32, F32)>) -> (r: Vec<(F32, F32)>)
    requires
        pl.len() >= 1,
    ensures
        r@ == corner_cut(pl@),
{
    let mut next: Vec<(F32, F32)> = Vec::new();
    next.push(pl[0]);
    let mut i: usize = 0;
    assert(next@ =~= seq![pl[0]] + cuts(pl@, 0));
    while i + 1 < pl.len()
        invariant
            i + 1 <= pl.len(),
            next@ == seq![pl[0]] + cuts(pl@, i as nat),
        decreases pl.len() - i,
    {
        let a = pl[i];
        let b = pl[i + 1];
        next.push(blend(a, b, num(THREE_QUARTERS), num(QUARTER)));
        next.push(blend(a, b, num(QUARTER), num(THREE_QUARTERS)));
        assert(next@ =~= seq![pl[0]] + cuts(pl@, (i + 1) as nat));
        i = i + 1;
    }
    next.push(pl[pl.len() - 1]);
    next
}

/// Corner cutting: each round replaces every inner corner with two points at one and three
/// quarters of its adjoining segments.
fn chaikin(pl: Vec<(F32, F32)>, rounds: usize) -> (r: Vec<(F32, F32)>)
    ensures
        r@ == smoothed(pl@, rounds as nat),
{
    let ghost want = smoothed(pl@, rounds as nat);
    let mut cur: Vec<(F32, F32)> = pl;
    let mut left: usize = rounds;
    while left > 0 && cur.len() >= 3
        invariant
            want == smoothed(cur@, left as nat),
        decreases left,
    {
        cur = cut_corners(&cur);
        left = left - 1;
    }
    cur
}

fn slant(pl: &Vec<(F32, F32)>) -> (r: Vec<(F32, F32)>)
    ensures
        r@ == slanted(pl@),
{
    let mut out: Vec<(F32, F32)> = Vec::new();
    let mut i: usize = 0;
    while i < pl.len()
        invariant
            i <= pl.len(),
            out@ == slanted(pl@).take(i as int),
        decreases pl.len() - i,
    {
        let (x, y) = pl[i];
        out.push((x.plus(num(BASELINE_EM).minus(y).times(num(SLANT))), y));
        i = i + 1;
    }
    assert(slanted(pl@).take(i as int) =~= slanted(pl@));
    out
}

fn is_italic(cmd: &Vec<char>) -> (r: bool)
    ensures
        r == italic(cmd@),
{
    if cmd.len() != 1 {
        return false;
    }
    let c = cmd[0];
    ('A' <= c && c <= 'Z') || ('a' <= c && c <= 'z')
}

/// The glyph in font units, made ready to trace.
fn finish(cmd: &Vec<char>, raw: &RawGlyph) -> (r: Glyph)
    ensures
        r@.polylines == Seq::new(
            raw@.polylines.len(),
            |i: int| finished_polyline(cmd@, raw.left, raw@.polylines[i]),
        ),
        r@.advance == if italic(cmd@) {
            em_advance(raw@).plus(num(BASELINE_EM).times(num(SLANT)).times(num(SLANT_ADVANCE)))
        } else {
            em_advance(raw@)
        },
{
    let ghost want = Seq::new(
        raw@.polylines.len(),
        |i: int| finished_polyline(cmd@, raw.left, raw@.polylines[i]),
    );
    let lean = is_italic(cmd);
    let mut polylines: Vec<Vec<(F32, F32)>> = Vec::new();
    let mut i: usize = 0;
    assert(nested(polylines@) =~= want.take(0));
    while i < raw.polylines.len()
        invariant
            i <= raw.polylines.len(),
            lean == italic(cmd@),
            want == Seq::new(
                raw@.polylines.len(),
                |i: int| finished_polyline(cmd@, raw.left, raw@.polylines[i]),
            ),
            nested(polylines@) == want.take(i as int),
        decreases raw.polylines.len() - i,
    {
        let mut pl = chaikin(to_em(raw.left, &raw.polylines[i]), ROUNDS);
        if lean {
            pl = slant(&pl);
        }
        proof {
            assert(raw@.polylines[i as int] == raw.polylines[i as int]@);
            lemma_nested_push(polylines@, pl);
            assert(want.take(i + 1) =~= want.take(i as int).push(pl@));
        }
        polylines.push(pl);
        i = i + 1;
    }
    assert(want.take(i as int) =~= want);
    let mut advance = F32::from_i32(raw.right).minus(F32::from_i32(raw.left)).times(num(UNIT));
    if lean {
        advance = advance.plus(num(BASELINE_EM).times(num(SLANT)).times(num(SLANT_ADVANCE)));
    }
    Glyph { polylines, advance }
}

/// The glyph for a token given as characters.
pub(crate) fn trace(cmd: &Vec<char>, font: &Font) -> (r: Option<Glyph>)
    ensures
        match r {
            Some(g) => glyph_of(cmd@, font@) == Some(g@),
            None => glyph_of(cmd@, font@) is None,
        },
{
    if let Some(raw) = composed(cmd) {
        return Some(finish(cmd, &raw));
    }
    if cmd.len() != 1 {
        return None;
    }
    let c = cmd[0];
    if c < ' ' || c > '~' {
        return None;
    }
    let at: usize = (c as u32 - 32) as usize;
    if at >= font.glyphs.len() {
        return None;
    }
    Some(finish(cmd, &font.glyphs[at]))
}

/// Strokes for one display token, or `None` if it cannot be drawn. `cmd` is a literal ASCII
/// character or a LaTeX command; runs of several characters are the caller's to split. Corners
/// are cut so that curves do not show facets, and letters are slanted as mathematics sets its
/// variables.
pub fn strokes(cmd: &str, font: &Font) -> (r: Option<Glyph>)
    ensures
        match r {
            Some(g) => glyph_of(cmd@, font@) == Some(g@),
            None => glyph_of(cmd@, font@) is None,
        },
{
    let chars = chars_of(cmd);
    trace(&chars, font)
}

// ---------------------------------------------------------------------------------------------
// Laws
// ---------------------------------------------------------------------------------------------
/// Smoothing keeps the ends of a polyline where they are.
pub proof fn law_smoothing_keeps_the_ends(pl: Seq<(F32, F32)>, rounds: nat)
    requires
        pl.len() > 0,
    ensures
        smoothed(pl, rounds).len() >= pl.len(),
        smoothed(pl, rounds)[0] == pl[0],
        smoothed(pl, rounds).last() == pl.last(),
    decreases rounds,
{
    if rounds > 0 && pl.len() >= 3 {
        lemma_cuts_len(pl, (pl.len() - 1) as nat);
        let next = corner_cut(pl);
        assert(next[0] == pl[0]);
        assert(next.last() == pl.last());
        law_smoothing_keeps_the_ends(next, (rounds - 1) as nat);
    }
}

proof fn lemma_cuts_len(pl: Seq<(F32, F32)>, n: nat)
    ensures
        cuts(pl, n).len() == 2 * n,
    decreases n,
{
    if n > 0 {
        lemma_cuts_len(pl, (n - 1) as nat);
    }
}

/// A straight line of two points passes through smoothing untouched.
pub proof fn law_straight_lines_stay(pl: Seq<(F32, F32)>, rounds: nat)
    requires
        pl.len() < 3,
    ensures
        smoothed(pl, rounds) == pl,
{
}

/// Every printable ASCII character has a glyph in a font that holds one for each.
pub proof fn law_a_full_font_draws_every_character(c: char, font: Seq<RawGlyphView>)
    requires
        ' ' <= c <= '~',
        font.len() >= 95,
    ensures
        glyph_of(seq![c], font) is Some,
{
}

/// A glyph of the font is set upright in its em: what is further right in font units is further right, and
/// what is lower is lower; its left bound is at zero.
pub proof fn law_glyphs_stand_upright(left: i32, p: (i32, i32), q: (i32, i32))
    requires
        -0x10_0000 <= left <= 0x10_0000,
        -0x10_0000 <= p.0 <= 0x10_0000 && -0x10_0000 <= p.1 <= 0x10_0000,
        -0x10_0000 <= q.0 <= 0x10_0000 && -0x10_0000 <= q.1 <= 0x10_0000,
    ensures
        p.0 <= q.0 ==> em_point(left, p).0.le(em_point(left, q).0),
        p.1 <= q.1 ==> em_point(left, p).1.le(em_point(left, q).1),
        p.0 == left ==> em_point(left, p).0.magnitude() == 0,
{
    let l = F32::from_i32(left);
    let (a, b) = (F32::from_i32(p.0), F32::from_i32(q.0));
    let (c, d) = (F32::from_i32(p.1), F32::from_i32(q.1));
    lemma_small_whole(left);
    lemma_small_whole(p.0);
    lemma_small_whole(q.0);
    lemma_small_whole(p.1);
    lemma_small_whole(q.1);
    let base = num(BASELINE_UNITS);
    let most = 0x4980_0000int;
    crate::float::scale::lemma_plus_within(l, l, most);
    crate::float::scale::lemma_plus_within(base, base, most);
    crate::float::scale::lemma_plus_within(a, l.neg(), most);
    crate::float::scale::lemma_plus_within(b, l.neg(), most);
    crate::float::scale::lemma_plus_within(c, base.neg(), most);
    crate::float::scale::lemma_plus_within(d, base.neg(), most);
    if p.0 <= q.0 {
        crate::float::monotone::lemma_wholes_keep_order(p.0 as int, q.0 as int);
        crate::float::monotone::lemma_difference(a, b, l);
        crate::float::monotone::lemma_product_keeps_order(a.minus(l), b.minus(l), num(UNIT));
    }
    if p.1 <= q.1 {
        crate::float::monotone::lemma_wholes_keep_order(p.1 as int, q.1 as int);
        crate::float::monotone::lemma_difference(c, d, base);
        crate::float::monotone::lemma_place_keeps_order(
            num(BASELINE_EM),
            c.minus(base),
            d.minus(base),
            num(UNIT),
        );
    }
    if p.0 == left {
        crate::segment::touch::lemma_no_difference(a);
        crate::segment::touch::lemma_nothing_times(a.minus(l), num(UNIT));
    }
}

proof fn lemma_small_whole(v: i32)
    requires
        -0x10_0000 <= v <= 0x10_0000,
    ensures
        F32::from_i32(v).magnitude() <= 0x4980_0000,
{
    let one = crate::float::arith::one_units();
    let n: nat = if v < 0 {
        (-v) as nat
    } else {
        v as nat
    };
    reveal(crate::float::convert::of_int);
    vstd::arithmetic::power2::lemma2_to64();
    crate::float::monotone::lemma_power(0x4980_0000, 20);
    crate::float::lemma_nearest_exact(0x4980_0000);
    assert(n * one <= 0x10_0000 * one) by (nonlinear_arith)
        requires
            n <= 0x10_0000,
    ;
    crate::float::monotone::lemma_nearest_monotone(n * one, 0x10_0000 * one, 1);
    crate::float::monotone::lemma_nearest(n * one, 1);
}

/// Italic letters lean to the right: of two points of a glyph one above the other, the upper one comes to
/// lie no further left, and points on the baseline stay.
pub proof fn law_italics_lean_to_the_right(p: (F32, F32), q: (F32, F32))
    requires
        p.0.finite() && p.0 == q.0,
        p.1.finite() && q.1.finite(),
        num(0x4448_0000).minus(p.1).finite() && num(0x4448_0000).minus(q.1).finite(),
        p.1.le(q.1),
    ensures
        slanted_point(q).0.le(slanted_point(p).0),
        slanted_point(p).1 == p.1,
        p.1 == num(0x4448_0000) ==> slanted_point(p).0.units() == p.0.units(),
{
    let base = num(0x4448_0000);
    crate::float::monotone::lemma_opposite(p.1);
    crate::float::monotone::lemma_opposite(q.1);
    crate::float::monotone::lemma_units_ordered(p.1, q.1);
    crate::float::monotone::lemma_sum_monotone(base, q.1.neg(), base, p.1.neg());
    crate::float::monotone::lemma_place_keeps_order(
        p.0,
        base.minus(q.1),
        base.minus(p.1),
        num(SLANT),
    );
    if p.1 == base {
        crate::segment::touch::lemma_no_difference(base);
        crate::segment::touch::lemma_nothing_times(base.minus(base), num(SLANT));
        crate::segment::touch::lemma_plus_nothing(p.0, base.minus(base).times(num(SLANT)));
    }
}

} // verus!
