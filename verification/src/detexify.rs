//! Loader for stroke datasets of labelled symbols.
//!
//! Exports come in several shapes: a view dump with a leading comment and
//! `{rows: [{key, doc: {data: [[{x, y, t}, ..], ..]}}]}`, a plain array of records, or one record
//! per line. Points are objects `{x, y, t}` or arrays `[x, y, t]`, with the time in milliseconds.
use crate::float::double::Double;
use crate::float::{num, F32};
use crate::json::value::{parse_json, Json, JsonView};
use crate::stroke::{Point, Stroke, ONE, ZERO};
use crate::text::{
    append, append_chars, chars_of, find, is_at, is_white, lines, same_text, slice, text_of, trim,
};
use vstd::prelude::*;

verus! {

// ---------------------------------------------------------------------------------------------
// Class keys
// ---------------------------------------------------------------------------------------------
/// The canonical class of a key on whose name two vocabularies disagree: punctuation that one of
/// them spells out, and names with a hyphen in one and an underscore in the other.
pub open spec fn alias_of(key: Seq<char>) -> Option<Seq<char>> {
    if key == "latex2e-OT1-_&"@ {
        Some("latex:latex2e:ampersand"@)
    } else if key == "latex2e-OT1-_#"@ {
        Some("latex:latex2e:hash"@)
    } else if key == "latex2e-OT1-["@ {
        Some("latex:latex2e:lbracket"@)
    } else if key == "latex2e-OT1-/"@ {
        Some("latex:latex2e:slash"@)
    } else if key == "latex2e-OT1-_%"@ {
        Some("latex:latex2e:percent"@)
    } else if key == "latex2e-OT1-!`"@ {
        Some("latex:latex2e:exclamation-grave"@)
    } else if key == "latex2e-OT1-|"@ {
        Some("latex:latex2e:bar:16socis"@)
    } else if key == "latex2e-OT1-_|"@ {
        Some("latex:latex2e:bar:1sa4fqg"@)
    } else if key == "latex2e-OT1-_not_equiv"@ {
        Some("latex:latex2e:not-equiv"@)
    } else if key == "latex2e-OT1-_$"@ {
        Some("latex:latex2e:dollar"@)
    } else if key == "latex2e-OT1-__"@ {
        Some("latex:latex2e:underscore"@)
    } else if key == "latex2e-OT1-]"@ {
        Some("latex:latex2e:rbracket"@)
    } else if key == "latex2e-OT1-_---"@ {
        Some("latex:latex2e:dash-dash-dash"@)
    } else if key == "latex2e-OT1-_----"@ {
        Some("latex:latex2e:dash-dash-dash-dash"@)
    } else if key == "latex2e-OT1-_--"@ {
        Some("latex:latex2e:dash-dash"@)
    } else if key == "latex2e-OT1-_not_approx"@ {
        Some("latex:latex2e:not-approx"@)
    } else if key == "latex2e-OT1-_not_simeq"@ {
        Some("latex:latex2e:not-simeq"@)
    } else if key == "latex2e-OT1-_not_sim"@ {
        Some("latex:latex2e:not-sim"@)
    } else {
        None
    }
}

fn find_alias(key: &str) -> (r: Option<&'static str>)
    ensures
        match r {
            Some(s) => alias_of(key@) == Some(s@),
            None => alias_of(key@) is None,
        },
{
    if same_text(key, "latex2e-OT1-_&") {
        Some("latex:latex2e:ampersand")
    } else if same_text(key, "latex2e-OT1-_#") {
        Some("latex:latex2e:hash")
    } else if same_text(key, "latex2e-OT1-[") {
        Some("latex:latex2e:lbracket")
    } else if same_text(key, "latex2e-OT1-/") {
        Some("latex:latex2e:slash")
    } else if same_text(key, "latex2e-OT1-_%") {
        Some("latex:latex2e:percent")
    } else if same_text(key, "latex2e-OT1-!`") {
        Some("latex:latex2e:exclamation-grave")
    } else if same_text(key, "latex2e-OT1-|") {
        Some("latex:latex2e:bar:16socis")
    } else if same_text(key, "latex2e-OT1-_|") {
        Some("latex:latex2e:bar:1sa4fqg")
    } else if same_text(key, "latex2e-OT1-_not_equiv") {
        Some("latex:latex2e:not-equiv")
    } else if same_text(key, "latex2e-OT1-_$") {
        Some("latex:latex2e:dollar")
    } else if same_text(key, "latex2e-OT1-__") {
        Some("latex:latex2e:underscore")
    } else if same_text(key, "latex2e-OT1-]") {
        Some("latex:latex2e:rbracket")
    } else if same_text(key, "latex2e-OT1-_---") {
        Some("latex:latex2e:dash-dash-dash")
    } else if same_text(key, "latex2e-OT1-_----") {
        Some("latex:latex2e:dash-dash-dash-dash")
    } else if same_text(key, "latex2e-OT1-_--") {
        Some("latex:latex2e:dash-dash")
    } else if same_text(key, "latex2e-OT1-_not_approx") {
        Some("latex:latex2e:not-approx")
    } else if same_text(key, "latex2e-OT1-_not_simeq") {
        Some("latex:latex2e:not-simeq")
    } else if same_text(key, "latex2e-OT1-_not_sim") {
        Some("latex:latex2e:not-sim")
    } else {
        None
    }
}

/// A character of a command, with braces spelled out.
pub open spec fn spelled_char(c: char) -> Seq<char> {
    if c == '{' {
        "-lbrace-"@
    } else if c == '}' {
        "-rbrace"@
    } else {
        seq![c]
    }
}

/// A command with its braces spelled out.
pub open spec fn spelled(cmd: Seq<char>) -> Seq<char>
    decreases cmd.len(),
{
    if cmd.len() == 0 {
        Seq::empty()
    } else {
        spelled(cmd.drop_last()) + spelled_char(cmd.last())
    }
}

/// A name with no two hyphens next to each other.
pub open spec fn collapsed(s: Seq<char>) -> Seq<char>
    decreases s.len(),
{
    if s.len() == 0 {
        Seq::empty()
    } else {
        let before = collapsed(s.drop_last());
        if s.last() == '-' && before.len() > 0 && before.last() == '-' {
            before
        } else {
            before.push(s.last())
        }
    }
}

/// A name without a hyphen at its start, where no two are next to each other.
pub open spec fn without_first_dash(s: Seq<char>) -> Seq<char> {
    if s.len() > 0 && s[0] == '-' {
        s.skip(1)
    } else {
        s
    }
}

/// A name without a hyphen at its end, where no two are next to each other.
pub open spec fn without_last_dash(s: Seq<char>) -> Seq<char> {
    if s.len() > 0 && s.last() == '-' {
        s.drop_last()
    } else {
        s
    }
}

/// The canonical name of a command: braces are spelled out, and the doubled hyphen that an empty
/// argument would leave is a single one.
pub open spec fn spelled_name(cmd: Seq<char>) -> Seq<char> {
    without_last_dash(without_first_dash(collapsed(spelled(cmd))))
}

/// The position of the last hyphen among the first `n` characters; -1 if there is none.
pub open spec fn last_dash(s: Seq<char>, n: nat) -> int
    decreases n,
{
    if n == 0 {
        -1
    } else if s[n - 1] == '-' {
        n - 1
    } else {
        last_dash(s, (n - 1) as nat)
    }
}

/// The canonical class of a key. A key of neither vocabulary is left as it is.
pub open spec fn normalized(key: Seq<char>) -> Seq<char> {
    let i = crate::text::first_at(key, "-_"@, 0) as int;
    let head = key.take(i);
    let j = last_dash(head, head.len());
    let name = spelled_name(key.skip(i + 2));
    if alias_of(key) is Some {
        alias_of(key)->Some_0
    } else if crate::text::stands_at(key, "latex:"@, 0) {
        key
    } else if i > key.len() || j <= 0 || name.len() == 0 {
        key
    } else {
        "latex:"@ + head.take(j) + ":"@ + name
    }
}

/// Spell out the braces of a command.
fn spell_braces(cmd: &Vec<char>) -> (r: Vec<char>)
    ensures
        r@ == spelled_name(cmd@),
{
    let mut wide: Vec<char> = Vec::new();
    let mut i: usize = 0;
    assert(wide@ =~= spelled(cmd@.take(0)));
    while i < cmd.len()
        invariant
            i <= cmd.len(),
            wide@ == spelled(cmd@.take(i as int)),
        decreases cmd.len() - i,
    {
        let c = cmd[i];
        assert(cmd@.take(i + 1).drop_last() =~= cmd@.take(i as int));
        if c == '{' {
            append(&mut wide, "-lbrace-");
        } else if c == '}' {
            append(&mut wide, "-rbrace");
        } else {
            wide.push(c);
        }
        assert(wide@ =~= spelled(cmd@.take(i + 1)));
        i = i + 1;
    }
    assert(cmd@.take(i as int) =~= cmd@);
    let mut out: Vec<char> = Vec::new();
    let mut k: usize = 0;
    while k < wide.len()
        invariant
            k <= wide.len(),
            out@ == collapsed(wide@.take(k as int)),
        decreases wide.len() - k,
    {
        assert(wide@.take(k + 1).drop_last() =~= wide@.take(k as int));
        if !(wide[k] == '-' && out.len() > 0 && out[out.len() - 1] == '-') {
            out.push(wide[k]);
        }
        k = k + 1;
    }
    assert(wide@.take(k as int) =~= wide@);
    let start: usize = if out.len() > 0 && out[0] == '-' {
        1
    } else {
        0
    };
    let end: usize = if out.len() > start && out[out.len() - 1] == '-' {
        out.len() - 1
    } else {
        out.len()
    };
    let r = slice(&out, start, end);
    assert(r@ =~= spelled_name(cmd@));
    r
}

fn find_last_dash(s: &Vec<char>) -> (r: Option<usize>)
    ensures
        match r {
            Some(i) => i == last_dash(s@, s@.len()) && i < s.len(),
            None => last_dash(s@, s@.len()) == -1,
        },
{
    let mut n: usize = s.len();
    while n > 0
        invariant
            n <= s.len(),
            last_dash(s@, s@.len()) == last_dash(s@, n as nat),
        decreases n,
    {
        if s[n - 1] == '-' {
            return Some(n - 1);
        }
        n = n - 1;
    }
    None
}

/// Normalize a class key to the canonical `latex:<package>:<name>`. Keys of the form
/// `<package>-<encoding>-_<command>` are mapped to it; a key that matches no known shape is
/// returned unchanged, because deciding which labels are admissible is not the loader's job.
pub fn normalize_class(key: &str) -> (r: String)
    ensures
        r@ == normalized(key@),
{
    if let Some(canonical) = find_alias(key) {
        let chars = chars_of(canonical);
        return text_of(&chars);
    }
    let chars = chars_of(key);
    let prefix = chars_of("latex:");
    if is_at(&chars, &prefix, 0) {
        return text_of(&chars);
    }
    let mark = chars_of("-_");
    proof {
        reveal_strlit("-_");
    }
    let i = match find(&chars, &mark) {
        Some(i) => i,
        None => {
            return text_of(&chars);
        },
    };
    let head = slice(&chars, 0, i);
    let cmd = slice(&chars, i + 2, chars.len());
    assert(head@ =~= key@.take(i as int));
    assert(cmd@ =~= key@.skip(i + 2));
    let j = match find_last_dash(&head) {
        Some(j) => j,
        None => {
            return text_of(&chars);
        },
    };
    let name = spell_braces(&cmd);
    if j == 0 || name.len() == 0 {
        return text_of(&chars);
    }
    let pkg = slice(&head, 0, j);
    assert(pkg@ =~= head@.take(j as int));
    let mut out: Vec<char> = Vec::new();
    append(&mut out, "latex:");
    append_chars(&mut out, &pkg);
    append(&mut out, ":");
    append_chars(&mut out, &name);
    assert(out@ =~= "latex:"@ + pkg@ + ":"@ + name@);
    text_of(&out)
}

// ---------------------------------------------------------------------------------------------
// Records
// ---------------------------------------------------------------------------------------------
/// One labelled drawing, in the coordinates of its source.
#[derive(Debug)]
pub struct Sample {
    pub class: String,
    pub strokes: Vec<Stroke>,
}

/// What a [`Sample`] holds.
#[verifier::ext_equal]
pub struct SampleView {
    pub class: Seq<char>,
    pub strokes: Seq<Seq<Point>>,
}

impl View for Sample {
    type V = SampleView;

    open spec fn view(&self) -> SampleView {
        SampleView {
            class: self.class@,
            strokes: crate::stroke::trajectories(self.strokes@),
        }
    }
}

/// What a list of samples holds.
pub open spec fn sample_views(samples: Seq<Sample>) -> Seq<SampleView> {
    Seq::new(samples.len(), |i: int| samples[i]@)
}

/// The number that a value is.
pub open spec fn number_of(v: Option<JsonView>) -> Option<Double> {
    match v {
        Some(j) => match j.number() {
            Some(bits) if (Double { bits }).finite() => Some(Double { bits }),
            _ => None,
        },
        None => None,
    }
}

/// The item of a list at a position, if there is one.
pub open spec fn item_at(items: Seq<JsonView>, i: int) -> Option<JsonView> {
    if i < items.len() {
        Some(items[i])
    } else {
        None
    }
}

/// The time that a value tells, in milliseconds: 0 where it tells none.
pub open spec fn time_of(v: Option<JsonView>) -> int {
    match number_of(v) {
        Some(t) => t.truncated(),
        None => 0,
    }
}

/// The coordinates and the time of a point: an array `[x, y, t]` or an object `{x, y, t}`.
pub open spec fn coordinates(p: JsonView) -> Option<(F32, F32, int)> {
    let (x, y, t) = match p.items() {
        Some(a) => (item_at(a, 0), item_at(a, 1), item_at(a, 2)),
        None => (p.member("x"@), p.member("y"@), p.member("t"@)),
    };
    match (number_of(x), number_of(y)) {
        (Some(x), Some(y)) => Some((x.narrowed(), y.narrowed(), time_of(t))),
        _ => None,
    }
}

/// The microseconds from `base` to `t`, both in milliseconds; 0 where `t` is earlier, and as far
/// as 64 bits reach.
pub open spec fn micros_since(base: int, t: int) -> int {
    if t <= base {
        0
    } else if (t - base) * 1000 > u64::MAX {
        u64::MAX as int
    } else {
        (t - base) * 1000
    }
}

/// A point with full pressure and no tilt.
pub open spec fn plain_point(x: F32, y: F32, t_us: int) -> Point {
    Point {
        x,
        y,
        pressure: num(ONE),
        tilt_x: num(ZERO),
        tilt_y: num(ZERO),
        t_us: t_us as u64,
    }
}

/// The time that all times are relative to, once a point at `t` has come.
pub open spec fn base_time(t0: Option<int>, t: int) -> int {
    match t0 {
        Some(base) => base,
        None => t,
    }
}

/// The points among the first `n` values, and the time that all times are relative to: that of
/// the first point of the sample.
pub open spec fn points_of(items: Seq<JsonView>, n: nat, t0: Option<int>) -> (
    Seq<Point>,
    Option<int>,
)
    decreases n,
{
    if n == 0 {
        (Seq::empty(), t0)
    } else {
        let (points, base) = points_of(items, (n - 1) as nat, t0);
        match coordinates(items[n - 1]) {
            Some((x, y, t)) => (
                points.push(plain_point(x, y, micros_since(base_time(base, t), t))),
                Some(base_time(base, t)),
            ),
            None => (points, base),
        }
    }
}

/// The strokes among the first `n` values, and the time that all times are relative to.
pub open spec fn strokes_of(data: Seq<JsonView>, n: nat) -> (Seq<Seq<Point>>, Option<int>)
    decreases n,
{
    if n == 0 {
        (Seq::empty(), None)
    } else {
        let (strokes, base) = strokes_of(data, (n - 1) as nat);
        match data[n - 1].items() {
            Some(items) => {
                let (points, next) = points_of(items, items.len(), base);
                (strokes.push(points), next)
            },
            None => (strokes, base),
        }
    }
}

/// The first of two values that is there.
pub open spec fn either(a: Option<JsonView>, b: Option<JsonView>) -> Option<JsonView> {
    match a {
        Some(v) => Some(v),
        None => b,
    }
}

/// The string under a key of a record, or of the document in it.
pub open spec fn text_under(rec: JsonView, inner: JsonView, key: Seq<char>) -> Option<Seq<char>> {
    match either(rec.member(key), inner.member(key)) {
        Some(v) => v.text(),
        None => None,
    }
}

/// The class key of a record.
pub open spec fn key_of(rec: JsonView, inner: JsonView) -> Option<Seq<char>> {
    if text_under(rec, inner, "symbolId"@) is Some {
        text_under(rec, inner, "symbolId"@)
    } else if text_under(rec, inner, "key"@) is Some {
        text_under(rec, inner, "key"@)
    } else {
        text_under(rec, inner, "symbol"@)
    }
}

/// The document in a record, or the record itself.
pub open spec fn document_of(rec: JsonView) -> JsonView {
    match rec.member("doc"@) {
        Some(doc) => doc,
        None => rec,
    }
}

/// The stroke data of a record.
pub open spec fn data_of(rec: JsonView, inner: JsonView) -> Option<Seq<JsonView>> {
    match either(
        either(inner.member("data"@), inner.member("strokes"@)),
        either(rec.member("data"@), rec.member("strokes"@)),
    ) {
        Some(v) => v.items(),
        None => None,
    }
}

/// Is there a stroke with a point?
pub open spec fn some_point(strokes: Seq<Seq<Point>>) -> bool {
    exists|i: int| 0 <= i < strokes.len() && (#[trigger] strokes[i]).len() > 0
}

/// The sample of a record, whatever its shape: a class key, and at least one point.
pub open spec fn sample_of(rec: JsonView) -> Option<SampleView> {
    let inner = document_of(rec);
    match (key_of(rec, inner), data_of(rec, inner)) {
        (Some(key), Some(data)) => {
            let strokes = strokes_of(data, data.len()).0;
            if some_point(strokes) {
                Some(SampleView { class: normalized(key), strokes })
            } else {
                None
            }
        },
        _ => None,
    }
}

fn as_number(v: Option<&Json>) -> (r: Option<Double>)
    ensures
        r == number_of(crate::json::value::found(v)),
{
    match v {
        Some(j) => match j.as_bits() {
            Some(bits) => {
                let d = Double { bits };
                if d.is_finite() {
                    Some(d)
                } else {
                    None
                }
            },
            None => None,
        },
        None => None,
    }
}

fn at(items: &Vec<Json>, i: usize) -> (r: Option<&Json>)
    ensures
        crate::json::value::found(r) == item_at(
            crate::json::value::list_view(items@),
            i as int,
        ),
{
    proof {
        crate::json::value::lemma_list_view(items@);
    }
    if i < items.len() {
        Some(&items[i])
    } else {
        None
    }
}

fn to_micros(base: i64, t: i64) -> (r: u64)
    ensures
        r == micros_since(base as int, t as int),
{
    if t <= base {
        return 0;
    }
    let us: i128 = (t as i128 - base as i128) * 1000;
    if us > 0xffff_ffff_ffff_ffff {
        u64::MAX
    } else {
        us as u64
    }
}

spec fn as_base(t0: Option<i64>) -> Option<int> {
    match t0 {
        Some(t) => Some(t as int),
        None => None,
    }
}

/// The point that a value tells, if it does. `t0` is the time of the sample's first point.
fn point_from(p: &Json, t0: Option<i64>) -> (r: (Option<Point>, Option<i64>))
    ensures
        match coordinates(p@) {
            Some((x, y, t)) => {
                &&& r.0 == Some(
                    plain_point(x, y, micros_since(base_time(as_base(t0), t), t)),
                )
                &&& as_base(r.1) == Some(base_time(as_base(t0), t))
            },
            None => r.0 is None && r.1 == t0,
        },
{
    let (x, y, t) = match p.as_array() {
        Some(a) => (at(a, 0), at(a, 1), at(a, 2)),
        None => (p.get("x"), p.get("y"), p.get("t")),
    };
    match (as_number(x), as_number(y)) {
        (Some(x), Some(y)) => {
            let ms: i64 = match as_number(t) {
                Some(t) => t.to_i64(),
                None => 0,
            };
            let base: i64 = match t0 {
                Some(base) => base,
                None => ms,
            };
            let point = Point::new(
                x.to_single(),
                y.to_single(),
                num(ONE),
                num(ZERO),
                num(ZERO),
                to_micros(base, ms),
            );
            (Some(point), Some(base))
        },
        _ => (None, t0),
    }
}

fn points_from(items: &Vec<Json>, t0: Option<i64>) -> (r: (Stroke, Option<i64>))
    ensures
        points_of(
            crate::json::value::list_view(items@),
            items@.len(),
            as_base(t0),
        ) == (r.0@, as_base(r.1)),
{
    let ghost views = crate::json::value::list_view(items@);
    let mut points: Vec<Point> = Vec::new();
    let mut base = t0;
    let mut i: usize = 0;
    proof {
        crate::json::value::lemma_list_view(items@);
    }
    while i < items.len()
        invariant
            i <= items.len(),
            views == crate::json::value::list_view(items@),
            views.len() == items.len(),
            forall|i: int| 0 <= i < items.len() ==> #[trigger] views[i] == items[i]@,
            points_of(views, i as nat, as_base(t0)) == (points@, as_base(base)),
        decreases items.len() - i,
    {
        assert(views[i as int] == items[i as int]@);
        let (p, next) = point_from(&items[i], base);
        if let Some(p) = p {
            points.push(p);
        }
        base = next;
        i = i + 1;
    }
    (Stroke { points }, base)
}

/// The strokes that a list of values tells. Times are stored relative to the first point.
pub fn strokes_from(data: &Vec<Json>) -> (r: Vec<Stroke>)
    ensures
        crate::stroke::trajectories(r@) == strokes_of(
            crate::json::value::list_view(data@),
            data@.len(),
        ).0,
{
    let ghost views = crate::json::value::list_view(data@);
    let mut out: Vec<Stroke> = Vec::new();
    let mut base: Option<i64> = None;
    let mut i: usize = 0;
    proof {
        crate::json::value::lemma_list_view(data@);
        assert(crate::stroke::trajectories(out@) =~= Seq::<Seq<Point>>::empty());
    }
    while i < data.len()
        invariant
            i <= data.len(),
            views == crate::json::value::list_view(data@),
            views.len() == data.len(),
            forall|i: int| 0 <= i < data.len() ==> #[trigger] views[i] == data[i]@,
            strokes_of(views, i as nat) == (crate::stroke::trajectories(out@), as_base(base)),
        decreases data.len() - i,
    {
        assert(views[i as int] == data[i as int]@);
        if let Some(items) = data[i].as_array() {
            proof {
                crate::json::value::lemma_list_view(items@);
            }
            let (s, next) = points_from(items, base);
            proof {
                assert(crate::stroke::trajectories(out@.push(s)) =~= crate::stroke::trajectories(
                    out@,
                ).push(s@));
            }
            out.push(s);
            base = next;
        }
        i = i + 1;
    }
    out
}

fn first_of<'a>(a: Option<&'a Json>, b: Option<&'a Json>) -> (r: Option<&'a Json>)
    ensures
        crate::json::value::found(r) == either(
            crate::json::value::found(a),
            crate::json::value::found(b),
        ),
{
    if a.is_some() {
        a
    } else {
        b
    }
}

fn find_text<'a>(rec: &'a Json, inner: &'a Json, key: &str) -> (r: Option<&'a str>)
    ensures
        match r {
            Some(s) => text_under(rec@, inner@, key@) == Some(s@),
            None => text_under(rec@, inner@, key@) is None,
        },
{
    match first_of(rec.get(key), inner.get(key)) {
        Some(v) => v.as_str(),
        None => None,
    }
}

fn find_key<'a>(rec: &'a Json, inner: &'a Json) -> (r: Option<&'a str>)
    ensures
        match r {
            Some(s) => key_of(rec@, inner@) == Some(s@),
            None => key_of(rec@, inner@) is None,
        },
{
    if let Some(s) = find_text(rec, inner, "symbolId") {
        return Some(s);
    }
    if let Some(s) = find_text(rec, inner, "key") {
        return Some(s);
    }
    find_text(rec, inner, "symbol")
}

fn any_point(strokes: &Vec<Stroke>) -> (r: bool)
    ensures
        r == some_point(crate::stroke::trajectories(strokes@)),
{
    let ghost views = crate::stroke::trajectories(strokes@);
    let mut i: usize = 0;
    while i < strokes.len()
        invariant
            i <= strokes.len(),
            views == crate::stroke::trajectories(strokes@),
            forall|k: int| 0 <= k < i ==> (#[trigger] views[k]).len() == 0,
        decreases strokes.len() - i,
    {
        if strokes[i].points.len() > 0 {
            assert(views[i as int].len() > 0);
            return true;
        }
        i = i + 1;
    }
    false
}

/// What a sample holds, if there is one.
pub open spec fn sample_option(s: Option<Sample>) -> Option<SampleView> {
    match s {
        Some(s) => Some(s@),
        None => None,
    }
}

/// The sample of a record in whatever shape it takes. The class key is under `symbolId`, `key` or
/// `symbol`; strokes are under `data` or `strokes`, either directly or inside a `doc`.
pub fn sample_from(rec: &Json) -> (r: Option<Sample>)
    ensures
        sample_option(r) == sample_of(rec@),
{
    let inner = match rec.get("doc") {
        Some(doc) => doc,
        None => rec,
    };
    let key = match find_key(rec, inner) {
        Some(key) => key,
        None => {
            return None;
        },
    };
    let value = first_of(
        first_of(inner.get("data"), inner.get("strokes")),
        first_of(rec.get("data"), rec.get("strokes")),
    );
    let data = match value {
        Some(v) => match v.as_array() {
            Some(data) => data,
            None => {
                return None;
            },
        },
        None => {
            return None;
        },
    };
    proof {
        crate::json::value::lemma_list_view(data@);
    }
    let strokes = strokes_from(data);
    if !any_point(&strokes) {
        return None;
    }
    Some(Sample { class: normalize_class(key), strokes })
}

// ---------------------------------------------------------------------------------------------
// Exports
// ---------------------------------------------------------------------------------------------
/// The samples among the first `n` records.
pub open spec fn samples_of(records: Seq<JsonView>, n: nat) -> Seq<SampleView>
    decreases n,
{
    if n == 0 {
        Seq::empty()
    } else {
        let before = samples_of(records, (n - 1) as nat);
        match sample_of(records[n - 1]) {
            Some(s) => before.push(s),
            None => before,
        }
    }
}

/// The list under `rows`, if there is one.
pub open spec fn rows_of(root: JsonView) -> Option<Seq<JsonView>> {
    match root.member("rows"@) {
        Some(v) => v.items(),
        None => None,
    }
}

/// The samples of a document: of its rows, of a plain array of records, or of a single record.
pub open spec fn collected(root: JsonView) -> Seq<SampleView> {
    if rows_of(root) is Some {
        samples_of(rows_of(root)->Some_0, rows_of(root)->Some_0.len())
    } else if root.items() is Some {
        samples_of(root.items()->Some_0, root.items()->Some_0.len())
    } else {
        match sample_of(root) {
            Some(s) => seq![s],
            None => Seq::empty(),
        }
    }
}

/// Is the line a comment?
pub open spec fn is_comment(line: Seq<char>) -> bool {
    crate::text::stands_at(crate::text::trim_start(line), "//"@, 0)
}

/// The first `n` lines without comments, with a line feed between each two.
pub open spec fn uncommented(lines: Seq<Seq<char>>, n: nat) -> Option<Seq<char>>
    decreases n,
{
    if n == 0 {
        None
    } else {
        let before = uncommented(lines, (n - 1) as nat);
        let line = lines[n - 1];
        if is_comment(line) {
            before
        } else {
            match before {
                Some(text) => Some(text + "\n"@ + line),
                None => Some(line),
            }
        }
    }
}

/// A text without the comment lines.
pub open spec fn cleaned(text: Seq<char>) -> Seq<char> {
    let lines = crate::text::lines_of(text);
    match uncommented(lines, lines.len()) {
        Some(t) => t,
        None => Seq::empty(),
    }
}

/// The value of a line that is a JSON document.
pub open spec fn record_of(line: Seq<char>) -> Option<JsonView> {
    let text = crate::text::trimmed(line);
    if crate::json::value::is_json(text) {
        Some(crate::json::value::tree(text, crate::json::value::MAX_DEPTH as nat))
    } else {
        None
    }
}

/// The sample of a line.
pub open spec fn sample_in(line: Seq<char>) -> Option<SampleView> {
    match record_of(line) {
        Some(rec) => sample_of(rec),
        None => None,
    }
}

/// The samples among the first `n` lines. Empty lines are passed over.
pub open spec fn samples_in(lines: Seq<Seq<char>>, n: nat) -> Seq<SampleView>
    decreases n,
{
    if n == 0 {
        Seq::empty()
    } else {
        let before = samples_in(lines, (n - 1) as nat);
        if crate::text::trimmed(lines[n - 1]).len() == 0 {
            before
        } else {
            match sample_in(lines[n - 1]) {
                Some(s) => before.push(s),
                None => before,
            }
        }
    }
}

/// The samples of an export: of a single document, or else of one record per line.
pub open spec fn export_of(text: Seq<char>) -> Seq<SampleView> {
    let t = cleaned(text);
    if crate::json::value::is_json(t) {
        collected(crate::json::value::tree(t, crate::json::value::MAX_DEPTH as nat))
    } else {
        samples_in(crate::text::lines_of(t), crate::text::lines_of(t).len())
    }
}

proof fn lemma_sample_push(samples: Seq<Sample>, s: Sample)
    ensures
        sample_views(samples.push(s)) == sample_views(samples).push(s@),
{
    assert(sample_views(samples.push(s)) =~= sample_views(samples).push(s@));
}

fn samples_from(records: &Vec<Json>) -> (r: Vec<Sample>)
    ensures
        sample_views(r@) == samples_of(crate::json::value::list_view(records@), records@.len()),
{
    let ghost views = crate::json::value::list_view(records@);
    let mut out: Vec<Sample> = Vec::new();
    let mut i: usize = 0;
    proof {
        crate::json::value::lemma_list_view(records@);
        assert(sample_views(out@) =~= Seq::<SampleView>::empty());
    }
    while i < records.len()
        invariant
            i <= records.len(),
            views == crate::json::value::list_view(records@),
            views.len() == records.len(),
            forall|i: int| 0 <= i < records.len() ==> #[trigger] views[i] == records[i]@,
            sample_views(out@) == samples_of(views, i as nat),
        decreases records.len() - i,
    {
        assert(views[i as int] == records[i as int]@);
        if let Some(s) = sample_from(&records[i]) {
            proof {
                lemma_sample_push(out@, s);
            }
            out.push(s);
        }
        i = i + 1;
    }
    out
}

/// The samples of a document.
pub fn collect(root: &Json) -> (r: Vec<Sample>)
    ensures
        sample_views(r@) == collected(root@),
{
    if let Some(rows) = root.get("rows") {
        if let Some(list) = rows.as_array() {
            proof {
                crate::json::value::lemma_list_view(list@);
            }
            return samples_from(list);
        }
    }
    if let Some(list) = root.as_array() {
        proof {
            crate::json::value::lemma_list_view(list@);
        }
        return samples_from(list);
    }
    let mut out: Vec<Sample> = Vec::new();
    if let Some(s) = sample_from(root) {
        out.push(s);
        assert(sample_views(out@) =~= seq![s@]);
    } else {
        assert(sample_views(out@) =~= Seq::<SampleView>::empty());
    }
    out
}

/// The sample of a line of characters.
fn line_sample(line: &Vec<char>) -> (r: Option<Sample>)
    ensures
        sample_option(r) == sample_in(line@),
{
    let text = text_of(&trim(line));
    match parse_json(text.as_str()) {
        Some(rec) => sample_from(&rec),
        None => None,
    }
}

/// Read one record from a line of its own. Callers that can process a sample and drop it should
/// pull records through here one line at a time, because exports can be large.
pub fn parse_line(line: &str) -> (r: Option<Sample>)
    ensures
        sample_option(r) == sample_in(line@),
{
    let chars = chars_of(line);
    line_sample(&chars)
}

fn starts_comment(line: &Vec<char>) -> (r: bool)
    ensures
        r == is_comment(line@),
{
    let mut i: usize = 0;
    assert(line@.skip(0) =~= line@);
    while i < line.len() && is_white(line[i])
        invariant
            i <= line.len(),
            crate::text::trim_start(line@) == crate::text::trim_start(line@.skip(i as int)),
        decreases line.len() - i,
    {
        assert(line@.skip(i as int).skip(1) =~= line@.skip(i + 1));
        assert(line@.skip(i as int).drop_first() =~= line@.skip(i + 1));
        i = i + 1;
    }
    let rest = slice(line, i, line.len());
    assert(rest@ =~= line@.skip(i as int));
    assert(crate::text::trim_start(rest@) == rest@);
    let mark = chars_of("//");
    is_at(&rest, &mark, 0)
}

/// A text without the comment lines.
fn strip_comments(text: &Vec<char>) -> (r: Vec<char>)
    ensures
        r@ == cleaned(text@),
{
    let parts = lines(text);
    let ghost views = crate::text::lines_of(text@);
    let mut out: Vec<char> = Vec::new();
    let mut any = false;
    let mut i: usize = 0;
    while i < parts.len()
        invariant
            i <= parts.len(),
            views == crate::text::line_views(parts@),
            uncommented(views, i as nat) == if any {
                Some(out@)
            } else {
                None
            },
            !any ==> out@.len() == 0,
        decreases parts.len() - i,
    {
        assert(views[i as int] == parts[i as int]@);
        if !starts_comment(&parts[i]) {
            if any {
                append(&mut out, "\n");
            }
            append_chars(&mut out, &parts[i]);
            if any {
                assert(uncommented(views, (i + 1) as nat) == Some(out@));
            } else {
                assert(out@ =~= parts[i as int]@);
            }
            any = true;
        }
        i = i + 1;
    }
    assert(!any ==> out@ =~= Seq::<char>::empty());
    out
}

/// Why an export could not be loaded.
#[derive(Debug, Clone, Copy, PartialEq, Eq, Structural)]
pub enum LoadError {
    /// No sample was found.
    NoSamples,
}

impl LoadError {
    pub fn message(&self) -> (r: &'static str)
        ensures
            r@ == "no Detexify samples parsed (unrecognized shape)"@,
    {
        "no Detexify samples parsed (unrecognized shape)"
    }
}

/// Read an export into labelled samples.
pub fn parse(text: &str) -> (r: Result<Vec<Sample>, LoadError>)
    ensures
        match r {
            Ok(samples) => samples.len() > 0 && sample_views(samples@) == export_of(text@),
            Err(_) => export_of(text@).len() == 0,
        },
{
    let chars = chars_of(text);
    let clean = strip_comments(&chars);
    let document = text_of(&clean);
    let out = match parse_json(document.as_str()) {
        Some(root) => collect(&root),
        None => {
            let parts = lines(&clean);
            let ghost views = crate::text::lines_of(clean@);
            let mut found: Vec<Sample> = Vec::new();
            let mut i: usize = 0;
            assert(sample_views(found@) =~= Seq::<SampleView>::empty());
            while i < parts.len()
                invariant
                    i <= parts.len(),
                    views == crate::text::line_views(parts@),
                    sample_views(found@) == samples_in(views, i as nat),
                decreases parts.len() - i,
            {
                assert(views[i as int] == parts[i as int]@);
                if trim(&parts[i]).len() > 0 {
                    if let Some(s) = line_sample(&parts[i]) {
                        proof {
                            lemma_sample_push(found@, s);
                        }
                        found.push(s);
                    }
                }
                i = i + 1;
            }
            found
        },
    };
    assert(sample_views(out@).len() == out.len());
    if out.len() == 0 {
        Err(LoadError::NoSamples)
    } else {
        Ok(out)
    }
}

// ---------------------------------------------------------------------------------------------
// Laws
// ---------------------------------------------------------------------------------------------
/// A key that is no alias, has no `latex:` prefix and no `-_` separator is left as it is.
pub proof fn law_unknown_keys_pass_through(key: Seq<char>)
    requires
        alias_of(key) is None,
        forall|i: int| 0 <= i <= key.len() ==> !#[trigger] crate::text::stands_at(key, "-_"@, i),
    ensures
        normalized(key) == key,
{
    lemma_absent(key, "-_"@, 0);
}

proof fn lemma_absent(s: Seq<char>, part: Seq<char>, from: nat)
    requires
        forall|i: int| 0 <= i <= s.len() ==> !#[trigger] crate::text::stands_at(s, part, i),
    ensures
        crate::text::first_at(s, part, from) > s.len(),
    decreases s.len() + 1 - from,
{
    if from <= s.len() {
        assert(!crate::text::stands_at(s, part, from as int));
        lemma_absent(s, part, from + 1);
    }
}

/// No canonical name that is spelled out has two hyphens next to each other.
pub proof fn law_names_have_no_double_hyphen(cmd: Seq<char>)
    ensures
        forall|i: int|
            0 <= i < spelled_name(cmd).len() - 1 ==> !(#[trigger] spelled_name(cmd)[i] == '-'
                && spelled_name(cmd)[i + 1] == '-'),
{
    lemma_collapsed(spelled(cmd));
    let c = collapsed(spelled(cmd));
    let a = without_first_dash(c);
    let name = spelled_name(cmd);
    let shift = c.len() - a.len();
    assert forall|i: int| 0 <= i < name.len() - 1 implies !(#[trigger] name[i] == '-' && name[i + 1]
        == '-') by {
        assert(name[i] == a[i] && name[i + 1] == a[i + 1]);
        assert(a[i] == c[i + shift] && a[i + 1] == c[i + shift + 1]);
    }
}

proof fn lemma_collapsed(s: Seq<char>)
    ensures
        forall|i: int|
            0 <= i < collapsed(s).len() - 1 ==> !(#[trigger] collapsed(s)[i] == '-' && collapsed(
                s,
            )[i + 1] == '-'),
    decreases s.len(),
{
    if s.len() > 0 {
        lemma_collapsed(s.drop_last());
        let before = collapsed(s.drop_last());
        let now = collapsed(s);
        assert forall|i: int| 0 <= i < now.len() - 1 implies !(#[trigger] now[i] == '-' && now[i
            + 1] == '-') by {
            assert(now[i] == before[i]);
            if i + 1 < before.len() {
                assert(now[i + 1] == before[i + 1]);
            }
        }
    }
}

/// Does the text start with `latex:`?
pub open spec fn canonical(s: Seq<char>) -> bool {
    crate::text::stands_at(s, "latex:"@, 0)
}

/// The keys of the alias table are not canonical and do not end in a brace, and their classes are
/// canonical.
proof fn lemma_aliases(key: Seq<char>)
    requires
        alias_of(key) is Some,
    ensures
        !canonical(key),
        key.last() != '}',
        canonical(alias_of(key)->Some_0),
{
    reveal_strlit("latex:");
    let class = alias_of(key)->Some_0;
    reveal_strlit("latex2e-OT1-_&");
    reveal_strlit("latex:latex2e:ampersand");
    reveal_strlit("latex2e-OT1-_#");
    reveal_strlit("latex:latex2e:hash");
    reveal_strlit("latex2e-OT1-[");
    reveal_strlit("latex:latex2e:lbracket");
    reveal_strlit("latex2e-OT1-/");
    reveal_strlit("latex:latex2e:slash");
    reveal_strlit("latex2e-OT1-_%");
    reveal_strlit("latex:latex2e:percent");
    reveal_strlit("latex2e-OT1-!`");
    reveal_strlit("latex:latex2e:exclamation-grave");
    reveal_strlit("latex2e-OT1-|");
    reveal_strlit("latex:latex2e:bar:16socis");
    reveal_strlit("latex2e-OT1-_|");
    reveal_strlit("latex:latex2e:bar:1sa4fqg");
    reveal_strlit("latex2e-OT1-_not_equiv");
    reveal_strlit("latex:latex2e:not-equiv");
    reveal_strlit("latex2e-OT1-_$");
    reveal_strlit("latex:latex2e:dollar");
    reveal_strlit("latex2e-OT1-__");
    reveal_strlit("latex:latex2e:underscore");
    reveal_strlit("latex2e-OT1-]");
    reveal_strlit("latex:latex2e:rbracket");
    reveal_strlit("latex2e-OT1-_---");
    reveal_strlit("latex:latex2e:dash-dash-dash");
    reveal_strlit("latex2e-OT1-_----");
    reveal_strlit("latex:latex2e:dash-dash-dash-dash");
    reveal_strlit("latex2e-OT1-_--");
    reveal_strlit("latex:latex2e:dash-dash");
    reveal_strlit("latex2e-OT1-_not_approx");
    reveal_strlit("latex:latex2e:not-approx");
    reveal_strlit("latex2e-OT1-_not_simeq");
    reveal_strlit("latex:latex2e:not-simeq");
    reveal_strlit("latex2e-OT1-_not_sim");
    reveal_strlit("latex:latex2e:not-sim");
    assert(key[5] == '2');
    assert(class[5] == ':');
    assert(class.subrange(0, 6) =~= "latex:"@);
    if canonical(key) {
        assert(key.subrange(0, 6)[5] == ':');
    }
}

/// Normalizing a class that is normalized already changes nothing: there is one label space.
pub proof fn law_normalizing_twice_changes_nothing(key: Seq<char>)
    ensures
        normalized(normalized(key)) == normalized(key),
{
    let once = normalized(key);
    if once != key {
        assert(canonical(once)) by {
            if alias_of(key) is Some {
                lemma_aliases(key);
            } else {
                assert(once.subrange(0, "latex:"@.len() as int) =~= "latex:"@);
            }
        }
        if alias_of(once) is Some {
            lemma_aliases(once);
        }
    }
}

// ---------------------------------------------------------------------------------------------
// From a key to a command
// ---------------------------------------------------------------------------------------------
/// Is this no mark of a key: no hyphen, underscore, colon or brace?
pub open spec fn unmarked(s: Seq<char>) -> bool {
    forall|i: int|
        0 <= i < s.len() ==> {
            let c = #[trigger] s[i];
            c != '-' && c != '_' && c != ':' && c != '{' && c != '}'
        }
}

/// The key of a command with a brace argument: `<package>-<encoding>-_<command>{<argument>}`.
pub open spec fn braced_key(
    package: Seq<char>,
    encoding: Seq<char>,
    command: Seq<char>,
    argument: Seq<char>,
) -> Seq<char> {
    package + "-"@ + encoding + "-_"@ + (command + "{"@ + argument + "}"@)
}

/// Where nothing starts before, the first position is where it stands.
proof fn lemma_first(s: Seq<char>, part: Seq<char>, from: nat, at: nat)
    requires
        from <= at <= s.len(),
        crate::text::stands_at(s, part, at as int),
        forall|i: int| from <= i < at ==> !#[trigger] crate::text::stands_at(s, part, i),
    ensures
        crate::text::first_at(s, part, from) == at,
    decreases at - from,
{
    if from < at {
        assert(!crate::text::stands_at(s, part, from as int));
        lemma_first(s, part, from + 1, at);
    }
}

/// A part does not stand where its first character does not.
proof fn lemma_not_there(s: Seq<char>, part: Seq<char>, i: int)
    requires
        0 <= i < s.len(),
        part.len() > 0,
        s[i] != part[0],
    ensures
        !crate::text::stands_at(s, part, i),
{
    if crate::text::stands_at(s, part, i) {
        assert(s.subrange(i, i + part.len())[0] == s[i]);
    }
}

proof fn lemma_spelled_sum(a: Seq<char>, b: Seq<char>)
    ensures
        spelled(a + b) == spelled(a) + spelled(b),
    decreases b.len(),
{
    if b.len() > 0 {
        assert((a + b).drop_last() =~= a + b.drop_last());
        lemma_spelled_sum(a, b.drop_last());
        assert(spelled(a + b) =~= spelled(a) + spelled(b));
    } else {
        assert(a + b =~= a);
        assert(spelled(a + b) =~= spelled(a) + spelled(b));
    }
}

proof fn lemma_spelled_unmarked(s: Seq<char>)
    requires
        unmarked(s),
    ensures
        spelled(s) == s,
    decreases s.len(),
{
    if s.len() > 0 {
        let before = s.drop_last();
        assert forall|i: int| 0 <= i < before.len() implies ({
            let c = #[trigger] before[i];
            c != '-' && c != '_' && c != ':' && c != '{' && c != '}'
        }) by {
            assert(before[i] == s[i]);
        }
        lemma_spelled_unmarked(before);
        assert(s[s.len() - 1] != '{' && s[s.len() - 1] != '}');
    }
    assert(spelled(s) =~= s);
}

/// What has no hyphen is kept as it is behind what comes before it.
proof fn lemma_collapsed_tail(s: Seq<char>, tail: Seq<char>)
    requires
        forall|i: int| 0 <= i < tail.len() ==> #[trigger] tail[i] != '-',
    ensures
        collapsed(s + tail) == collapsed(s) + tail,
    decreases tail.len(),
{
    if tail.len() > 0 {
        let before = tail.drop_last();
        assert((s + tail).drop_last() =~= s + before);
        assert forall|i: int| 0 <= i < before.len() implies #[trigger] before[i] != '-' by {
            assert(before[i] == tail[i]);
        }
        lemma_collapsed_tail(s, before);
        assert(tail[tail.len() - 1] != '-');
        assert(collapsed(s + tail) =~= collapsed(s) + tail);
    } else {
        assert(s + tail =~= s);
        assert(collapsed(s + tail) =~= collapsed(s) + tail);
    }
}

/// The canonical name of a command with a brace argument.
pub open spec fn braced_name(command: Seq<char>, argument: Seq<char>) -> Seq<char> {
    if argument.len() == 0 {
        command + "-lbrace-"@ + "rbrace"@
    } else {
        command + "-lbrace-"@ + (argument + "-rbrace"@)
    }
}

proof fn lemma_braced_name(command: Seq<char>, argument: Seq<char>)
    requires
        unmarked(command),
        unmarked(argument),
        command.len() > 0,
    ensures
        spelled_name(command + "{"@ + argument + "}"@) == braced_name(command, argument),
{
    reveal_strlit("{");
    reveal_strlit("}");
    reveal_strlit("-lbrace-");
    reveal_strlit("-rbrace");
    reveal_strlit("rbrace");
    let (c, x) = (command, argument);
    let full = c + "{"@ + x + "}"@;
    let wide = c + "-lbrace-"@ + x + "-rbrace"@;
    assert(spelled(full) == wide) by {
        lemma_spelled_sum(c + "{"@ + x, "}"@);
        lemma_spelled_sum(c + "{"@, x);
        lemma_spelled_sum(c, "{"@);
        lemma_spelled_unmarked(c);
        lemma_spelled_unmarked(x);
        assert("{"@.drop_last() =~= Seq::<char>::empty());
        assert("}"@.drop_last() =~= Seq::<char>::empty());
        assert(spelled(Seq::<char>::empty()) =~= Seq::<char>::empty());
        assert("{"@.last() == '{' && "}"@.last() == '}');
        assert(spelled("{"@) =~= "-lbrace-"@);
        assert(spelled("}"@) =~= "-rbrace"@);
    }
    // hyphen by hyphen
    let lbrace = seq!['l', 'b', 'r', 'a', 'c', 'e'];
    let rbrace = seq!['r', 'b', 'r', 'a', 'c', 'e'];
    assert("rbrace"@ =~= rbrace);
    let none = Seq::<char>::empty();
    lemma_collapsed_tail(none, c);
    assert(none + c =~= c);
    let a = c.push('-');
    assert(a.drop_last() =~= c);
    assert(c[c.len() - 1] != '-');
    assert(collapsed(a) == a);
    lemma_collapsed_tail(a, lbrace);
    let b = (a + lbrace).push('-');
    assert(b.drop_last() =~= a + lbrace);
    assert(collapsed(b) == b);
    lemma_collapsed_tail(b, x);
    let d = (b + x).push('-');
    assert(d.drop_last() =~= b + x);
    lemma_collapsed_tail(d, rbrace);
    assert(wide =~= d + rbrace);
    if x.len() == 0 {
        assert(b + x =~= b);
        assert(collapsed(d) == b);
    } else {
        assert(x[x.len() - 1] != '-');
        assert((b + x).last() == x.last());
        assert(collapsed(d) == d);
    }
    let name = collapsed(wide);
    assert(name =~= braced_name(c, x));
    assert(name[0] == c[0]);
    assert(name.last() == 'e');
}

/// A key of a command with a brace argument is normalized to its package and its canonical name.
proof fn lemma_braced_key(
    package: Seq<char>,
    encoding: Seq<char>,
    command: Seq<char>,
    argument: Seq<char>,
)
    requires
        unmarked(package) && unmarked(encoding) && unmarked(command) && unmarked(argument),
        package.len() > 0 && command.len() > 0,
    ensures
        normalized(braced_key(package, encoding, command, argument)) == "latex:"@ + package + ":"@
            + braced_name(command, argument),
{
    reveal_strlit("-");
    reveal_strlit("-_");
    reveal_strlit("{");
    reveal_strlit("}");
    reveal_strlit("latex:");
    let key = braced_key(package, encoding, command, argument);
    let full = command + "{"@ + argument + "}"@;
    let i = (package.len() + 1 + encoding.len()) as int;
    assert(key.last() == '}');
    if alias_of(key) is Some {
        lemma_aliases(key);
    }
    if crate::text::stands_at(key, "latex:"@, 0) {
        assert(key.subrange(0, 6)[5] == ':');
        assert(key[5] == ':');
        let n = package.len() as int;
        let m = i + 2 + command.len();
        if 5 < n {
            assert(key[5] == package[5]);
        } else if n < 5 < i {
            assert(key[5] == encoding[5 - n - 1]);
        } else if i + 2 <= 5 < m {
            assert(key[5] == command[5 - i - 2]);
        } else if m < 5 < key.len() - 1 {
            assert(key[5] == argument[5 - m - 1]);
        }
        assert(false);
    }
    assert(key.subrange(i, i + 2) =~= "-_"@);
    assert forall|k: int| 0 <= k < i implies !#[trigger] crate::text::stands_at(key, "-_"@, k) by {
        if crate::text::stands_at(key, "-_"@, k) {
            assert(key.subrange(k, k + 2)[0] == key[k]);
            assert(key.subrange(k, k + 2)[1] == key[k + 1]);
            if k < package.len() {
                assert(key[k] == package[k]);
            } else if k == package.len() {
                if encoding.len() > 0 {
                    assert(key[k + 1] == encoding[0]);
                }
            } else {
                assert(key[k] == encoding[k - package.len() - 1]);
            }
        }
    }
    lemma_first(key, "-_"@, 0, i as nat);
    let head = key.take(i);
    assert(head =~= package + "-"@ + encoding);
    lemma_last_dash(head, package.len(), head.len());
    assert(head.take(package.len() as int) =~= package);
    assert(key.skip(i + 2) =~= full);
    lemma_braced_name(command, argument);
}

proof fn lemma_last_dash(s: Seq<char>, at: nat, n: nat)
    requires
        at < n <= s.len(),
        s[at as int] == '-',
        forall|i: int| at < i < n ==> #[trigger] s[i] != '-',
    ensures
        last_dash(s, n) == at,
    decreases n,
{
    if n - 1 > at {
        assert(s[n - 1] != '-');
        lemma_last_dash(s, at, (n - 1) as nat);
    }
}

/// A class and its command agree: the key of a command with a brace argument, normalized and
/// written as LaTeX, gives back the command with its braces, also where the argument is empty.
pub proof fn law_a_command_with_an_argument_comes_back(
    package: Seq<char>,
    encoding: Seq<char>,
    command: Seq<char>,
    argument: Seq<char>,
)
    requires
        unmarked(package) && unmarked(encoding) && unmarked(command) && unmarked(argument),
        package.len() > 0 && command.len() > 0,
    ensures
        crate::latex::command_of(normalized(braced_key(package, encoding, command, argument)))
            == "\\"@ + command + "{"@ + argument + "}"@,
{
    reveal_strlit("latex:");
    reveal_strlit(":");
    reveal_strlit("-lbrace-");
    reveal_strlit("-rbrace");
    reveal_strlit("rbrace");
    reveal_strlit("{");
    reveal_strlit("}");
    reveal_strlit("{}");
    let name = braced_name(command, argument);
    let label = "latex:"@ + package + ":"@ + name;
    lemma_braced_key(package, encoding, command, argument);
    assert(label.subrange(0, 6) =~= "latex:"@);
    let rest = label.skip(6);
    assert(rest =~= package + ":"@ + name);
    let n = package.len() as int;
    assert(rest.subrange(n, n + 1) =~= ":"@);
    assert forall|k: int| 0 <= k < n implies !#[trigger] crate::text::stands_at(rest, ":"@, k) by {
        assert(rest[k] == package[k]);
        lemma_not_there(rest, ":"@, k);
    }
    lemma_first(rest, ":"@, 0, n as nat);
    assert(rest.skip(n + 1) =~= name);
    let m = command.len() as int;
    assert(name.subrange(m, m + 8) =~= "-lbrace-"@);
    assert forall|k: int| 0 <= k < m implies !#[trigger] crate::text::stands_at(
        name,
        "-lbrace-"@,
        k,
    ) by {
        assert(name[k] == command[k]);
        lemma_not_there(name, "-lbrace-"@, k);
    }
    lemma_first(name, "-lbrace-"@, 0, m as nat);
    assert(name.take(m) =~= command);
    let tail = name.skip(m + 8);
    if argument.len() == 0 {
        assert(tail =~= "rbrace"@);
        assert("\\"@ + command + "{}"@ =~= "\\"@ + command + "{"@ + argument + "}"@);
    } else {
        assert(tail =~= argument + "-rbrace"@);
        let at = argument.len() as int;
        assert(tail.subrange(at, at + 7) =~= "-rbrace"@);
        assert(tail.take(at) =~= argument);
    }
}

} // verus!
