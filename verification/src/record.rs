//! Training samples as text: one JSON record per line, in the shape that the dataset loader
//! reads.
use crate::float::decimal::push_fixed;
use crate::json::{push_part, push_quoted};
use crate::stroke::{Ink, Point, Stroke};
use crate::text::{append, chars_of, push_decimal, text_of};
use vstd::prelude::*;

verus! {

/// A point: its coordinates with five digits after the point, and its time in milliseconds.
pub open spec fn point_text(p: Point) -> Seq<char> {
    "{\"x\":"@ + crate::float::decimal::fixed(p.x, 5) + ",\"y\":"@ + crate::float::decimal::fixed(
        p.y,
        5,
    ) + ",\"t\":"@ + crate::text::decimal((p.t_us / 1000) as nat) + "}"@
}

/// A stroke: its points as an array.
pub open spec fn stroke_text(points: Seq<Point>) -> Seq<char> {
    "["@ + crate::json::listed(Seq::new(points.len(), |i: int| point_text(points[i]))) + "]"@
}

/// A drawing: its strokes as an array.
pub open spec fn strokes_text(strokes: Seq<Seq<Point>>) -> Seq<char> {
    "["@ + crate::json::listed(Seq::new(strokes.len(), |i: int| stroke_text(strokes[i]))) + "]"@
}

fn push_point(out: &mut Vec<char>, p: &Point)
    ensures
        final(out)@ == old(out)@ + point_text(*p),
{
    append(out, "{\"x\":");
    push_fixed(out, p.x, 5);
    append(out, ",\"y\":");
    push_fixed(out, p.y, 5);
    append(out, ",\"t\":");
    push_decimal(out, p.t_us / 1000);
    append(out, "}");
    assert(out@ =~= old(out)@ + point_text(*p));
}

fn push_stroke(out: &mut Vec<char>, s: &Stroke)
    ensures
        final(out)@ == old(out)@ + stroke_text(s@),
{
    append(out, "[");
    let ghost start = out@;
    let ghost parts = Seq::new(s@.len(), |i: int| point_text(s@[i]));
    let mut i: usize = 0;
    assert(out@ =~= start + crate::json::listed(parts.take(0)));
    while i < s.points.len()
        invariant
            i <= s.points.len(),
            parts == Seq::new(s@.len(), |i: int| point_text(s@[i])),
            out@ == start + crate::json::listed(parts.take(i as int)),
        decreases s.points.len() - i,
    {
        let mut part: Vec<char> = Vec::new();
        push_point(&mut part, &s.points[i]);
        proof {
            assert(part@ =~= parts[i as int]);
            assert(parts.take(i + 1) =~= parts.take(i as int).push(part@));
        }
        push_part(out, &part, i, Ghost(start), Ghost(parts.take(i as int)));
        i = i + 1;
    }
    assert(parts.take(i as int) =~= parts);
    append(out, "]");
    assert(out@ =~= old(out)@ + stroke_text(s@));
}

/// Append the strokes with the given indices.
fn push_strokes(out: &mut Vec<char>, strokes: &Vec<Stroke>, indices: &Vec<usize>)
    requires
        forall|k: int| 0 <= k < indices.len() ==> #[trigger] indices[k] < strokes.len(),
    ensures
        final(out)@ == old(out)@ + strokes_text(
            crate::denoise::selected(
                crate::stroke::trajectories(strokes@),
                crate::sort::as_ints(indices@),
            ),
        ),
{
    let ghost chosen = crate::denoise::selected(
        crate::stroke::trajectories(strokes@),
        crate::sort::as_ints(indices@),
    );
    append(out, "[");
    let ghost start = out@;
    let ghost parts = Seq::new(chosen.len(), |i: int| stroke_text(chosen[i]));
    let mut i: usize = 0;
    assert(out@ =~= start + crate::json::listed(parts.take(0)));
    while i < indices.len()
        invariant
            i <= indices.len(),
            forall|k: int| 0 <= k < indices.len() ==> #[trigger] indices[k] < strokes.len(),
            chosen == crate::denoise::selected(
                crate::stroke::trajectories(strokes@),
                crate::sort::as_ints(indices@),
            ),
            parts == Seq::new(chosen.len(), |i: int| stroke_text(chosen[i])),
            out@ == start + crate::json::listed(parts.take(i as int)),
        decreases indices.len() - i,
    {
        let mut part: Vec<char> = Vec::new();
        push_stroke(&mut part, &strokes[indices[i]]);
        proof {
            assert(chosen[i as int] == strokes[indices[i as int] as int]@);
            assert(part@ =~= parts[i as int]);
            assert(parts.take(i + 1) =~= parts.take(i as int).push(part@));
        }
        push_part(out, &part, i, Ghost(start), Ghost(parts.take(i as int)));
        i = i + 1;
    }
    assert(parts.take(i as int) =~= parts);
    append(out, "]");
    assert(out@ =~= old(out)@ + strokes_text(chosen));
}

pub(crate) fn all_indices(n: usize) -> (r: Vec<usize>)
    ensures
        crate::sort::as_ints(r@) == Seq::new(n as nat, |i: int| i),
        r.len() == n,
        forall|k: int| 0 <= k < n ==> #[trigger] r[k] == k,
{
    let mut out: Vec<usize> = Vec::new();
    let mut i: usize = 0;
    while i < n
        invariant
            i <= n,
            out.len() == i,
            forall|k: int| 0 <= k < i ==> #[trigger] out[k] == k,
        decreases n - i,
    {
        out.push(i);
        i = i + 1;
    }
    assert(crate::sort::as_ints(out@) =~= Seq::new(n as nat, |i: int| i));
    out
}

/// A character of a symbol's name in a collected record: quotes and backslashes are escaped.
pub open spec fn key_char(c: char) -> Seq<char> {
    if c == '\\' {
        "\\\\"@
    } else if c == '"' {
        "\\\""@
    } else {
        seq![c]
    }
}

pub open spec fn key_text(s: Seq<char>) -> Seq<char>
    decreases s.len(),
{
    if s.len() == 0 {
        Seq::empty()
    } else {
        key_text(s.drop_last()) + key_char(s.last())
    }
}

/// The record of a collected drawing.
pub open spec fn collected_record(symbol: Seq<char>, strokes: Seq<Seq<Point>>) -> Seq<char> {
    "{\"key\":\""@ + key_text(symbol) + "\",\"strokes\":"@ + strokes_text(strokes) + "}"@
}

/// The line for a symbol that a person has labelled.
pub open spec fn labelled_line(label: Seq<char>, strokes: Seq<Seq<Point>>) -> Seq<char> {
    "{\"key\":"@ + crate::json::quoted(label) + ",\"strokes\":"@ + strokes_text(strokes) + "}\n"@
}

fn push_key(out: &mut Vec<char>, s: &Vec<char>)
    ensures
        final(out)@ == old(out)@ + key_text(s@),
{
    let ghost start = out@;
    let mut i: usize = 0;
    assert(out@ =~= start + key_text(s@.take(0)));
    while i < s.len()
        invariant
            i <= s.len(),
            out@ == start + key_text(s@.take(i as int)),
        decreases s.len() - i,
    {
        let c = s[i];
        assert(s@.take(i + 1).drop_last() =~= s@.take(i as int));
        if c == '\\' {
            append(out, "\\\\");
        } else if c == '"' {
            append(out, "\\\"");
        } else {
            out.push(c);
        }
        assert(out@ =~= start + key_text(s@.take(i + 1)));
        i = i + 1;
    }
    assert(s@.take(i as int) =~= s@);
}

/// One record of a collected drawing of `symbol`.
pub fn ndjson_sample(symbol: &str, ink: &Ink) -> (r: String)
    ensures
        r@ == collected_record(symbol@, ink@.strokes),
{
    let mut out: Vec<char> = Vec::new();
    append(&mut out, "{\"key\":\"");
    push_key(&mut out, &chars_of(symbol));
    append(&mut out, "\",\"strokes\":");
    let all = all_indices(ink.strokes.len());
    proof {
        assert(crate::denoise::selected(ink@.strokes, crate::sort::as_ints(all@))
            =~= ink@.strokes);
    }
    push_strokes(&mut out, &ink.strokes, &all);
    append(&mut out, "}");
    assert(out@ =~= collected_record(symbol@, ink@.strokes));
    text_of(&out)
}

/// The line that logs a corrected or confirmed symbol: the strokes of `ink` with the given indices
/// and their label.
pub fn sample_line(label: &str, ink: &Ink, indices: &Vec<usize>) -> (r: String)
    requires
        forall|k: int| 0 <= k < indices.len() ==> #[trigger] indices[k] < ink@.strokes.len(),
    ensures
        r@ == labelled_line(
            label@,
            crate::denoise::selected(ink@.strokes, crate::sort::as_ints(indices@)),
        ),
{
    let mut out: Vec<char> = Vec::new();
    append(&mut out, "{\"key\":");
    push_quoted(&mut out, &chars_of(label));
    append(&mut out, ",\"strokes\":");
    push_strokes(&mut out, &ink.strokes, indices);
    append(&mut out, "}\n");
    assert(out@ =~= labelled_line(
        label@,
        crate::denoise::selected(ink@.strokes, crate::sort::as_ints(indices@)),
    ));
    text_of(&out)
}

} // verus!
