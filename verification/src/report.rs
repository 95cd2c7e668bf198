//! What the tools print: rankings, readings and tensors, as lines of text.
use crate::classify::weights::{Tensor, TensorView, DTYPE_I32, DTYPE_I8};
use crate::classify::{Labels, Prediction};
use crate::float::decimal::push_fixed;
use crate::float::{num, F32};
use crate::latex::symbol_command;
use crate::line::{LineSymbol, LineSymbolView};
use crate::text::{append, append_chars, chars_of, push_decimal, push_signed, text_of};
use vstd::prelude::*;

verus! {

/// 100.
pub const HUNDRED: u32 = 0x42c8_0000;

// ---------------------------------------------------------------------------------------------
// Columns and lists
// ---------------------------------------------------------------------------------------------
/// So many blanks.
pub open spec fn blanks(n: nat) -> Seq<char> {
    Seq::new(n, |i: int| ' ')
}

/// A text in a column, at its right end. A text that is wider than the column stands as it is.
pub open spec fn to_right(s: Seq<char>, width: nat) -> Seq<char> {
    if s.len() < width {
        blanks((width - s.len()) as nat) + s
    } else {
        s
    }
}

/// A text in a column, at its left end.
pub open spec fn to_left(s: Seq<char>, width: nat) -> Seq<char> {
    if s.len() < width {
        s + blanks((width - s.len()) as nat)
    } else {
        s
    }
}

/// The parts with a separator between each two.
pub open spec fn joined(parts: Seq<Seq<char>>, sep: Seq<char>) -> Seq<char>
    decreases parts.len(),
{
    if parts.len() == 0 {
        Seq::empty()
    } else if parts.len() == 1 {
        parts[0]
    } else {
        joined(parts.drop_last(), sep) + sep + parts.last()
    }
}

fn push_blanks(out: &mut Vec<char>, n: usize)
    ensures
        final(out)@ == old(out)@ + blanks(n as nat),
{
    let ghost start = out@;
    let mut i: usize = 0;
    assert(out@ =~= start + blanks(0));
    while i < n
        invariant
            i <= n,
            out@ == start + blanks(i as nat),
        decreases n - i,
    {
        out.push(' ');
        i = i + 1;
        assert(out@ =~= start + blanks(i as nat));
    }
}

fn push_right(out: &mut Vec<char>, s: &Vec<char>, width: usize)
    ensures
        final(out)@ == old(out)@ + to_right(s@, width as nat),
{
    if s.len() < width {
        push_blanks(out, width - s.len());
    }
    append_chars(out, s);
    assert(out@ =~= old(out)@ + to_right(s@, width as nat));
}

fn push_left(out: &mut Vec<char>, s: &Vec<char>, width: usize)
    ensures
        final(out)@ == old(out)@ + to_left(s@, width as nat),
{
    append_chars(out, s);
    if s.len() < width {
        push_blanks(out, width - s.len());
    }
    assert(out@ =~= old(out)@ + to_left(s@, width as nat));
}

/// Join texts.
fn join(parts: &Vec<Vec<char>>, sep: &str) -> (r: Vec<char>)
    ensures
        r@ == joined(crate::text::line_views(parts@), sep@),
{
    let ghost views = crate::text::line_views(parts@);
    let mut out: Vec<char> = Vec::new();
    let mut i: usize = 0;
    assert(out@ =~= joined(views.take(0), sep@));
    while i < parts.len()
        invariant
            i <= parts.len(),
            views == crate::text::line_views(parts@),
            out@ == joined(views.take(i as int), sep@),
        decreases parts.len() - i,
    {
        assert(views[i as int] == parts[i as int]@);
        assert(views.take(i + 1).drop_last() =~= views.take(i as int));
        if i > 0 {
            append(&mut out, sep);
        }
        append_chars(&mut out, &parts[i]);
        assert(out@ =~= joined(views.take(i + 1), sep@));
        i = i + 1;
    }
    assert(views.take(i as int) =~= views);
    out
}

// ---------------------------------------------------------------------------------------------
// Rankings
// ---------------------------------------------------------------------------------------------
/// A probability in percent, in a column of five.
pub open spec fn percent(p: F32) -> Seq<char> {
    to_right(crate::float::decimal::fixed(p.times(num(HUNDRED)), 1), 5) + "%"@
}

/// One line of a ranking. The LaTeX comes first, and the name behind it, which tells classes that
/// look alike apart; without a name the class' number stands for it.
pub open spec fn ranking_line(place: nat, p: Prediction, labels: Option<Seq<Seq<char>>>) -> Seq<
    char,
> {
    "  "@ + crate::text::decimal(place) + ". "@ + percent(p.prob) + "  "@ + match labels {
        Some(names) if p.class < names.len() => to_left(
            crate::latex::command_of(names[p.class as int]),
            16,
        ) + " ("@ + names[p.class as int] + ")"@,
        _ => "class "@ + crate::text::decimal(p.class as nat),
    }
}

/// What optional labels hold.
pub open spec fn names_of(labels: Option<&Labels>) -> Option<Seq<Seq<char>>> {
    match labels {
        Some(l) => Some(l@),
        None => None,
    }
}

fn push_percent(out: &mut Vec<char>, p: F32)
    ensures
        final(out)@ == old(out)@ + percent(p),
{
    let mut number: Vec<char> = Vec::new();
    push_fixed(&mut number, p.times(num(HUNDRED)), 1);
    assert(number@ =~= crate::float::decimal::fixed(p.times(num(HUNDRED)), 1));
    push_right(out, &number, 5);
    append(out, "%");
    assert(out@ =~= old(out)@ + percent(p));
}

/// One line of a ranking.
pub fn rank_line(place: usize, p: &Prediction, labels: Option<&Labels>) -> (r: String)
    ensures
        r@ == ranking_line(place as nat, *p, names_of(labels)),
{
    let mut out: Vec<char> = Vec::new();
    append(&mut out, "  ");
    push_decimal(&mut out, place as u64);
    append(&mut out, ". ");
    push_percent(&mut out, p.prob);
    append(&mut out, "  ");
    let name = match labels {
        Some(l) => l.get(p.class),
        None => None,
    };
    match name {
        Some(id) => {
            let command = symbol_command(id);
            push_left(&mut out, &chars_of(command.as_str()), 16);
            append(&mut out, " (");
            append(&mut out, id);
            append(&mut out, ")");
        },
        None => {
            append(&mut out, "class ");
            push_decimal(&mut out, p.class as u64);
        },
    }
    assert(out@ =~= ranking_line(place as nat, *p, names_of(labels)));
    text_of(&out)
}

// ---------------------------------------------------------------------------------------------
// Expressions
// ---------------------------------------------------------------------------------------------
/// The name of a class, or its number.
pub open spec fn class_name(class: int, labels: Option<Seq<Seq<char>>>) -> Seq<char> {
    match labels {
        Some(names) if class < names.len() => names[class],
        _ => "class "@ + crate::text::decimal(class as nat),
    }
}

fn name_class(class: usize, labels: Option<&Labels>) -> (r: Vec<char>)
    ensures
        r@ == class_name(class as int, names_of(labels)),
{
    let name = match labels {
        Some(l) => l.get(class),
        None => None,
    };
    match name {
        Some(id) => chars_of(id),
        None => {
            let mut out = chars_of("class ");
            push_decimal(&mut out, class as u64);
            out
        },
    }
}

/// The names of the best classes of the first `n` symbols.
pub open spec fn best_names(
    line: Seq<LineSymbolView>,
    labels: Option<Seq<Seq<char>>>,
    n: nat,
) -> Seq<Seq<char>>
    decreases n,
{
    if n == 0 {
        Seq::empty()
    } else {
        let before = best_names(line, labels, (n - 1) as nat);
        let preds = line[n - 1].predictions;
        if preds.len() > 0 {
            before.push(class_name(preds[0].class as int, labels))
        } else {
            before
        }
    }
}

/// How a drawing was segmented: the number of symbols and their best readings.
pub open spec fn segmented(line: Seq<LineSymbolView>, labels: Option<Seq<Seq<char>>>) -> Seq<char> {
    "segmented: "@ + crate::text::decimal(line.len()) + " symbol(s) \u{2192} "@ + joined(
        best_names(line, labels, line.len()),
        "  \u{b7}  "@,
    )
}

/// How a drawing was segmented.
pub fn segmentation_line(line: &Vec<LineSymbol>, labels: Option<&Labels>) -> (r: String)
    ensures
        r@ == segmented(crate::line::line_views(line@), names_of(labels)),
{
    let ghost views = crate::line::line_views(line@);
    let mut names: Vec<Vec<char>> = Vec::new();
    let mut i: usize = 0;
    assert(crate::text::line_views(names@) =~= Seq::<Seq<char>>::empty());
    while i < line.len()
        invariant
            i <= line.len(),
            views == crate::line::line_views(line@),
            crate::text::line_views(names@) == best_names(views, names_of(labels), i as nat),
        decreases line.len() - i,
    {
        let preds = &line[i].predictions;
        assert(views[i as int] == line[i as int]@);
        if preds.len() > 0 {
            let name = name_class(preds[0].class, labels);
            assert(crate::text::line_views(names@.push(name)) =~= crate::text::line_views(
                names@,
            ).push(name@));
            names.push(name);
        }
        i = i + 1;
    }
    let mut out = chars_of("segmented: ");
    push_decimal(&mut out, line.len() as u64);
    append(&mut out, " symbol(s) \u{2192} ");
    append_chars(&mut out, &join(&names, "  \u{b7}  "));
    assert(out@ =~= segmented(views, names_of(labels)));
    text_of(&out)
}

/// Numbers in brackets, with a comma between each two.
pub open spec fn number_list(values: Seq<int>) -> Seq<char> {
    "["@ + joined(
        Seq::new(values.len(), |i: int| crate::text::decimal(values[i] as nat)),
        ", "@,
    ) + "]"@
}

fn list_numbers(values: &Vec<usize>) -> (r: Vec<char>)
    ensures
        r@ == number_list(crate::sort::as_ints(values@)),
{
    let ghost want = Seq::new(
        values@.len(),
        |i: int| crate::text::decimal(crate::sort::as_ints(values@)[i] as nat),
    );
    let mut parts: Vec<Vec<char>> = Vec::new();
    let mut i: usize = 0;
    assert(crate::text::line_views(parts@) =~= want.take(0));
    while i < values.len()
        invariant
            i <= values.len(),
            want == Seq::new(
                values@.len(),
                |i: int| crate::text::decimal(crate::sort::as_ints(values@)[i] as nat),
            ),
            crate::text::line_views(parts@) == want.take(i as int),
        decreases values.len() - i,
    {
        let mut part: Vec<char> = Vec::new();
        push_decimal(&mut part, values[i] as u64);
        proof {
            assert(part@ =~= want[i as int]);
            assert(crate::text::line_views(parts@.push(part)) =~= crate::text::line_views(
                parts@,
            ).push(part@));
            assert(want.take(i + 1) =~= want.take(i as int).push(part@));
        }
        parts.push(part);
        i = i + 1;
    }
    assert(want.take(i as int) =~= want);
    let mut out = chars_of("[");
    append_chars(&mut out, &join(&parts, ", "));
    append(&mut out, "]");
    assert(want =~= Seq::new(
        crate::sort::as_ints(values@).len(),
        |i: int| crate::text::decimal(crate::sort::as_ints(values@)[i] as nat),
    ));
    assert(out@ =~= number_list(crate::sort::as_ints(values@)));
    out
}

/// The heading of a symbol: its place and its strokes.
pub open spec fn symbol_heading(place: nat, strokes: Seq<int>) -> Seq<char> {
    "  symbol "@ + crate::text::decimal(place) + " (strokes "@ + number_list(strokes) + "):"@
}

/// The heading of a symbol.
pub fn symbol_line(place: usize, symbol: &LineSymbol) -> (r: String)
    ensures
        r@ == symbol_heading(place as nat, symbol@.strokes),
{
    let mut out = chars_of("  symbol ");
    push_decimal(&mut out, place as u64);
    append(&mut out, " (strokes ");
    append_chars(&mut out, &list_numbers(&symbol.strokes));
    append(&mut out, "):");
    assert(out@ =~= symbol_heading(place as nat, symbol@.strokes));
    text_of(&out)
}

/// One candidate of a symbol.
pub open spec fn candidate(p: Prediction, labels: Option<Seq<Seq<char>>>) -> Seq<char> {
    "      "@ + percent(p.prob) + "  "@ + class_name(p.class as int, labels)
}

/// One candidate of a symbol.
pub fn candidate_line(p: &Prediction, labels: Option<&Labels>) -> (r: String)
    ensures
        r@ == candidate(*p, names_of(labels)),
{
    let mut out = chars_of("      ");
    push_percent(&mut out, p.prob);
    append(&mut out, "  ");
    append_chars(&mut out, &name_class(p.class, labels));
    assert(out@ =~= candidate(*p, names_of(labels)));
    text_of(&out)
}

/// A candidate among alternatives: its LaTeX and its probability in whole percent.
pub open spec fn alternative(p: Prediction, labels: Seq<Seq<char>>) -> Seq<char> {
    if p.class < labels.len() {
        crate::latex::command_of(labels[p.class as int]) + " "@ + crate::float::decimal::fixed(
            p.prob.times(num(HUNDRED)),
            0,
        ) + "%"@
    } else {
        "class"@ + crate::text::decimal(p.class as nat) + " "@
    }
}

/// The alternatives of a symbol.
pub open spec fn alternatives(place: nat, preds: Seq<Prediction>, labels: Seq<Seq<char>>) -> Seq<
    char,
> {
    "  "@ + crate::text::decimal(place) + ". "@ + joined(
        Seq::new(preds.len(), |i: int| alternative(preds[i], labels)),
        "  |  "@,
    )
}

fn push_alternative(out: &mut Vec<char>, p: &Prediction, labels: &Labels)
    ensures
        final(out)@ == old(out)@ + alternative(*p, labels@),
{
    match labels.get(p.class) {
        Some(l) => {
            append(out, symbol_command(l).as_str());
            append(out, " ");
            push_fixed(out, p.prob.times(num(HUNDRED)), 0);
            append(out, "%");
        },
        None => {
            append(out, "class");
            push_decimal(out, p.class as u64);
            append(out, " ");
        },
    }
    assert(out@ =~= old(out)@ + alternative(*p, labels@));
}

/// The alternatives of a symbol.
pub fn alternatives_line(place: usize, preds: &Vec<Prediction>, labels: &Labels) -> (r: String)
    ensures
        r@ == alternatives(place as nat, preds@, labels@),
{
    let ghost want = Seq::new(preds@.len(), |i: int| alternative(preds@[i], labels@));
    let mut parts: Vec<Vec<char>> = Vec::new();
    let mut i: usize = 0;
    assert(crate::text::line_views(parts@) =~= want.take(0));
    while i < preds.len()
        invariant
            i <= preds.len(),
            want == Seq::new(preds@.len(), |i: int| alternative(preds@[i], labels@)),
            crate::text::line_views(parts@) == want.take(i as int),
        decreases preds.len() - i,
    {
        let mut part: Vec<char> = Vec::new();
        push_alternative(&mut part, &preds[i], labels);
        proof {
            assert(part@ =~= want[i as int]);
            assert(crate::text::line_views(parts@.push(part)) =~= crate::text::line_views(
                parts@,
            ).push(part@));
            assert(want.take(i + 1) =~= want.take(i as int).push(part@));
        }
        parts.push(part);
        i = i + 1;
    }
    assert(want.take(i as int) =~= want);
    let mut out = chars_of("  ");
    push_decimal(&mut out, place as u64);
    append(&mut out, ". ");
    append_chars(&mut out, &join(&parts, "  |  "));
    assert(out@ =~= alternatives(place as nat, preds@, labels@));
    text_of(&out)
}

// ---------------------------------------------------------------------------------------------
// Tensors
// ---------------------------------------------------------------------------------------------
/// How many entries of a tensor are shown.
pub const SHOWN: usize = 6;

/// The first of the values.
pub open spec fn first<T>(values: Seq<T>) -> Seq<T> {
    if values.len() <= SHOWN {
        values
    } else {
        values.take(SHOWN as int)
    }
}

/// The texts of a tensor's first entries.
pub open spec fn entries(t: TensorView) -> Seq<Seq<char>> {
    if t.dtype == DTYPE_I8 {
        let v = first(crate::classify::weights::i8_entries(t));
        Seq::new(v.len(), |i: int| crate::text::signed_decimal(v[i] as int))
    } else if t.dtype == DTYPE_I32 {
        let v = first(crate::classify::weights::i32_entries(t));
        Seq::new(v.len(), |i: int| crate::text::signed_decimal(v[i] as int))
    } else {
        let v = first(crate::classify::weights::f32_entries(t));
        Seq::new(v.len(), |i: int| crate::float::decimal::fixed(v[i], 4))
    }
}

/// A tensor: its name, type, shape and scale, and its first entries.
pub open spec fn tensor_text(t: TensorView) -> Seq<char> {
    "  "@ + to_left(t.name, 18) + " dtype="@ + crate::text::decimal(t.dtype as nat) + " dims="@
        + number_list(Seq::new(t.dims.len(), |i: int| t.dims[i] as int)) + " scale="@
        + crate::float::decimal::fixed(t.scale, 6) + " head=["@ + joined(entries(t), ", "@) + "]"@
}

fn signed_texts(values: &Vec<i64>) -> (r: Vec<Vec<char>>)
    requires
        forall|i: int| 0 <= i < values.len() ==> #[trigger] values@[i] > i64::MIN,
    ensures
        crate::text::line_views(r@) == Seq::new(
            first(values@).len(),
            |i: int| crate::text::signed_decimal(first(values@)[i] as int),
        ),
{
    let ghost want = Seq::new(
        first(values@).len(),
        |i: int| crate::text::signed_decimal(first(values@)[i] as int),
    );
    let n: usize = if values.len() <= SHOWN {
        values.len()
    } else {
        SHOWN
    };
    let mut parts: Vec<Vec<char>> = Vec::new();
    let mut i: usize = 0;
    assert(crate::text::line_views(parts@) =~= want.take(0));
    while i < n
        invariant
            i <= n <= values.len(),
            n == want.len(),
            forall|i: int| 0 <= i < values.len() ==> #[trigger] values@[i] > i64::MIN,
            want == Seq::new(
                first(values@).len(),
                |i: int| crate::text::signed_decimal(first(values@)[i] as int),
            ),
            crate::text::line_views(parts@) == want.take(i as int),
        decreases n - i,
    {
        let mut part: Vec<char> = Vec::new();
        let v: i64 = values[i];
        assert(first(values@)[i as int] == v);
        push_signed(&mut part, v);
        proof {
            assert(part@ =~= want[i as int]);
            assert(crate::text::line_views(parts@.push(part)) =~= crate::text::line_views(
                parts@,
            ).push(part@));
            assert(want.take(i + 1) =~= want.take(i as int).push(part@));
        }
        parts.push(part);
        i = i + 1;
    }
    assert(want.take(i as int) =~= want);
    parts
}

fn fixed_texts(values: &Vec<F32>) -> (r: Vec<Vec<char>>)
    ensures
        crate::text::line_views(r@) == Seq::new(
            first(values@).len(),
            |i: int| crate::float::decimal::fixed(first(values@)[i], 4),
        ),
{
    let ghost want = Seq::new(
        first(values@).len(),
        |i: int| crate::float::decimal::fixed(first(values@)[i], 4),
    );
    let n: usize = if values.len() <= SHOWN {
        values.len()
    } else {
        SHOWN
    };
    let mut parts: Vec<Vec<char>> = Vec::new();
    let mut i: usize = 0;
    assert(crate::text::line_views(parts@) =~= want.take(0));
    while i < n
        invariant
            i <= n <= values.len(),
            n == want.len(),
            want == Seq::new(
                first(values@).len(),
                |i: int| crate::float::decimal::fixed(first(values@)[i], 4),
            ),
            crate::text::line_views(parts@) == want.take(i as int),
        decreases n - i,
    {
        let mut part: Vec<char> = Vec::new();
        assert(first(values@)[i as int] == values[i as int]);
        push_fixed(&mut part, values[i], 4);
        proof {
            assert(part@ =~= want[i as int]);
            assert(crate::text::line_views(parts@.push(part)) =~= crate::text::line_views(
                parts@,
            ).push(part@));
            assert(want.take(i + 1) =~= want.take(i as int).push(part@));
        }
        parts.push(part);
        i = i + 1;
    }
    assert(want.take(i as int) =~= want);
    parts
}

fn entry_texts<'a>(t: &Tensor<'a>) -> (r: Vec<Vec<char>>)
    ensures
        crate::text::line_views(r@) == entries(t@),
{
    if t.dtype == DTYPE_I8 {
        let values = t.as_i8();
        let mut wide: Vec<i64> = Vec::new();
        let mut i: usize = 0;
        while i < values.len()
            invariant
                i <= values.len(),
                wide.len() == i,
                forall|k: int| 0 <= k < i ==> #[trigger] wide@[k] == values@[k],
            decreases values.len() - i,
        {
            wide.push(values[i] as i64);
            i = i + 1;
        }
        let r = signed_texts(&wide);
        assert(crate::text::line_views(r@) =~= entries(t@));
        r
    } else if t.dtype == DTYPE_I32 {
        let values = t.as_i32();
        let mut wide: Vec<i64> = Vec::new();
        let mut i: usize = 0;
        while i < values.len()
            invariant
                i <= values.len(),
                wide.len() == i,
                forall|k: int| 0 <= k < i ==> #[trigger] wide@[k] == values@[k],
            decreases values.len() - i,
        {
            wide.push(values[i] as i64);
            i = i + 1;
        }
        let r = signed_texts(&wide);
        assert(crate::text::line_views(r@) =~= entries(t@));
        r
    } else {
        let r = fixed_texts(&t.as_f32());
        assert(crate::text::line_views(r@) =~= entries(t@));
        r
    }
}

/// A tensor as a line of text.
pub fn tensor_line<'a>(t: &Tensor<'a>) -> (r: String)
    ensures
        r@ == tensor_text(t@),
{
    let mut dims: Vec<usize> = Vec::new();
    let mut i: usize = 0;
    while i < t.dims.len()
        invariant
            i <= t.dims.len(),
            dims.len() == i,
            forall|k: int| 0 <= k < i ==> #[trigger] dims@[k] == t.dims@[k],
        decreases t.dims.len() - i,
    {
        dims.push(t.dims[i] as usize);
        i = i + 1;
    }
    assert(crate::sort::as_ints(dims@) =~= Seq::new(t@.dims.len(), |i: int| t@.dims[i] as int));
    let mut out = chars_of("  ");
    push_left(&mut out, &chars_of(t.name), 18);
    append(&mut out, " dtype=");
    push_decimal(&mut out, t.dtype as u64);
    append(&mut out, " dims=");
    append_chars(&mut out, &list_numbers(&dims));
    append(&mut out, " scale=");
    push_fixed(&mut out, t.scale, 6);
    append(&mut out, " head=[");
    append_chars(&mut out, &join(&entry_texts(t), ", "));
    append(&mut out, "]");
    assert(out@ =~= tensor_text(t@));
    text_of(&out)
}

} // verus!
