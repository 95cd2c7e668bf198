//! Recognized expressions as JSON, for a page that shows them and offers corrections.
use crate::expression::{best_choices, compose, AnalyzedSymbol, AnalyzedView};
use crate::float::decimal::push_fixed;
use crate::float::F32;
use crate::glyphs::{Font, RawGlyphView};
use crate::json::{push_part, push_quoted};
use crate::latex::symbol_command;
use crate::text::{append, chars_of, push_decimal, text_of};
use vstd::prelude::*;

verus! {

/// A candidate: its command and its probability with three digits after the point.
pub open spec fn candidate_text(c: (Seq<char>, F32)) -> Seq<char> {
    "{\"cmd\":"@ + crate::json::quoted(crate::latex::command_of(c.0)) + ",\"p\":"@
        + crate::float::decimal::fixed(c.1, 3) + "}"@
}

/// The candidates of a symbol as an array.
pub open spec fn candidates_text(candidates: Seq<(Seq<char>, F32)>) -> Seq<char> {
    "\"candidates\":["@ + crate::json::listed(
        Seq::new(candidates.len(), |i: int| candidate_text(candidates[i])),
    ) + "]"@
}

/// A symbol with the index of its chosen candidate.
pub open spec fn chosen_text(symbol: AnalyzedView, choice: int) -> Seq<char> {
    "{\"choice\":"@ + crate::text::decimal(choice as nat) + ","@ + candidates_text(
        symbol.candidates,
    ) + "}"@
}

/// A symbol of which no candidate has been chosen by hand.
pub open spec fn open_text(symbol: AnalyzedView) -> Seq<char> {
    "{"@ + candidates_text(symbol.candidates) + "}"@
}

/// An expression: its LaTeX, its SVG document and the texts of its symbols.
pub open spec fn expression_text(
    latex: Seq<char>,
    svg: Seq<char>,
    symbols: Seq<Seq<char>>,
) -> Seq<char> {
    "{\"latex\":"@ + crate::json::quoted(latex) + ",\"svg\":"@ + crate::json::quoted(svg)
        + ",\"symbols\":["@ + crate::json::listed(symbols) + "]}"@
}

/// An expression under correction.
pub open spec fn state_of(
    symbols: Seq<AnalyzedView>,
    choices: Seq<int>,
    font: Seq<RawGlyphView>,
) -> Seq<char> {
    let t = crate::expression::chosen_tree(symbols, choices);
    expression_text(
        crate::latex::latex_of(t),
        crate::expression::drawn_svg(t, font),
        Seq::new(symbols.len(), |i: int| chosen_text(symbols[i], choices[i])),
    )
}

/// A freshly recognized expression: the best candidate stands for each symbol.
pub open spec fn result_of(symbols: Seq<AnalyzedView>, font: Seq<RawGlyphView>) -> Seq<char> {
    let t = crate::expression::chosen_tree(symbols, Seq::new(symbols.len(), |i: int| 0));
    expression_text(
        crate::latex::latex_of(t),
        crate::expression::drawn_svg(t, font),
        Seq::new(symbols.len(), |i: int| open_text(symbols[i])),
    )
}

fn push_candidate(out: &mut Vec<char>, label: &str, prob: F32)
    ensures
        final(out)@ == old(out)@ + candidate_text((label@, prob)),
{
    append(out, "{\"cmd\":");
    let command = symbol_command(label);
    push_quoted(out, &chars_of(command.as_str()));
    append(out, ",\"p\":");
    push_fixed(out, prob, 3);
    append(out, "}");
    assert(out@ =~= old(out)@ + candidate_text((label@, prob)));
}

fn push_candidates(out: &mut Vec<char>, symbol: &AnalyzedSymbol)
    ensures
        final(out)@ == old(out)@ + candidates_text(symbol@.candidates),
{
    append(out, "\"candidates\":[");
    let ghost start = out@;
    let ghost parts = Seq::new(
        symbol@.candidates.len(),
        |i: int| candidate_text(symbol@.candidates[i]),
    );
    let mut i: usize = 0;
    assert(out@ =~= start + crate::json::listed(parts.take(0)));
    while i < symbol.candidates.len()
        invariant
            i <= symbol.candidates.len(),
            parts == Seq::new(
                symbol@.candidates.len(),
                |i: int| candidate_text(symbol@.candidates[i]),
            ),
            out@ == start + crate::json::listed(parts.take(i as int)),
        decreases symbol.candidates.len() - i,
    {
        let mut part: Vec<char> = Vec::new();
        let c = &symbol.candidates[i];
        push_candidate(&mut part, c.0.as_str(), c.1);
        proof {
            assert(part@ =~= parts[i as int]);
            assert(parts.take(i + 1) =~= parts.take(i as int).push(part@));
        }
        push_part(out, &part, i, Ghost(start), Ghost(parts.take(i as int)));
        i = i + 1;
    }
    assert(parts.take(i as int) =~= parts);
    append(out, "]");
    assert(out@ =~= old(out)@ + candidates_text(symbol@.candidates));
}

fn push_head(out: &mut Vec<char>, latex: &str, svg: &str)
    ensures
        final(out)@ == old(out)@ + "{\"latex\":"@ + crate::json::quoted(latex@) + ",\"svg\":"@
            + crate::json::quoted(svg@) + ",\"symbols\":["@,
{
    append(out, "{\"latex\":");
    push_quoted(out, &chars_of(latex));
    append(out, ",\"svg\":");
    push_quoted(out, &chars_of(svg));
    append(out, ",\"symbols\":[");
}

/// An expression under correction, as JSON.
pub fn state_json(symbols: &Vec<AnalyzedSymbol>, choices: &Vec<usize>, font: &Font) -> (r: String)
    requires
        choices.len() == symbols.len(),
    ensures
        r@ == state_of(
            crate::expression::analyzed_views(symbols@),
            crate::sort::as_ints(choices@),
            font@,
        ),
{
    let ghost views = crate::expression::analyzed_views(symbols@);
    let ghost picks = crate::sort::as_ints(choices@);
    let drawn = compose(symbols, choices, font);
    let mut out: Vec<char> = Vec::new();
    push_head(&mut out, drawn.0.as_str(), drawn.1.as_str());
    let ghost start = out@;
    let ghost parts = Seq::new(views.len(), |i: int| chosen_text(views[i], picks[i]));
    let mut i: usize = 0;
    assert(out@ =~= start + crate::json::listed(parts.take(0)));
    while i < symbols.len()
        invariant
            i <= symbols.len(),
            choices.len() == symbols.len(),
            views == crate::expression::analyzed_views(symbols@),
            picks == crate::sort::as_ints(choices@),
            parts == Seq::new(views.len(), |i: int| chosen_text(views[i], picks[i])),
            out@ == start + crate::json::listed(parts.take(i as int)),
        decreases symbols.len() - i,
    {
        let mut part: Vec<char> = Vec::new();
        append(&mut part, "{\"choice\":");
        push_decimal(&mut part, choices[i] as u64);
        append(&mut part, ",");
        push_candidates(&mut part, &symbols[i]);
        append(&mut part, "}");
        proof {
            assert(views[i as int] == symbols[i as int]@);
            assert(part@ =~= parts[i as int]);
            assert(parts.take(i + 1) =~= parts.take(i as int).push(part@));
        }
        push_part(&mut out, &part, i, Ghost(start), Ghost(parts.take(i as int)));
        i = i + 1;
    }
    assert(parts.take(i as int) =~= parts);
    append(&mut out, "]}");
    assert(out@ =~= state_of(views, picks, font@));
    text_of(&out)
}

/// A freshly recognized expression, as JSON.
pub fn result_json(symbols: &Vec<AnalyzedSymbol>, font: &Font) -> (r: String)
    ensures
        r@ == result_of(crate::expression::analyzed_views(symbols@), font@),
{
    let ghost views = crate::expression::analyzed_views(symbols@);
    let choices = best_choices(symbols);
    assert(crate::sort::as_ints(choices@) =~= Seq::new(views.len(), |i: int| 0));
    let drawn = compose(symbols, &choices, font);
    let mut out: Vec<char> = Vec::new();
    push_head(&mut out, drawn.0.as_str(), drawn.1.as_str());
    let ghost start = out@;
    let ghost parts = Seq::new(views.len(), |i: int| open_text(views[i]));
    let mut i: usize = 0;
    assert(out@ =~= start + crate::json::listed(parts.take(0)));
    while i < symbols.len()
        invariant
            i <= symbols.len(),
            views == crate::expression::analyzed_views(symbols@),
            parts == Seq::new(views.len(), |i: int| open_text(views[i])),
            out@ == start + crate::json::listed(parts.take(i as int)),
        decreases symbols.len() - i,
    {
        let mut part: Vec<char> = Vec::new();
        append(&mut part, "{");
        push_candidates(&mut part, &symbols[i]);
        append(&mut part, "}");
        proof {
            assert(views[i as int] == symbols[i as int]@);
            assert(part@ =~= parts[i as int]);
            assert(parts.take(i + 1) =~= parts.take(i as int).push(part@));
        }
        push_part(&mut out, &part, i, Ghost(start), Ghost(parts.take(i as int)));
        i = i + 1;
    }
    assert(parts.take(i as int) =~= parts);
    append(&mut out, "]}");
    assert(out@ =~= result_of(views, font@));
    text_of(&out)
}

} // verus!
