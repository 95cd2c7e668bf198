//! Symbol layout tree to LaTeX. The structure parse is the hard part; emission is a recursive walk.
use crate::structure::{Base, BaseView, Slt, SltView, Term, TermView};
use crate::text::{append, append_chars, chars_of, find, is_at, slice, text_of};
use vstd::prelude::*;

verus! {

// ---------------------------------------------------------------------------------------------
// Labels
// ---------------------------------------------------------------------------------------------
/// Is this an ASCII letter or digit?
pub open spec fn alphanumeric(c: char) -> bool {
    ('0' <= c <= '9') || ('A' <= c <= 'Z') || ('a' <= c <= 'z')
}

/// The LaTeX command for a class name: a brace argument is written out, a single letter or digit
/// stays as it is, anything else is the name of a command.
pub open spec fn named_command(name: Seq<char>) -> Seq<char> {
    let i = crate::text::first_at(name, "-lbrace-"@, 0) as int;
    let cmd = name.take(i);
    let rest = name.skip(i + "-lbrace-"@.len());
    if i <= name.len() && rest.len() >= "-rbrace"@.len() && crate::text::stands_at(
        rest,
        "-rbrace"@,
        rest.len() - "-rbrace"@.len(),
    ) {
        "\\"@ + cmd + "{"@ + rest.take(rest.len() - "-rbrace"@.len()) + "}"@
    } else if i <= name.len() && rest == "rbrace"@ {
        "\\"@ + cmd + "{}"@
    } else if name.len() == 1 && alphanumeric(name[0]) {
        name
    } else {
        "\\"@ + name
    }
}

/// The LaTeX token for a label. A label `latex:<package>:<name>` is reduced to the command for
/// the name; any other label is a token already.
pub open spec fn command_of(label: Seq<char>) -> Seq<char> {
    let rest = label.skip("latex:"@.len() as int);
    let i = crate::text::first_at(rest, ":"@, 0) as int;
    if crate::text::stands_at(label, "latex:"@, 0) && i <= rest.len() {
        named_command(rest.skip(i + 1))
    } else {
        label
    }
}

fn is_alphanumeric(c: char) -> (r: bool)
    ensures
        r == alphanumeric(c),
{
    ('0' <= c && c <= '9') || ('A' <= c && c <= 'Z') || ('a' <= c && c <= 'z')
}

/// The LaTeX command for a class name, such as `mathcal-lbrace-R-rbrace`.
fn detexify_name_to_latex(name: &Vec<char>) -> (r: Vec<char>)
    ensures
        r@ == named_command(name@),
{
    let open = chars_of("-lbrace-");
    let close = chars_of("-rbrace");
    let only = chars_of("rbrace");
    let mut out: Vec<char> = Vec::new();
    match find(name, &open) {
        Some(i) => {
            let cmd = slice(name, 0, i);
            let rest = slice(name, i + open.len(), name.len());
            assert(cmd@ =~= name@.take(i as int));
            assert(rest@ =~= name@.skip(i + open@.len()));
            if rest.len() >= close.len() && is_at(&rest, &close, rest.len() - close.len()) {
                let arg = slice(&rest, 0, rest.len() - close.len());
                assert(arg@ =~= rest@.take(rest.len() - close.len()));
                append(&mut out, "\\");
                append_chars(&mut out, &cmd);
                append(&mut out, "{");
                append_chars(&mut out, &arg);
                append(&mut out, "}");
                assert(out@ =~= named_command(name@));
                return out;
            }
            assert(rest@.len() == only@.len() ==> (rest@.subrange(0, only@.len() as int)
                =~= rest@));
            if rest.len() == only.len() && is_at(&rest, &only, 0) {
                append(&mut out, "\\");
                append_chars(&mut out, &cmd);
                append(&mut out, "{}");
                assert(out@ =~= named_command(name@));
                return out;
            }
        },
        None => {},
    }
    if name.len() == 1 && is_alphanumeric(name[0]) {
        append_chars(&mut out, name);
        assert(out@ =~= name@);
    } else {
        append(&mut out, "\\");
        append_chars(&mut out, name);
        assert(out@ =~= "\\"@ + name@);
    }
    out
}

fn command_chars(label: &Vec<char>) -> (r: Vec<char>)
    ensures
        r@ == command_of(label@),
{
    let prefix = chars_of("latex:");
    let colon = chars_of(":");
    proof {
        reveal_strlit(":");
    }
    if is_at(label, &prefix, 0) {
        let rest = slice(label, prefix.len(), label.len());
        assert(rest@ =~= label@.skip(prefix@.len() as int));
        match find(&rest, &colon) {
            Some(i) => {
                let name = slice(&rest, i + 1, rest.len());
                assert(name@ =~= rest@.skip(i + 1));
                return detexify_name_to_latex(&name);
            },
            None => {},
        }
    }
    slice(label, 0, label.len())
}

/// Map a recognized label to a LaTeX token. A clean label (`x`, `+`, `\alpha`) is the identity; a
/// class id (`latex:<package>:<name>`) is reduced to a command (`latex:latex2e:xi` to `\xi`).
pub fn symbol_command(label: &str) -> (r: String)
    ensures
        r@ == command_of(label@),
{
    let chars = chars_of(label);
    let out = command_chars(&chars);
    assert(label@.subrange(0, label@.len() as int) =~= label@);
    text_of(&out)
}

/// A label that does not start with `latex:` comes back as it is.
pub proof fn law_clean_labels_pass_through(label: Seq<char>)
    requires
        !crate::text::stands_at(label, "latex:"@, 0),
    ensures
        command_of(label) == label,
{
}

// ---------------------------------------------------------------------------------------------
// Trees
// ---------------------------------------------------------------------------------------------
/// The LaTeX of a tree.
pub open spec fn latex_of(t: SltView) -> Seq<char>
    decreases t,
{
    terms_latex(t.terms)
}

pub open spec fn terms_latex(terms: Seq<TermView>) -> Seq<char>
    decreases terms,
{
    if terms.len() == 0 {
        Seq::empty()
    } else {
        terms_latex(terms.drop_last()) + term_latex(terms.last())
    }
}

/// The LaTeX of a term: its base, then the subscript, then the superscript.
pub open spec fn term_latex(t: TermView) -> Seq<char>
    decreases t,
{
    base_latex(t.base) + (match t.sub {
        Some(s) => "_{"@ + latex_of(s) + "}"@,
        None => Seq::empty(),
    }) + (match t.sup {
        Some(s) => "^{"@ + latex_of(s) + "}"@,
        None => Seq::empty(),
    })
}

pub open spec fn base_latex(b: BaseView) -> Seq<char>
    decreases b,
{
    match b {
        BaseView::Symbol(l) => command_of(l),
        BaseView::Frac { num, den } => "\\frac{"@ + latex_of(num) + "}{"@ + latex_of(den) + "}"@,
        BaseView::Sqrt(r) => "\\sqrt{"@ + latex_of(r) + "}"@,
    }
}

fn push_slt(out: &mut Vec<char>, slt: &Slt)
    ensures
        final(out)@ == old(out)@ + latex_of(slt@),
    decreases slt,
{
    let ghost start = out@;
    let mut i: usize = 0;
    assert(out@ =~= start + terms_latex(crate::structure::terms_view(slt.terms@.take(0))));
    while i < slt.terms.len()
        invariant
            i <= slt.terms.len(),
            out@ == start + terms_latex(crate::structure::terms_view(slt.terms@.take(i as int))),
        decreases slt.terms.len() - i,
    {
        assert(decreases_to!(slt => slt.terms@[i as int]));
        term(out, &slt.terms[i]);
        proof {
            let now = slt.terms@.take(i + 1);
            assert(now.drop_last() =~= slt.terms@.take(i as int));
            let views = crate::structure::terms_view(now);
            assert(views.drop_last() =~= crate::structure::terms_view(slt.terms@.take(i as int)));
            assert(out@ =~= start + terms_latex(views));
        }
        i = i + 1;
    }
    assert(slt.terms@.take(i as int) =~= slt.terms@);
}

fn term(out: &mut Vec<char>, t: &Term)
    ensures
        final(out)@ == old(out)@ + term_latex(t@),
    decreases t,
{
    base(out, &t.base);
    if let Some(sub) = &t.sub {
        append(out, "_{");
        push_slt(out, sub);
        append(out, "}");
    }
    if let Some(sup) = &t.sup {
        append(out, "^{");
        push_slt(out, sup);
        append(out, "}");
    }
    assert(out@ =~= old(out)@ + term_latex(t@));
}

fn base(out: &mut Vec<char>, b: &Base)
    ensures
        final(out)@ == old(out)@ + base_latex(b@),
    decreases b,
{
    match b {
        Base::Symbol(l) => {
            let label = chars_of(l.as_str());
            let cmd = command_chars(&label);
            append_chars(out, &cmd);
        },
        Base::Frac { num, den } => {
            append(out, "\\frac{");
            push_slt(out, num);
            append(out, "}{");
            push_slt(out, den);
            append(out, "}");
        },
        Base::Sqrt(r) => {
            append(out, "\\sqrt{");
            push_slt(out, r);
            append(out, "}");
        },
    }
    assert(out@ =~= old(out)@ + base_latex(b@));
}

/// Render a tree as LaTeX.
pub fn to_latex(slt: &Slt) -> (r: String)
    ensures
        r@ == latex_of(slt@),
{
    let mut out: Vec<char> = Vec::new();
    push_slt(&mut out, slt);
    assert(out@ =~= latex_of(slt@));
    text_of(&out)
}

// ---------------------------------------------------------------------------------------------
// How trees are written
// ---------------------------------------------------------------------------------------------
/// A tree is written term by term, in their order.
pub proof fn law_terms_are_written_one_after_the_other(a: Seq<TermView>, b: Seq<TermView>)
    ensures
        latex_of(SltView { terms: a + b }) == latex_of(SltView { terms: a }) + latex_of(
            SltView { terms: b },
        ),
    decreases b.len(),
{
    if b.len() == 0 {
        assert(a + b =~= a);
        assert(terms_latex(a) + terms_latex(b) =~= terms_latex(a));
    } else {
        assert((a + b).drop_last() =~= a + b.drop_last());
        law_terms_are_written_one_after_the_other(a, b.drop_last());
        assert(terms_latex(a + b) =~= terms_latex(a) + terms_latex(b));
    }
}

/// A single term is written as its base, then its subscript behind `_` and its superscript behind `^`, in
/// braces. A fraction names its numerator first, and a radical takes its radicand in braces.
pub proof fn law_a_term_is_written_with_its_parts_in_braces(t: TermView)
    ensures
        latex_of(SltView { terms: seq![t] }) == (match t.base {
            BaseView::Symbol(l) => command_of(l),
            BaseView::Frac { num, den } => "\\frac{"@ + latex_of(num) + "}{"@ + latex_of(den) + "}"@,
            BaseView::Sqrt(r) => "\\sqrt{"@ + latex_of(r) + "}"@,
        }) + (if t.sub is Some {
            "_{"@ + latex_of(t.sub->0) + "}"@
        } else {
            Seq::empty()
        }) + (if t.sup is Some {
            "^{"@ + latex_of(t.sup->0) + "}"@
        } else {
            Seq::empty()
        }),
{
    let terms = seq![t];
    assert(terms.drop_last() =~= Seq::<TermView>::empty());
    reveal_with_fuel(terms_latex, 2);
    assert(terms_latex(terms) =~= term_latex(t));
}

} // verus!
