//! JSON text.
use crate::text::{append, append_chars, chars_of, digit_char, text_of};
use vstd::prelude::*;

pub mod value;

verus! {

/// A character as it stands in a JSON string.
pub open spec fn escaped_char(c: char) -> Seq<char> {
    if c == '"' {
        "\\\""@
    } else if c == '\\' {
        "\\\\"@
    } else if c == '\n' {
        "\\n"@
    } else if (c as int) < 0x20 {
        "\\u00"@ + seq![
            crate::text::digit(c as int / 16),
            crate::text::digit(c as int % 16),
        ]
    } else {
        seq![c]
    }
}

/// Text as it stands in a JSON string.
pub open spec fn escaped(s: Seq<char>) -> Seq<char>
    decreases s.len(),
{
    if s.len() == 0 {
        Seq::empty()
    } else {
        escaped(s.drop_last()) + escaped_char(s.last())
    }
}

/// A JSON string.
pub open spec fn quoted(s: Seq<char>) -> Seq<char> {
    "\""@ + escaped(s) + "\""@
}

fn push_escaped(out: &mut Vec<char>, c: char)
    ensures
        final(out)@ == old(out)@ + escaped_char(c),
{
    if c == '"' {
        append(out, "\\\"");
    } else if c == '\\' {
        append(out, "\\\\");
    } else if c == '\n' {
        append(out, "\\n");
    } else if ' ' > c {
        let v: u64 = c as u32 as u64;
        append(out, "\\u00");
        out.push(digit_char(v / 16));
        out.push(digit_char(v % 16));
        assert(out@ =~= old(out)@ + escaped_char(c));
    } else {
        out.push(c);
        assert(out@ =~= old(out)@ + escaped_char(c));
    }
}

/// Append a JSON string.
pub fn push_quoted(out: &mut Vec<char>, s: &Vec<char>)
    ensures
        final(out)@ == old(out)@ + quoted(s@),
{
    append(out, "\"");
    let ghost start = out@;
    let mut i: usize = 0;
    assert(out@ =~= start + escaped(s@.take(0)));
    while i < s.len()
        invariant
            i <= s.len(),
            out@ == start + escaped(s@.take(i as int)),
        decreases s.len() - i,
    {
        assert(s@.take(i + 1).drop_last() =~= s@.take(i as int));
        push_escaped(out, s[i]);
        assert(out@ =~= start + escaped(s@.take(i + 1)));
        i = i + 1;
    }
    assert(s@.take(i as int) =~= s@);
    append(out, "\"");
    assert(out@ =~= old(out)@ + quoted(s@));
}

/// Text as a JSON string.
pub fn js_str(s: &str) -> (r: String)
    ensures
        r@ == quoted(s@),
{
    let chars = chars_of(s);
    let mut out: Vec<char> = Vec::new();
    push_quoted(&mut out, &chars);
    assert(out@ =~= quoted(s@));
    text_of(&out)
}

/// The parts with a comma between each two.
pub open spec fn listed(parts: Seq<Seq<char>>) -> Seq<char>
    decreases parts.len(),
{
    if parts.len() == 0 {
        Seq::empty()
    } else if parts.len() == 1 {
        parts[0]
    } else {
        listed(parts.drop_last()) + ","@ + parts.last()
    }
}

/// Append one more part to a list of `count` parts.
pub(crate) fn push_part(
    out: &mut Vec<char>,
    part: &Vec<char>,
    count: usize,
    Ghost(start): Ghost<Seq<char>>,
    Ghost(parts): Ghost<Seq<Seq<char>>>,
)
    requires
        parts.len() == count,
        old(out)@ == start + listed(parts),
    ensures
        final(out)@ == start + listed(parts.push(part@)),
{
    if count > 0 {
        append(out, ",");
    }
    append_chars(out, part);
    assert(parts.push(part@).drop_last() =~= parts);
    assert(out@ =~= start + listed(parts.push(part@)));
}

/// A JSON string stands on one line: it holds no control character.
pub proof fn law_a_string_stands_on_one_line(s: Seq<char>)
    ensures
        forall|i: int| 0 <= i < quoted(s).len() ==> (#[trigger] quoted(s)[i] as int) >= 0x20,
{
    reveal_strlit("\"");
    lemma_escaped_printable(s);
    let head = "\""@ + escaped(s);
    assert forall|i: int| 0 <= i < quoted(s).len() implies (#[trigger] quoted(s)[i] as int)
        >= 0x20 by {
        if i == 0 {
            assert(quoted(s)[i] == "\""@[0]);
        } else if i < head.len() {
            assert(quoted(s)[i] == escaped(s)[i - 1]);
        } else {
            assert(quoted(s)[i] == "\""@[0]);
        }
    }
}

proof fn lemma_escape_printable(c: char)
    ensures
        forall|i: int|
            0 <= i < escaped_char(c).len() ==> (#[trigger] escaped_char(c)[i] as int) >= 0x20,
{
    reveal_strlit("\\\"");
    reveal_strlit("\\\\");
    reveal_strlit("\\n");
    reveal_strlit("\\u00");
    let e = escaped_char(c);
    assert forall|i: int| 0 <= i < e.len() implies (#[trigger] e[i] as int) >= 0x20 by {
        if c == '"' {
            assert(e[i] == "\\\""@[i]);
        } else if c == '\\' {
            assert(e[i] == "\\\\"@[i]);
        } else if c == '\n' {
            assert(e[i] == "\\n"@[i]);
        } else if (c as int) < 0x20 {
            let d = if i == 4 {
                c as int / 16
            } else {
                c as int % 16
            };
            if i < 4 {
                assert(e[i] == "\\u00"@[i]);
            } else {
                assert(e[i] == crate::text::digit(d));
                assert(0 <= d < 16);
            }
        }
    }
}

proof fn lemma_escaped_printable(s: Seq<char>)
    ensures
        forall|i: int| 0 <= i < escaped(s).len() ==> (#[trigger] escaped(s)[i] as int) >= 0x20,
    decreases s.len(),
{
    if s.len() > 0 {
        lemma_escaped_printable(s.drop_last());
        let head = escaped(s.drop_last());
        let tail = escaped_char(s.last());
        lemma_escape_printable(s.last());
        assert forall|i: int| 0 <= i < escaped(s).len() implies (#[trigger] escaped(s)[i] as int)
            >= 0x20 by {
            if i < head.len() {
                assert(escaped(s)[i] == head[i]);
            } else {
                assert(escaped(s)[i] == tail[i - head.len()]);
            }
        }
    }
}

} // verus!
