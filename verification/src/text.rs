//! Text as a sequence of characters.
use vstd::prelude::*;

verus! {

/// `String::push` appends one character.
pub assume_specification[ String::push ](s: &mut String, c: char)
    ensures
        final(s)@ == old(s)@.push(c),
;

/// What is wrong with bytes that are not UTF-8, in words.
pub uninterp spec fn utf8_fault(bytes: Seq<u8>) -> Seq<char>;

/// `core::str::from_utf8` accepts exactly the valid UTF-8 encodings, and gives the text that they
/// encode. Of other bytes it says in its error what is wrong with them.
#[verifier::external_body]
pub(crate) fn utf8_text(bytes: &[u8]) -> (r: Result<&str, String>)
    ensures
        r is Ok <==> vstd::utf8::valid_utf8(bytes@),
        r matches Ok(s) ==> s@ == vstd::utf8::decode_utf8(bytes@),
        r matches Err(e) ==> e@ == utf8_fault(bytes@),
{
    match core::str::from_utf8(bytes) {
        Ok(s) => Ok(s),
        Err(e) => Err(format!("{}", e)),
    }
}

/// The characters of a text.
pub fn chars_of(s: &str) -> (r: Vec<char>)
    ensures
        r@ == s@,
{
    let mut out: Vec<char> = Vec::new();
    for c in it: s.chars()
        invariant
            it.seq() == s@,
            out@ == it.seq().take(it.index()),
    {
        assert(it.seq().take(it.index() + 1) =~= it.seq().take(it.index()).push(c));
        out.push(c);
    }
    assert(s@.take(s@.len() as int) =~= s@);
    out
}

/// The text made of the given characters.
pub fn text_of(chars: &Vec<char>) -> (r: String)
    ensures
        r@ == chars@,
{
    let mut out = String::new();
    let mut i: usize = 0;
    while i < chars.len()
        invariant
            i <= chars.len(),
            out@ == chars@.take(i as int),
        decreases chars.len() - i,
    {
        assert(chars@.take(i + 1) =~= chars@.take(i as int).push(chars[i as int]));
        out.push(chars[i]);
        i = i + 1;
    }
    assert(chars@.take(i as int) =~= chars@);
    out
}

/// Are the two the same text?
pub fn same_text(a: &str, b: &str) -> (r: bool)
    ensures
        r == (a@ == b@),
{
    same_list(&chars_of(a), &chars_of(b))
}

// ---------------------------------------------------------------------------------------------
// Building text
// ---------------------------------------------------------------------------------------------
/// Append a text.
pub fn append(out: &mut Vec<char>, s: &str)
    ensures
        final(out)@ == old(out)@ + s@,
{
    let mut chars = chars_of(s);
    out.append(&mut chars);
}

/// Append characters.
pub fn append_chars(out: &mut Vec<char>, chars: &Vec<char>)
    ensures
        final(out)@ == old(out)@ + chars@,
{
    let mut i: usize = 0;
    assert(out@ =~= old(out)@ + chars@.take(0));
    while i < chars.len()
        invariant
            i <= chars.len(),
            out@ == old(out)@ + chars@.take(i as int),
        decreases chars.len() - i,
    {
        out.push(chars[i]);
        i = i + 1;
        assert(out@ =~= old(out)@ + chars@.take(i as int));
    }
    assert(chars@.take(i as int) =~= chars@);
}

/// The digit `d`, which is below 16.
pub open spec fn digit(d: int) -> char {
    if d < 10 {
        ('0' as int + d) as char
    } else {
        ('a' as int + d - 10) as char
    }
}

/// A number in base `base`, without leading zeros.
pub open spec fn digits(n: nat, base: nat) -> Seq<char>
    decreases n,
{
    if n < base || base < 2 {
        seq![digit(n as int)]
    } else {
        proof {
            vstd::arithmetic::div_mod::lemma_div_decreases(n as int, base as int);
        }
        digits(n / base, base).push(digit((n % base) as int))
    }
}

/// A number in decimal.
pub open spec fn decimal(n: nat) -> Seq<char> {
    digits(n, 10)
}

/// An integer in decimal, with a sign where it is negative.
pub open spec fn signed_decimal(v: int) -> Seq<char> {
    if v < 0 {
        "-"@ + decimal((-v) as nat)
    } else {
        decimal(v as nat)
    }
}

pub(crate) fn digit_char(d: u64) -> (c: char)
    requires
        d < 16,
    ensures
        c == digit(d as int),
{
    if d < 10 {
        (48u8 + d as u8) as char
    } else {
        (97u8 + (d as u8 - 10)) as char
    }
}

/// Append a number in base `base`.
pub fn push_digits(out: &mut Vec<char>, n: u64, base: u64)
    requires
        2 <= base <= 16,
    ensures
        final(out)@ == old(out)@ + digits(n as nat, base as nat),
    decreases n,
{
    if n < base {
        out.push(digit_char(n));
        assert(out@ =~= old(out)@ + digits(n as nat, base as nat));
    } else {
        assert(n as int / base as int <= n as int / 2) by {
            vstd::arithmetic::div_mod::lemma_div_is_ordered_by_denominator(
                n as int,
                2,
                base as int,
            );
        }
        push_digits(out, n / base, base);
        out.push(digit_char(n % base));
        assert(out@ =~= old(out)@ + digits(n as nat, base as nat));
    }
}

/// Append a number in decimal.
pub fn push_decimal(out: &mut Vec<char>, n: u64)
    ensures
        final(out)@ == old(out)@ + decimal(n as nat),
{
    push_digits(out, n, 10);
}

/// Append an integer in decimal.
pub fn push_signed(out: &mut Vec<char>, v: i64)
    requires
        v > i64::MIN,
    ensures
        final(out)@ == old(out)@ + signed_decimal(v as int),
{
    if v < 0 {
        append(out, "-");
        push_decimal(out, (-v) as u64);
        assert(out@ =~= old(out)@ + signed_decimal(v as int));
    } else {
        push_decimal(out, v as u64);
    }
}

/// Bytes in hexadecimal, separated by commas.
pub open spec fn hex_items(bytes: Seq<u8>) -> Seq<char>
    decreases bytes.len(),
{
    if bytes.len() == 0 {
        Seq::empty()
    } else if bytes.len() == 1 {
        digits(bytes[0] as nat, 16)
    } else {
        hex_items(bytes.drop_last()) + ", "@ + digits(bytes.last() as nat, 16)
    }
}

/// Bytes in hexadecimal, in brackets.
pub open spec fn hex_list(bytes: Seq<u8>) -> Seq<char> {
    "["@ + hex_items(bytes) + "]"@
}

/// Append four bytes in hexadecimal, in brackets.
pub fn push_hex_list(out: &mut Vec<char>, bytes: &[u8; 4])
    ensures
        final(out)@ == old(out)@ + hex_list(bytes@),
{
    append(out, "[");
    let ghost start = out@;
    let mut i: usize = 0;
    while i < 4
        invariant
            i <= 4,
            out@ == start + hex_items(bytes@.take(i as int)),
        decreases 4 - i,
    {
        if i > 0 {
            append(out, ", ");
        }
        push_digits(out, bytes[i] as u64, 16);
        proof {
            let now = bytes@.take(i + 1);
            assert(now.drop_last() =~= bytes@.take(i as int));
            if i == 0 {
                assert(bytes@.take(0) =~= Seq::<u8>::empty());
            }
            assert(out@ =~= start + hex_items(now));
        }
        i = i + 1;
    }
    assert(bytes@.take(4) =~= bytes@);
    append(out, "]");
    assert(out@ =~= old(out)@ + hex_list(bytes@));
}

// ---------------------------------------------------------------------------------------------
// Lines and white space
// ---------------------------------------------------------------------------------------------
/// Is this a character with the Unicode property `White_Space`?
pub open spec fn white(c: char) -> bool {
    let v = c as u32;
    ||| 0x09 <= v <= 0x0d
    ||| v == 0x20
    ||| v == 0x85
    ||| v == 0xa0
    ||| v == 0x1680
    ||| 0x2000 <= v <= 0x200a
    ||| v == 0x2028
    ||| v == 0x2029
    ||| v == 0x202f
    ||| v == 0x205f
    ||| v == 0x3000
}

pub fn is_white(c: char) -> (r: bool)
    ensures
        r == white(c),
{
    let v: u32 = c as u32;
    (0x09 <= v && v <= 0x0d) || v == 0x20 || v == 0x85 || v == 0xa0 || v == 0x1680 || (0x2000 <= v
        && v <= 0x200a) || v == 0x2028 || v == 0x2029 || v == 0x202f || v == 0x205f || v == 0x3000
}

/// A text without white space at its end.
pub open spec fn trim_end(s: Seq<char>) -> Seq<char>
    decreases s.len(),
{
    if s.len() > 0 && white(s.last()) {
        trim_end(s.drop_last())
    } else {
        s
    }
}

/// A text without white space at its start.
pub open spec fn trim_start(s: Seq<char>) -> Seq<char>
    decreases s.len(),
{
    if s.len() > 0 && white(s[0]) {
        trim_start(s.skip(1))
    } else {
        s
    }
}

/// A text without white space at its ends.
pub open spec fn trimmed(s: Seq<char>) -> Seq<char> {
    trim_start(trim_end(s))
}

/// A text without white space at its ends.
pub fn trim(s: &Vec<char>) -> (r: Vec<char>)
    ensures
        r@ == trimmed(s@),
{
    let mut end: usize = s.len();
    assert(s@.take(end as int) =~= s@);
    while end > 0 && is_white(s[end - 1])
        invariant
            end <= s.len(),
            trim_end(s@) == trim_end(s@.take(end as int)),
        decreases end,
    {
        assert(s@.take(end as int).drop_last() =~= s@.take(end - 1));
        end = end - 1;
    }
    let ghost kept = s@.take(end as int);
    assert(trim_end(s@) == kept);
    let mut start: usize = 0;
    assert(kept.skip(0) =~= kept);
    while start < end && is_white(s[start])
        invariant
            start <= end <= s.len(),
            kept == s@.take(end as int),
            trim_start(kept) == trim_start(kept.skip(start as int)),
        decreases end - start,
    {
        assert(kept.skip(start as int).skip(1) =~= kept.skip(start + 1));
        start = start + 1;
    }
    assert(trim_start(kept) == kept.skip(start as int));
    let mut out: Vec<char> = Vec::new();
    let mut i: usize = start;
    while i < end
        invariant
            start <= i <= end <= s.len(),
            kept == s@.take(end as int),
            out@ == kept.subrange(start as int, i as int),
        decreases end - i,
    {
        assert(kept.subrange(start as int, i + 1) =~= kept.subrange(start as int, i as int).push(
            s[i as int],
        ));
        out.push(s[i]);
        i = i + 1;
    }
    assert(kept.subrange(start as int, end as int) =~= kept.skip(start as int));
    out
}

/// The parts of a text between the separators.
pub open spec fn split(s: Seq<char>, sep: char) -> Seq<Seq<char>>
    decreases s.len(),
{
    if s.len() == 0 {
        seq![Seq::empty()]
    } else {
        let before = split(s.drop_last(), sep);
        if s.last() == sep {
            before.push(Seq::empty())
        } else {
            before.update(before.len() - 1, before.last().push(s.last()))
        }
    }
}

/// What a list of lines holds.
pub open spec fn line_views(lines: Seq<Vec<char>>) -> Seq<Seq<char>> {
    Seq::new(lines.len(), |i: int| lines[i]@)
}

/// What a list of texts holds.
pub open spec fn text_views(texts: Seq<String>) -> Seq<Seq<char>> {
    Seq::new(texts.len(), |i: int| texts[i]@)
}

/// A list of texts from their characters.
pub fn texts(lines: &Vec<Vec<char>>) -> (r: Vec<String>)
    ensures
        text_views(r@) == line_views(lines@),
{
    let ghost want = line_views(lines@);
    let mut out: Vec<String> = Vec::new();
    let mut k: usize = 0;
    assert(text_views(out@) =~= want.take(0));
    while k < lines.len()
        invariant
            k <= lines.len(),
            want == line_views(lines@),
            text_views(out@) == want.take(k as int),
        decreases lines.len() - k,
    {
        let s = text_of(&lines[k]);
        proof {
            assert(text_views(out@.push(s)) =~= text_views(out@).push(s@));
            assert(want.take(k + 1) =~= want.take(k as int).push(s@));
        }
        out.push(s);
        k = k + 1;
    }
    assert(want.take(k as int) =~= want);
    out
}

/// The parts of a text between the separators.
pub fn split_at_char(s: &Vec<char>, sep: char) -> (r: Vec<Vec<char>>)
    ensures
        line_views(r@) == split(s@, sep),
        r.len() > 0,
{
    let mut done: Vec<Vec<char>> = Vec::new();
    let mut cur: Vec<char> = Vec::new();
    let mut i: usize = 0;
    assert(line_views(done@).push(cur@) =~= split(s@.take(0), sep));
    while i < s.len()
        invariant
            i <= s.len(),
            line_views(done@).push(cur@) == split(s@.take(i as int), sep),
        decreases s.len() - i,
    {
        let c = s[i];
        let ghost before = line_views(done@).push(cur@);
        assert(s@.take(i + 1).drop_last() =~= s@.take(i as int));
        if c == sep {
            let ghost old_done = done@;
            let ghost old_cur = cur;
            done.push(cur);
            cur = Vec::new();
            proof {
                assert(line_views(done@) =~= line_views(old_done).push(old_cur@));
                assert(line_views(done@).push(cur@) =~= before.push(Seq::empty()));
            }
        } else {
            cur.push(c);
            proof {
                assert(line_views(done@).push(cur@) =~= before.update(
                    before.len() - 1,
                    before.last().push(c),
                ));
            }
        }
        i = i + 1;
    }
    assert(s@.take(i as int) =~= s@);
    let ghost old_done = done@;
    let ghost old_cur = cur;
    done.push(cur);
    assert(line_views(done@) =~= line_views(old_done).push(old_cur@));
    done
}

// ---------------------------------------------------------------------------------------------
// Searching
// ---------------------------------------------------------------------------------------------
/// Does `part` stand in `s` at position `i`?
pub open spec fn stands_at(s: Seq<char>, part: Seq<char>, i: int) -> bool {
    i + part.len() <= s.len() && s.subrange(i, i + part.len()) == part
}

/// The first position from `from` on at which `part` stands in `s`; past the end if there is none.
pub open spec fn first_at(s: Seq<char>, part: Seq<char>, from: nat) -> nat
    decreases s.len() + 1 - from,
{
    if from > s.len() || stands_at(s, part, from as int) {
        from
    } else {
        first_at(s, part, from + 1)
    }
}

/// Does `part` stand in `s` at position `i`?
pub fn is_at(s: &Vec<char>, part: &Vec<char>, i: usize) -> (r: bool)
    ensures
        r == stands_at(s@, part@, i as int),
{
    if i > s.len() || part.len() > s.len() - i {
        return false;
    }
    let mut k: usize = 0;
    while k < part.len()
        invariant
            k <= part.len(),
            i + part.len() <= s.len(),
            forall|j: int| 0 <= j < k ==> s[i + j] == #[trigger] part[j],
        decreases part.len() - k,
    {
        if s[i + k] != part[k] {
            assert(s@.subrange(i as int, i + part.len())[k as int] != part[k as int]);
            return false;
        }
        k = k + 1;
    }
    assert(s@.subrange(i as int, i + part.len()) =~= part@);
    true
}

/// Are the two the same?
pub fn same_list(a: &Vec<char>, b: &Vec<char>) -> (r: bool)
    ensures
        r == (a@ == b@),
{
    proof {
        if a@.len() == b@.len() {
            assert(a@.subrange(0, b@.len() as int) =~= a@);
        }
    }
    a.len() == b.len() && is_at(a, b, 0)
}

/// Are the characters those of the text?
pub fn same_chars(a: &Vec<char>, b: &str) -> (r: bool)
    ensures
        r == (a@ == b@),
{
    same_list(a, &chars_of(b))
}

/// The first position at which `part` stands in `s`, if any.
pub fn find(s: &Vec<char>, part: &Vec<char>) -> (r: Option<usize>)
    ensures
        match r {
            Some(i) => i == first_at(s@, part@, 0) && i + part.len() <= s.len() && stands_at(
                s@,
                part@,
                i as int,
            ),
            None => first_at(s@, part@, 0) > s.len(),
        },
{
    let mut i: usize = 0;
    while i < s.len()
        invariant
            i <= s.len(),
            first_at(s@, part@, 0) == first_at(s@, part@, i as nat),
        decreases s.len() - i,
    {
        if is_at(s, part, i) {
            return Some(i);
        }
        i = i + 1;
    }
    if is_at(s, part, i) {
        Some(i)
    } else {
        assert(first_at(s@, part@, (s@.len() + 1) as nat) > s.len());
        None
    }
}

/// The characters from `from` to `to`.
pub fn slice(s: &Vec<char>, from: usize, to: usize) -> (r: Vec<char>)
    requires
        from <= to <= s.len(),
    ensures
        r@ == s@.subrange(from as int, to as int),
{
    let mut out: Vec<char> = Vec::new();
    let mut i: usize = from;
    while i < to
        invariant
            from <= i <= to <= s.len(),
            out@ == s@.subrange(from as int, i as int),
        decreases to - i,
    {
        assert(s@.subrange(from as int, i + 1) =~= s@.subrange(from as int, i as int).push(
            s[i as int],
        ));
        out.push(s[i]);
        i = i + 1;
    }
    out
}

// ---------------------------------------------------------------------------------------------
// Reading numbers
// ---------------------------------------------------------------------------------------------
pub open spec fn is_digit(c: char) -> bool {
    '0' <= c <= '9'
}

pub open spec fn all_digits(s: Seq<char>) -> bool {
    forall|i: int| 0 <= i < s.len() ==> is_digit(#[trigger] s[i])
}

/// The number that decimal digits stand for.
pub open spec fn digits_value(s: Seq<char>) -> nat
    decreases s.len(),
{
    if s.len() == 0 {
        0
    } else {
        digits_value(s.drop_last()) * 10 + (s.last() as nat - '0' as nat) as nat
    }
}

/// The natural number that a text is the numeral of: decimal digits, with or without a plus sign
/// before them.
pub open spec fn number(s: Seq<char>) -> Option<nat> {
    let body = if s.len() > 0 && s[0] == '+' {
        s.skip(1)
    } else {
        s
    };
    if body.len() > 0 && all_digits(body) {
        Some(digits_value(body))
    } else {
        None
    }
}

proof fn lemma_digits_value_grows(s: Seq<char>, n: int)
    requires
        0 <= n <= s.len(),
        all_digits(s),
    ensures
        digits_value(s.take(n)) <= digits_value(s),
    decreases s.len() - n,
{
    if n < s.len() {
        assert(s.take(n + 1).drop_last() =~= s.take(n));
        lemma_digits_value_grows(s, n + 1);
    } else {
        assert(s.take(n) =~= s);
    }
}

/// The natural number that a text is the numeral of, if it fits.
pub fn parse_number(s: &Vec<char>) -> (r: Option<u64>)
    ensures
        match r {
            Some(v) => number(s@) == Some(v as nat),
            None => match number(s@) {
                Some(v) => v > u64::MAX,
                None => true,
            },
        },
{
    let start: usize = if s.len() > 0 && s[0] == '+' {
        1
    } else {
        0
    };
    let ghost body = s@.skip(start as int);
    assert(s@.skip(0) =~= s@);
    if s.len() == start {
        return None;
    }
    let mut valid = true;
    let mut k: usize = start;
    while k < s.len()
        invariant
            start <= k <= s.len(),
            body == s@.skip(start as int),
            valid ==> forall|i: int| 0 <= i < k - start ==> is_digit(#[trigger] body[i]),
            !valid ==> !all_digits(body),
        decreases s.len() - k,
    {
        assert(body[k - start] == s[k as int]);
        if !('0' <= s[k] && s[k] <= '9') {
            assert(!is_digit(body[k - start]));
            valid = false;
        }
        k = k + 1;
    }
    if !valid {
        return None;
    }
    let mut value: u64 = 0;
    let mut i: usize = start;
    while i < s.len()
        invariant
            start <= i <= s.len(),
            body == s@.skip(start as int),
            body.len() > 0,
            number(s@) == Some(digits_value(body)),
            all_digits(body),
            value == digits_value(body.take(i - start)),
        decreases s.len() - i,
    {
        proof {
            assert(body[i - start] == s[i as int]);
            assert(body.take(i + 1 - start).drop_last() =~= body.take(i - start));
            lemma_digits_value_grows(body, i + 1 - start);
        }
        let d: u64 = (s[i] as u32 - 48) as u64;
        if value > (u64::MAX - d) / 10 {
            return None;
        }
        value = value * 10 + d;
        i = i + 1;
    }
    assert(body.take(i - start) =~= body);
    Some(value)
}

// ---------------------------------------------------------------------------------------------
// Lines and words
// ---------------------------------------------------------------------------------------------
/// A line without the carriage return before its line feed.
pub open spec fn unreturned(line: Seq<char>) -> Seq<char> {
    if line.len() > 0 && line.last() == '\r' {
        line.drop_last()
    } else {
        line
    }
}

/// The lines of a text. What follows the last line feed is a line of its own, unless it is empty.
pub open spec fn lines_of(s: Seq<char>) -> Seq<Seq<char>> {
    let parts = split(s, '\n');
    Seq::new(
        if parts.last().len() == 0 {
            (parts.len() - 1) as nat
        } else {
            parts.len()
        },
        |i: int|
            if i < parts.len() - 1 {
                unreturned(parts[i])
            } else {
                parts[i]
            },
    )
}

/// The lines of a text.
pub fn lines(s: &Vec<char>) -> (r: Vec<Vec<char>>)
    ensures
        line_views(r@) == lines_of(s@),
{
    let parts = split_at_char(s, '\n');
    let ghost views = line_views(parts@);
    let ghost want = lines_of(s@);
    assert(views.last() == parts[parts.len() - 1]@);
    let count: usize = if parts[parts.len() - 1].len() == 0 {
        parts.len() - 1
    } else {
        parts.len()
    };
    let mut out: Vec<Vec<char>> = Vec::new();
    let mut i: usize = 0;
    assert(line_views(out@) =~= want.take(0));
    while i < count
        invariant
            i <= count <= parts.len(),
            parts.len() > 0,
            views == line_views(parts@),
            views == split(s@, '\n'),
            want == lines_of(s@),
            count == want.len(),
            line_views(out@) == want.take(i as int),
        decreases count - i,
    {
        let part = &parts[i];
        assert(views[i as int] == part@);
        let end: usize = if i < parts.len() - 1 && part.len() > 0 && part[part.len() - 1] == '\r' {
            part.len() - 1
        } else {
            part.len()
        };
        let line = slice(part, 0, end);
        proof {
            assert(line@ =~= want[i as int]);
            assert(line_views(out@.push(line)) =~= line_views(out@).push(line@));
            assert(want.take(i + 1) =~= want.take(i as int).push(line@));
        }
        out.push(line);
        i = i + 1;
    }
    assert(want.take(i as int) =~= want);
    out
}

/// The words that are finished in a text, and the one that it ends in.
pub open spec fn words_open(s: Seq<char>) -> (Seq<Seq<char>>, Seq<char>)
    decreases s.len(),
{
    if s.len() == 0 {
        (Seq::empty(), Seq::empty())
    } else {
        let (done, cur) = words_open(s.drop_last());
        if white(s.last()) {
            (with_word(done, cur), Seq::empty())
        } else {
            (done, cur.push(s.last()))
        }
    }
}

/// The words with one more, unless it is empty.
pub open spec fn with_word(done: Seq<Seq<char>>, cur: Seq<char>) -> Seq<Seq<char>> {
    if cur.len() > 0 {
        done.push(cur)
    } else {
        done
    }
}

/// The parts of a text between white space.
pub open spec fn words_of(s: Seq<char>) -> Seq<Seq<char>> {
    with_word(words_open(s).0, words_open(s).1)
}

/// The parts of a text between white space.
pub fn words(s: &Vec<char>) -> (r: Vec<Vec<char>>)
    ensures
        line_views(r@) == words_of(s@),
{
    let mut done: Vec<Vec<char>> = Vec::new();
    let mut cur: Vec<char> = Vec::new();
    let mut i: usize = 0;
    assert(line_views(done@) =~= Seq::<Seq<char>>::empty());
    while i < s.len()
        invariant
            i <= s.len(),
            words_open(s@.take(i as int)) == (line_views(done@), cur@),
        decreases s.len() - i,
    {
        let c = s[i];
        assert(s@.take(i + 1).drop_last() =~= s@.take(i as int));
        if is_white(c) {
            if cur.len() > 0 {
                assert(line_views(done@.push(cur)) =~= line_views(done@).push(cur@));
                done.push(cur);
            }
            cur = Vec::new();
        } else {
            cur.push(c);
        }
        i = i + 1;
    }
    assert(s@.take(i as int) =~= s@);
    if cur.len() > 0 {
        assert(line_views(done@.push(cur)) =~= line_views(done@).push(cur@));
        done.push(cur);
    }
    done
}

} // verus!
