//! The browser's side of recognition: strokes come in as a flat list of numbers, the result goes
//! out as JSON behind its length.
use crate::classify::weights::Weights;
use crate::classify::Labels;
use crate::elementary::{Fn1, Fn2};
use crate::error::Error;
use crate::expression::analyze;
use crate::float::{num, F32};
use crate::format::put_count;
use crate::glyphs::{Font, RawGlyphView};
use crate::present::result_json;
use crate::prior::{Prior, PriorView};
use crate::stroke::{Ink, InkView, Point, Stroke, ONE, ZERO};
use crate::text::{append, chars_of, lines, parse_number, text_of, trim, utf8_text};
use vstd::bytes::*;
use vstd::prelude::*;

verus! {

/// The time between two points, in microseconds. The browser sends none.
pub const POINT_US: u64 = 8000;

/// How many candidates each symbol has.
pub const CANDIDATES: usize = 5;

/// Why there is no result.
#[derive(Debug)]
pub enum Failure {
    /// The list of numbers ends in the middle of a stroke.
    Truncated,
    /// The model is malformed, or does not fit what is asked of it.
    Model(Error),
    /// The labels or the counts are not UTF-8.
    Text(String),
}

/// What a [`Failure`] holds.
pub enum FailureView {
    Truncated,
    Model(Error),
    Text(Seq<char>),
}

impl View for Failure {
    type V = FailureView;

    open spec fn view(&self) -> FailureView {
        match self {
            Failure::Truncated => FailureView::Truncated,
            Failure::Model(e) => FailureView::Model(*e),
            Failure::Text(s) => FailureView::Text(s@),
        }
    }
}

/// What a [`Failure`] says.
pub open spec fn failure_text(f: FailureView) -> Seq<char> {
    match f {
        FailureView::Truncated => "truncated stroke data"@,
        FailureView::Model(e) => crate::error::message_of(e),
        FailureView::Text(s) => s,
    }
}

impl Failure {
    /// What the failure says.
    pub fn message(&self) -> (r: String)
        ensures
            r@ == failure_text(self@),
    {
        match self {
            Failure::Truncated => text_of(&chars_of("truncated stroke data")),
            Failure::Model(e) => e.message(),
            Failure::Text(s) => text_of(&chars_of(s.as_str())),
        }
    }
}

// ---------------------------------------------------------------------------------------------
// Strokes
// ---------------------------------------------------------------------------------------------
/// The point number `j` of the stroke whose coordinates begin at `at`.
pub open spec fn point_at(floats: Seq<F32>, at: int, j: int) -> Point {
    Point {
        x: floats[at + 2 * j],
        y: floats[at + 2 * j + 1],
        pressure: num(ONE),
        tilt_x: num(ZERO),
        tilt_y: num(ZERO),
        t_us: ((j * POINT_US) % 0x1_0000_0000_0000_0000) as u64,
    }
}

/// The first `n` strokes, and where they end; nothing if the numbers do not suffice. Each stroke is
/// its length, then its coordinates in pairs.
pub open spec fn strokes_in(floats: Seq<F32>, n: nat) -> Option<(Seq<Seq<Point>>, nat)>
    decreases n,
{
    if n == 0 {
        Some((Seq::empty(), 1))
    } else {
        match strokes_in(floats, (n - 1) as nat) {
            None => None,
            Some((before, at)) => if at >= floats.len() {
                None
            } else {
                let len = floats[at as int].to_usize() as nat;
                if at + 1 + 2 * len > floats.len() {
                    None
                } else {
                    Some(
                        (
                            before.push(
                                Seq::new(len, |j: int| point_at(floats, at as int + 1, j)),
                            ),
                            at + 1 + 2 * len,
                        ),
                    )
                }
            },
        }
    }
}

/// The strokes of a list of numbers, the first of which is how many there are.
pub open spec fn decoded(floats: Seq<F32>) -> Option<Seq<Seq<Point>>> {
    if floats.len() == 0 {
        None
    } else {
        match strokes_in(floats, floats[0].to_usize() as nat) {
            Some((strokes, _)) => Some(strokes),
            None => None,
        }
    }
}

proof fn lemma_short_stays_short(floats: Seq<F32>, n: nat, m: nat)
    requires
        n <= m,
        strokes_in(floats, n) is None,
    ensures
        strokes_in(floats, m) is None,
    decreases m,
{
    if n < m {
        lemma_short_stays_short(floats, n, (m - 1) as nat);
    }
}

fn read_stroke(floats: &Vec<F32>, at: usize, len: usize) -> (r: Stroke)
    requires
        at + 2 * len <= floats.len(),
    ensures
        r@ == Seq::new(len as nat, |j: int| point_at(floats@, at as int, j)),
{
    let ghost want = Seq::new(len as nat, |j: int| point_at(floats@, at as int, j));
    let mut points: Vec<Point> = Vec::new();
    let mut j: usize = 0;
    while j < len
        invariant
            j <= len,
            at + 2 * len <= floats.len(),
            want == Seq::new(len as nat, |j: int| point_at(floats@, at as int, j)),
            points@ == want.take(j as int),
        decreases len - j,
    {
        let x = floats[at + 2 * j];
        let y = floats[at + 2 * j + 1];
        let t_us: u64 = (j as u64).wrapping_mul(POINT_US);
        let p = Point::new(x, y, num(ONE), num(ZERO), num(ZERO), t_us);
        points.push(p);
        proof {
            assert(p == want[j as int]);
            assert(want.take(j + 1) =~= want.take(j as int).push(p));
        }
        j = j + 1;
    }
    assert(want.take(j as int) =~= want);
    Stroke { points }
}

/// Read the strokes.
pub fn decode_strokes(floats: &Vec<F32>) -> (r: Result<Vec<Stroke>, Failure>)
    ensures
        match r {
            Ok(strokes) => decoded(floats@) == Some(crate::stroke::trajectories(strokes@)),
            Err(f) => f == Failure::Truncated && decoded(floats@) is None,
        },
{
    if floats.len() == 0 {
        return Err(Failure::Truncated);
    }
    let count: usize = floats[0].to_usize();
    let mut out: Vec<Stroke> = Vec::new();
    let mut at: usize = 1;
    let mut n: usize = 0;
    assert(crate::stroke::trajectories(out@) =~= Seq::<Seq<Point>>::empty());
    while n < count
        invariant
            n <= count,
            1 <= at <= floats.len(),
            count == floats[0].to_usize(),
            strokes_in(floats@, n as nat) == Some(
                (crate::stroke::trajectories(out@), at as nat),
            ),
        decreases count - n,
    {
        if at == floats.len() {
            proof {
                assert(strokes_in(floats@, (n + 1) as nat) is None);
                lemma_short_stays_short(floats@, (n + 1) as nat, count as nat);
            }
            return Err(Failure::Truncated);
        }
        let len: usize = floats[at].to_usize();
        if len > (floats.len() - at - 1) / 2 {
            proof {
                assert(strokes_in(floats@, (n + 1) as nat) is None);
                lemma_short_stays_short(floats@, (n + 1) as nat, count as nat);
            }
            return Err(Failure::Truncated);
        }
        let stroke = read_stroke(floats, at + 1, len);
        assert(crate::stroke::trajectories(out@.push(stroke)) =~= crate::stroke::trajectories(
            out@,
        ).push(stroke@));
        out.push(stroke);
        at = at + 1 + 2 * len;
        n = n + 1;
    }
    Ok(out)
}

// ---------------------------------------------------------------------------------------------
// Counts
// ---------------------------------------------------------------------------------------------
/// The numbers in the first `n` lines. A line that is not the numeral of one is skipped.
pub open spec fn counts_in(lines: Seq<Seq<char>>, n: nat) -> Seq<nat>
    decreases n,
{
    if n == 0 {
        Seq::empty()
    } else {
        let before = counts_in(lines, (n - 1) as nat);
        match crate::text::number(crate::text::trimmed(lines[n - 1])) {
            Some(v) if v <= u32::MAX => before.push(v),
            _ => before,
        }
    }
}

/// How many training samples each class had, one number per line.
pub fn parse_counts(text: &str) -> (r: Vec<u32>)
    ensures
        Seq::new(r@.len(), |i: int| r@[i] as nat) == counts_in(
            crate::text::lines_of(text@),
            crate::text::lines_of(text@).len(),
        ),
{
    let all = lines(&chars_of(text));
    let ghost views = crate::text::line_views(all@);
    let mut out: Vec<u32> = Vec::new();
    let mut i: usize = 0;
    assert(Seq::new(out@.len(), |i: int| out@[i] as nat) =~= Seq::<nat>::empty());
    while i < all.len()
        invariant
            i <= all.len(),
            views == crate::text::line_views(all@),
            Seq::new(out@.len(), |i: int| out@[i] as nat) == counts_in(views, i as nat),
        decreases all.len() - i,
    {
        assert(views[i as int] == all[i as int]@);
        let ghost before = out@;
        if let Some(v) = parse_number(&trim(&all[i])) {
            if v <= u32::MAX as u64 {
                out.push(v as u32);
                assert(Seq::new(out@.len(), |i: int| out@[i] as nat) =~= Seq::new(
                    before.len(),
                    |i: int| before[i] as nat,
                ).push(v as nat));
            }
        }
        i = i + 1;
    }
    out
}

// ---------------------------------------------------------------------------------------------
// Results
// ---------------------------------------------------------------------------------------------
/// A drawing on a square of side one.
pub open spec fn drawing(strokes: Seq<Seq<Point>>) -> InkView {
    InkView { source_width: num(ONE), source_height: num(ONE), strokes }
}

/// The labels in the bytes of a text: its lines that are not blank.
pub open spec fn labels_of(bytes: Seq<u8>) -> Seq<Seq<char>> {
    let rows = crate::text::split(vstd::utf8::decode_utf8(bytes), '\n');
    crate::classify::labels_in(rows, rows.len())
}

/// The numbers of samples in the bytes of a text.
pub open spec fn counts_of(bytes: Seq<u8>) -> Seq<nat> {
    let rows = crate::text::lines_of(vstd::utf8::decode_utf8(bytes));
    counts_in(rows, rows.len())
}

/// What the ranking is corrected by: nothing, if the vocabulary is empty.
pub open spec fn prior_of(counts: Seq<u8>, vocabulary: Seq<u8>) -> Option<PriorView> {
    let tokens = labels_of(vocabulary);
    if tokens.len() == 0 {
        None
    } else {
        Some(PriorView {
            tokens,
            counts: Some(counts_of(counts).map_values(|n: nat| n as u32)),
        })
    }
}

/// Why the input cannot be read, if it cannot: the first fault, in the order of the arguments.
pub open spec fn unreadable(
    floats: Seq<F32>,
    weights: Seq<u8>,
    labels: Seq<u8>,
    counts: Seq<u8>,
    vocabulary: Seq<u8>,
) -> Option<FailureView> {
    if decoded(floats) is None {
        Some(FailureView::Truncated)
    } else if crate::classify::weights::read_blob(weights) is Err {
        Some(FailureView::Model(crate::classify::weights::read_blob(weights)->Err_0))
    } else if !vstd::utf8::valid_utf8(labels) {
        Some(FailureView::Text(crate::text::utf8_fault(labels)))
    } else if !vstd::utf8::valid_utf8(counts) {
        Some(FailureView::Text(crate::text::utf8_fault(counts)))
    } else if !vstd::utf8::valid_utf8(vocabulary) {
        Some(FailureView::Text(crate::text::utf8_fault(vocabulary)))
    } else {
        None
    }
}

/// The result, or why there is none.
pub open spec fn outcome(
    floats: Seq<F32>,
    weights: Seq<u8>,
    labels: Seq<u8>,
    counts: Seq<u8>,
    vocabulary: Seq<u8>,
    font: Seq<RawGlyphView>,
    angle: Fn2,
    exp: Fn1,
) -> Result<Seq<char>, FailureView> {
    match unreadable(floats, weights, labels, counts, vocabulary) {
        Some(failure) => Err(failure),
        None => match crate::expression::expression_of(
            crate::classify::weights::read_blob(weights)->Ok_0,
            drawing(decoded(floats)->0),
            labels_of(labels),
            prior_of(counts, vocabulary),
            CANDIDATES as nat,
            angle,
            exp,
        ) {
            Err(e) => Err(FailureView::Model(e)),
            Ok((_, symbols)) => Ok(crate::present::result_of(symbols, font)),
        },
    }
}

/// The prior in two texts, if the vocabulary is not empty.
fn read_prior(counts: &str, vocabulary: &str) -> (r: Option<Prior>)
    ensures
        ({
            let rows = crate::text::split(vocabulary@, '\n');
            let tokens = crate::classify::labels_in(rows, rows.len());
            let lines = crate::text::lines_of(counts@);
            crate::prior::held(r) == if tokens.len() == 0 {
                None
            } else {
                Some(PriorView {
                    tokens,
                    counts: Some(counts_in(lines, lines.len()).map_values(|n: nat| n as u32)),
                })
            }
        }),
{
    let tokens = Labels::from_lines(vocabulary);
    if tokens.is_empty() {
        return None;
    }
    let numbers = parse_counts(counts);
    proof {
        let lines = crate::text::lines_of(counts@);
        assert(numbers@ =~= counts_in(lines, lines.len()).map_values(|n: nat| n as u32));
        assert(crate::text::text_views(tokens.names@) =~= tokens@);
    }
    Some(Prior { tokens: tokens.names, counts: Some(numbers) })
}

/// Recognize an expression. `weights`, `labels` and `counts` are the bytes of the model's files, and
/// `vocabulary` those of a list of the labels that an expression may hold, one per line. The
/// rankings are restricted to these labels and corrected by the counts; with an empty list they are
/// the classifier's own. `atan2` is the arctangent of `y / x` and `exp` the exponential function.
pub fn run<A: Fn(F32, F32) -> F32, E: Fn(F32) -> F32>(
    floats: &Vec<F32>,
    weights: &[u8],
    labels: &[u8],
    counts: &[u8],
    vocabulary: &[u8],
    font: &Font,
    atan2: &A,
    exp: &E,
) -> (r: Result<String, Failure>)
    requires
        crate::elementary::callable2(*atan2),
        crate::elementary::callable1(*exp),
    ensures
        forall|h: Fn2, e: Fn1| #[trigger]
            crate::elementary::computes2(*atan2, h) && #[trigger] crate::elementary::computes1(
                *exp,
                e,
            ) ==> match (
                r,
                outcome(floats@, weights@, labels@, counts@, vocabulary@, font@, h, e),
            ) {
                (Ok(a), Ok(b)) => a@ == b,
                (Err(a), Err(b)) => a@ == b,
                _ => false,
            },
        // whatever the functions compute
        unreadable(floats@, weights@, labels@, counts@, vocabulary@) is Some ==> r is Err
            && r->Err_0@ == unreadable(floats@, weights@, labels@, counts@, vocabulary@)->0,
{
    let strokes = match decode_strokes(floats) {
        Ok(strokes) => strokes,
        Err(_) => {
            return Err(Failure::Truncated);
        },
    };
    let ink = Ink { source_width: num(ONE), source_height: num(ONE), strokes };
    let parsed = match Weights::parse(weights) {
        Ok(w) => w,
        Err(e) => {
            return Err(Failure::Model(e));
        },
    };
    let names = match utf8_text(labels) {
        Ok(text) => Labels::from_lines(text),
        Err(e) => {
            return Err(Failure::Text(e));
        },
    };
    let numbers = match utf8_text(counts) {
        Ok(text) => text,
        Err(e) => {
            return Err(Failure::Text(e));
        },
    };
    let tokens = match utf8_text(vocabulary) {
        Ok(text) => text,
        Err(e) => {
            return Err(Failure::Text(e));
        },
    };
    let prior = read_prior(numbers, tokens);
    match analyze(&ink, &parsed, &names, prior.as_ref(), CANDIDATES, atan2, exp) {
        Ok((_, symbols)) => Ok(result_json(&symbols, font)),
        Err(e) => Err(Failure::Model(e)),
    }
}

/// The bytes of a result: the length of the JSON in four bytes, the least significant first, then
/// the JSON.
pub open spec fn framed(json: Seq<char>) -> Seq<u8> {
    let body = vstd::utf8::encode_utf8(json);
    spec_u32_to_le_bytes(crate::format::count_of(body.len())) + body
}

/// The bytes that are handed back for a result; none for a failure.
pub fn reply(result: Result<String, Failure>) -> (r: Option<Vec<u8>>)
    ensures
        match result {
            Ok(json) => r is Some && r->0@ == framed(json@),
            Err(_) => r is None,
        },
{
    match result {
        Ok(json) => {
            let mut body = json.as_str().as_bytes_vec();
            let mut out: Vec<u8> = Vec::new();
            put_count(&mut out, body.len());
            out.append(&mut body);
            Some(out)
        },
        Err(_) => None,
    }
}

// ---------------------------------------------------------------------------------------------
// Laws
// ---------------------------------------------------------------------------------------------
/// The coordinates of a stroke in pairs.
pub open spec fn flat(s: Seq<(F32, F32)>) -> Seq<F32> {
    Seq::new(
        2 * s.len(),
        |k: int|
            if k % 2 == 0 {
                s[k / 2].0
            } else {
                s[k / 2].1
            },
    )
}

/// The list of numbers for the first `n` strokes: `head` stands for how many strokes there are, and
/// `lengths` for how many points each of them has.
pub open spec fn sent(
    head: F32,
    lengths: Seq<F32>,
    strokes: Seq<Seq<(F32, F32)>>,
    n: nat,
) -> Seq<F32>
    decreases n,
{
    if n == 0 {
        seq![head]
    } else {
        sent(head, lengths, strokes, (n - 1) as nat).push(lengths[n - 1]) + flat(strokes[n - 1])
    }
}

/// A stroke as it is read.
pub open spec fn read_back(s: Seq<(F32, F32)>) -> Seq<Point> {
    Seq::new(
        s.len(),
        |j: int|
            Point {
                x: s[j].0,
                y: s[j].1,
                pressure: num(ONE),
                tilt_x: num(ZERO),
                tilt_y: num(ZERO),
                t_us: ((j * POINT_US) % 0x1_0000_0000_0000_0000) as u64,
            },
    )
}

proof fn lemma_sent_prefix(
    head: F32,
    lengths: Seq<F32>,
    strokes: Seq<Seq<(F32, F32)>>,
    n: nat,
    m: nat,
)
    requires
        n <= m,
    ensures
        sent(head, lengths, strokes, n).len() <= sent(head, lengths, strokes, m).len(),
        sent(head, lengths, strokes, m).take(sent(head, lengths, strokes, n).len() as int) == sent(
            head,
            lengths,
            strokes,
            n,
        ),
    decreases m,
{
    let short = sent(head, lengths, strokes, n);
    let long = sent(head, lengths, strokes, m);
    if n < m {
        let before = sent(head, lengths, strokes, (m - 1) as nat);
        lemma_sent_prefix(head, lengths, strokes, n, (m - 1) as nat);
        assert(long.take(short.len() as int) =~= before.take(short.len() as int));
    } else {
        assert(long.take(short.len() as int) =~= short);
    }
}

/// What is sent is read back: the strokes keep their number, their order, and the coordinates of
/// all their points, provided that the numbers sent as lengths stand for the lengths.
pub proof fn law_strokes_are_read_as_sent(
    head: F32,
    lengths: Seq<F32>,
    strokes: Seq<Seq<(F32, F32)>>,
)
    requires
        head.to_usize() == strokes.len(),
        lengths.len() == strokes.len(),
        forall|i: int|
            0 <= i < strokes.len() ==> (#[trigger] lengths[i]).to_usize() == strokes[i].len(),
    ensures
        decoded(sent(head, lengths, strokes, strokes.len())) == Some(
            Seq::new(strokes.len(), |i: int| read_back(strokes[i])),
        ),
{
    let all = sent(head, lengths, strokes, strokes.len());
    lemma_sent_prefix(head, lengths, strokes, 0, strokes.len());
    assert(all.take(1)[0] == head);
    lemma_read_as_sent(head, lengths, strokes, strokes.len());
}

proof fn lemma_read_as_sent(
    head: F32,
    lengths: Seq<F32>,
    strokes: Seq<Seq<(F32, F32)>>,
    n: nat,
)
    requires
        n <= strokes.len(),
        lengths.len() == strokes.len(),
        forall|i: int|
            0 <= i < strokes.len() ==> (#[trigger] lengths[i]).to_usize() == strokes[i].len(),
    ensures
        strokes_in(sent(head, lengths, strokes, strokes.len()), n) == Some(
            (
                Seq::new(n, |i: int| read_back(strokes[i])),
                sent(head, lengths, strokes, n).len(),
            ),
        ),
    decreases n,
{
    let all = sent(head, lengths, strokes, strokes.len());
    let got = Seq::new(n, |i: int| read_back(strokes[i]));
    if n == 0 {
        assert(got =~= Seq::empty());
    } else {
        lemma_read_as_sent(head, lengths, strokes, (n - 1) as nat);
        lemma_sent_prefix(head, lengths, strokes, n, strokes.len());
        let before = sent(head, lengths, strokes, (n - 1) as nat);
        let upto = sent(head, lengths, strokes, n);
        let s = strokes[n - 1];
        let at = before.len() as int;
        assert(upto.len() == at + 1 + 2 * s.len());
        assert(all.take(upto.len() as int)[at] == lengths[n - 1]);
        assert(all[at] == lengths[n - 1]);
        let here = Seq::new(s.len(), |j: int| point_at(all, at + 1, j));
        assert forall|j: int| 0 <= j < s.len() implies #[trigger] here[j] == read_back(s)[j] by {
            assert(all.take(upto.len() as int)[at + 1 + 2 * j] == flat(s)[2 * j]);
            assert(all.take(upto.len() as int)[at + 1 + 2 * j + 1] == flat(s)[2 * j + 1]);
        }
        assert(here =~= read_back(s));
        assert(got =~= Seq::new((n - 1) as nat, |i: int| read_back(strokes[i])).push(here));
    }
}

} // verus!
