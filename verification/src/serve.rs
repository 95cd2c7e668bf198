//! The correction page's server: what each request does to the session, what is answered, and what
//! is written to the log.
//!
//! Every correction, and every symbol of an accepted expression, becomes a line in the log: a
//! training sample with a label that a person has confirmed.
use crate::classify::weights::Weights;
use crate::classify::Labels;
use crate::elementary::{Fn1, Fn2};
use crate::error::Error;
use crate::expression::{analyze, best_choices, compose, AnalyzedSymbol, AnalyzedView};
use crate::float::F32;
use crate::glyphs::{Font, RawGlyphView};
use crate::http::{query_index, Reply, ReplyView, Request, RequestView};
use crate::present::state_json;
use crate::prior::Prior;
use crate::record::sample_line;
use crate::stroke::{Ink, InkView};
use crate::text::{chars_of, same_chars, text_of};
use vstd::prelude::*;

verus! {

/// How many candidates each symbol of a captured expression has.
pub const CANDIDATES: usize = 5;

/// A captured expression under correction: the upright drawing, its symbols, and the index of each
/// symbol's chosen candidate.
#[derive(Debug)]
pub struct Session {
    pub oriented: Ink,
    pub symbols: Vec<AnalyzedSymbol>,
    pub choices: Vec<usize>,
}

/// What a [`Session`] holds.
#[verifier::ext_equal]
pub struct SessionView {
    pub oriented: InkView,
    pub symbols: Seq<AnalyzedView>,
    pub choices: Seq<int>,
}

impl View for Session {
    type V = SessionView;

    open spec fn view(&self) -> SessionView {
        SessionView {
            oriented: self.oriented@,
            symbols: crate::expression::analyzed_views(self.symbols@),
            choices: crate::sort::as_ints(self.choices@),
        }
    }
}

impl Session {
    /// Each symbol has a choice and refers to strokes of the drawing.
    pub open spec fn wf(&self) -> bool {
        &&& self.choices@.len() == self.symbols@.len()
        &&& crate::expression::refers(self.symbols@, self.oriented@.strokes.len())
    }
}

/// What an optional session holds.
pub open spec fn session_view(s: Option<Session>) -> Option<SessionView> {
    match s {
        Some(s) => Some(s@),
        None => None,
    }
}

/// The server: what recognition needs, the page, and the session.
pub struct Server<'a> {
    pub weights: Weights<'a>,
    pub labels: Labels,
    pub prior: Option<Prior>,
    pub font: Font,
    pub page: String,
    pub session: Option<Session>,
}

impl<'a> Server<'a> {
    /// Is the session well-formed, if there is one?
    pub open spec fn wf(&self) -> bool {
        match self.session {
            Some(s) => s.wf(),
            None => true,
        }
    }

    /// A server before the first capture.
    pub fn new(
        weights: Weights<'a>,
        labels: Labels,
        prior: Option<Prior>,
        font: Font,
        page: String,
    ) -> (r: Self)
        ensures
            r.wf(),
            r.session is None,
            r.weights == weights,
            r.labels == labels,
            r.prior == prior,
            r.font == font,
            r.page == page,
    {
        Server { weights, labels, prior, font, page, session: None }
    }
}

/// What a request asks for.
#[derive(Debug, Clone, Copy, PartialEq, Eq, Structural)]
pub enum Route {
    Page,
    Capture,
    Correct,
    Accept,
    Tex,
    Unknown,
}

/// What a request asks for.
pub open spec fn route_of(request: RequestView) -> Route {
    let get = request.method == "GET"@;
    let post = request.method == "POST"@;
    if get && request.path == "/"@ {
        Route::Page
    } else if post && request.path == "/capture"@ {
        Route::Capture
    } else if post && request.path == "/correct"@ {
        Route::Correct
    } else if post && request.path == "/accept"@ {
        Route::Accept
    } else if get && request.path == "/tex"@ {
        Route::Tex
    } else {
        Route::Unknown
    }
}

/// What a request asks for.
pub fn route(request: &Request) -> (r: Route)
    ensures
        r == route_of(request@),
{
    let get = same_chars(&request.method, "GET");
    let post = same_chars(&request.method, "POST");
    if get && same_chars(&request.path, "/") {
        Route::Page
    } else if post && same_chars(&request.path, "/capture") {
        Route::Capture
    } else if post && same_chars(&request.path, "/correct") {
        Route::Correct
    } else if post && same_chars(&request.path, "/accept") {
        Route::Accept
    } else if get && same_chars(&request.path, "/tex") {
        Route::Tex
    } else {
        Route::Unknown
    }
}

/// What the server does next: capture an expression, or append lines to the log and answer.
#[derive(Debug)]
pub enum Step {
    Capture,
    Answer { log: Vec<String>, reply: Reply },
}

/// What a [`Step`] holds.
#[verifier::ext_equal]
pub enum StepView {
    Capture,
    Answer { log: Seq<Seq<char>>, reply: ReplyView },
}

impl View for Step {
    type V = StepView;

    open spec fn view(&self) -> StepView {
        match self {
            Step::Capture => StepView::Capture,
            Step::Answer { log, reply } => StepView::Answer {
                log: crate::text::text_views(log@),
                reply: reply@,
            },
        }
    }
}

/// A plain text answer.
pub open spec fn plain(code: int, body: Seq<char>) -> ReplyView {
    ReplyView { code, kind: "text/plain"@, body }
}

/// A plain text answer with nothing to log.
pub open spec fn refusal(code: int, body: Seq<char>) -> StepView {
    StepView::Answer { log: Seq::empty(), reply: plain(code, body) }
}

/// The session as JSON.
pub open spec fn shown(s: SessionView, font: Seq<RawGlyphView>) -> ReplyView {
    ReplyView {
        code: 200,
        kind: "application/json"@,
        body: crate::present::state_of(s.symbols, s.choices, font),
    }
}

/// The log line of a symbol with one of its candidates as its label.
pub open spec fn confirmed(s: SessionView, i: int, choice: int) -> Seq<char> {
    crate::record::labelled_line(
        s.symbols[i].candidates[choice].0,
        crate::denoise::selected(s.oriented.strokes, s.symbols[i].stroke_indices),
    )
}

/// The log lines of the first `n` symbols, each with its chosen candidate as its label.
pub open spec fn accepted(s: SessionView, n: nat) -> Seq<Seq<char>>
    decreases n,
{
    if n == 0 {
        Seq::empty()
    } else {
        let before = accepted(s, (n - 1) as nat);
        if s.choices[n - 1] < s.symbols[n - 1].candidates.len() {
            before.push(confirmed(s, n - 1, s.choices[n - 1]))
        } else {
            before
        }
    }
}

/// Is the candidate one that the session offers for the symbol?
pub open spec fn offered(s: SessionView, i: nat, c: nat) -> bool {
    i < s.symbols.len() && c < s.symbols[i as int].candidates.len()
}

/// The session with another choice for one symbol.
pub open spec fn corrected(s: SessionView, i: nat, c: nat) -> SessionView {
    SessionView { choices: s.choices.update(i as int, c as int), ..s }
}

/// What a correction is answered, and what is logged: the symbol with its new label, if that is
/// not the one that it had.
pub open spec fn correction(
    query: Seq<char>,
    session: Option<SessionView>,
    font: Seq<RawGlyphView>,
) -> StepView {
    match (crate::http::index_param(query, "i"@), crate::http::index_param(query, "c"@)) {
        (None, _) => refusal(500, "i"@),
        (_, None) => refusal(500, "c"@),
        (Some(i), Some(c)) => match session {
            None => refusal(409, "no capture yet"@),
            Some(s) => if !offered(s, i, c) {
                refusal(400, "index out of range"@)
            } else {
                StepView::Answer {
                    log: if c != s.choices[i as int] {
                        seq![confirmed(s, i as int, c as int)]
                    } else {
                        Seq::empty()
                    },
                    reply: shown(corrected(s, i, c), font),
                }
            },
        },
    }
}

/// What a request is answered.
pub open spec fn answer(
    request: RequestView,
    session: Option<SessionView>,
    page: Seq<char>,
    font: Seq<RawGlyphView>,
) -> StepView {
    match route_of(request) {
        Route::Page => StepView::Answer {
            log: Seq::empty(),
            reply: ReplyView { code: 200, kind: "text/html; charset=utf-8"@, body: page },
        },
        Route::Capture => StepView::Capture,
        Route::Correct => correction(request.query, session, font),
        Route::Accept => match session {
            None => refusal(409, "no capture yet"@),
            Some(s) => StepView::Answer {
                log: accepted(s, s.symbols.len()),
                reply: plain(200, "logged"@),
            },
        },
        Route::Tex => StepView::Answer {
            log: Seq::empty(),
            reply: ReplyView {
                code: 200,
                kind: "text/plain; charset=utf-8"@,
                body: match session {
                    Some(s) => crate::latex::latex_of(
                        crate::expression::chosen_tree(s.symbols, s.choices),
                    ),
                    None => Seq::empty(),
                },
            },
        },
        Route::Unknown => refusal(404, "not found"@),
    }
}

/// The session after a request. Only a correction that the session offers changes it.
pub open spec fn session_after(request: RequestView, session: Option<SessionView>) -> Option<
    SessionView,
> {
    if route_of(request) == Route::Correct {
        match (
            crate::http::index_param(request.query, "i"@),
            crate::http::index_param(request.query, "c"@),
            session,
        ) {
            (Some(i), Some(c), Some(s)) if offered(s, i, c) => Some(corrected(s, i, c)),
            _ => session,
        }
    } else {
        session
    }
}

fn text(s: &str) -> (r: String)
    ensures
        r@ == s@,
{
    text_of(&chars_of(s))
}

fn plain_reply(code: u16, body: &str) -> (r: Reply)
    ensures
        r@ == plain(code as int, body@),
{
    Reply { code, kind: text("text/plain"), body: text(body) }
}

fn refuse(code: u16, body: &str) -> (r: Step)
    ensures
        r@ == refusal(code as int, body@),
{
    let log: Vec<String> = Vec::new();
    assert(crate::text::text_views(log@) =~= Seq::<Seq<char>>::empty());
    Step::Answer { log, reply: plain_reply(code, body) }
}

/// The answer to a request that failed: the message of what went wrong.
pub fn failure(message: &str) -> (r: Reply)
    ensures
        r@ == plain(500, message@),
{
    plain_reply(500, message)
}

impl Session {
    /// The log line of symbol `i` with candidate `c` as its label.
    fn log_sample(&self, i: usize, c: usize) -> (r: String)
        requires
            self.wf(),
            i < self.symbols.len(),
            c < self.symbols[i as int].candidates.len(),
        ensures
            r@ == confirmed(self@, i as int, c as int),
    {
        let s = &self.symbols[i];
        assert(self@.symbols[i as int] == s@);
        assert(s@.candidates[c as int].0 == s.candidates[c as int].0@);
        assert forall|k: int| 0 <= k < s.stroke_indices.len() implies #[trigger] s.stroke_indices[k]
            < self.oriented@.strokes.len() by {
            assert(self.symbols@[i as int].stroke_indices@[k] < self.oriented@.strokes.len());
        }
        sample_line(s.candidates[c].0.as_str(), &self.oriented, &s.stroke_indices)
    }

    /// The log lines of all symbols.
    fn accept(&self) -> (r: Vec<String>)
        requires
            self.wf(),
        ensures
            crate::text::text_views(r@) == accepted(self@, self@.symbols.len()),
    {
        let mut out: Vec<String> = Vec::new();
        let mut i: usize = 0;
        assert(crate::text::text_views(out@) =~= Seq::<Seq<char>>::empty());
        while i < self.symbols.len()
            invariant
                self.wf(),
                i <= self.symbols.len(),
                crate::text::text_views(out@) == accepted(self@, i as nat),
            decreases self.symbols.len() - i,
        {
            assert(self@.symbols[i as int] == self.symbols[i as int]@);
            if self.choices[i] < self.symbols[i].candidates.len() {
                let line = self.log_sample(i, self.choices[i]);
                assert(crate::text::text_views(out@.push(line)) =~= crate::text::text_views(
                    out@,
                ).push(line@));
                out.push(line);
            }
            i = i + 1;
        }
        out
    }

    fn show(&self, font: &Font) -> (r: Reply)
        requires
            self.wf(),
        ensures
            r@ == shown(self@, font@),
    {
        Reply {
            code: 200,
            kind: text("application/json"),
            body: state_json(&self.symbols, &self.choices, font),
        }
    }

    /// Choose candidate `c` for symbol `i`. Returns what to log and what to answer.
    fn choose_candidate(&mut self, i: usize, c: usize, font: &Font) -> (r: Step)
        requires
            old(self).wf(),
            offered(old(self)@, i as nat, c as nat),
        ensures
            final(self).wf(),
            final(self)@ == corrected(old(self)@, i as nat, c as nat),
            r@ == (StepView::Answer {
                log: if c != old(self)@.choices[i as int] {
                    seq![confirmed(old(self)@, i as int, c as int)]
                } else {
                    Seq::empty()
                },
                reply: shown(corrected(old(self)@, i as nat, c as nat), font@),
            }),
    {
        let ghost before = self@;
        assert(before.symbols[i as int] == self.symbols[i as int]@);
        let mut log: Vec<String> = Vec::new();
        if c != self.choices[i] {
            log.push(self.log_sample(i, c));
        }
        self.choices.set(i, c);
        proof {
            assert(self@.choices =~= before.choices.update(i as int, c as int));
            assert(self@ =~= corrected(before, i as nat, c as nat));
            if c != before.choices[i as int] {
                assert(crate::text::text_views(log@) =~= seq![
                    confirmed(before, i as int, c as int),
                ]);
            } else {
                assert(crate::text::text_views(log@) =~= Seq::<Seq<char>>::empty());
            }
        }
        Step::Answer { log, reply: self.show(font) }
    }
}

impl<'a> Server<'a> {
    fn correct(&mut self, query: &Vec<char>) -> (r: Step)
        requires
            old(self).wf(),
        ensures
            final(self).wf(),
            final(self).weights == old(self).weights,
            final(self).labels == old(self).labels,
            final(self).prior == old(self).prior,
            final(self).font == old(self).font,
            final(self).page == old(self).page,
            r@ == correction(query@, session_view(old(self).session), old(self).font@),
            session_view(final(self).session) == match (
                crate::http::index_param(query@, "i"@),
                crate::http::index_param(query@, "c"@),
                session_view(old(self).session),
            ) {
                (Some(i), Some(c), Some(s)) if offered(s, i, c) => Some(corrected(s, i, c)),
                _ => session_view(old(self).session),
            },
    {
        let i = match query_index(query, "i") {
            Some(i) => i,
            None => {
                return refuse(500, "i");
            },
        };
        let c = match query_index(query, "c") {
            Some(c) => c,
            None => {
                return refuse(500, "c");
            },
        };
        match self.session.take() {
            None => refuse(409, "no capture yet"),
            Some(s) => {
                let mut s = s;
                let fits = i < s.symbols.len() && c < s.symbols[i].candidates.len();
                proof {
                    if i < s.symbols.len() {
                        assert(s@.symbols[i as int] == s.symbols[i as int]@);
                    }
                    assert(fits == offered(s@, i as nat, c as nat));
                }
                let step = if fits {
                    s.choose_candidate(i, c, &self.font)
                } else {
                    refuse(400, "index out of range")
                };
                self.session = Some(s);
                step
            },
        }
    }

    /// Take a request: what it does to the session, what it is answered, and what is logged first.
    pub fn handle(&mut self, request: &Request) -> (r: Step)
        requires
            old(self).wf(),
        ensures
            final(self).wf(),
            final(self).weights == old(self).weights,
            final(self).labels == old(self).labels,
            final(self).prior == old(self).prior,
            final(self).font == old(self).font,
            final(self).page == old(self).page,
            r@ == answer(
                request@,
                session_view(old(self).session),
                old(self).page@,
                old(self).font@,
            ),
            session_view(final(self).session) == session_after(
                request@,
                session_view(old(self).session),
            ),
    {
        let empty: Vec<String> = Vec::new();
        assert(crate::text::text_views(empty@) =~= Seq::<Seq<char>>::empty());
        match route(request) {
            Route::Page => Step::Answer {
                log: empty,
                reply: Reply {
                    code: 200,
                    kind: text("text/html; charset=utf-8"),
                    body: text(self.page.as_str()),
                },
            },
            Route::Capture => Step::Capture,
            Route::Correct => self.correct(&request.query),
            Route::Accept => match &self.session {
                None => refuse(409, "no capture yet"),
                Some(s) => Step::Answer { log: s.accept(), reply: plain_reply(200, "logged") },
            },
            Route::Tex => {
                let body = match &self.session {
                    Some(s) => compose(&s.symbols, &s.choices, &self.font).0,
                    None => String::new(),
                };
                assert(""@ =~= Seq::<char>::empty()) by {
                    reveal_strlit("");
                }
                Step::Answer {
                    log: empty,
                    reply: Reply { code: 200, kind: text("text/plain; charset=utf-8"), body },
                }
            },
            Route::Unknown => refuse(404, "not found"),
        }
    }

    /// Take a captured drawing: recognize it, start a session with the best candidates, and answer
    /// with it. A drawing that cannot be recognized leaves the session as it is.
    pub fn captured<A: Fn(F32, F32) -> F32, E: Fn(F32) -> F32>(
        &mut self,
        ink: &Ink,
        atan2: &A,
        exp: &E,
    ) -> (r: Result<Reply, Error>)
        requires
            old(self).wf(),
            crate::elementary::callable2(*atan2),
            crate::elementary::callable1(*exp),
        ensures
            final(self).wf(),
            final(self).weights == old(self).weights,
            final(self).labels == old(self).labels,
            final(self).prior == old(self).prior,
            final(self).font == old(self).font,
            final(self).page == old(self).page,
            forall|h: Fn2, e: Fn1| #[trigger]
                crate::elementary::computes2(*atan2, h) && #[trigger] crate::elementary::computes1(
                    *exp,
                    e,
                ) ==> match (
                    r,
                    crate::expression::expression_of(
                        old(self).weights@,
                        ink@,
                        old(self).labels@,
                        crate::prior::held(old(self).prior),
                        CANDIDATES as nat,
                        h,
                        e,
                    ),
                ) {
                    (Ok(reply), Ok(want)) => {
                        let s = begun(want.0, want.1);
                        session_view(final(self).session) == Some(s) && reply@ == shown(
                            s,
                            old(self).font@,
                        )
                    },
                    (Err(x), Err(y)) => x == y,
                    _ => false,
                },
            r is Err ==> final(self).session == old(self).session,
            r matches Ok(reply) ==> session_view(final(self).session) is Some && reply@ == shown(
                session_view(final(self).session)->0,
                old(self).font@,
            ),
    {
        match analyze(
            ink,
            &self.weights,
            &self.labels,
            self.prior.as_ref(),
            CANDIDATES,
            atan2,
            exp,
        ) {
            Err(e) => Err(e),
            Ok((oriented, symbols)) => {
                let choices = best_choices(&symbols);
                let s = Session { oriented, symbols, choices };
                proof {
                    assert(s@ =~= begun(s@.oriented, s@.symbols));
                }
                let reply = s.show(&self.font);
                self.session = Some(s);
                Ok(reply)
            },
        }
    }
}

/// A session in which the best candidate stands for each symbol.
pub open spec fn begun(oriented: InkView, symbols: Seq<AnalyzedView>) -> SessionView {
    SessionView { oriented, symbols, choices: Seq::new(symbols.len(), |i: int| 0) }
}

// ---------------------------------------------------------------------------------------------
// Laws
// ---------------------------------------------------------------------------------------------
/// A request that is refused changes nothing and logs nothing.
pub proof fn law_a_refused_request_changes_nothing(
    request: RequestView,
    session: Option<SessionView>,
    page: Seq<char>,
    font: Seq<RawGlyphView>,
)
    requires
        answer(request, session, page, font) matches StepView::Answer { reply, .. }
            && reply.code != 200,
    ensures
        session_after(request, session) == session,
        answer(request, session, page, font)->log.len() == 0,
{
}

/// Only a correction that changes a label, or an acceptance, writes to the log.
pub proof fn law_only_confirmed_labels_are_logged(
    request: RequestView,
    session: Option<SessionView>,
    page: Seq<char>,
    font: Seq<RawGlyphView>,
)
    requires
        session matches Some(s) ==> s.choices.len() == s.symbols.len(),
        answer(request, session, page, font) matches StepView::Answer { log, .. } && log.len() > 0,
    ensures
        session is Some,
        route_of(request) == Route::Accept || route_of(request) == Route::Correct
            && session_after(request, session) != session,
{
    if route_of(request) == Route::Correct {
        let s = session->0;
        let i = crate::http::index_param(request.query, "i"@)->0;
        let c = crate::http::index_param(request.query, "c"@)->0;
        assert(c != s.choices[i as int]);
        assert(corrected(s, i, c).choices[i as int] == c);
    }
}

/// Repeating a correction shows the same expression and logs nothing more.
pub proof fn law_repeating_a_correction_logs_nothing(
    request: RequestView,
    s: SessionView,
    page: Seq<char>,
    font: Seq<RawGlyphView>,
)
    requires
        s.choices.len() == s.symbols.len(),
        route_of(request) == Route::Correct,
        answer(request, Some(s), page, font) matches StepView::Answer { reply, .. } && reply.code
            == 200,
    ensures
        ({
            let first = answer(request, Some(s), page, font);
            let after = session_after(request, Some(s));
            let again = answer(request, after, page, font);
            session_after(request, after) == after && again->reply == first->reply
                && again->log.len() == 0
        }),
{
    let i = crate::http::index_param(request.query, "i"@)->0;
    let c = crate::http::index_param(request.query, "c"@)->0;
    assert(offered(s, i, c));
    let after = corrected(s, i, c);
    assert(corrected(after, i, c) =~= after);
}

/// A correction touches the choice of one symbol: the drawing, the symbols and all other choices
/// stay.
pub proof fn law_a_correction_touches_one_symbol(request: RequestView, s: SessionView)
    requires
        s.choices.len() == s.symbols.len(),
    ensures
        ({
            let t = session_after(request, Some(s))->0;
            &&& session_after(request, Some(s)) is Some
            &&& t.oriented == s.oriented
            &&& t.symbols == s.symbols
            &&& t.choices.len() == s.choices.len()
            &&& forall|k: int|
                0 <= k < s.choices.len() && Some(k as nat) != crate::http::index_param(
                    request.query,
                    "i"@,
                ) ==> #[trigger] t.choices[k] == s.choices[k]
        }),
{
}

/// Accepting logs one line for each symbol whose choice is one of its candidates.
pub proof fn law_accepting_logs_every_symbol(s: SessionView, n: nat)
    requires
        n <= s.symbols.len(),
        forall|i: int|
            0 <= i < n ==> #[trigger] s.choices[i] < s.symbols[i].candidates.len(),
    ensures
        accepted(s, n).len() == n,
        forall|i: int|
            0 <= i < n ==> #[trigger] accepted(s, n)[i] == confirmed(s, i, s.choices[i]),
    decreases n,
{
    if n > 0 {
        law_accepting_logs_every_symbol(s, (n - 1) as nat);
    }
}

/// A choice that is one of the candidates stays one, whatever is requested.
pub proof fn law_choices_stay_among_the_candidates(request: RequestView, s: SessionView, k: int)
    requires
        s.choices.len() == s.symbols.len(),
        0 <= k < s.symbols.len(),
        s.choices[k] < s.symbols[k].candidates.len(),
    ensures
        ({
            let t = session_after(request, Some(s))->0;
            t.choices[k] < t.symbols[k].candidates.len()
        }),
{
}

} // verus!
