//! The correction page: requests, sessions, answers and the log.
use ink2tex::classify::weights::{Weights, WeightsWriter};
use ink2tex::classify::Labels;
use ink2tex::expression::AnalyzedSymbol;
use ink2tex::float::{num, F32};
use ink2tex::glyphs::Font;
use ink2tex::http::{parse_request, query_index, query_param, read_request, respond, Reply, Request};
use ink2tex::prior::Prior;
use ink2tex::serve::{failure, route, Route, Server, Session, Step};
use ink2tex::stroke::{BBox, Ink, Point, Stroke};

fn f(x: f32) -> F32 {
    num(x.to_bits())
}

fn v(x: F32) -> f32 {
    f32::from_bits(x.bits)
}

fn atan2(y: F32, x: F32) -> F32 {
    f(v(y).atan2(v(x)))
}

fn exp(x: F32) -> F32 {
    f(v(x).exp())
}

fn text(chars: &[char]) -> String {
    chars.iter().collect()
}

fn stroke(pts: &[(f32, f32)]) -> Stroke {
    Stroke::from_points(
        pts.iter()
            .enumerate()
            .map(|(i, &(x, y))| Point::new(f(x), f(y), f(1.0), f(0.0), f(0.0), i as u64 * 8000))
            .collect(),
    )
}

/// A model for 32 by 32 bitmaps whose answer does not depend on them: class 0 wins.
fn steady_model() -> Vec<u8> {
    let mut w = WeightsWriter::new();
    w.i8("c1.w", &[1, 1, 3, 3], f(0.01), &[1i8; 9]);
    w.i32("c1.b", &[1], &[0]);
    w.floats("c1.in_scale", &[1], &[f(0.1)]);
    w.i8("c2.w", &[1, 1, 3, 3], f(0.01), &[1i8; 9]);
    w.i32("c2.b", &[1], &[0]);
    w.floats("c2.in_scale", &[1], &[f(0.1)]);
    w.i8("f1.w", &[2, 71], f(0.01), &[0i8; 142]);
    w.i32("f1.b", &[2], &[1000, 1000]);
    w.floats("f1.in_scale", &[1], &[f(0.1)]);
    w.i8("f2.w", &[3, 2], f(0.01), &[100, 100, 50, 50, 0, 0]);
    w.i32("f2.b", &[3], &[0, 0, 0]);
    w.floats("f2.in_scale", &[1], &[f(0.1)]);
    w.finish()
}

fn symbol(labels: &[(&str, f32)], strokes: &[usize], x: f32) -> AnalyzedSymbol {
    AnalyzedSymbol {
        stroke_indices: strokes.to_vec(),
        candidates: labels.iter().map(|&(l, p)| (l.to_string(), f(p))).collect(),
        bbox: BBox::new(f(x), f(0.40), f(x + 0.06), f(0.48)),
    }
}

/// A session of two symbols: `2` or `z`, then `x` or `chi`.
fn session() -> Session {
    Session {
        oriented: Ink {
            source_width: f(1.0),
            source_height: f(1.0),
            strokes: vec![
                stroke(&[(0.25, 0.5), (0.5, 0.25)]),
                stroke(&[(0.75, 0.5), (0.875, 0.25)]),
            ],
        },
        symbols: vec![
            symbol(&[("2", 0.75), ("z", 0.25)], &[0], 0.20),
            symbol(&[("x", 0.5), ("latex:latex2e:chi", 0.25)], &[1], 0.28),
        ],
        choices: vec![0, 0],
    }
}

fn server<'a>(weights: Weights<'a>, session: Option<Session>) -> Server<'a> {
    let mut s = Server::new(
        weights,
        Labels::from_lines("a\nb\nc\n"),
        None,
        Font { glyphs: Vec::new() },
        "<p>page</p>".to_string(),
    );
    s.session = session;
    s
}

fn answer(server: &mut Server, line: &str) -> (Vec<String>, Reply) {
    match server.handle(&parse_request(line)) {
        Step::Answer { log, reply } => (log, reply),
        Step::Capture => panic!("a capture was asked for"),
    }
}

#[test]
fn the_first_line_is_method_path_and_query() {
    let r = parse_request("POST /correct?i=1&c=2 HTTP/1.1\r\nHost: tablet\r\n\r\n");
    assert_eq!(text(&r.method), "POST");
    assert_eq!(text(&r.path), "/correct");
    assert_eq!(text(&r.query), "i=1&c=2");
    let r = parse_request("GET");
    assert_eq!(text(&r.method), "GET");
    assert_eq!(text(&r.path), "/");
    let r = parse_request("");
    assert_eq!((text(&r.method), text(&r.path)), (String::new(), "/".to_string()));
    let r = parse_request("GET /a?b?c x");
    assert_eq!((text(&r.path), text(&r.query)), ("/a".to_string(), "b?c".to_string()));
}

#[test]
fn bytes_that_are_not_utf8_are_replaced() {
    let r = read_request(b"GET /\xff HTTP/1.1\r\n");
    assert_eq!(text(&r.path), "/\u{fffd}");
    let r = read_request("GET /\u{e9} HTTP/1.1".as_bytes());
    assert_eq!(text(&r.path), "/\u{e9}");
}

#[test]
fn the_first_matching_parameter_counts() {
    let q: Vec<char> = "x=1&i&i=7&i=8&c=+3".chars().collect();
    assert_eq!(query_param(&q, "i").map(|p| text(&p)), Some("7".to_string()));
    assert_eq!(query_index(&q, "i"), Some(7));
    assert_eq!(query_index(&q, "c"), Some(3));
    assert_eq!(query_index(&q, "z"), None);
    let q: Vec<char> = "i=&c=1x".chars().collect();
    assert_eq!(query_index(&q, "i"), None);
    assert_eq!(query_index(&q, "c"), None);
    let q: Vec<char> = "i=99999999999999999999999999".chars().collect();
    assert_eq!(query_index(&q, "i"), None);
}

#[test]
fn a_response_counts_the_bytes_of_its_body() {
    let reply = Reply {
        code: 200,
        kind: "text/plain".to_string(),
        body: "\u{221a}x".to_string(),
    };
    assert_eq!(
        respond(&reply),
        "HTTP/1.1 200 OK\r\nContent-Type: text/plain\r\nContent-Length: 4\r\nConnection: close\r\n\r\n\u{221a}x"
            .as_bytes()
    );
    for (code, status) in [
        (400u16, "400 Bad Request"),
        (404, "404 Not Found"),
        (409, "409 Conflict"),
        (500, "500 Internal Server Error"),
        (299, "500 Internal Server Error"),
    ] {
        let bytes = respond(&Reply {
            code,
            kind: "text/plain".to_string(),
            body: String::new(),
        });
        let head = String::from_utf8(bytes).unwrap();
        assert!(head.starts_with(&format!("HTTP/1.1 {status}\r\n")));
        assert!(head.contains("Content-Length: 0\r\n"));
    }
}

#[test]
fn requests_are_routed_by_method_and_path() {
    for (line, want) in [
        ("GET / HTTP/1.1", Route::Page),
        ("POST /capture HTTP/1.1", Route::Capture),
        ("POST /correct?i=0&c=1 HTTP/1.1", Route::Correct),
        ("POST /accept HTTP/1.1", Route::Accept),
        ("GET /tex HTTP/1.1", Route::Tex),
        ("POST / HTTP/1.1", Route::Unknown),
        ("GET /capture HTTP/1.1", Route::Unknown),
        ("get / HTTP/1.1", Route::Unknown),
    ] {
        assert_eq!(route(&parse_request(line)), want, "{line}");
    }
    let request = Request {
        method: Vec::new(),
        path: Vec::new(),
        query: Vec::new(),
    };
    assert_eq!(route(&request), Route::Unknown);
}

#[test]
fn without_a_capture_corrections_are_refused() {
    let blob = steady_model();
    let mut s = server(Weights::parse(&blob).unwrap(), None);
    let (log, reply) = answer(&mut s, "POST /correct?i=0&c=1");
    assert!(log.is_empty());
    assert_eq!((reply.code, reply.body.as_str()), (409, "no capture yet"));
    let (log, reply) = answer(&mut s, "POST /accept");
    assert!(log.is_empty());
    assert_eq!((reply.code, reply.body.as_str()), (409, "no capture yet"));
    let (_, reply) = answer(&mut s, "GET /tex");
    assert_eq!((reply.code, reply.body.as_str()), (200, ""));
    assert_eq!(reply.kind, "text/plain; charset=utf-8");
    let (_, reply) = answer(&mut s, "GET /");
    assert_eq!((reply.code, reply.body.as_str()), (200, "<p>page</p>"));
    assert_eq!(reply.kind, "text/html; charset=utf-8");
    let (_, reply) = answer(&mut s, "GET /nowhere");
    assert_eq!((reply.code, reply.body.as_str()), (404, "not found"));
    assert!(matches!(s.handle(&parse_request("POST /capture")), Step::Capture));
}

#[test]
fn a_refused_correction_changes_nothing() {
    let blob = steady_model();
    let mut s = server(Weights::parse(&blob).unwrap(), Some(session()));
    for (line, code, body) in [
        ("POST /correct?c=1", 500u16, "i"),
        ("POST /correct?i=x&c=1", 500, "i"),
        ("POST /correct?i=0", 500, "c"),
        ("POST /correct?i=2&c=0", 400, "index out of range"),
        ("POST /correct?i=0&c=2", 400, "index out of range"),
    ] {
        let (log, reply) = answer(&mut s, line);
        assert!(log.is_empty());
        assert_eq!((reply.code, reply.body.as_str()), (code, body), "{line}");
        assert_eq!(s.session.as_ref().unwrap().choices, vec![0, 0]);
    }
}

#[test]
fn a_correction_is_shown_and_logged_once() {
    let blob = steady_model();
    let mut s = server(Weights::parse(&blob).unwrap(), Some(session()));
    let (log, reply) = answer(&mut s, "POST /correct?i=1&c=1");
    assert_eq!(
        log,
        vec![
            "{\"key\":\"latex:latex2e:chi\",\"strokes\":[[{\"x\":0.75000,\"y\":0.50000,\"t\":0},{\"x\":0.87500,\"y\":0.25000,\"t\":8}]]}\n"
                .to_string()
        ]
    );
    assert_eq!((reply.code, reply.kind.as_str()), (200, "application/json"));
    assert!(reply.body.starts_with("{\"latex\":\"2\\\\chi\",\"svg\":\"<svg"));
    assert!(reply.body.ends_with(
        ",\"symbols\":[{\"choice\":0,\"candidates\":[{\"cmd\":\"2\",\"p\":0.750},{\"cmd\":\"z\",\"p\":0.250}]},{\"choice\":1,\"candidates\":[{\"cmd\":\"x\",\"p\":0.500},{\"cmd\":\"\\\\chi\",\"p\":0.250}]}]}"
    ));
    let first = reply.body;
    let (log, reply) = answer(&mut s, "POST /correct?i=1&c=1");
    assert!(log.is_empty());
    assert_eq!(reply.body, first);
    assert_eq!(s.session.as_ref().unwrap().choices, vec![0, 1]);
    let (_, reply) = answer(&mut s, "GET /tex");
    assert_eq!(reply.body, "2\\chi");
}

#[test]
fn accepting_logs_every_symbol() {
    let blob = steady_model();
    let mut s = server(Weights::parse(&blob).unwrap(), Some(session()));
    let (log, reply) = answer(&mut s, "POST /accept");
    assert_eq!((reply.code, reply.body.as_str()), (200, "logged"));
    assert_eq!(log.len(), 2);
    assert!(log[0].starts_with("{\"key\":\"2\",\"strokes\":[[{\"x\":0.25000,\"y\":0.50000,\"t\":0}"));
    assert!(log[1].starts_with("{\"key\":\"x\","));
    s.session.as_mut().unwrap().choices[0] = 9;
    let (log, _) = answer(&mut s, "POST /accept");
    assert_eq!(log.len(), 1, "a choice that is no candidate is not logged");
}

#[test]
fn a_capture_starts_a_session_with_the_best_candidates() {
    let blob = steady_model();
    let mut s = server(Weights::parse(&blob).unwrap(), None);
    let ink = Ink {
        source_width: f(1.0),
        source_height: f(1.0),
        strokes: vec![
            stroke(&[(0.20, 0.40), (0.26, 0.40), (0.26, 0.48), (0.20, 0.48)]),
            stroke(&[(0.60, 0.40), (0.66, 0.40), (0.66, 0.48), (0.60, 0.48)]),
        ],
    };
    let reply = s.captured(&ink, &atan2, &exp).unwrap();
    assert_eq!((reply.code, reply.kind.as_str()), (200, "application/json"));
    assert!(reply.body.starts_with("{\"latex\":\"aa\","));
    let session = s.session.as_ref().unwrap();
    assert_eq!(session.choices, vec![0, 0]);
    assert_eq!(session.symbols.len(), 2);
    assert_eq!(session.symbols[0].candidates.len(), 3);
    assert_eq!(session.symbols[0].candidates[0].0, "a");
    assert_eq!(session.symbols[1].stroke_indices, vec![1]);
}

#[test]
fn a_model_that_does_not_fit_leaves_the_session() {
    let empty = WeightsWriter::new().finish();
    let mut s = server(Weights::parse(&empty).unwrap(), Some(session()));
    let ink = Ink {
        source_width: f(1.0),
        source_height: f(1.0),
        strokes: vec![stroke(&[(0.20, 0.40), (0.26, 0.48)])],
    };
    let e = s.captured(&ink, &atan2, &exp).err().unwrap();
    let reply = failure(e.message().as_str());
    assert_eq!(reply.code, 500);
    assert!(reply.body.starts_with("malformed weights blob: "));
    assert_eq!(s.session.as_ref().unwrap().symbols.len(), 2);
}

#[test]
fn a_capture_is_ranked_over_the_vocabulary() {
    let blob = steady_model();
    let mut s = server(Weights::parse(&blob).unwrap(), None);
    s.prior = Some(Prior {
        tokens: vec!["c".to_string(), "b".to_string(), "x".to_string()],
        counts: Some(vec![1, 1_000_000, 1]),
    });
    let ink = Ink {
        source_width: f(1.0),
        source_height: f(1.0),
        strokes: vec![stroke(&[(0.20, 0.40), (0.26, 0.40), (0.26, 0.48), (0.20, 0.48)])],
    };
    s.captured(&ink, &atan2, &exp).unwrap();
    let found = &s.session.as_ref().unwrap().symbols[0].candidates;
    let names: Vec<&str> = found.iter().map(|c| c.0.as_str()).collect();
    assert_eq!(names, vec!["c", "b"], "a is not in the vocabulary, b was seen too often");
}
