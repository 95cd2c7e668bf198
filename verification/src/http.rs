//! Just enough HTTP for a page with a few buttons: the first line of a request, its query
//! parameters, and the bytes of a response.
use crate::text::{
    append, chars_of, find, lines, parse_number, push_decimal, same_chars, slice,
    split_at_char, text_of, words,
};
use vstd::prelude::*;

verus! {

/// The first line of a request: the method, and the target before and after its question mark.
#[derive(Debug)]
pub struct Request {
    pub method: Vec<char>,
    pub path: Vec<char>,
    pub query: Vec<char>,
}

/// What a [`Request`] holds.
#[verifier::ext_equal]
pub struct RequestView {
    pub method: Seq<char>,
    pub path: Seq<char>,
    pub query: Seq<char>,
}

impl View for Request {
    type V = RequestView;

    open spec fn view(&self) -> RequestView {
        RequestView { method: self.method@, path: self.path@, query: self.query@ }
    }
}

/// Where the first `mark` stands in a text; past its last character if there is none.
pub open spec fn mark_at(s: Seq<char>, mark: char) -> nat {
    crate::text::first_at(s, seq![mark], 0)
}

/// The text before and after the first `mark`; the second is empty if there is none.
pub open spec fn cut(s: Seq<char>, mark: char) -> Option<(Seq<char>, Seq<char>)> {
    let at = mark_at(s, mark);
    if at < s.len() {
        Some((s.take(at as int), s.skip(at as int + 1)))
    } else {
        None
    }
}

fn cut_at(s: &Vec<char>, mark: char) -> (r: Option<(Vec<char>, Vec<char>)>)
    ensures
        match (r, cut(s@, mark)) {
            (Some(a), Some(b)) => a.0@ == b.0 && a.1@ == b.1,
            (None, None) => true,
            _ => false,
        },
{
    let mut part: Vec<char> = Vec::new();
    part.push(mark);
    assert(part@ =~= seq![mark]);
    match find(s, &part) {
        Some(at) => {
            let before = slice(s, 0, at);
            let after = slice(s, at + 1, s.len());
            assert(before@ =~= s@.take(at as int));
            assert(after@ =~= s@.skip(at + 1));
            Some((before, after))
        },
        None => None,
    }
}

/// What the first line of a request asks for. The method is empty if the line is, and the target
/// is the root if the line does not give one.
pub open spec fn request_of(text: Seq<char>) -> RequestView {
    let all = crate::text::lines_of(text);
    let line = if all.len() > 0 {
        all[0]
    } else {
        Seq::empty()
    };
    let words = crate::text::words_of(line);
    let method = if words.len() > 0 {
        words[0]
    } else {
        Seq::empty()
    };
    let target = if words.len() > 1 {
        words[1]
    } else {
        "/"@
    };
    match cut(target, '?') {
        Some((path, query)) => RequestView { method, path, query },
        None => RequestView { method, path: target, query: Seq::empty() },
    }
}

/// Read the first line of a request.
pub fn parse_request(text: &str) -> (r: Request)
    ensures
        r@ == request_of(text@),
{
    let all = lines(&chars_of(text));
    let ghost line_texts = crate::text::line_views(all@);
    let found = if all.len() > 0 {
        assert(line_texts[0] == all[0]@);
        words(&all[0])
    } else {
        words(&Vec::new())
    };
    let ghost word_texts = crate::text::line_views(found@);
    let method: Vec<char> = if found.len() > 0 {
        assert(word_texts[0] == found[0]@);
        slice(&found[0], 0, found[0].len())
    } else {
        Vec::new()
    };
    let target: Vec<char> = if found.len() > 1 {
        assert(word_texts[1] == found[1]@);
        slice(&found[1], 0, found[1].len())
    } else {
        chars_of("/")
    };
    assert(found.len() > 0 ==> method@ =~= word_texts[0]);
    assert(found.len() > 1 ==> target@ =~= word_texts[1]);
    match cut_at(&target, '?') {
        Some((path, query)) => Request { method, path, query },
        None => Request { method, path: target, query: Vec::new() },
    }
}

/// The text that a request's bytes stand for, where what is not UTF-8 is replaced.
pub uninterp spec fn lossy(bytes: Seq<u8>) -> Seq<char>;

/// `String::from_utf8_lossy`: the text of the bytes, where each sequence that is not UTF-8 is
/// replaced by a replacement character. Which bytes make up one such sequence is left unsaid; bytes
/// that are valid UTF-8 are decoded as they stand.
#[verifier::external_body]
fn lossy_text(bytes: &[u8]) -> (r: String)
    ensures
        r@ == lossy(bytes@),
        vstd::utf8::valid_utf8(bytes@) ==> r@ == vstd::utf8::decode_utf8(bytes@),
{
    String::from_utf8_lossy(bytes).into_owned()
}

/// Read the first line of a request from its bytes.
pub fn read_request(bytes: &[u8]) -> (r: Request)
    ensures
        r@ == request_of(lossy(bytes@)),
        vstd::utf8::valid_utf8(bytes@) ==> r@ == request_of(vstd::utf8::decode_utf8(bytes@)),
{
    let text = lossy_text(bytes);
    parse_request(text.as_str())
}

/// The value of the first of the parameters that has the given key.
pub open spec fn param_in(params: Seq<Seq<char>>, key: Seq<char>) -> Option<Seq<char>>
    decreases params.len(),
{
    if params.len() == 0 {
        None
    } else {
        match cut(params[0], '=') {
            Some((k, value)) if k == key => Some(value),
            _ => param_in(params.skip(1), key),
        }
    }
}

/// The value of a parameter of a query.
pub open spec fn param(query: Seq<char>, key: Seq<char>) -> Option<Seq<char>> {
    param_in(crate::text::split(query, '&'), key)
}

/// A parameter as an index, if it is the numeral of one.
pub open spec fn index_param(query: Seq<char>, key: Seq<char>) -> Option<nat> {
    match param(query, key) {
        Some(value) => match crate::text::number(value) {
            Some(v) if v <= usize::MAX => Some(v),
            _ => None,
        },
        None => None,
    }
}

/// The value of a parameter of a query.
pub fn query_param(query: &Vec<char>, key: &str) -> (r: Option<Vec<char>>)
    ensures
        match (r, param(query@, key@)) {
            (Some(a), Some(b)) => a@ == b,
            (None, None) => true,
            _ => false,
        },
{
    let params = split_at_char(query, '&');
    let ghost all = crate::text::split(query@, '&');
    let mut i: usize = 0;
    assert(all.skip(0) =~= all);
    while i < params.len()
        invariant
            i <= params.len(),
            all == crate::text::split(query@, '&'),
            all == crate::text::line_views(params@),
            param(query@, key@) == param_in(all.skip(i as int), key@),
        decreases params.len() - i,
    {
        proof {
            assert(all.skip(i as int)[0] == params[i as int]@);
            assert(all.skip(i as int).skip(1) =~= all.skip(i + 1));
        }
        if let Some((k, value)) = cut_at(&params[i], '=') {
            if same_chars(&k, key) {
                return Some(value);
            }
        }
        i = i + 1;
    }
    None
}

/// A parameter as an index, if it is the numeral of one.
pub fn query_index(query: &Vec<char>, key: &str) -> (r: Option<usize>)
    ensures
        match r {
            Some(v) => index_param(query@, key@) == Some(v as nat),
            None => index_param(query@, key@) is None,
        },
{
    match query_param(query, key) {
        Some(value) => match parse_number(&value) {
            Some(v) => if v <= usize::MAX as u64 {
                Some(v as usize)
            } else {
                None
            },
            None => None,
        },
        None => None,
    }
}

/// An answer to a request.
#[derive(Debug)]
pub struct Reply {
    pub code: u16,
    pub kind: String,
    pub body: String,
}

/// What a [`Reply`] holds.
#[verifier::ext_equal]
pub struct ReplyView {
    pub code: int,
    pub kind: Seq<char>,
    pub body: Seq<char>,
}

impl View for Reply {
    type V = ReplyView;

    open spec fn view(&self) -> ReplyView {
        ReplyView { code: self.code as int, kind: self.kind@, body: self.body@ }
    }
}

/// The status line's code and reason. Any code that is not known counts as an internal error.
pub open spec fn status_of(code: int) -> Seq<char> {
    if code == 200 {
        "200 OK"@
    } else if code == 400 {
        "400 Bad Request"@
    } else if code == 404 {
        "404 Not Found"@
    } else if code == 409 {
        "409 Conflict"@
    } else {
        "500 Internal Server Error"@
    }
}

/// The head of a response with a body of `length` bytes.
pub open spec fn head_of(code: int, kind: Seq<char>, length: nat) -> Seq<char> {
    "HTTP/1.1 "@ + status_of(code) + "\r\nContent-Type: "@ + kind + "\r\nContent-Length: "@
        + crate::text::decimal(length) + "\r\nConnection: close\r\n\r\n"@
}

/// The bytes of a response: the head, then the body.
pub open spec fn response_of(reply: ReplyView) -> Seq<u8> {
    let body = vstd::utf8::encode_utf8(reply.body);
    vstd::utf8::encode_utf8(head_of(reply.code, reply.kind, body.len())) + body
}

/// The bytes of a response.
pub fn respond(reply: &Reply) -> (r: Vec<u8>)
    ensures
        r@ == response_of(reply@),
{
    let mut body = reply.body.as_str().as_bytes_vec();
    let status = if reply.code == 200 {
        "200 OK"
    } else if reply.code == 400 {
        "400 Bad Request"
    } else if reply.code == 404 {
        "404 Not Found"
    } else if reply.code == 409 {
        "409 Conflict"
    } else {
        "500 Internal Server Error"
    };
    let mut head: Vec<char> = Vec::new();
    append(&mut head, "HTTP/1.1 ");
    append(&mut head, status);
    append(&mut head, "\r\nContent-Type: ");
    append(&mut head, reply.kind.as_str());
    append(&mut head, "\r\nContent-Length: ");
    push_decimal(&mut head, body.len() as u64);
    append(&mut head, "\r\nConnection: close\r\n\r\n");
    assert(head@ =~= head_of(reply@.code, reply@.kind, body@.len()));
    let text = text_of(&head);
    let mut out = text.as_str().as_bytes_vec();
    out.append(&mut body);
    out
}

} // verus!
