//! JSON values, as far as the loader reads them.
use crate::text::{append, chars_of, same_text, text_of};
use std::collections::BTreeMap;
use vstd::prelude::*;

verus! {

/// A JSON value. Numbers are kept as the bits of a double, and as a natural number where they are
/// written as one; `Other` stands for `null` and the two truth values.
#[derive(Debug)]
pub enum Json {
    Number(u64, Option<u64>),
    Text(String),
    List(Vec<Json>),
    Object(Vec<Member>),
    Other,
}

/// A member of an object.
#[derive(Debug)]
pub struct Member {
    pub key: String,
    pub value: Json,
}

/// What a [`Json`] holds.
#[verifier::ext_equal]
pub enum JsonView {
    Number(u64, Option<u64>),
    Text(Seq<char>),
    List(Seq<JsonView>),
    Object(Seq<(Seq<char>, JsonView)>),
    Other,
}

pub open spec fn json_view(j: Json) -> JsonView
    decreases j,
{
    match j {
        Json::Number(bits, whole) => JsonView::Number(bits, whole),
        Json::Text(s) => JsonView::Text(s@),
        Json::List(items) => JsonView::List(list_view(items@)),
        Json::Object(members) => JsonView::Object(members_view(members@)),
        Json::Other => JsonView::Other,
    }
}

pub open spec fn list_view(items: Seq<Json>) -> Seq<JsonView>
    decreases items,
{
    if items.len() == 0 {
        Seq::empty()
    } else {
        list_view(items.drop_last()).push(json_view(items.last()))
    }
}

pub open spec fn members_view(members: Seq<Member>) -> Seq<(Seq<char>, JsonView)>
    decreases members,
{
    if members.len() == 0 {
        Seq::empty()
    } else {
        members_view(members.drop_last()).push(
            (members.last().key@, json_view(members.last().value)),
        )
    }
}

impl View for Json {
    type V = JsonView;

    open spec fn view(&self) -> JsonView {
        json_view(*self)
    }
}

/// The view of a list, item by item.
pub proof fn lemma_list_view(items: Seq<Json>)
    ensures
        list_view(items).len() == items.len(),
        forall|i: int| 0 <= i < items.len() ==> #[trigger] list_view(items)[i] == items[i]@,
    decreases items.len(),
{
    if items.len() > 0 {
        lemma_list_view(items.drop_last());
    }
}

/// The view of an object's members, one by one.
pub proof fn lemma_members_view(members: Seq<Member>)
    ensures
        members_view(members).len() == members.len(),
        forall|i: int|
            0 <= i < members.len() ==> #[trigger] members_view(members)[i] == (
                members[i].key@,
                members[i].value@,
            ),
    decreases members.len(),
{
    if members.len() > 0 {
        lemma_members_view(members.drop_last());
    }
}

// ---------------------------------------------------------------------------------------------
// Reading text
// ---------------------------------------------------------------------------------------------
/// Does the parser take the text for a JSON document?
pub uninterp spec fn json_valid(text: Seq<char>) -> bool;

/// The texts of the items, where the text is a JSON array.
pub uninterp spec fn json_items(text: Seq<char>) -> Option<Seq<Seq<char>>>;

/// The keys and the texts of the values, where the text is a JSON object.
pub uninterp spec fn json_members(text: Seq<char>) -> Option<Seq<(Seq<char>, Seq<char>)>>;

/// The characters of the string, where the text is a JSON string.
pub uninterp spec fn json_string(text: Seq<char>) -> Option<Seq<char>>;

/// The bits of the nearest double that the parser gives, and the natural number, where the text
/// is a JSON number.
pub uninterp spec fn json_number(text: Seq<char>) -> Option<(u64, Option<u64>)>;

/// What a list of texts holds, if there is one.
pub open spec fn items_view(items: Option<Vec<String>>) -> Option<Seq<Seq<char>>> {
    match items {
        Some(list) => Some(crate::text::text_views(list@)),
        None => None,
    }
}

/// What a list of pairs of texts holds, if there is one.
pub open spec fn pairs_view(pairs: Option<Vec<(String, String)>>) -> Option<
    Seq<(Seq<char>, Seq<char>)>,
> {
    match pairs {
        Some(list) => Some(Seq::new(list@.len(), |i: int| (list@[i].0@, list@[i].1@))),
        None => None,
    }
}

/// What a text holds, if there is one.
pub open spec fn string_view(s: Option<String>) -> Option<Seq<char>> {
    match s {
        Some(text) => Some(text@),
        None => None,
    }
}

/// Calls `serde_json::from_str` for a `serde_json::Value`. It is claimed that whether the parse
/// succeeds depends on the text alone. Which texts succeed is left unsaid. Besides what is no JSON,
/// the parser refuses 128 levels of nesting, a number beyond the range of a double, a surrogate
/// without its pair, and an object whose first key is `$serde_json::private::RawValue`, unless that
/// is its one key and the value is a string that holds a document. The last does not come up in a
/// shielded text.
#[verifier::external_body]
fn is_document(text: &str) -> (r: bool)
    ensures
        r == json_valid(text@),
{
    serde_json::from_str::<serde_json::Value>(text).is_ok()
}

/// Calls `serde_json::from_str` for a `Vec` of `serde_json::value::RawValue`, which keep the text
/// of each item. It is claimed that the items' texts depend on the text alone.
#[verifier::external_body]
fn read_items(text: &str) -> (r: Option<Vec<String>>)
    ensures
        items_view(r) == json_items(text@),
{
    let items = serde_json::from_str::<Vec<&serde_json::value::RawValue>>(text).ok()?;
    Some(items.into_iter().map(|v| v.get().to_string()).collect())
}

/// Calls `serde_json::from_str` for a map from keys to `serde_json::value::RawValue`. It is
/// claimed that the keys, in their order, and the values' texts depend on the text alone.
#[verifier::external_body]
fn read_members(text: &str) -> (r: Option<Vec<(String, String)>>)
    ensures
        pairs_view(r) == json_members(text@),
{
    let members = serde_json::from_str::<BTreeMap<String, &serde_json::value::RawValue>>(text);
    Some(members.ok()?.into_iter().map(|(k, v)| (k, v.get().to_string())).collect())
}

/// Calls `serde_json::from_str` for a `String`. It is claimed that the result depends on the text
/// alone.
#[verifier::external_body]
fn read_string(text: &str) -> (r: Option<String>)
    ensures
        string_view(r) == json_string(text@),
{
    serde_json::from_str::<String>(text).ok()
}

/// Calls `serde_json::from_str` for a `serde_json::Number`, and that number's conversions to a
/// double and to a natural number. It is claimed that the results depend on the text alone.
#[verifier::external_body]
fn read_number(text: &str) -> (r: Option<(u64, Option<u64>)>)
    ensures
        r == json_number(text@),
{
    let n = serde_json::from_str::<serde_json::Number>(text).ok()?;
    Some((n.as_f64()?.to_bits(), n.as_u64()))
}

/// How deep a document is read. The parser accepts no deeper one.
pub const MAX_DEPTH: u32 = 128;

/// The value of a text that is part of a document, read `depth` levels deep.
pub open spec fn tree(text: Seq<char>, depth: nat) -> JsonView
    decreases depth,
{
    if depth == 0 {
        JsonView::Other
    } else if json_items(text) is Some {
        let items = json_items(text)->Some_0;
        JsonView::List(Seq::new(items.len(), |i: int| tree(items[i], (depth - 1) as nat)))
    } else if json_members(text) is Some {
        let members = json_members(text)->Some_0;
        JsonView::Object(
            Seq::new(
                members.len(),
                |i: int| (members[i].0, tree(members[i].1, (depth - 1) as nat)),
            ),
        )
    } else if json_string(text) is Some {
        JsonView::Text(json_string(text)->Some_0)
    } else if json_number(text) is Some {
        JsonView::Number(json_number(text)->Some_0.0, json_number(text)->Some_0.1)
    } else {
        JsonView::Other
    }
}

fn read(text: &str, depth: u32) -> (r: Json)
    ensures
        r@ == tree(text@, depth as nat),
    decreases depth,
{
    if depth == 0 {
        return Json::Other;
    }
    if let Some(items) = read_items(text) {
        let ghost texts = crate::text::text_views(items@);
        let ghost want = tree(text@, depth as nat)->List_0;
        let mut out: Vec<Json> = Vec::new();
        let mut i: usize = 0;
        assert(list_view(out@) =~= want.take(0));
        while i < items.len()
            invariant
                i <= items.len(),
                depth > 0,
                texts == crate::text::text_views(items@),
                want == Seq::new(
                    texts.len(),
                    |i: int| tree(texts[i], (depth - 1) as nat),
                ),
                list_view(out@) == want.take(i as int),
            decreases items.len() - i,
        {
            let v = read(items[i].as_str(), depth - 1);
            proof {
                assert(out@.push(v).drop_last() =~= out@);
                assert(want[i as int] == v@);
                assert(want.take(i + 1) =~= want.take(i as int).push(v@));
            }
            out.push(v);
            i = i + 1;
        }
        assert(want.take(i as int) =~= want);
        return Json::List(out);
    }
    if let Some(members) = read_members(text) {
        let ghost pairs = json_members(text@)->Some_0;
        let ghost want = tree(text@, depth as nat)->Object_0;
        let mut out: Vec<Member> = Vec::new();
        let mut i: usize = 0;
        assert(members_view(out@) =~= want.take(0));
        while i < members.len()
            invariant
                i <= members.len(),
                depth > 0,
                pairs == Seq::new(members@.len(), |i: int| (members@[i].0@, members@[i].1@)),
                want == Seq::new(
                    pairs.len(),
                    |i: int| (pairs[i].0, tree(pairs[i].1, (depth - 1) as nat)),
                ),
                members_view(out@) == want.take(i as int),
            decreases members.len() - i,
        {
            let value = read(members[i].1.as_str(), depth - 1);
            let m = Member { key: members[i].0.clone(), value };
            proof {
                assert(out@.push(m).drop_last() =~= out@);
                assert(want[i as int] == (m.key@, m.value@));
                assert(want.take(i + 1) =~= want.take(i as int).push((m.key@, m.value@)));
            }
            out.push(m);
            i = i + 1;
        }
        assert(want.take(i as int) =~= want);
        return Json::Object(out);
    }
    if let Some(s) = read_string(text) {
        return Json::Text(s);
    }
    if let Some((bits, whole)) = read_number(text) {
        return Json::Number(bits, whole);
    }
    Json::Other
}

/// A text that is being copied: what was copied, whether that ends within a string, whether it ends
/// in a backslash there, and whether it ends in an opening brace and white space.
#[verifier::ext_equal]
pub struct Copied {
    pub out: Seq<char>,
    pub quoted: bool,
    pub escaped: bool,
    pub opened: bool,
}

/// Is this white space between the tokens of a document?
pub open spec fn between_tokens(c: char) -> bool {
    c == ' ' || c == '\t' || c == '\n' || c == '\r'
}

/// One more character. Before the first key of an object comes a member with an empty key.
pub open spec fn copied_char(s: Copied, c: char) -> Copied {
    if s.quoted {
        Copied {
            out: s.out.push(c),
            quoted: s.escaped || c != '"',
            escaped: !s.escaped && c == '\\',
            opened: false,
        }
    } else if c == '"' {
        Copied {
            out: (if s.opened {
                s.out + "\"\":0,"@
            } else {
                s.out
            }).push(c),
            quoted: true,
            escaped: false,
            opened: false,
        }
    } else {
        Copied {
            out: s.out.push(c),
            quoted: false,
            escaped: false,
            opened: c == '{' || s.opened && between_tokens(c),
        }
    }
}

/// The first `n` characters, copied.
pub open spec fn copied(text: Seq<char>, n: nat) -> Copied
    decreases n,
{
    if n == 0 {
        Copied { out: Seq::empty(), quoted: false, escaped: false, opened: false }
    } else {
        copied_char(copied(text, (n - 1) as nat), text[n - 1])
    }
}

/// The text with one more member, at the front, in every object that has any. It is a document if
/// and only if the text is one, and no key of the text is the first of its object.
pub open spec fn shielded(text: Seq<char>) -> Seq<char> {
    copied(text, text.len()).out
}

/// Is the text a JSON document? The parser has a reading of its own for objects whose first key is
/// its private token, so it is asked about the shielded text, in which every key is a plain one.
pub open spec fn is_json(text: Seq<char>) -> bool {
    json_valid(shielded(text))
}

fn shield(text: &str) -> (r: String)
    ensures
        r@ == shielded(text@),
{
    let chars = chars_of(text);
    let mut out: Vec<char> = Vec::new();
    let mut quoted = false;
    let mut escaped = false;
    let mut opened = false;
    let mut i: usize = 0;
    while i < chars.len()
        invariant
            i <= chars.len(),
            chars@ == text@,
            copied(text@, i as nat) == (Copied { out: out@, quoted, escaped, opened }),
        decreases chars.len() - i,
    {
        let c = chars[i];
        if quoted {
            quoted = escaped || c != '"';
            escaped = !escaped && c == '\\';
            opened = false;
        } else if c == '"' {
            if opened {
                append(&mut out, "\"\":0,");
            }
            quoted = true;
            escaped = false;
            opened = false;
        } else {
            escaped = false;
            opened = c == '{' || opened && (c == ' ' || c == '\t' || c == '\n' || c == '\r');
        }
        out.push(c);
        i = i + 1;
    }
    text_of(&out)
}

/// The value of a JSON document, if the text is one.
pub fn parse_json(text: &str) -> (r: Option<Json>)
    ensures
        match r {
            Some(j) => is_json(text@) && j@ == tree(text@, MAX_DEPTH as nat),
            None => !is_json(text@),
        },
{
    if is_document(shield(text).as_str()) {
        Some(read(text, MAX_DEPTH))
    } else {
        None
    }
}

// ---------------------------------------------------------------------------------------------
// Access
// ---------------------------------------------------------------------------------------------
/// The value of the first of the members from `from` on that has the key.
pub open spec fn member_from(
    members: Seq<(Seq<char>, JsonView)>,
    key: Seq<char>,
    from: nat,
) -> Option<JsonView>
    decreases members.len() - from,
{
    if from >= members.len() {
        None
    } else if members[from as int].0 == key {
        Some(members[from as int].1)
    } else {
        member_from(members, key, from + 1)
    }
}

impl JsonView {
    /// The member with the key, of an object that has it.
    pub open spec fn member(self, key: Seq<char>) -> Option<JsonView> {
        match self {
            JsonView::Object(members) => member_from(members, key, 0),
            _ => None,
        }
    }

    /// The items of a list.
    pub open spec fn items(self) -> Option<Seq<JsonView>> {
        match self {
            JsonView::List(items) => Some(items),
            _ => None,
        }
    }

    /// The characters of a string.
    pub open spec fn text(self) -> Option<Seq<char>> {
        match self {
            JsonView::Text(s) => Some(s),
            _ => None,
        }
    }

    /// The bits of a number.
    pub open spec fn number(self) -> Option<u64> {
        match self {
            JsonView::Number(bits, _) => Some(bits),
            _ => None,
        }
    }

    /// A number that is written as a natural number.
    pub open spec fn whole(self) -> Option<u64> {
        match self {
            JsonView::Number(_, whole) => whole,
            _ => None,
        }
    }
}

/// What a value holds, if there is one.
pub open spec fn found(v: Option<&Json>) -> Option<JsonView> {
    match v {
        Some(j) => Some(j@),
        None => None,
    }
}

impl Json {
    /// The member with the key, of an object that has it.
    pub fn get(&self, key: &str) -> (r: Option<&Json>)
        ensures
            found(r) == self@.member(key@),
    {
        match self {
            Json::Object(members) => {
                proof {
                    lemma_members_view(members@);
                }
                let mut i: usize = 0;
                while i < members.len()
                    invariant
                        i <= members.len(),
                        self@ == JsonView::Object(members_view(members@)),
                        members_view(members@).len() == members.len(),
                        forall|k: int|
                            0 <= k < members.len() ==> #[trigger] members_view(members@)[k] == (
                                members[k].key@,
                                members[k].value@,
                            ),
                        member_from(members_view(members@), key@, 0) == member_from(
                            members_view(members@),
                            key@,
                            i as nat,
                        ),
                    decreases members.len() - i,
                {
                    assert(members_view(members@)[i as int].0 == members[i as int].key@);
                    if same_text(members[i].key.as_str(), key) {
                        return Some(&members[i].value);
                    }
                    i = i + 1;
                }
                None
            },
            _ => None,
        }
    }

    /// The items of a list.
    pub fn as_array(&self) -> (r: Option<&Vec<Json>>)
        ensures
            match r {
                Some(items) => self@.items() == Some(list_view(items@)) && *self == Json::List(
                    *items,
                ),
                None => self@.items() is None,
            },
    {
        match self {
            Json::List(items) => Some(items),
            _ => None,
        }
    }

    /// The characters of a string.
    pub fn as_str(&self) -> (r: Option<&str>)
        ensures
            match r {
                Some(s) => self@.text() == Some(s@),
                None => self@.text() is None,
            },
    {
        match self {
            Json::Text(s) => Some(s.as_str()),
            _ => None,
        }
    }

    /// The bits of a number.
    pub fn as_bits(&self) -> (r: Option<u64>)
        ensures
            r == self@.number(),
    {
        match self {
            Json::Number(bits, _) => Some(*bits),
            _ => None,
        }
    }

    /// A number that is written as a natural number.
    pub fn as_u64(&self) -> (r: Option<u64>)
        ensures
            r == self@.whole(),
    {
        match self {
            Json::Number(_, whole) => *whole,
            _ => None,
        }
    }
}

} // verus!
