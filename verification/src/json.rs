//! JSON as plain values.
use vstd::prelude::*;

use crate::text::same;

verus! {

/// A JSON value of the `serde_json` crate.
#[verifier::external_type_specification]
#[verifier::external_body]
pub struct ExValue(serde_json::Value);

/// What a JSON value says. A number is its text, and its value where it fits
/// into 64 bits unsigned.
#[verifier::ext_equal]
pub enum JsonView {
    Null,
    Bool(bool),
    Number(Seq<char>, Option<u64>),
    Text(Seq<char>),
    List(Seq<JsonView>),
    Object(Seq<(Seq<char>, JsonView)>),
}

/// A JSON value.
#[derive(Debug)]
pub enum Json {
    Null,
    Bool(bool),
    Number(String, Option<u64>),
    Text(String),
    List(Vec<Json>),
    Object(Vec<Member>),
}

#[derive(Debug)]
pub struct Member {
    pub key: String,
    pub value: Json,
}

pub open spec fn json_view(j: Json) -> JsonView
    decreases j,
{
    match j {
        Json::Null => JsonView::Null,
        Json::Bool(b) => JsonView::Bool(b),
        Json::Number(digits, n) => JsonView::Number(digits@, n),
        Json::Text(s) => JsonView::Text(s@),
        Json::List(items) => JsonView::List(list_view(items@)),
        Json::Object(members) => JsonView::Object(members_view(members@)),
    }
}

pub open spec fn list_view(items: Seq<Json>) -> Seq<JsonView>
    decreases items,
{
    if items.len() == 0 {
        seq![]
    } else {
        list_view(items.drop_last()).push(json_view(items.last()))
    }
}

pub open spec fn members_view(members: Seq<Member>) -> Seq<(Seq<char>, JsonView)>
    decreases members,
{
    if members.len() == 0 {
        seq![]
    } else {
        members_view(members.drop_last()).push(
            (members.last().key@, json_view(members.last().value)),
        )
    }
}

impl View for Json {
    type V = JsonView;

    open spec fn view(&self) -> JsonView {
        json_view(*self)
    }
}

pub proof fn lemma_list_view(items: Seq<Json>)
    ensures
        list_view(items).len() == items.len(),
        forall|i: int| 0 <= i < items.len() ==> #[trigger] list_view(items)[i] == items[i]@,
    decreases items.len(),
{
    if items.len() > 0 {
        lemma_list_view(items.drop_last());
    }
}

pub proof fn lemma_members_view(members: Seq<Member>)
    ensures
        members_view(members).len() == members.len(),
        forall|i: int|
            0 <= i < members.len() ==> #[trigger] members_view(members)[i] == (
                members[i].key@,
                members[i].value@,
            ),
    decreases members.len(),
{
    if members.len() > 0 {
        lemma_members_view(members.drop_last());
    }
}

// ---------------------------------------------------------------------------
// Reading
// ---------------------------------------------------------------------------

/// The value of the first member named `key` from index `i` on.
pub open spec fn find_member(
    members: Seq<(Seq<char>, JsonView)>,
    key: Seq<char>,
    i: int,
) -> JsonView
    decreases members.len() - i,
{
    if i < 0 || i >= members.len() {
        JsonView::Null
    } else if members[i].0 == key {
        members[i].1
    } else {
        find_member(members, key, i + 1)
    }
}

/// An object that has a member named `key`.
pub open spec fn has_member(v: JsonView, key: Seq<char>) -> bool {
    match v {
        JsonView::Object(members) => exists|i: int|
            0 <= i < members.len() && (#[trigger] members[i]).0 == key,
        _ => false,
    }
}

/// A member of an object; `Null` where there is none.
pub open spec fn at(v: JsonView, key: Seq<char>) -> JsonView {
    match v {
        JsonView::Object(members) => find_member(members, key, 0),
        _ => JsonView::Null,
    }
}

pub open spec fn as_text(v: JsonView) -> Option<Seq<char>> {
    match v {
        JsonView::Text(s) => Some(s),
        _ => None,
    }
}

pub open spec fn as_number(v: JsonView) -> Option<u64> {
    match v {
        JsonView::Number(_, n) => n,
        _ => None,
    }
}

pub open spec fn as_bool(v: JsonView) -> Option<bool> {
    match v {
        JsonView::Bool(b) => Some(b),
        _ => None,
    }
}

pub open spec fn as_list(v: JsonView) -> Option<Seq<JsonView>> {
    match v {
        JsonView::List(items) => Some(items),
        _ => None,
    }
}

impl Json {
    /// The member named `key`, if this is an object that has one.
    pub fn get(&self, key: &str) -> (r: Option<&Json>)
        ensures
            match r {
                Some(j) => j@ == at(self@, key@),
                None => at(self@, key@) == JsonView::Null,
            },
            r is Some == has_member(self@, key@),
    {
        match self {
            Json::Object(members) => {
                proof {
                    lemma_members_view(members@);
                }
                let ghost all = members_view(members@);
                let mut i: usize = 0;
                while i < members.len()
                    invariant
                        i <= members@.len(),
                        self@ == JsonView::Object(all),
                        all == members_view(members@),
                        all.len() == members@.len(),
                        forall|k: int|
                            0 <= k < members@.len() ==> #[trigger] all[k] == (
                                members@[k].key@,
                                members@[k].value@,
                            ),
                        find_member(all, key@, 0) == find_member(all, key@, i as int),
                        forall|k: int| 0 <= k < i ==> (#[trigger] all[k]).0 != key@,
                    decreases members@.len() - i,
                {
                    assert(all[i as int].0 == members@[i as int].key@);
                    if same(&members[i].key, key) {
                        return Some(&members[i].value);
                    }
                    i += 1;
                }
                None
            },
            _ => None,
        }
    }

    pub fn text(&self, key: &str) -> (r: Option<&str>)
        ensures
            match r {
                Some(s) => as_text(at(self@, key@)) == Some(s@),
                None => as_text(at(self@, key@)) is None,
            },
    {
        match self.get(key) {
            Some(Json::Text(s)) => Some(s.as_str()),
            _ => None,
        }
    }

    pub fn number(&self, key: &str) -> (r: Option<u64>)
        ensures
            r == as_number(at(self@, key@)),
    {
        match self.get(key) {
            Some(Json::Number(_, n)) => *n,
            _ => None,
        }
    }

    pub fn bool(&self, key: &str) -> (r: Option<bool>)
        ensures
            r == as_bool(at(self@, key@)),
    {
        match self.get(key) {
            Some(Json::Bool(b)) => Some(*b),
            _ => None,
        }
    }

    pub fn list(&self, key: &str) -> (r: Option<&Vec<Json>>)
        ensures
            match r {
                Some(items) => as_list(at(self@, key@)) == Some(list_view(items@)),
                None => as_list(at(self@, key@)) is None,
            },
    {
        match self.get(key) {
            Some(Json::List(items)) => Some(items),
            _ => None,
        }
    }

    /// The text of a member of a member.
    pub fn text_in(&self, outer: &str, key: &str) -> (r: Option<&str>)
        ensures
            match r {
                Some(s) => as_text(at(at(self@, outer@), key@)) == Some(s@),
                None => as_text(at(at(self@, outer@), key@)) is None,
            },
    {
        match self.get(outer) {
            Some(j) => j.text(key),
            None => None,
        }
    }
}

// ---------------------------------------------------------------------------
// The outside crate
// ---------------------------------------------------------------------------

/// What a `serde_json` value holds.
pub uninterp spec fn json_content(value: serde_json::Value) -> JsonView;

/// What a JSON text says, or why it is none.
pub uninterp spec fn parsed_json(text: Seq<char>) -> Result<JsonView, Seq<char>>;

/// The shortest JSON text of a value.
pub uninterp spec fn compact_json(value: JsonView) -> Option<Seq<char>>;

/// The JSON text of a value, over several lines.
pub uninterp spec fn pretty_json(value: JsonView) -> Option<Seq<char>>;

/// The text that a JSON string says.
pub uninterp spec fn parsed_string(text: Seq<char>) -> Option<Seq<char>>;

/// `serde_json::from_str` into a `Value`: the value, or the error's message,
/// is a function of the text.
#[verifier::external_body]
pub(crate) fn parse_value(text: &str) -> (r: Result<serde_json::Value, String>)
    ensures
        match r {
            Ok(v) => parsed_json(text@) == Ok::<JsonView, Seq<char>>(json_content(v)),
            Err(e) => parsed_json(text@) == Err::<JsonView, Seq<char>>(e@),
        },
{
    serde_json::from_str(text).map_err(|e| e.to_string())
}

/// The plain value that a `serde_json::Value` holds: one variant for each of
/// its own, numbers by their text and `as_u64`, objects as their members in order.
#[verifier::external_body]
pub(crate) fn json_of(value: &serde_json::Value) -> (r: Json)
    ensures
        r@ == json_content(*value),
{
    match value {
        serde_json::Value::Null => Json::Null,
        serde_json::Value::Bool(b) => Json::Bool(*b),
        serde_json::Value::Number(n) => Json::Number(n.to_string(), n.as_u64()),
        serde_json::Value::String(s) => Json::Text(s.clone()),
        serde_json::Value::Array(items) => Json::List(items.iter().map(json_of).collect()),
        serde_json::Value::Object(members) => Json::Object(
            members.iter().map(|(k, v)| Member { key: k.clone(), value: json_of(v) }).collect(),
        ),
    }
}

/// `serde_json::Value::get` with a name: the member, if the value is an object
/// that has one.
#[verifier::external_body]
pub(crate) fn member<'a>(value: &'a serde_json::Value, key: &str) -> (r: Option<
    &'a serde_json::Value,
>)
    ensures
        match r {
            Some(v) => has_member(json_content(*value), key@) && json_content(*v) == at(
                json_content(*value),
                key@,
            ),
            None => !has_member(json_content(*value), key@),
        },
{
    value.get(key)
}

/// `serde_json::Value::get` with an index: the item, if the value is a list that
/// has one there.
#[verifier::external_body]
pub(crate) fn item(value: &serde_json::Value, i: usize) -> (r: Option<&serde_json::Value>)
    ensures
        match r {
            Some(v) => as_list(json_content(*value)) matches Some(items) && i < items.len()
                && json_content(*v) == items[i as int],
            None => match as_list(json_content(*value)) {
                Some(items) => i >= items.len(),
                None => true,
            },
        },
{
    value.get(i)
}

/// `serde_json::to_string`: the text is a function of what the value holds.
#[verifier::external_body]
pub(crate) fn compact(value: &serde_json::Value) -> (r: Option<String>)
    ensures
        match r {
            Some(s) => compact_json(json_content(*value)) == Some(s@),
            None => compact_json(json_content(*value)) is None,
        },
{
    serde_json::to_string(value).ok()
}

/// `serde_json::to_string_pretty`: the text is a function of what the value holds.
#[verifier::external_body]
pub(crate) fn pretty(value: &serde_json::Value) -> (r: Option<String>)
    ensures
        match r {
            Some(s) => pretty_json(json_content(*value)) == Some(s@),
            None => pretty_json(json_content(*value)) is None,
        },
{
    serde_json::to_string_pretty(value).ok()
}

/// `serde_json::from_str` into a `String`: the string, or that there is none,
/// is a function of the text.
#[verifier::external_body]
pub(crate) fn parse_string(text: &str) -> (r: Option<String>)
    ensures
        match r {
            Some(s) => parsed_string(text@) == Some(s@),
            None => parsed_string(text@) is None,
        },
{
    serde_json::from_str::<String>(text).ok()
}

} // verus!
