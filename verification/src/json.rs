//! JSON documents as plain values, and the JSON parser of `serde_json`
//! behind one trusted wrapper.
use vstd::prelude::*;

verus! {

/// A JSON document. Numbers are kept as their decimal text. An object is a
/// list of members; a member is found by the first one with its key. Objects
/// that `parse_json` reads hold each key once, in key order (the order of
/// `serde_json`'s map); objects built in code keep the order they are built
/// in, and nothing stops them from repeating a key.
#[derive(Debug)]
pub enum JsonValue {
    Null,
    Bool(bool),
    Number(String),
    Text(String),
    Array(Vec<JsonValue>),
    Object(Vec<(String, JsonValue)>),
}

/// The value of the first member named `key` among `members`.
pub open spec fn lookup(members: Seq<(String, JsonValue)>, key: Seq<char>) -> Option<JsonValue>
    decreases members.len(),
{
    if members.len() == 0 {
        None
    } else if members[0].0@ == key {
        Some(members[0].1)
    } else {
        lookup(members.drop_first(), key)
    }
}

/// The member `key` of an object (`serde_json::Value::get` with a string key);
/// `None` for any other value.
pub open spec fn json_get(v: JsonValue, key: Seq<char>) -> Option<JsonValue> {
    match v {
        JsonValue::Object(members) => lookup(members@, key),
        _ => None,
    }
}

/// The member `key` of `v`, when `v` is a value.
pub open spec fn json_get_opt(v: Option<JsonValue>, key: Seq<char>) -> Option<JsonValue> {
    match v {
        Some(x) => json_get(x, key),
        None => None,
    }
}

/// The text of a string value (`serde_json::Value::as_str`).
pub open spec fn json_str(v: Option<JsonValue>) -> Option<Seq<char>> {
    match v {
        Some(JsonValue::Text(s)) => Some(s@),
        _ => None,
    }
}

/// The elements of an array value (`serde_json::Value::as_array`).
pub open spec fn json_array(v: Option<JsonValue>) -> Option<Seq<JsonValue>> {
    match v {
        Some(JsonValue::Array(items)) => Some(items@),
        _ => None,
    }
}

impl JsonValue {
    /// The member `key` of an object; `None` when `self` is no object or has
    /// no such member.
    pub fn get(&self, key: &str) -> (r: Option<&JsonValue>)
        ensures
            match r {
                Some(x) => json_get(*self, key@) == Some(*x),
                None => json_get(*self, key@) is None,
            },
    {
        match self {
            JsonValue::Object(members) => {
                let mut i: usize = 0;
                assert(members@.skip(0) == members@);
                while i < members.len()
                    invariant
                        i <= members@.len(),
                        json_get(*self, key@) == lookup(members@, key@),
                        lookup(members@, key@) == lookup(members@.skip(i as int), key@),
                    decreases members.len() - i,
                {
                    assert(members@.skip(i as int).drop_first() == members@.skip(i + 1));
                    assert(members@.skip(i as int)[0] == members@[i as int]);
                    if str_eq(members[i].0.as_str(), key) {
                        return Some(&members[i].1);
                    }
                    i = i + 1;
                }
                None
            },
            _ => None,
        }
    }

    /// The text of a string value.
    pub fn as_str(&self) -> (r: Option<&str>)
        ensures
            match r {
                Some(s) => json_str(Some(*self)) == Some(s@),
                None => json_str(Some(*self)) is None,
            },
    {
        match self {
            JsonValue::Text(s) => Some(s.as_str()),
            _ => None,
        }
    }

    /// The elements of an array value.
    pub fn as_array(&self) -> (r: Option<&Vec<JsonValue>>)
        ensures
            match r {
                Some(items) => json_array(Some(*self)) == Some(items@),
                None => json_array(Some(*self)) is None,
            },
    {
        match self {
            JsonValue::Array(items) => Some(items),
            _ => None,
        }
    }
}

/// Whether two strings hold the same characters.
pub fn str_eq(a: &str, b: &str) -> (r: bool)
    ensures
        r == (a@ == b@),
{
    let av = crate::text::chars_of(a);
    crate::text::chars_eq_str(&av, b)
}

#[verifier::external_type_specification]
#[verifier::external_body]
pub struct ExSerdeJsonValue(serde_json::Value);

#[verifier::external_type_specification]
#[verifier::external_body]
pub struct ExSerdeJsonError(serde_json::Error);

/// The document that `serde_json` reads from `text`, or `None` when `text`
/// is not one JSON document. Parsing depends on the text alone.
pub uninterp spec fn parsed_json(text: Seq<char>) -> Option<JsonValue>;

/// `serde_json::from_str::<serde_json::Value>`, its result carried over to
/// `JsonValue`. Claimed: the outcome is `parsed_json` of the text, a
/// function of the text alone; nothing is claimed of which documents parse.
#[verifier::external_body]
fn serde_parse(text: &str) -> (r: Result<JsonValue, serde_json::Error>)
    ensures
        match r {
            Ok(v) => parsed_json(text@) == Some(v),
            Err(_) => parsed_json(text@) is None,
        },
{
    serde_json::from_str::<serde_json::Value>(text).map(from_serde)
}

/// Carries a `serde_json::Value` over to a `JsonValue` member by member,
/// numbers by their decimal text. Part of `serde_parse`, which holds its
/// claims; this function itself claims nothing.
#[verifier::external_body]
fn from_serde(v: serde_json::Value) -> JsonValue {
    match v {
        serde_json::Value::Null => JsonValue::Null,
        serde_json::Value::Bool(b) => JsonValue::Bool(b),
        serde_json::Value::Number(n) => JsonValue::Number(n.to_string()),
        serde_json::Value::String(s) => JsonValue::Text(s),
        serde_json::Value::Array(a) => JsonValue::Array(a.into_iter().map(from_serde).collect()),
        serde_json::Value::Object(m) => JsonValue::Object(
            m.into_iter().map(|(k, x)| (k, from_serde(x))).collect(),
        ),
    }
}

/// Parses `text` as one JSON document; `None` when it is not one.
pub fn parse_json(text: &str) -> (r: Option<JsonValue>)
    ensures
        r == parsed_json(text@),
{
    match serde_parse(text) {
        Ok(v) => Some(v),
        Err(_) => None,
    }
}

/// The keys of an object's members, in order; `None` for any other value.
pub open spec fn member_keys(v: Option<JsonValue>) -> Option<Seq<Seq<char>>> {
    match v {
        Some(JsonValue::Object(members)) => Some(
            members@.map_values(|m: (String, JsonValue)| m.0@),
        ),
        _ => None,
    }
}

/// The member found for `key` is the one at `idx` when that member has the
/// key and no member before it does.
pub proof fn lemma_lookup_at(members: Seq<(String, JsonValue)>, key: Seq<char>, idx: int)
    requires
        0 <= idx < members.len(),
        members[idx].0@ == key,
        forall|j: int| 0 <= j < idx ==> members[j].0@ != key,
    ensures
        lookup(members, key) == Some(members[idx].1),
    decreases idx,
{
    if idx > 0 {
        assert forall|j: int| 0 <= j < idx - 1 implies members.drop_first()[j].0@ != key by {
            assert(members.drop_first()[j] == members[j + 1]);
        }
        lemma_lookup_at(members.drop_first(), key, idx - 1);
    }
}

/// The string value `s`.
pub fn text_value(s: &str) -> (r: JsonValue)
    ensures
        json_str(Some(r)) == Some(s@),
{
    JsonValue::Text(s.to_owned())
}

/// The member `key: value` of an object.
pub fn member(key: &str, value: JsonValue) -> (r: (String, JsonValue))
    ensures
        r.0@ == key@,
        r.1 == value,
{
    (key.to_owned(), value)
}

} // verus!
