//! A JSON document as plain library values, and the lookups the tools make
//! in it (member access and typed accessors).
use vstd::prelude::*;
use crate::text::str_eq;

verus! {

/// A JSON number, kept as serde_json reports it: its value as an `i64`
/// where serde_json's `Number::as_i64` gives one, and its decimal text.
#[derive(Clone, Debug, PartialEq, Eq)]
pub struct JsonNumber {
    pub as_i64: Option<i64>,
    pub text: String,
}

/// A JSON value. Objects keep their members as (key, value) pairs.
#[derive(Debug, PartialEq, Eq)]
pub enum Json {
    Null,
    Bool(bool),
    Number(JsonNumber),
    Str(String),
    Array(Vec<Json>),
    Object(Vec<(String, Json)>),
}

/// What `serde_json::from_slice::<serde_json::Value>` makes of `bytes`,
/// in this library's representation (`None` where serde_json reports an error).
pub uninterp spec fn json_parse(bytes: Seq<u8>) -> Option<Json>;

/// No two members of an object share a key.
pub open spec fn keys_distinct(m: Seq<(String, Json)>) -> bool {
    forall|i: int, j: int| 0 <= i < j < m.len() ==> (#[trigger] m[i]).0@ != (#[trigger] m[j]).0@
}

/// Every object inside `v` (and `v` itself) has distinct keys.
pub open spec fn json_wf(v: Json) -> bool
    decreases v,
{
    match v {
        Json::Array(a) => forall|i: int| 0 <= i < a@.len() ==> json_wf(#[trigger] a@[i]),
        Json::Object(m) => keys_distinct(m@) && forall|i: int|
            0 <= i < m@.len() ==> json_wf((#[trigger] m@[i]).1),
        _ => true,
    }
}

/// serde_json's document type, carried opaquely into the conversion below.
#[verifier::external_type_specification]
#[verifier::external_body]
pub struct ExValue(serde_json::Value);

/// Converts a `serde_json::Value` into a `Json`, member for member: each
/// number keeps `Number::as_i64` and its `Display` text. Nothing is claimed of it.
#[verifier::external_body]
fn from_serde(v: &serde_json::Value) -> Json {
    match v {
        serde_json::Value::Null => Json::Null,
        serde_json::Value::Bool(b) => Json::Bool(*b),
        serde_json::Value::Number(n) => Json::Number(JsonNumber { as_i64: n.as_i64(), text: n.to_string() }),
        serde_json::Value::String(s) => Json::Str(s.clone()),
        serde_json::Value::Array(a) => Json::Array(a.iter().map(from_serde).collect()),
        serde_json::Value::Object(m) => Json::Object(m.iter().map(|(k, x)| (k.clone(), from_serde(x))).collect()),
    }
}

/// Parses `bytes` with `serde_json::from_slice` into a `serde_json::Value`
/// and converts it to a `Json`. Claimed: the result is the named result
/// `json_parse(bytes)`, and objects in it have distinct keys (serde_json's
/// `Map` is a `BTreeMap` keyed by the member names).
#[verifier::external_body]
pub(crate) fn parse_json(bytes: &[u8]) -> (r: Option<Json>)
    ensures
        r == json_parse(bytes@),
        r matches Some(v) ==> json_wf(v),
{
    match serde_json::from_slice::<serde_json::Value>(bytes) {
        Ok(v) => Some(from_serde(&v)),
        Err(_) => None,
    }
}

/// The value of the first member of `m` whose key is `key`.
pub open spec fn lookup(m: Seq<(String, Json)>, key: Seq<char>) -> Option<Json>
    decreases m.len(),
{
    if m.len() == 0 {
        None
    } else if m[0].0@ == key {
        Some(m[0].1)
    } else {
        lookup(m.drop_first(), key)
    }
}

/// `r` refers to the value that `s` holds, or is `None` where `s` is.
pub open spec fn refers(r: Option<&Json>, s: Option<Json>) -> bool {
    match r {
        Some(x) => s == Some(*x),
        None => s is None,
    }
}

impl Json {
    /// `Value::get` with a string key: the member `key` of an object.
    pub open spec fn member(self, key: Seq<char>) -> Option<Json> {
        match self {
            Json::Object(m) => lookup(m@, key),
            _ => None,
        }
    }

    pub open spec fn bool_of(self) -> Option<bool> {
        match self {
            Json::Bool(b) => Some(b),
            _ => None,
        }
    }

    pub open spec fn int_of(self) -> Option<i64> {
        match self {
            Json::Number(n) => n.as_i64,
            _ => None,
        }
    }

    pub fn get(&self, key: &str) -> (r: Option<&Json>)
        ensures
            refers(r, self.member(key@)),
    {
        match self {
            Json::Object(m) => {
                let mut i: usize = 0;
                assert(m@.subrange(0, m@.len() as int) =~= m@);
                while i < m.len()
                    invariant
                        i <= m@.len(),
                        self.member(key@) == lookup(m@.subrange(i as int, m@.len() as int), key@),
                    decreases m.len() - i,
                {
                    let ghost rest = m@.subrange(i as int, m@.len() as int);
                    assert(rest.drop_first() =~= m@.subrange(i + 1, m@.len() as int));
                    assert(rest[0] == m@[i as int]);
                    if str_eq(m[i].0.as_str(), key) {
                        return Some(&m[i].1);
                    }
                    i = i + 1;
                }
                None
            },
            _ => None,
        }
    }

    pub fn as_bool(&self) -> (r: Option<bool>)
        ensures
            r == self.bool_of(),
    {
        match self {
            Json::Bool(b) => Some(*b),
            _ => None,
        }
    }

    pub fn as_i64(&self) -> (r: Option<i64>)
        ensures
            r == self.int_of(),
    {
        match self {
            Json::Number(n) => n.as_i64,
            _ => None,
        }
    }

    pub fn as_str(&self) -> (r: Option<&String>)
        ensures
            match self {
                Json::Str(s) => r == Some(s),
                _ => r is None,
            },
    {
        match self {
            Json::Str(s) => Some(s),
            _ => None,
        }
    }

    pub fn as_array(&self) -> (r: Option<&Vec<Json>>)
        ensures
            match self {
                Json::Array(a) => r == Some(a),
                _ => r is None,
            },
    {
        match self {
            Json::Array(a) => Some(a),
            _ => None,
        }
    }

    pub fn as_object(&self) -> (r: Option<&Vec<(String, Json)>>)
        ensures
            match self {
                Json::Object(m) => r == Some(m),
                _ => r is None,
            },
    {
        match self {
            Json::Object(m) => Some(m),
            _ => None,
        }
    }
}

} // verus!
