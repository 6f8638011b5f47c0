//! JSON documents as the client reads them from the server: parsed by
//! `serde_json`, then held as a value of the library's own type.

use vstd::prelude::*;

verus! {

#[verifier::external_type_specification]
#[verifier::external_body]
pub struct ExSerdeJsonValue(serde_json::Value);

/// A JSON value. Numbers keep what the client reads of them: their value
/// when it is an integer that fits in `i64` (`None` for any other number).
/// Object members keep the order in which `serde_json` holds them.
pub enum JsonValue {
    Null,
    Bool(bool),
    Number(Option<i64>),
    Str(String),
    Array(Vec<JsonValue>),
    Object(Vec<(String, JsonValue)>),
}

/// What `serde_json::from_slice::<serde_json::Value>` makes of `bytes`, in
/// the library's type; `None` when the bytes are not one JSON document.
pub uninterp spec fn json_of_bytes(bytes: Seq<u8>) -> Option<JsonValue>;

/// The same value in the library's type: each variant to its namesake,
/// numbers by `as_i64`, arrays and objects element by element in order.
#[verifier::external_body]
fn from_serde(v: &serde_json::Value) -> JsonValue {
    match v {
        serde_json::Value::Null => JsonValue::Null,
        serde_json::Value::Bool(b) => JsonValue::Bool(*b),
        serde_json::Value::Number(n) => JsonValue::Number(n.as_i64()),
        serde_json::Value::String(s) => JsonValue::Str(s.clone()),
        serde_json::Value::Array(a) => JsonValue::Array(a.iter().map(from_serde).collect()),
        serde_json::Value::Object(m) => JsonValue::Object(
            m.iter().map(|(k, x)| (k.clone(), from_serde(x))).collect(),
        ),
    }
}

/// Parses a JSON document with `serde_json::from_slice` into a
/// `serde_json::Value`, and converts it to a [`JsonValue`].
///
/// Claimed: the result is the named function `json_of_bytes` of the bytes
/// (the parse depends on the bytes alone). What that function is on given
/// bytes is not stated.
#[verifier::external_body]
pub(crate) fn parse_json(bytes: &[u8]) -> (r: Option<JsonValue>)
    ensures
        r == json_of_bytes(bytes@),
{
    match serde_json::from_slice::<serde_json::Value>(bytes) {
        Ok(v) => Some(from_serde(&v)),
        Err(_) => None,
    }
}

/// The first member of `entries` named `key`.
pub open spec fn entry_value(entries: Seq<(String, JsonValue)>, key: Seq<char>) -> Option<
    JsonValue,
>
    decreases entries.len(),
{
    if entries.len() == 0 {
        None
    } else if entries[0].0@ == key {
        Some(entries[0].1)
    } else {
        entry_value(entries.drop_first(), key)
    }
}

/// `v[key]` of `serde_json`: the member named `key` of an object, `Null`
/// when `v` is no object or has no such member.
pub open spec fn member(v: JsonValue, key: Seq<char>) -> JsonValue {
    match v {
        JsonValue::Object(entries) => match entry_value(entries@, key) {
            Some(x) => x,
            None => JsonValue::Null,
        },
        _ => JsonValue::Null,
    }
}

/// `as_str` of `serde_json`: the text of a string.
pub open spec fn as_str(v: JsonValue) -> Option<Seq<char>> {
    match v {
        JsonValue::Str(s) => Some(s@),
        _ => None,
    }
}

/// `as_i64` of `serde_json`: an integer that fits in `i64`.
pub open spec fn as_i64(v: JsonValue) -> Option<i64> {
    match v {
        JsonValue::Number(n) => n,
        _ => None,
    }
}

impl JsonValue {
    /// The member named `key`, when this is an object that has one.
    pub fn get(&self, key: &str) -> (r: Option<&JsonValue>)
        ensures
            match r {
                Some(x) => member(*self, key@) == *x && (*self is Object),
                None => member(*self, key@) == JsonValue::Null,
            },
            self is Object ==> match r {
                Some(x) => ({
                    let entries = self->Object_0@;
                    entry_value(entries, key@) == Some(*x)
                }),
                None => entry_value(self->Object_0@, key@) == None::<JsonValue>,
            },
    {
        match self {
            JsonValue::Object(entries) => {
                let name = String::from_str(key);
                let mut i: usize = 0;
                assert(entries@.subrange(0, entries@.len() as int) =~= entries@);
                while i < entries.len()
                    invariant
                        i <= entries.len(),
                        name@ == key@,
                        *self is Object,
                        self->Object_0 == *entries,
                        entry_value(entries@, key@) == entry_value(
                            entries@.subrange(i as int, entries@.len() as int),
                            key@,
                        ),
                    decreases entries.len() - i,
                {
                    let ghost rest = entries@.subrange(i as int, entries@.len() as int);
                    assert(rest.drop_first() =~= entries@.subrange(i + 1, entries@.len() as int));
                    assert(rest[0] == entries@[i as int]);
                    if entries[i].0 == name {
                        return Some(&entries[i].1);
                    }
                    i = i + 1;
                }
                None
            },
            _ => None,
        }
    }

    /// `self[key].as_str()`, as an owned string.
    pub fn get_str(&self, key: &str) -> (r: Option<String>)
        ensures
            match r {
                Some(s) => as_str(member(*self, key@)) == Some(s@),
                None => as_str(member(*self, key@)) == None::<Seq<char>>,
            },
    {
        match self.get(key) {
            Some(JsonValue::Str(s)) => Some(s.clone()),
            _ => None,
        }
    }

    /// `self[key].as_i64()`.
    pub fn get_i64(&self, key: &str) -> (r: Option<i64>)
        ensures
            r == as_i64(member(*self, key@)),
    {
        match self.get(key) {
            Some(JsonValue::Number(n)) => *n,
            _ => None,
        }
    }
}

} // verus!
