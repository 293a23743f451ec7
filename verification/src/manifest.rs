//! Parsed manifest documents. `serde_json` and `toml` do the parsing; the
//! parsed documents are handed over as plain trees of values that the
//! detectors read.
use vstd::prelude::*;

use crate::text::str_eq;

verus! {

#[verifier::external_type_specification]
#[verifier::external_body]
pub struct ExJsonValue(serde_json::Value);

#[verifier::external_type_specification]
#[verifier::external_body]
pub struct ExTomlValue(toml::Value);

/// A JSON document. Numbers keep their text; objects keep their entries in
/// the order the parser yields them.
#[derive(Debug)]
pub enum JsonValue {
    /// `null`.
    Null,
    /// `true` or `false`.
    Bool(bool),
    /// A number, as text.
    Number(String),
    /// A string.
    Str(String),
    /// An array.
    Array(Vec<JsonValue>),
    /// An object: its keys and values.
    Object(Vec<(String, JsonValue)>),
}

/// A TOML value. Floats and datetimes keep their text; tables keep their
/// entries in the order the parser yields them.
#[derive(Debug)]
pub enum TomlValue {
    /// A string.
    Str(String),
    /// An integer.
    Integer(i64),
    /// A float, as text.
    Float(String),
    /// A boolean.
    Boolean(bool),
    /// A datetime, as text.
    Datetime(String),
    /// An array.
    Array(Vec<TomlValue>),
    /// A table: its keys and values.
    Table(Vec<(String, TomlValue)>),
}

/// The document `serde_json` parses from `content`, or none when the text
/// is not JSON.
pub uninterp spec fn json_of(content: Seq<char>) -> Option<JsonValue>;

/// The top-level table (a [`TomlValue::Table`]) that `toml` parses from
/// `content`, or none when the text is not a TOML document.
pub uninterp spec fn toml_of(content: Seq<char>) -> Option<TomlValue>;

/// Parses `content` as JSON with `serde_json::from_str` into a
/// `serde_json::Value`, and copies it into a [`JsonValue`]. The result is
/// named `json_of`: the parser's output is not restated here.
#[verifier::external_body]
pub(crate) fn parse_json(content: &str) -> (r: Option<JsonValue>)
    ensures
        r == json_of(content@),
{
    serde_json::from_str::<serde_json::Value>(content).ok().map(|v| json_copy(&v))
}

/// A copy of a `serde_json::Value` as a [`JsonValue`], variant by variant.
#[verifier::external_body]
fn json_copy(v: &serde_json::Value) -> JsonValue {
    match v {
        serde_json::Value::Null => JsonValue::Null,
        serde_json::Value::Bool(b) => JsonValue::Bool(*b),
        serde_json::Value::Number(n) => JsonValue::Number(n.to_string()),
        serde_json::Value::String(s) => JsonValue::Str(s.clone()),
        serde_json::Value::Array(a) => JsonValue::Array(a.iter().map(json_copy).collect()),
        serde_json::Value::Object(m) => JsonValue::Object(
            m.iter().map(|(k, x)| (k.clone(), json_copy(x))).collect(),
        ),
    }
}

/// Parses `content` as a TOML document with `str::parse::<toml::Table>`,
/// and copies the table. The result is named `toml_of`.
#[verifier::external_body]
pub(crate) fn parse_toml(content: &str) -> (r: Option<TomlValue>)
    ensures
        r == toml_of(content@),
{
    content.parse::<toml::Table>().ok().map(|t| toml_copy(&toml::Value::Table(t)))
}

/// A copy of a `toml::Value` as a [`TomlValue`], variant by variant.
#[verifier::external_body]
fn toml_copy(v: &toml::Value) -> TomlValue {
    match v {
        toml::Value::String(s) => TomlValue::Str(s.clone()),
        toml::Value::Integer(i) => TomlValue::Integer(*i),
        toml::Value::Float(f) => TomlValue::Float(f.to_string()),
        toml::Value::Boolean(b) => TomlValue::Boolean(*b),
        toml::Value::Datetime(d) => TomlValue::Datetime(d.to_string()),
        toml::Value::Array(a) => TomlValue::Array(a.iter().map(toml_copy).collect()),
        toml::Value::Table(t) => TomlValue::Table(
            t.iter().map(|(k, x)| (k.clone(), toml_copy(x))).collect(),
        ),
    }
}

// --- Reading JSON -----------------------------------------------------------

/// The value of the first entry with key `key` among `entries`.
pub open spec fn json_lookup(entries: Seq<(String, JsonValue)>, key: Seq<char>) -> Option<JsonValue>
    decreases entries.len(),
{
    if entries.len() == 0 {
        None
    } else if entries[0].0@ == key {
        Some(entries[0].1)
    } else {
        json_lookup(entries.drop_first(), key)
    }
}

/// The value at `key` of an object (`Value::get`); none for other values.
pub open spec fn json_get(v: JsonValue, key: Seq<char>) -> Option<JsonValue> {
    match v {
        JsonValue::Object(m) => json_lookup(m@, key),
        _ => None,
    }
}

/// The text of a string value (`Value::as_str`).
pub open spec fn json_str(v: JsonValue) -> Option<Seq<char>> {
    match v {
        JsonValue::Str(s) => Some(s@),
        _ => None,
    }
}

/// The value of the first entry with key `key` among `entries`.
pub fn json_find<'a>(entries: &'a Vec<(String, JsonValue)>, key: &str) -> (r: Option<&'a JsonValue>)
    ensures
        match r {
            Some(x) => json_lookup(entries@, key@) == Some(*x),
            None => json_lookup(entries@, key@) is None,
        },
{
    let mut i: usize = 0;
    assert(entries@.skip(0) == entries@);
    while i < entries.len()
        invariant
            i <= entries@.len(),
            json_lookup(entries@, key@) == json_lookup(entries@.skip(i as int), key@),
        decreases entries@.len() - i,
    {
        assert(entries@.skip(i as int)[0] == entries@[i as int]);
        assert(entries@.skip(i as int).drop_first() == entries@.skip(i + 1));
        if str_eq(&entries[i].0, key) {
            return Some(&entries[i].1);
        }
        i += 1;
    }
    None
}

impl JsonValue {
    /// The value at `key` of an object.
    pub fn get(&self, key: &str) -> (r: Option<&JsonValue>)
        ensures
            match r {
                Some(x) => json_get(*self, key@) == Some(*x),
                None => json_get(*self, key@) is None,
            },
    {
        match self {
            JsonValue::Object(m) => json_find(m, key),
            _ => None,
        }
    }

    /// The text of a string value.
    pub fn as_str(&self) -> (r: Option<&str>)
        ensures
            match r {
                Some(s) => json_str(*self) == Some(s@),
                None => json_str(*self) is None,
            },
    {
        match self {
            JsonValue::Str(s) => Some(s.as_str()),
            _ => None,
        }
    }
}

// --- Reading TOML -----------------------------------------------------------

/// The value of the first entry with key `key` among `entries`.
pub open spec fn toml_lookup(entries: Seq<(String, TomlValue)>, key: Seq<char>) -> Option<TomlValue>
    decreases entries.len(),
{
    if entries.len() == 0 {
        None
    } else if entries[0].0@ == key {
        Some(entries[0].1)
    } else {
        toml_lookup(entries.drop_first(), key)
    }
}

/// The value at `key` of a table (`Value::get`); none for other values.
pub open spec fn toml_get(v: TomlValue, key: Seq<char>) -> Option<TomlValue> {
    match v {
        TomlValue::Table(m) => toml_lookup(m@, key),
        _ => None,
    }
}

/// The text of a string value (`Value::as_str`).
pub open spec fn toml_str(v: TomlValue) -> Option<Seq<char>> {
    match v {
        TomlValue::Str(s) => Some(s@),
        _ => None,
    }
}

/// The value of the first entry with key `key` among `entries`.
pub fn toml_find<'a>(entries: &'a Vec<(String, TomlValue)>, key: &str) -> (r: Option<&'a TomlValue>)
    ensures
        match r {
            Some(x) => toml_lookup(entries@, key@) == Some(*x),
            None => toml_lookup(entries@, key@) is None,
        },
{
    let mut i: usize = 0;
    assert(entries@.skip(0) == entries@);
    while i < entries.len()
        invariant
            i <= entries@.len(),
            toml_lookup(entries@, key@) == toml_lookup(entries@.skip(i as int), key@),
        decreases entries@.len() - i,
    {
        assert(entries@.skip(i as int)[0] == entries@[i as int]);
        assert(entries@.skip(i as int).drop_first() == entries@.skip(i + 1));
        if str_eq(&entries[i].0, key) {
            return Some(&entries[i].1);
        }
        i += 1;
    }
    None
}

impl TomlValue {
    /// The value at `key` of a table.
    pub fn get(&self, key: &str) -> (r: Option<&TomlValue>)
        ensures
            match r {
                Some(x) => toml_get(*self, key@) == Some(*x),
                None => toml_get(*self, key@) is None,
            },
    {
        match self {
            TomlValue::Table(m) => toml_find(m, key),
            _ => None,
        }
    }

    /// The text of a string value.
    pub fn as_str(&self) -> (r: Option<&str>)
        ensures
            match r {
                Some(s) => toml_str(*self) == Some(s@),
                None => toml_str(*self) is None,
            },
    {
        match self {
            TomlValue::Str(s) => Some(s.as_str()),
            _ => None,
        }
    }
}

} // verus!
