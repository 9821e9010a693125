//! What the `serde_json` and `toml` crates make of text: configuration
//! documents, TOML expressions given on the command line, and the pretty
//! TOML text of a document. Each result is named by a function of its
//! argument alone; the library's logic works on those names.

use vstd::prelude::*;
use crate::toml_value::{TomlData, TomlValue};
use crate::value::{JsonData, JsonNumber, JsonValue};
use toml::Value;

verus! {

#[verifier::external_type_specification]
#[verifier::external_body]
pub struct ExTomlValue(toml::Value);

#[verifier::external_type_specification]
#[verifier::external_body]
pub struct ExSerdeJsonNumber(serde_json::Number);

/// A `serde_json::Number` as a library number: unsigned, else signed,
/// else a float by its bit pattern and its JSON text.
#[verifier::external_body]
fn library_number(n: &serde_json::Number) -> JsonNumber {
    match (n.as_u64(), n.as_i64()) {
        (Some(u), _) => JsonNumber::PosInt(u),
        (None, Some(i)) => JsonNumber::NegInt(i),
        _ => JsonNumber::Float(n.as_f64().unwrap_or_default().to_bits(), n.to_string()),
    }
}

/// A `serde_json::Value` as a library document, variant for variant.
#[verifier::external_body]
fn library_json(v: &serde_json::Value) -> JsonValue {
    match v {
        serde_json::Value::Null => JsonValue::Null,
        serde_json::Value::Bool(b) => JsonValue::Bool(*b),
        serde_json::Value::Number(n) => JsonValue::Number(library_number(n)),
        serde_json::Value::String(s) => JsonValue::String(s.clone()),
        serde_json::Value::Array(items) => JsonValue::Array(items.iter().map(library_json).collect()),
        serde_json::Value::Object(m) => JsonValue::Object(m.iter().map(|(k, x)| (k.clone(), library_json(x))).collect()),
    }
}

/// A `toml::Value` as a library TOML value, variant for variant; a float
/// keeps its bit pattern and the text JSON writes for it, a date-time its
/// TOML text.
#[verifier::external_body]
fn library_toml(v: &Value) -> TomlValue {
    match v {
        Value::String(s) => TomlValue::String(s.clone()),
        Value::Integer(i) => TomlValue::Integer(*i),
        Value::Float(f) => TomlValue::Float(f.to_bits(), serde_json::Number::from_f64(*f).map_or(f.to_string(), |n| n.to_string())),
        Value::Boolean(b) => TomlValue::Boolean(*b),
        Value::Datetime(d) => TomlValue::Datetime(d.to_string()),
        Value::Array(items) => TomlValue::Array(items.iter().map(library_toml).collect()),
        Value::Table(t) => TomlValue::Table(t.iter().map(|(k, x)| (k.clone(), library_toml(x))).collect()),
    }
}

/// A library TOML value as a `toml::Value`, variant for variant; a float is
/// rebuilt from its text, a date-time from its text (a string where that
/// text is not one).
#[verifier::external_body]
fn toml_of_library(v: &TomlValue) -> Value {
    match v {
        TomlValue::String(s) => Value::String(s.clone()),
        TomlValue::Integer(i) => Value::Integer(*i),
        TomlValue::Float(_, t) => Value::Float(t.parse().unwrap_or_default()),
        TomlValue::Boolean(b) => Value::Boolean(*b),
        TomlValue::Datetime(t) => t.parse().map(Value::Datetime).unwrap_or(Value::String(t.clone())),
        TomlValue::Array(items) => Value::Array(items.iter().map(toml_of_library).collect()),
        TomlValue::Table(es) => Value::Table(es.iter().map(|(k, x)| (k.clone(), toml_of_library(x))).collect()),
    }
}

/// What `serde_json::from_str::<serde_json::Value>` makes of a text: the
/// document, or the message of its error.
pub uninterp spec fn json_document_reading(text: Seq<char>) -> Result<JsonData, Seq<char>>;

/// Reads a JSON document with `serde_json::from_str`; the outcome is named
/// `json_document_reading`.
#[verifier::external_body]
pub(crate) fn read_json_document(text: &str) -> (r: Result<JsonValue, String>)
    ensures
        match r {
            Ok(v) => json_document_reading(text@) == Ok::<JsonData, Seq<char>>(v.data()),
            Err(m) => json_document_reading(text@) == Err::<JsonData, Seq<char>>(m@),
        },
{
    serde_json::from_str::<serde_json::Value>(text).map(|v| library_json(&v)).map_err(|e| e.to_string())
}

/// What `str::parse::<toml::Value>` makes of a text: the document, or the
/// message of its error.
pub uninterp spec fn toml_document_reading(text: Seq<char>) -> Result<TomlData, Seq<char>>;

/// Reads a TOML document with `str::parse::<toml::Value>`; the outcome is
/// named `toml_document_reading`.
#[verifier::external_body]
pub(crate) fn read_toml_document(text: &str) -> (r: Result<TomlValue, String>)
    ensures
        match r {
            Ok(t) => toml_document_reading(text@) == Ok::<TomlData, Seq<char>>(t.data()),
            Err(m) => toml_document_reading(text@) == Err::<TomlData, Seq<char>>(m@),
        },
{
    text.parse::<toml::Value>().map(|v| library_toml(&v)).map_err(|e| e.to_string())
}

/// The value of `raw` read as a TOML expression: what `toml` makes of the
/// document `value = <raw>` as a `toml::Table`, at `value`.
pub uninterp spec fn toml_expression_reading(raw: Seq<char>) -> Option<TomlData>;

/// Reads `raw` as a TOML expression; the outcome is named
/// `toml_expression_reading`.
#[verifier::external_body]
pub(crate) fn read_toml_expression(raw: &str) -> (r: Option<TomlValue>)
    ensures
        match r {
            Some(t) => toml_expression_reading(raw@) == Some(t.data()),
            None => toml_expression_reading(raw@) is None,
        },
{
    format!("value = {raw}").parse::<toml::Table>().ok().and_then(|t| t.get("value").map(library_toml))
}

/// What `toml::to_string_pretty` writes for a TOML value: its text, or the
/// message of its error.
pub uninterp spec fn toml_pretty_text(t: TomlData) -> Result<Seq<char>, Seq<char>>;

/// Writes a TOML value with `toml::to_string_pretty`; the outcome is named
/// `toml_pretty_text`.
#[verifier::external_body]
pub(crate) fn toml_pretty(v: &TomlValue) -> (r: Result<String, String>)
    ensures
        match r {
            Ok(s) => toml_pretty_text(v@) == Ok::<Seq<char>, Seq<char>>(s@),
            Err(m) => toml_pretty_text(v@) == Err::<Seq<char>, Seq<char>>(m@),
        },
{
    toml::to_string_pretty(&toml_of_library(v)).map_err(|e| e.to_string())
}

} // verus!
