//! Text renderings: decimal numbers, and the rendering of values in
//! provenance output.

use vstd::prelude::*;
use crate::text::push_char;
use serde_json::Value;
use crate::value::{JsonData, JsonNumber, JsonValue};

verus! {

broadcast use vstd::std_specs::vec::group_vec_axioms;

/// The character of a decimal digit.
pub open spec fn digit_char(d: int) -> char {
    (48 + d) as char
}

/// The decimal text of a natural number, without leading zeros.
pub open spec fn decimal_text(n: nat) -> Seq<char>
    decreases n,
{
    if n < 10 {
        seq![digit_char(n as int)]
    } else {
        decimal_text(n / 10).push(digit_char((n % 10) as int))
    }
}

fn digit(d: u64) -> (c: char)
    requires
        d < 10,
    ensures
        c == digit_char(d as int),
{
    let code: u32 = 48 + d as u32;
    assert(48 <= code <= 57);
    code as u8 as char
}

/// Appends the decimal text of `n` to `out`.
pub fn push_decimal(out: &mut String, n: u64)
    ensures
        final(out)@ == old(out)@ + decimal_text(n as nat),
    decreases n,
{
    if n >= 10 {
        push_decimal(out, n / 10);
    }
    push_char(out, digit(n % 10));
    proof {
        if n >= 10 {
            assert(decimal_text(n as nat) == decimal_text((n / 10) as nat).push(digit_char((n % 10) as int)));
        }
    }
}

/// The decimal text of `n`.
pub fn decimal_string(n: u64) -> (r: String)
    ensures
        r@ == decimal_text(n as nat),
{
    let mut s = String::new();
    push_decimal(&mut s, n);
    proof {
        assert(Seq::<char>::empty() + decimal_text(n as nat) =~= decimal_text(n as nat));
    }
    s
}

/// The compact JSON text that `serde_json` writes for a document (the
/// `Display` of `serde_json::Value`).
pub uninterp spec fn serde_json_text(d: JsonData) -> Seq<char>;

#[verifier::external_type_specification]
#[verifier::external_body]
pub struct ExSerdeJsonValue(serde_json::Value);

/// A library document as a `serde_json::Value`, variant for variant; a
/// float is rebuilt from its text by `serde_json::Number`'s `FromStr`
/// (`null` where that text does not parse).
#[verifier::external_body]
fn serde_value(v: &JsonValue) -> Value {
    match v {
        JsonValue::Null => Value::Null,
        JsonValue::Bool(b) => Value::Bool(*b),
        JsonValue::Number(JsonNumber::PosInt(u)) => Value::from(*u),
        JsonValue::Number(JsonNumber::NegInt(i)) => Value::from(*i),
        JsonValue::Number(JsonNumber::Float(_, t)) => t.parse().map(Value::Number).unwrap_or_default(),
        JsonValue::String(s) => Value::String(s.clone()),
        JsonValue::Array(items) => Value::Array(items.iter().map(serde_value).collect()),
        JsonValue::Object(m) => Value::Object(m.iter().map(|(k, x)| (k.clone(), serde_value(x))).collect()),
    }
}

/// `serde_json::Value::to_string` (its `Display`) of the document: its
/// compact JSON text, named `serde_json_text`, a function of the document
/// alone.
#[verifier::external_body]
fn serde_json_string(v: &JsonValue) -> (r: String)
    ensures
        r@ == serde_json_text(v.data()),
{
    serde_value(v).to_string()
}

/// How Rust's `Debug` formatting writes a string: in double quotes, with
/// escapes.
pub uninterp spec fn debug_quoted(s: Seq<char>) -> Seq<char>;

/// `format!("{:?}", s)`: the `Debug` rendering of a string slice. Its result
/// is named `debug_quoted`, a function of the string alone.
#[verifier::external_body]
fn debug_quote(s: &str) -> (r: String)
    ensures
        r@ == debug_quoted(s@),
{
    format!("{:?}", s)
}

/// How a value is shown in provenance output: a string in Rust's debug
/// quoting, anything else as `serde_json` writes it.
pub open spec fn value_text(d: JsonData) -> Seq<char> {
    match d {
        JsonData::Str(s) => debug_quoted(s),
        _ => serde_json_text(d),
    }
}

/// Renders a value for provenance output (see `value_text`).
pub fn render_value(value: &JsonValue) -> (r: String)
    ensures
        r@ == value_text(value.data()),
{
    match value {
        JsonValue::String(s) => debug_quote(s.as_str()),
        _ => serde_json_string(value),
    }
}

} // verus!
