//! Conversion of raw command-line and environment strings into values:
//! integer and boolean words, typed conversion, and the untyped reading of
//! `--set` values.

use vstd::prelude::*;
use crate::error::{ErrorView, LccpError};
use crate::keyed::{entries_view, first_lookup, get_first, put, put_entry};
use crate::formats::{read_toml_expression, toml_expression_reading};
use crate::text::{chars_eq_str, chars_of, copy_str, find_char};
use crate::toml_value::{finite_bits, is_finite_bits, int_number, number_from_i64, toml_to_json, toml_to_json_spec, TomlData, TomlValue};
use crate::value::{
    first_item_mismatch, first_mismatch, items_data, lemma_first_mismatch_iff, lemma_items_data, validate_value_matches_type, JsonData, JsonNumber,
    JsonValue, NumberData, ValueType,
};

verus! {

broadcast use vstd::std_specs::vec::group_vec_axioms;

/// An ASCII decimal digit.
pub open spec fn is_digit(c: char) -> bool {
    '0' <= c && c <= '9'
}

/// The value of a decimal digit.
pub open spec fn digit_value(c: char) -> int {
    (c as int) - ('0' as int)
}

/// The value of a string of decimal digits.
pub open spec fn decimal(d: Seq<char>) -> int
    decreases d.len(),
{
    if d.len() == 0 {
        0
    } else {
        decimal(d.drop_last()) * 10 + digit_value(d.last())
    }
}

/// How `str::parse::<i64>` reads a string: an optional `+` or `-`, then
/// one or more decimal digits, within the range of `i64`.
pub open spec fn parse_i64_spec(s: Seq<char>) -> Option<i64> {
    let negative = s.len() > 0 && s[0] == '-';
    let d = unsigned_part(s);
    if d.len() == 0 || !(forall|i: int| 0 <= i < d.len() ==> #[trigger] is_digit(d[i])) {
        None
    } else if decimal(d) > i64_bound(negative) {
        None
    } else if negative {
        Some((-decimal(d)) as i64)
    } else {
        Some(decimal(d) as i64)
    }
}

/// The value of a digit string is at least that of any of its prefixes.
proof fn lemma_decimal_prefix(d: Seq<char>, k: int)
    requires
        0 <= k <= d.len(),
        forall|i: int| 0 <= i < d.len() ==> #[trigger] is_digit(d[i]),
    ensures
        decimal(d.take(k)) <= decimal(d),
        decimal(d) >= 0,
    decreases d.len(),
{
    if d.len() > 0 {
        assert forall|i: int| 0 <= i < d.drop_last().len() implies #[trigger] is_digit(d.drop_last()[i]) by {
            assert(d.drop_last()[i] == d[i]);
        }
        assert(is_digit(d[d.len() - 1]));
        if k == d.len() {
            assert(d.take(k) == d);
            lemma_decimal_prefix(d.drop_last(), 0);
        } else {
            lemma_decimal_prefix(d.drop_last(), k);
            assert(d.drop_last().take(k) == d.take(k));
        }
    }
}

/// The digits part of a string: without a leading `+` or `-`.
pub open spec fn unsigned_part(s: Seq<char>) -> Seq<char> {
    if s.len() > 0 && (s[0] == '-' || s[0] == '+') {
        s.drop_first()
    } else {
        s
    }
}

/// The largest magnitude an `i64` of this sign can have.
pub open spec fn i64_bound(negative: bool) -> int {
    if negative {
        0x8000_0000_0000_0000
    } else {
        0x7fff_ffff_ffff_ffff
    }
}

proof fn lemma_i64_nondigit(s: Seq<char>, k: int)
    requires
        0 <= k < unsigned_part(s).len(),
        !is_digit(unsigned_part(s)[k]),
    ensures
        parse_i64_spec(s) is None,
{
}

proof fn lemma_i64_overflow(s: Seq<char>, k: int)
    requires
        0 <= k <= unsigned_part(s).len(),
        forall|j: int| 0 <= j < k ==> #[trigger] is_digit(unsigned_part(s)[j]),
        decimal(unsigned_part(s).take(k)) > i64_bound(s.len() > 0 && s[0] == '-'),
    ensures
        parse_i64_spec(s) is None,
{
    let d = unsigned_part(s);
    if forall|i: int| 0 <= i < d.len() ==> #[trigger] is_digit(d[i]) {
        lemma_decimal_prefix(d, k);
    }
}

/// Reads a string as `str::parse::<i64>` does.
pub fn parse_i64(s: &Vec<char>) -> (r: Option<i64>)
    ensures
        r == parse_i64_spec(s@),
{
    let n = s.len();
    if n == 0 {
        return None;
    }
    let negative = s[0] == '-';
    let start: usize = if s[0] == '-' || s[0] == '+' { 1 } else { 0 };
    let ghost d = unsigned_part(s@);
    assert(d == s@.skip(start as int));
    assert(d.take(0) =~= Seq::<char>::empty());
    if start == n {
        return None;
    }
    let limit: u64 = if negative { 0x8000_0000_0000_0000 } else { 0x7fff_ffff_ffff_ffff };
    let mut acc: u64 = 0;
    let mut i: usize = start;
    while i < n
        invariant
            start <= i <= n,
            n == s@.len(),
            d == unsigned_part(s@),
            d == s@.skip(start as int),
            d.len() == n - start,
            negative == (s@[0] == '-'),
            forall|j: int| 0 <= j < i - start ==> #[trigger] is_digit(d[j]),
            acc == decimal(d.take(i - start)),
            acc <= limit,
            limit == i64_bound(negative),
        decreases n - i,
    {
        let c = s[i];
        assert(d[i - start] == c);
        if !('0' <= c && c <= '9') {
            proof { lemma_i64_nondigit(s@, i - start); }
            return None;
        }
        let digit: u64 = ((c as u32) - 48) as u64;
        proof {
            assert(d.take(i - start + 1).drop_last() == d.take(i - start));
            assert(d.take(i - start + 1).last() == c);
            assert(decimal(d.take(i - start + 1)) == acc * 10 + digit);
        }
        if acc > (limit - digit) / 10 {
            proof {
                assert(acc * 10 + digit > limit) by (nonlinear_arith)
                    requires acc > (limit - digit) / 10, digit <= 9, limit >= 9;
                lemma_i64_overflow(s@, i - start + 1);
            }
            return None;
        }
        proof {
            assert(acc * 10 + digit <= limit) by (nonlinear_arith)
                requires acc <= (limit - digit) / 10, digit <= 9, limit >= 9;
        }
        acc = acc * 10 + digit;
        i = i + 1;
    }
    proof {
        assert(d.take(n - start) == d);
    }
    if negative {
        if acc == 0x8000_0000_0000_0000 {
            Some(i64::MIN)
        } else {
            Some(-(acc as i64))
        }
    } else {
        Some(acc as i64)
    }
}

/// What the float parser makes of one raw string: the float that
/// `str::parse::<f64>` reads from it (bit pattern and shortest decimal
/// text), when it parses.
#[derive(Debug)]
pub struct RawFact {
    pub float: Option<(u64, String)>,
}

/// The model of a `RawFact`.
pub struct RawFactView {
    pub float: Option<(u64, Seq<char>)>,
}

impl View for RawFact {
    type V = RawFactView;

    open spec fn view(&self) -> RawFactView {
        RawFactView {
            float: match self.float {
                Some((b, t)) => Some((b, t@)),
                None => None,
            },
        }
    }
}

/// Float readings of raw strings, by raw string. A string without an
/// entry does not parse as a float.
#[derive(Debug)]
pub struct RawFacts {
    entries: Vec<(String, RawFact)>,
}

impl View for RawFacts {
    type V = Seq<(Seq<char>, RawFactView)>;

    closed spec fn view(&self) -> Seq<(Seq<char>, RawFactView)> {
        entries_view(self.entries@)
    }
}

/// The facts recorded for `raw`.
pub open spec fn fact_of(facts: Seq<(Seq<char>, RawFactView)>, raw: Seq<char>) -> RawFactView {
    match first_lookup(facts, raw) {
        Some(f) => f,
        None => RawFactView { float: None },
    }
}

impl RawFacts {
    /// An empty table.
    pub fn new() -> (r: RawFacts)
        ensures
            r@ == Seq::<(Seq<char>, RawFactView)>::empty(),
    {
        let r = RawFacts { entries: Vec::new() };
        proof { assert(entries_view(r.entries@) =~= Seq::<(Seq<char>, RawFactView)>::empty()); }
        r
    }

    /// Records the facts about `raw`, replacing earlier ones.
    pub fn insert(&mut self, raw: &str, fact: RawFact)
        ensures
            final(self)@ == put(old(self)@, raw@, fact@),
    {
        put_entry(&mut self.entries, copy_str(raw), fact);
    }

    /// The facts recorded for `raw`.
    pub fn get(&self, raw: &str) -> (r: Option<&RawFact>)
        ensures
            match r {
                Some(f) => first_lookup(self@, raw@) == Some(f@),
                None => first_lookup(self@, raw@) is None,
            },
    {
        get_first(&self.entries, raw)
    }
}

/// The JSON value of the TOML expression read from `raw`, when it parses
/// and converts.
pub open spec fn toml_reading(raw: Seq<char>) -> Option<JsonData> {
    match toml_expression_reading(raw) {
        Some(t) => match toml_to_json_spec(t) {
            Ok(v) => Some(v),
            Err(_) => None,
        },
        None => None,
    }
}

/// The JSON number of the float read from `raw`, when it is finite.
pub open spec fn float_reading(f: RawFactView) -> Option<NumberData> {
    match f.float {
        Some((b, t)) => if is_finite_bits(b) {
            Some(NumberData::Float(b, t))
        } else {
            None
        },
        None => None,
    }
}

/// `true`, `TRUE` or `True`.
pub open spec fn is_true_word(s: Seq<char>) -> bool {
    s == "true"@ || s == "TRUE"@ || s == "True"@
}

/// `false`, `FALSE` or `False`.
pub open spec fn is_false_word(s: Seq<char>) -> bool {
    s == "false"@ || s == "FALSE"@ || s == "False"@
}

/// How an untyped value (an undeclared `--set` key, or an array-typed
/// raw value) is read: as a TOML expression if it is one; else a boolean
/// word, `null`, an `i64`, a finite float when the text holds `.`, `e` or
/// `E`; else the string itself.
pub open spec fn untyped_value(raw: Seq<char>, facts: Seq<(Seq<char>, RawFactView)>) -> JsonData {
    let f = fact_of(facts, raw);
    match toml_reading(raw) {
        Some(v) => v,
        None => if is_true_word(raw) {
            JsonData::Bool(true)
        } else if is_false_word(raw) {
            JsonData::Bool(false)
        } else if raw == "null"@ {
            JsonData::Null
        } else {
            match parse_i64_spec(raw) {
                Some(i) => JsonData::Number(int_number(i)),
                None => if (raw.contains('.') || raw.contains('e') || raw.contains('E')) && float_reading(f) is Some {
                    JsonData::Number(float_reading(f).unwrap())
                } else {
                    JsonData::Str(raw)
                },
            }
        },
    }
}

/// The conversion error for `raw` under `key` and type `t`.
pub open spec fn conversion_error(key: Seq<char>, t: ValueType, raw: Seq<char>) -> ErrorView {
    ErrorView::TypeConversion { key: key, expected: t.describe(), raw: raw }
}

/// How a raw string is read as a value of type `t`: strings as they are;
/// integers as `i64`; floats as finite floats; booleans from the boolean
/// words; arrays by the untyped reading, which must give an array whose
/// elements have the element type.
pub open spec fn typed_value(key: Seq<char>, t: ValueType, raw: Seq<char>, facts: Seq<(Seq<char>, RawFactView)>) -> Result<
    JsonData,
    ErrorView,
> {
    match t {
        ValueType::String => Ok(JsonData::Str(raw)),
        ValueType::Integer => match parse_i64_spec(raw) {
            Some(i) => Ok(JsonData::Number(int_number(i))),
            None => Err(conversion_error(key, t, raw)),
        },
        ValueType::Float => match float_reading(fact_of(facts, raw)) {
            Some(n) => Ok(JsonData::Number(n)),
            None => Err(conversion_error(key, t, raw)),
        },
        ValueType::Boolean => if is_true_word(raw) {
            Ok(JsonData::Bool(true))
        } else if is_false_word(raw) {
            Ok(JsonData::Bool(false))
        } else {
            Err(conversion_error(key, t, raw))
        },
        ValueType::Array(inner) => match untyped_value(raw, facts) {
            JsonData::Array(items) => match first_item_mismatch(items, *inner) {
                None => Ok(JsonData::Array(items)),
                Some(m) => Err(ErrorView::TypeMismatch { key: key, expected: m.0, actual: m.1 }),
            },
            _ => Err(conversion_error(key, t, raw)),
        },
    }
}

/// The JSON value of `raw` read as a TOML expression, if it is one.
fn parse_toml_expression(raw: &str) -> (r: Option<JsonValue>)
    ensures
        match r {
            Some(v) => toml_reading(raw@) == Some(v.data()),
            None => toml_reading(raw@) is None,
        },
{
    match read_toml_expression(raw) {
        Some(t) => match toml_to_json(&t) {
            Ok(v) => Some(v),
            Err(_) => None,
        },
        None => None,
    }
}

/// The finite float recorded for `raw`, if any.
fn float_for(raw: &str, facts: &RawFacts) -> (r: Option<JsonNumber>)
    ensures
        match r {
            Some(n) => float_reading(fact_of(facts@, raw@)) == Some(n@),
            None => float_reading(fact_of(facts@, raw@)) is None,
        },
{
    match facts.get(raw) {
        Some(fact) => match &fact.float {
            Some((bits, text)) => {
                if finite_bits(*bits) {
                    Some(JsonNumber::Float(*bits, copy_str(text.as_str())))
                } else {
                    None
                }
            },
            None => None,
        },
        None => None,
    }
}

/// Whether the characters spell `true`, `TRUE` or `True`.
pub fn true_word(v: &Vec<char>) -> (r: bool)
    ensures
        r == is_true_word(v@),
{
    chars_eq_str(v, "true") || chars_eq_str(v, "TRUE") || chars_eq_str(v, "True")
}

/// Whether the characters spell `false`, `FALSE` or `False`.
pub fn false_word(v: &Vec<char>) -> (r: bool)
    ensures
        r == is_false_word(v@),
{
    chars_eq_str(v, "false") || chars_eq_str(v, "FALSE") || chars_eq_str(v, "False")
}

/// Reads an untyped raw value (see `untyped_value`).
pub fn parse_untyped_cli_value(raw: &str, facts: &RawFacts) -> (r: JsonValue)
    ensures
        r.data() == untyped_value(raw@, facts@),
{
    if let Some(v) = parse_toml_expression(raw) {
        return v;
    }
    let chars = chars_of(raw);
    if true_word(&chars) {
        return JsonValue::Bool(true);
    }
    if false_word(&chars) {
        return JsonValue::Bool(false);
    }
    if chars_eq_str(&chars, "null") {
        return JsonValue::Null;
    }
    if let Some(i) = parse_i64(&chars) {
        return JsonValue::Number(number_from_i64(i));
    }
    let has_marker = find_char(&chars, '.').is_some() || find_char(&chars, 'e').is_some() || find_char(&chars, 'E').is_some();
    if has_marker {
        if let Some(n) = float_for(raw, facts) {
            return JsonValue::Number(n);
        }
    }
    JsonValue::String(copy_str(raw))
}

fn conversion_failure(key: &str, value_type: &ValueType, raw: &str) -> (e: LccpError)
    ensures
        e@ == conversion_error(key@, *value_type, raw@),
{
    LccpError::TypeConversion { key: copy_str(key), expected: value_type.description(), raw: copy_str(raw) }
}

/// Reads a raw value as a value of `value_type` (see `typed_value`).
#[verifier::loop_isolation(false)]
pub fn parse_raw_for_value_type(key: &str, value_type: &ValueType, raw: &str, facts: &RawFacts) -> (r: Result<
    JsonValue,
    LccpError,
>)
    ensures
        match r {
            Ok(v) => typed_value(key@, *value_type, raw@, facts@) == Ok::<JsonData, ErrorView>(v.data()),
            Err(e) => typed_value(key@, *value_type, raw@, facts@) == Err::<JsonData, ErrorView>(e@),
        },
{
    match value_type {
        ValueType::String => Ok(JsonValue::String(copy_str(raw))),
        ValueType::Integer => {
            let chars = chars_of(raw);
            match parse_i64(&chars) {
                Some(i) => Ok(JsonValue::Number(number_from_i64(i))),
                None => Err(conversion_failure(key, value_type, raw)),
            }
        },
        ValueType::Float => match float_for(raw, facts) {
            Some(n) => Ok(JsonValue::Number(n)),
            None => Err(conversion_failure(key, value_type, raw)),
        },
        ValueType::Boolean => {
            let chars = chars_of(raw);
            if true_word(&chars) {
                Ok(JsonValue::Bool(true))
            } else if false_word(&chars) {
                Ok(JsonValue::Bool(false))
            } else {
                Err(conversion_failure(key, value_type, raw))
            }
        },
        ValueType::Array(element_type) => {
            let parsed = parse_untyped_cli_value(raw, facts);
            match parsed {
                JsonValue::Array(values) => {
                    let arr = JsonValue::Array(values);
                    match validate_value_matches_type(key, &arr, value_type) {
                        Ok(()) => Ok(arr),
                        Err(e) => Err(e),
                    }
                },
                _ => Err(conversion_failure(key, value_type, raw)),
            }
        },
    }
}

} // verus!
