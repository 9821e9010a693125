//! TOML values as parsed from configuration files and command-line
//! expressions, and their conversion to JSON-shaped values.

use vstd::prelude::*;
use crate::error::{ErrorView, LccpError};
use crate::keyed::{entries_view, put, put_entry};
use crate::text::copy_str;
use crate::value::{items_data, lemma_items_data, lemma_members_data, members_data, JsonData, JsonNumber, JsonValue, NumberData};

verus! {

broadcast use vstd::std_specs::vec::group_vec_axioms;

/// A TOML value. Floats are held as their IEEE-754 bit pattern together
/// with their shortest decimal text, date-times as their TOML text.
#[derive(Debug, PartialEq)]
pub enum TomlValue {
    String(String),
    Integer(i64),
    Float(u64, String),
    Boolean(bool),
    Datetime(String),
    Array(Vec<TomlValue>),
    Table(Vec<(String, TomlValue)>),
}

/// The model of a TOML value.
pub enum TomlData {
    Str(Seq<char>),
    Integer(i64),
    Float(u64, Seq<char>),
    Boolean(bool),
    Datetime(Seq<char>),
    Array(Seq<TomlData>),
    Table(Seq<(Seq<char>, TomlData)>),
}

impl TomlValue {
    /// The model of this value.
    pub open spec fn data(self) -> TomlData
        decreases self,
    {
        match self {
            TomlValue::String(s) => TomlData::Str(s@),
            TomlValue::Integer(i) => TomlData::Integer(i),
            TomlValue::Float(b, t) => TomlData::Float(b, t@),
            TomlValue::Boolean(b) => TomlData::Boolean(b),
            TomlValue::Datetime(s) => TomlData::Datetime(s@),
            TomlValue::Array(items) => TomlData::Array(toml_items_data(items@)),
            TomlValue::Table(entries) => TomlData::Table(toml_entries_data(entries@)),
        }
    }
}

impl View for TomlValue {
    type V = TomlData;

    open spec fn view(&self) -> TomlData {
        self.data()
    }
}

/// The models of a sequence of TOML values.
pub open spec fn toml_items_data(s: Seq<TomlValue>) -> Seq<TomlData>
    decreases s,
{
    if s.len() == 0 {
        Seq::empty()
    } else {
        seq![s[0].data()] + toml_items_data(s.drop_first())
    }
}

/// The models of a sequence of TOML table entries.
pub open spec fn toml_entries_data(s: Seq<(String, TomlValue)>) -> Seq<(Seq<char>, TomlData)>
    decreases s,
{
    if s.len() == 0 {
        Seq::empty()
    } else {
        seq![(s[0].0@, s[0].1.data())] + toml_entries_data(s.drop_first())
    }
}

/// `toml_items_data` maps each element to its model.
pub proof fn lemma_toml_items_data(s: Seq<TomlValue>)
    ensures
        toml_items_data(s).len() == s.len(),
        forall|i: int| 0 <= i < s.len() ==> #[trigger] toml_items_data(s)[i] == s[i].data(),
    decreases s.len(),
{
    if s.len() > 0 {
        lemma_toml_items_data(s.drop_first());
        assert forall|i: int| 0 <= i < s.len() implies #[trigger] toml_items_data(s)[i] == s[i].data() by {
            if i > 0 {
                assert(toml_items_data(s)[i] == toml_items_data(s.drop_first())[i - 1]);
            }
        }
    }
}

/// `toml_entries_data` maps each entry to its model.
pub proof fn lemma_toml_entries_data(s: Seq<(String, TomlValue)>)
    ensures
        toml_entries_data(s).len() == s.len(),
        forall|i: int| 0 <= i < s.len() ==> #[trigger] toml_entries_data(s)[i] == (s[i].0@, s[i].1.data()),
    decreases s.len(),
{
    if s.len() > 0 {
        lemma_toml_entries_data(s.drop_first());
        assert forall|i: int| 0 <= i < s.len() implies #[trigger] toml_entries_data(s)[i] == (s[i].0@, s[i].1.data()) by {
            if i > 0 {
                assert(toml_entries_data(s)[i] == toml_entries_data(s.drop_first())[i - 1]);
            }
        }
    }
}

/// A float bit pattern denotes a finite number: its exponent field is not
/// all ones.
pub open spec fn is_finite_bits(bits: u64) -> bool {
    (bits >> 52u64) & 0x7ffu64 != 0x7ffu64
}

/// Whether the float with these bits is finite.
pub fn finite_bits(bits: u64) -> (r: bool)
    ensures
        r == is_finite_bits(bits),
{
    (bits >> 52u64) & 0x7ffu64 != 0x7ffu64
}

/// The JSON number of an `i64`: non-negative values are unsigned.
pub open spec fn int_number(i: i64) -> NumberData {
    if i >= 0 {
        NumberData::PosInt(i as u64)
    } else {
        NumberData::NegInt(i)
    }
}

/// The JSON number of an `i64`.
pub fn number_from_i64(i: i64) -> (r: JsonNumber)
    ensures
        r@ == int_number(i),
{
    if i >= 0 {
        JsonNumber::PosInt(i as u64)
    } else {
        JsonNumber::NegInt(i)
    }
}

/// The error raised for a non-finite TOML float.
pub open spec fn non_finite_error() -> ErrorView {
    ErrorView::SerializeToml("TOML float value is not finite"@)
}

/// The JSON value of a TOML value: strings and date-times become strings,
/// integers and finite floats numbers, booleans booleans, arrays arrays and
/// tables objects (entries put in order, later keys replacing earlier
/// ones); a non-finite float is an error.
pub open spec fn toml_to_json_spec(t: TomlData) -> Result<JsonData, ErrorView>
    decreases t, 1nat,
{
    match t {
        TomlData::Str(s) => Ok(JsonData::Str(s)),
        TomlData::Integer(i) => Ok(JsonData::Number(int_number(i))),
        TomlData::Float(b, t) => if is_finite_bits(b) {
            Ok(JsonData::Number(NumberData::Float(b, t)))
        } else {
            Err(non_finite_error())
        },
        TomlData::Boolean(b) => Ok(JsonData::Bool(b)),
        TomlData::Datetime(s) => Ok(JsonData::Str(s)),
        TomlData::Array(items) => match toml_items_to_json(items) {
            Ok(v) => Ok(JsonData::Array(v)),
            Err(e) => Err(e),
        },
        TomlData::Table(entries) => match toml_table_to_json(entries, Seq::empty()) {
            Ok(m) => Ok(JsonData::Object(m)),
            Err(e) => Err(e),
        },
    }
}

/// Converts items in order; the first error wins.
pub open spec fn toml_items_to_json(items: Seq<TomlData>) -> Result<Seq<JsonData>, ErrorView>
    decreases items, 0nat,
{
    if items.len() == 0 {
        Ok(Seq::empty())
    } else {
        match toml_to_json_spec(items[0]) {
            Err(e) => Err(e),
            Ok(v) => match toml_items_to_json(items.drop_first()) {
                Err(e) => Err(e),
                Ok(rest) => Ok(seq![v] + rest),
            },
        }
    }
}

/// Converts table entries in order, putting each into `acc`; the first
/// error wins.
pub open spec fn toml_table_to_json(entries: Seq<(Seq<char>, TomlData)>, acc: Seq<(Seq<char>, JsonData)>) -> Result<
    Seq<(Seq<char>, JsonData)>,
    ErrorView,
>
    decreases entries, 0nat,
{
    if entries.len() == 0 {
        Ok(acc)
    } else {
        match toml_to_json_spec(entries[0].1) {
            Err(e) => Err(e),
            Ok(v) => toml_table_to_json(entries.drop_first(), put(acc, entries[0].0, v)),
        }
    }
}

/// Prepends converted items to a conversion result.
pub open spec fn prepend_ok(pre: Seq<JsonData>, r: Result<Seq<JsonData>, ErrorView>) -> Result<Seq<JsonData>, ErrorView> {
    match r {
        Ok(rest) => Ok(pre + rest),
        Err(e) => Err(e),
    }
}

/// The models of object members are the views of the entries.
pub proof fn lemma_members_entries_view(s: Seq<(String, JsonValue)>)
    ensures
        members_data(s) == entries_view(s),
{
    lemma_members_data(s);
    assert(members_data(s) =~= entries_view(s));
}

/// Converts a TOML value to a JSON value (see `toml_to_json_spec`).
#[verifier::loop_isolation(false)]
pub fn toml_to_json(value: &TomlValue) -> (r: Result<JsonValue, LccpError>)
    ensures
        match r {
            Ok(v) => toml_to_json_spec(value.data()) == Ok::<JsonData, ErrorView>(v.data()),
            Err(e) => toml_to_json_spec(value.data()) == Err::<JsonData, ErrorView>(e@),
        },
    decreases value,
{
    match value {
        TomlValue::String(s) => Ok(JsonValue::String(copy_str(s.as_str()))),
        TomlValue::Integer(i) => Ok(JsonValue::Number(number_from_i64(*i))),
        TomlValue::Float(b, t) => {
            if finite_bits(*b) {
                Ok(JsonValue::Number(JsonNumber::Float(*b, copy_str(t.as_str()))))
            } else {
                Err(LccpError::SerializeToml(copy_str("TOML float value is not finite")))
            }
        },
        TomlValue::Boolean(b) => Ok(JsonValue::Bool(*b)),
        TomlValue::Datetime(s) => Ok(JsonValue::String(copy_str(s.as_str()))),
        TomlValue::Array(items) => {
            proof { lemma_toml_items_data(items@); }
            let ghost d = toml_items_data(items@);
            let mut out: Vec<JsonValue> = Vec::new();
            proof {
                assert(d.skip(0) == d);
                lemma_items_data(out@);
                match toml_items_to_json(d) { Ok(x) => { assert(items_data(out@) + x =~= x); }, Err(_) => {} }
            }
            for i in 0..items.len()
                invariant
                    d == toml_items_data(items@),
                    d.len() == items@.len(),
                    toml_items_to_json(d) == prepend_ok(items_data(out@), toml_items_to_json(d.skip(i as int))),
            {
                proof {
                    assert(*value == TomlValue::Array(*items));
                    assert(decreases_to!(*value => *items));
                    assert(decreases_to!(*items => items@));
                    assert(decreases_to!(items@ => items@[i as int]));
                    assert(d.skip(i as int)[0] == items@[i as int].data());
                    assert(d.skip(i as int).drop_first() == d.skip(i + 1));
                }
                let v = toml_to_json(&items[i])?;
                let ghost before = out@;
                out.push(v);
                proof {
                    lemma_items_data(before);
                    lemma_items_data(out@);
                    assert(items_data(out@) =~= items_data(before).push(v.data()));
                    match toml_items_to_json(d.skip(i + 1)) {
                        Ok(rest) => {
                            assert(items_data(before) + (seq![v.data()] + rest) =~= items_data(out@) + rest);
                        },
                        Err(_) => {},
                    }
                }
            }
            proof {
                assert(d.skip(d.len() as int) =~= Seq::<TomlData>::empty());
                assert(items_data(out@) + Seq::<JsonData>::empty() =~= items_data(out@));
            }
            Ok(JsonValue::Array(out))
        },
        TomlValue::Table(entries) => {
            proof { lemma_toml_entries_data(entries@); }
            let ghost d = toml_entries_data(entries@);
            let mut out: Vec<(String, JsonValue)> = Vec::new();
            proof {
                assert(d.skip(0) == d);
                assert(entries_view(out@) =~= Seq::<(Seq<char>, JsonData)>::empty());
            }
            for i in 0..entries.len()
                invariant
                    d == toml_entries_data(entries@),
                    d.len() == entries@.len(),
                    toml_table_to_json(d, Seq::empty()) == toml_table_to_json(d.skip(i as int), entries_view(out@)),
            {
                proof {
                    assert(*value == TomlValue::Table(*entries));
                    assert(decreases_to!(*value => *entries));
                    assert(decreases_to!(*entries => entries@));
                    assert(decreases_to!(entries@ => entries@[i as int]));
                    assert(decreases_to!(entries@[i as int] => entries@[i as int].1));
                    assert(d.skip(i as int)[0] == (entries@[i as int].0@, entries@[i as int].1.data()));
                    assert(d.skip(i as int).drop_first() == d.skip(i + 1));
                }
                let v = toml_to_json(&entries[i].1)?;
                let k = copy_str(entries[i].0.as_str());
                put_entry(&mut out, k, v);
            }
            proof {
                assert(d.skip(d.len() as int) =~= Seq::<(Seq<char>, TomlData)>::empty());
                lemma_members_entries_view(out@);
            }
            Ok(JsonValue::Object(out))
        },
    }
}

} // verus!
