//! Configuration values: the declared value types, JSON-shaped values and
//! their mathematical model, and type checking of values against types.

use vstd::prelude::*;
use crate::error::LccpError;

verus! {
broadcast use vstd::std_specs::vec::group_vec_axioms;
} // verus!

use crate::text::copy_str;

verus! {

/// The declared type of a configuration option, application option or
/// positional.
#[derive(Debug)]
pub enum ValueType {
    String,
    Integer,
    Float,
    Boolean,
    Array(Box<ValueType>),
}

/// A JSON number: a non-negative integer, a negative integer, or a finite
/// floating-point number held as its IEEE-754 bit pattern together with its
/// shortest decimal text (as JSON writes it).
#[derive(Debug, PartialEq)]
pub enum JsonNumber {
    PosInt(u64),
    NegInt(i64),
    Float(u64, String),
}

/// The model of a JSON number.
pub enum NumberData {
    PosInt(u64),
    NegInt(i64),
    Float(u64, Seq<char>),
}

impl View for JsonNumber {
    type V = NumberData;

    open spec fn view(&self) -> NumberData {
        match self {
            JsonNumber::PosInt(u) => NumberData::PosInt(*u),
            JsonNumber::NegInt(i) => NumberData::NegInt(*i),
            JsonNumber::Float(b, t) => NumberData::Float(*b, t@),
        }
    }
}

impl JsonNumber {
    /// A copy of this number.
    pub fn copy(&self) -> (r: JsonNumber)
        ensures
            r@ == self@,
    {
        match self {
            JsonNumber::PosInt(u) => JsonNumber::PosInt(*u),
            JsonNumber::NegInt(i) => JsonNumber::NegInt(*i),
            JsonNumber::Float(b, t) => JsonNumber::Float(*b, copy_str(t.as_str())),
        }
    }
}

/// A JSON value. The library keeps object members ordered by key, without
/// duplicates.
#[derive(Debug, PartialEq)]
pub enum JsonValue {
    Null,
    Bool(bool),
    Number(JsonNumber),
    String(String),
    Array(Vec<JsonValue>),
    Object(Vec<(String, JsonValue)>),
}

/// The mathematical model of a JSON value: strings are character sequences.
pub enum JsonData {
    Null,
    Bool(bool),
    Number(NumberData),
    Str(Seq<char>),
    Array(Seq<JsonData>),
    Object(Seq<(Seq<char>, JsonData)>),
}

impl JsonValue {
    /// The model of this value.
    pub open spec fn data(self) -> JsonData
        decreases self,
    {
        match self {
            JsonValue::Null => JsonData::Null,
            JsonValue::Bool(b) => JsonData::Bool(b),
            JsonValue::Number(n) => JsonData::Number(n@),
            JsonValue::String(s) => JsonData::Str(s@),
            JsonValue::Array(items) => JsonData::Array(items_data(items@)),
            JsonValue::Object(members) => JsonData::Object(members_data(members@)),
        }
    }
}

/// The models of a sequence of values.
pub open spec fn items_data(s: Seq<JsonValue>) -> Seq<JsonData>
    decreases s,
{
    if s.len() == 0 {
        Seq::empty()
    } else {
        seq![s[0].data()] + items_data(s.drop_first())
    }
}

/// The models of a sequence of object members.
pub open spec fn members_data(s: Seq<(String, JsonValue)>) -> Seq<(Seq<char>, JsonData)>
    decreases s,
{
    if s.len() == 0 {
        Seq::empty()
    } else {
        seq![(s[0].0@, s[0].1.data())] + members_data(s.drop_first())
    }
}

/// `items_data` keeps the length and maps each element to its model.
pub broadcast proof fn lemma_items_data(s: Seq<JsonValue>)
    ensures
        #[trigger] items_data(s).len() == s.len(),
        forall|i: int| 0 <= i < s.len() ==> #[trigger] items_data(s)[i] == s[i].data(),
    decreases s.len(),
{
    if s.len() > 0 {
        lemma_items_data(s.drop_first());
        assert forall|i: int| 0 <= i < s.len() implies #[trigger] items_data(s)[i] == s[i].data() by {
            if i > 0 {
                assert(items_data(s)[i] == items_data(s.drop_first())[i - 1]);
            }
        }
    }
}

/// `members_data` keeps the length and maps each member to its model.
pub broadcast proof fn lemma_members_data(s: Seq<(String, JsonValue)>)
    ensures
        #[trigger] members_data(s).len() == s.len(),
        forall|i: int|
            0 <= i < s.len() ==> #[trigger] members_data(s)[i] == (s[i].0@, s[i].1.data()),
    decreases s.len(),
{
    if s.len() > 0 {
        lemma_members_data(s.drop_first());
        assert forall|i: int| 0 <= i < s.len() implies #[trigger] members_data(s)[i] == (
            s[i].0@,
            s[i].1.data(),
        ) by {
            if i > 0 {
                assert(members_data(s)[i] == members_data(s.drop_first())[i - 1]);
            }
        }
    }
}

/// Two sequences of values with element-wise equal models have equal models.
pub proof fn lemma_items_data_ext(a: Seq<JsonValue>, b: Seq<JsonValue>)
    requires
        a.len() == b.len(),
        forall|i: int| 0 <= i < a.len() ==> a[i].data() == b[i].data(),
    ensures
        items_data(a) == items_data(b),
{
    lemma_items_data(a);
    lemma_items_data(b);
    assert(items_data(a) =~= items_data(b));
}

/// Two member sequences with element-wise equal models have equal models.
pub proof fn lemma_members_data_ext(a: Seq<(String, JsonValue)>, b: Seq<(String, JsonValue)>)
    requires
        a.len() == b.len(),
        forall|i: int| 0 <= i < a.len() ==> a[i].0@ == b[i].0@ && a[i].1.data() == b[i].1.data(),
    ensures
        members_data(a) == members_data(b),
{
    lemma_members_data(a);
    lemma_members_data(b);
    assert(members_data(a) =~= members_data(b));
}

pub broadcast group group_value_lemmas {
    lemma_items_data,
    lemma_members_data,
}

impl ValueType {
    /// A copy of this type.
    pub fn duplicate(&self) -> (r: ValueType)
        ensures
            r == *self,
        decreases self,
    {
        match self {
            ValueType::String => ValueType::String,
            ValueType::Integer => ValueType::Integer,
            ValueType::Float => ValueType::Float,
            ValueType::Boolean => ValueType::Boolean,
            ValueType::Array(inner) => ValueType::Array(Box::new(inner.duplicate())),
        }
    }

    /// The element type of an array type.
    pub open spec fn element_type(self) -> Option<ValueType> {
        match self {
            ValueType::Array(inner) => Some(*inner),
            _ => None,
        }
    }

    /// The element type of an array type, `None` for the other types.
    pub fn repeated_element_type(&self) -> (r: Option<&ValueType>)
        ensures
            r matches Some(t) ==> self.element_type() == Some(*t),
            r is None ==> self.element_type() is None,
    {
        match self {
            ValueType::Array(inner) => Some(inner),
            _ => None,
        }
    }

    /// The human-readable description of the type, as used in error messages.
    pub open spec fn describe(self) -> Seq<char>
        decreases self,
    {
        match self {
            ValueType::String => "string"@,
            ValueType::Integer => "integer"@,
            ValueType::Float => "float"@,
            ValueType::Boolean => "boolean"@,
            ValueType::Array(inner) => "array<"@ + inner.describe() + ">"@,
        }
    }

    /// The description of the type: `string`, `integer`, `float`, `boolean`
    /// or `array<...>`.
    pub fn description(&self) -> (r: String)
        ensures
            r@ == self.describe(),
        decreases self,
    {
        match self {
            ValueType::String => copy_str("string"),
            ValueType::Integer => copy_str("integer"),
            ValueType::Float => copy_str("float"),
            ValueType::Boolean => copy_str("boolean"),
            ValueType::Array(inner) => {
                let mut s = copy_str("array<");
                let d = inner.description();
                crate::text::append_str(&mut s, d.as_str());
                crate::text::append_str(&mut s, ">");
                s
            },
        }
    }

    /// The placeholder shown for a value of this type in help text.
    pub open spec fn default_value_label(self) -> Seq<char>
        decreases self,
    {
        match self {
            ValueType::String => "STRING"@,
            ValueType::Integer => "INTEGER"@,
            ValueType::Float => "FLOAT"@,
            ValueType::Boolean => "BOOL"@,
            ValueType::Array(inner) => inner.default_value_label(),
        }
    }
}

/// The placeholder for a value of `value_type` in help text: `STRING`,
/// `INTEGER`, `FLOAT` or `BOOL`; an array uses its element's.
pub fn default_value_name(value_type: &ValueType) -> (r: String)
    ensures
        r@ == value_type.default_value_label(),
    decreases value_type,
{
    match value_type {
        ValueType::String => copy_str("STRING"),
        ValueType::Integer => copy_str("INTEGER"),
        ValueType::Float => copy_str("FLOAT"),
        ValueType::Boolean => copy_str("BOOL"),
        ValueType::Array(inner) => default_value_name(inner),
    }
}

/// A number that is an integer (signed or unsigned).
pub open spec fn is_integer_data(d: JsonData) -> bool {
    d matches JsonData::Number(n) && (n is PosInt || n is NegInt)
}

/// A number that is held as a float.
pub open spec fn is_float_data(d: JsonData) -> bool {
    d matches JsonData::Number(n) && n is Float
}

/// Whether `d` is a value of type `t`. Floats accept integers too.
pub open spec fn matches_type(d: JsonData, t: ValueType) -> bool
    decreases t,
{
    match t {
        ValueType::String => d is Str,
        ValueType::Integer => is_integer_data(d),
        ValueType::Float => d is Number,
        ValueType::Boolean => d is Bool,
        ValueType::Array(inner) => match d {
            JsonData::Array(items) => forall|i: int|
                0 <= i < items.len() ==> matches_type(#[trigger] items[i], *inner),
            _ => false,
        },
    }
}

/// The kind of a value as named in type mismatch messages.
pub open spec fn kind_name(d: JsonData) -> Seq<char> {
    match d {
        JsonData::Null => "null"@,
        JsonData::Bool(_) => "boolean"@,
        JsonData::Number(n) => if n is Float {
            "float"@
        } else {
            "integer"@
        },
        JsonData::Str(_) => "string"@,
        JsonData::Array(_) => "array"@,
        JsonData::Object(_) => "object"@,
    }
}

/// The kind of a value: `null`, `boolean`, `integer`, `float`, `string`,
/// `array` or `object`.
pub fn value_kind(value: &JsonValue) -> (r: String)
    ensures
        r@ == kind_name(value.data()),
{
    match value {
        JsonValue::Null => copy_str("null"),
        JsonValue::Bool(_) => copy_str("boolean"),
        JsonValue::Number(JsonNumber::Float(_, _)) => copy_str("float"),
        JsonValue::Number(_) => copy_str("integer"),
        JsonValue::String(_) => copy_str("string"),
        JsonValue::Array(_) => copy_str("array"),
        JsonValue::Object(_) => copy_str("object"),
    }
}

/// Whether the value is an integer number.
pub fn is_integer(value: &JsonValue) -> (r: bool)
    ensures
        r == is_integer_data(value.data()),
{
    matches!(value, JsonValue::Number(JsonNumber::PosInt(_)) | JsonValue::Number(JsonNumber::NegInt(_)))
}

/// Whether the value is a float number.
pub fn is_float(value: &JsonValue) -> (r: bool)
    ensures
        r == is_float_data(value.data()),
{
    matches!(value, JsonValue::Number(JsonNumber::Float(_, _)))
}

/// The first type mismatch found when checking `d` against `t`, as the
/// pair (expected type description, actual kind); array elements are
/// checked in order and a mismatch inside an element is reported for that
/// element.
pub open spec fn first_mismatch(d: JsonData, t: ValueType) -> Option<(Seq<char>, Seq<char>)>
    decreases t, 0nat,
{
    match t {
        ValueType::Array(inner) => match d {
            JsonData::Array(items) => first_item_mismatch(items, *inner),
            _ => Some((t.describe(), kind_name(d))),
        },
        _ => if matches_type(d, t) {
            None
        } else {
            Some((t.describe(), kind_name(d)))
        },
    }
}

/// The first mismatch among `items` checked against `t`.
pub open spec fn first_item_mismatch(items: Seq<JsonData>, t: ValueType) -> Option<
    (Seq<char>, Seq<char>),
>
    decreases t, items.len(),
{
    if items.len() == 0 {
        None
    } else {
        match first_mismatch(items[0], t) {
            Some(m) => Some(m),
            None => first_item_mismatch(items.drop_first(), t),
        }
    }
}

impl View for JsonValue {
    type V = JsonData;

    open spec fn view(&self) -> JsonData {
        self.data()
    }
}

impl JsonValue {
    /// A deep copy of this value.
    #[verifier::loop_isolation(false)]
    pub fn copy(&self) -> (r: JsonValue)
        ensures
            r.data() == self.data(),
        decreases self,
    {
        match self {
            JsonValue::Null => JsonValue::Null,
            JsonValue::Bool(b) => JsonValue::Bool(*b),
            JsonValue::Number(n) => JsonValue::Number(n.copy()),
            JsonValue::String(s) => JsonValue::String(copy_str(s.as_str())),
            JsonValue::Array(items) => {
                let mut out: Vec<JsonValue> = Vec::new();
                for i in 0..items.len()
                    invariant
                        out@.len() == i,
                        forall|j: int| 0 <= j < i ==> (#[trigger] out@[j]).data() == items@[j].data(),
                {
                    proof {
                        assert(*self == JsonValue::Array(*items));
                        assert(decreases_to!(*self => *items));
                        assert(decreases_to!(*items => items@));
                        assert(decreases_to!(items@ => items@[i as int]));
                    }
                    out.push(items[i].copy());
                }
                proof { lemma_items_data_ext(out@, items@); }
                JsonValue::Array(out)
            },
            JsonValue::Object(members) => {
                let mut out: Vec<(String, JsonValue)> = Vec::new();
                for i in 0..members.len()
                    invariant
                        out@.len() == i,
                        forall|j: int| 0 <= j < i ==> (#[trigger] out@[j]).0@ == members@[j].0@ && out@[j].1.data() == members@[j].1.data(),
                {
                    let k = copy_str(members[i].0.as_str());
                    proof {
                        assert(*self == JsonValue::Object(*members));
                        assert(decreases_to!(*self => *members));
                        assert(decreases_to!(*members => members@));
                        assert(decreases_to!(members@ => members@[i as int]));
                        assert(decreases_to!(members@[i as int] => members@[i as int].1));
                    }
                    let v = members[i].1.copy();
                    out.push((k, v));
                }
                proof { lemma_members_data_ext(out@, members@); }
                JsonValue::Object(out)
            },
        }
    }
}

/// Checks that `value` has type `value_type`; the error names the first
/// mismatch (see `first_mismatch`).
#[verifier::loop_isolation(false)]
pub fn validate_value_matches_type(key: &str, value: &JsonValue, value_type: &ValueType) -> (r: Result<(), LccpError>)
    ensures
        match first_mismatch(value.data(), *value_type) {
            None => r is Ok,
            Some(m) => r matches Err(e) && e@ == crate::error::ErrorView::TypeMismatch {
                key: key@,
                expected: m.0,
                actual: m.1,
            },
        },
    decreases value_type, 0nat,
{
    match value_type {
        ValueType::Array(inner) => match value {
            JsonValue::Array(items) => {
                proof { lemma_items_data(items@); }
                let ghost d = items_data(items@);
                assert(d.skip(0) == d);
                let elem: &ValueType = &**inner;
                for i in 0..items.len()
                    invariant
                        d == items_data(items@),
                        d.len() == items@.len(),
                        *elem == **inner,
                        forall|j: int| 0 <= j < items@.len() ==> #[trigger] d[j] == items@[j].data(),
                        first_item_mismatch(d, **inner) == first_item_mismatch(d.skip(i as int), **inner),
                {
                    assert(d.skip(i as int)[0] == d[i as int]);
                    assert(d[i as int] == items@[i as int].data());
                    proof {
                        assert(*value_type == ValueType::Array(Box::new(*elem)));
                        assert(decreases_to!(*value_type => *elem));
                    }
                    validate_value_matches_type(key, &items[i], elem)?;
                    assert(d.skip(i as int).drop_first() == d.skip(i + 1));
                }
                assert(d.skip(d.len() as int).len() == 0);
                Ok(())
            },
            _ => Err(LccpError::TypeMismatch {
                key: copy_str(key),
                expected: value_type.description(),
                actual: value_kind(value),
            }),
        },
        _ => {
            let ok = match value_type {
                ValueType::String => matches!(value, JsonValue::String(_)),
                ValueType::Integer => is_integer(value),
                ValueType::Float => is_float(value) || is_integer(value),
                ValueType::Boolean => matches!(value, JsonValue::Bool(_)),
                ValueType::Array(_) => false,
            };
            if ok {
                Ok(())
            } else {
                Err(LccpError::TypeMismatch {
                    key: copy_str(key),
                    expected: value_type.description(),
                    actual: value_kind(value),
                })
            }
        },
    }
}

/// A type mismatch is found exactly when the value does not have the type.
pub proof fn lemma_first_mismatch_iff(d: JsonData, t: ValueType)
    ensures
        first_mismatch(d, t) is None <==> matches_type(d, t),
    decreases t, 0nat,
{
    match t {
        ValueType::Array(inner) => {
            if let JsonData::Array(items) = d {
                lemma_first_item_mismatch_iff(items, *inner);
            }
        },
        _ => {},
    }
}

/// No mismatch among the items exactly when every item has the type.
pub proof fn lemma_first_item_mismatch_iff(items: Seq<JsonData>, t: ValueType)
    ensures
        first_item_mismatch(items, t) is None <==> forall|i: int|
            0 <= i < items.len() ==> matches_type(#[trigger] items[i], t),
    decreases t, items.len(),
{
    if items.len() > 0 {
        lemma_first_mismatch_iff(items[0], t);
        lemma_first_item_mismatch_iff(items.drop_first(), t);
        if forall|i: int| 0 <= i < items.len() ==> matches_type(#[trigger] items[i], t) {
            assert forall|i: int| 0 <= i < items.drop_first().len() implies matches_type(#[trigger] items.drop_first()[i], t) by {
                assert(items.drop_first()[i] == items[i + 1]);
            }
        }
        if first_item_mismatch(items, t) is None {
            assert forall|i: int| 0 <= i < items.len() implies matches_type(#[trigger] items[i], t) by {
                if i > 0 {
                    assert(items[i] == items.drop_first()[i - 1]);
                }
            }
        }
    }
}

} // verus!
