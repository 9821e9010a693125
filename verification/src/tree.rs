//! Nested configuration documents: splitting dotted keys, placing a value
//! at a dotted path, flattening a document into leaf keys, and turning a
//! document into a TOML value.

use vstd::prelude::*;
use crate::error::{ErrorView, LccpError};
use crate::formats::{toml_pretty, toml_pretty_text};
use crate::keyed::{entries_view, first_lookup, get_first, put, put_entry};
use crate::names::{is_valid_canonical_key, is_valid_key_segment, validate_canonical_key, validate_canonical_key_segment};
use crate::render::{decimal_text, push_decimal};
use crate::text::{append_str, chars_of, copy_str, push_char, string_of};
use crate::toml_value::{
    lemma_members_entries_view, lemma_toml_entries_data, lemma_toml_items_data, toml_entries_data,
    toml_items_data, TomlData, TomlValue,
};
use crate::value::{items_data, lemma_items_data, lemma_members_data, members_data, JsonData, JsonNumber, JsonValue, NumberData};

verus! {

broadcast use vstd::std_specs::vec::group_vec_axioms;

/// The pieces of `s` between occurrences of `c` (one piece when `c` does
/// not occur; empty pieces where `c` occurs at an end or twice in a row).
pub open spec fn split_on(s: Seq<char>, c: char) -> Seq<Seq<char>>
    decreases s.len(),
{
    if s.len() == 0 {
        seq![Seq::empty()]
    } else {
        let p = split_on(s.drop_last(), c);
        if s.last() == c {
            p.push(Seq::empty())
        } else {
            p.update(p.len() - 1, p.last().push(s.last()))
        }
    }
}

/// There is always at least one piece.
pub proof fn lemma_split_on_len(s: Seq<char>, c: char)
    ensures
        split_on(s, c).len() >= 1,
    decreases s.len(),
{
    if s.len() > 0 {
        lemma_split_on_len(s.drop_last(), c);
    }
}

/// The models of a sequence of strings.
pub open spec fn strings_model(v: Seq<String>) -> Seq<Seq<char>> {
    v.map_values(|s: String| s@)
}

/// The pieces of `s` between occurrences of `c`.
pub fn split_on_char(s: &str, c: char) -> (r: Vec<String>)
    ensures
        strings_model(r@) == split_on(s@, c),
{
    let v = chars_of(s);
    let mut parts: Vec<String> = Vec::new();
    let mut cur: Vec<char> = Vec::new();
    proof {
        assert(v@.take(0) =~= Seq::<char>::empty());
        assert(strings_model(parts@).push(cur@) =~= split_on(Seq::<char>::empty(), c));
    }
    for i in 0..v.len()
        invariant
            v@ == s@,
            strings_model(parts@).push(cur@) == split_on(v@.take(i as int), c),
    {
        let ghost t = v@.take(i + 1);
        proof {
            assert(t.drop_last() =~= v@.take(i as int));
            assert(t.last() == v@[i as int]);
            lemma_split_on_len(v@.take(i as int), c);
        }
        if v[i] == c {
            let piece = string_of(&cur);
            parts.push(piece);
            cur = Vec::new();
            proof {
                assert(strings_model(parts@).push(cur@) =~= split_on(v@.take(i as int), c).push(Seq::empty()));
            }
        } else {
            cur.push(v[i]);
            proof {
                let p = split_on(v@.take(i as int), c);
                assert(strings_model(parts@).push(cur@) =~= p.update(p.len() - 1, p.last().push(v@[i as int])));
            }
        }
    }
    let ghost pm = strings_model(parts@);
    parts.push(string_of(&cur));
    proof {
        assert(strings_model(parts@) =~= pm.push(cur@));
        assert(v@.take(v@.len() as int) == v@);
    }
    parts
}

/// The pieces of `s` between dots.
pub fn split_dots(s: &str) -> (r: Vec<String>)
    ensures
        strings_model(r@) == split_on(s@, '.'),
{
    split_on_char(s, '.')
}

/// Places `v` at the path `parts` inside `root`: a value that is not an
/// object becomes an empty object, the last piece is set to `v`, and each
/// other piece selects (or creates) the nested object to continue in.
pub open spec fn insert_parts(root: JsonData, parts: Seq<Seq<char>>, v: JsonData) -> JsonData
    decreases parts.len(),
{
    if parts.len() == 0 {
        v
    } else {
        let members = match root {
            JsonData::Object(m) => m,
            _ => Seq::empty(),
        };
        if parts.len() == 1 {
            JsonData::Object(put(members, parts[0], v))
        } else {
            let child = match first_lookup(members, parts[0]) {
                Some(c) => c,
                None => JsonData::Object(Seq::empty()),
            };
            JsonData::Object(put(members, parts[0], insert_parts(child, parts.drop_first(), v)))
        }
    }
}

/// Places `v` at the dotted path `key` inside `root`.
pub open spec fn insert_at_key(root: JsonData, key: Seq<char>, v: JsonData) -> JsonData {
    insert_parts(root, split_on(key, '.'), v)
}

fn insert_parts_from(root: JsonValue, parts: &Vec<String>, i: usize, v: JsonValue) -> (r: JsonValue)
    requires
        i <= parts@.len(),
    ensures
        r.data() == insert_parts(root.data(), strings_model(parts@).skip(i as int), v.data()),
    decreases parts@.len() - i,
{
    let ghost ps = strings_model(parts@).skip(i as int);
    if i >= parts.len() {
        return v;
    }
    assert(ps[0] == parts@[i as int]@);
    let ghost rd = root.data();
    let mut members = match root {
        JsonValue::Object(m) => m,
        _ => Vec::new(),
    };
    proof {
        lemma_members_entries_view(members@);
        assert(entries_view(members@) == match rd {
            JsonData::Object(m) => m,
            _ => Seq::<(Seq<char>, JsonData)>::empty(),
        });
    }
    if i + 1 == parts.len() {
        put_entry(&mut members, copy_str(parts[i].as_str()), v);
        proof { lemma_members_entries_view(members@); }
        return JsonValue::Object(members);
    }
    let child = match get_first(&members, parts[i].as_str()) {
        Some(c) => c.copy(),
        None => JsonValue::Object(Vec::new()),
    };
    proof {
        lemma_members_data(Seq::<(String, JsonValue)>::empty());
        assert(strings_model(parts@).skip(i + 1) =~= ps.drop_first());
    }
    let new_child = insert_parts_from(child, parts, i + 1, v);
    put_entry(&mut members, copy_str(parts[i].as_str()), new_child);
    proof { lemma_members_entries_view(members@); }
    JsonValue::Object(members)
}

/// Places `v` at the dotted path `key` inside `root` (see `insert_at_key`).
pub fn insert_value_at_path(root: JsonValue, key: &str, v: JsonValue) -> (r: JsonValue)
    ensures
        r.data() == insert_at_key(root.data(), key@, v.data()),
{
    let parts = split_dots(key);
    proof {
        assert(strings_model(parts@).skip(0) == strings_model(parts@));
    }
    insert_parts_from(root, &parts, 0, v)
}

/// The document holding each `(key, value)` at its dotted path, placed in
/// order into an empty object.
pub open spec fn build_tree(items: Seq<(Seq<char>, JsonData)>) -> JsonData
    decreases items.len(),
{
    if items.len() == 0 {
        JsonData::Object(Seq::empty())
    } else {
        insert_at_key(build_tree(items.drop_last()), items.last().0, items.last().1)
    }
}

/// The key of a member below `prefix`: the prefix and the member's name
/// joined by a dot, or the name alone at the top.
pub open spec fn child_key(prefix: Seq<char>, name: Seq<char>) -> Seq<char> {
    if prefix.len() == 0 {
        name
    } else {
        prefix.push('.') + name
    }
}

/// The leaves of a document with their dotted keys, in order: every member
/// name must be a valid key segment and every leaf key a valid canonical
/// key; the first violation is the error.
pub open spec fn flatten_spec(prefix: Seq<char>, d: JsonData) -> Result<Seq<(Seq<char>, JsonData)>, ErrorView>
    decreases d, 1nat,
{
    match d {
        JsonData::Object(members) => flatten_members_spec(prefix, members),
        _ => if is_valid_canonical_key(prefix) {
            Ok(seq![(prefix, d)])
        } else {
            Err(ErrorView::InvalidCanonicalKey(prefix))
        },
    }
}

/// The leaves below the members, member by member.
pub open spec fn flatten_members_spec(prefix: Seq<char>, members: Seq<(Seq<char>, JsonData)>) -> Result<
    Seq<(Seq<char>, JsonData)>,
    ErrorView,
>
    decreases members, 0nat,
{
    if members.len() == 0 {
        Ok(Seq::empty())
    } else {
        match flatten_members_spec(prefix, members.drop_last()) {
            Err(e) => Err(e),
            Ok(acc) => {
                let (name, value) = members.last();
                if !is_valid_key_segment(name) {
                    Err(ErrorView::InvalidCanonicalKey(name))
                } else {
                    match flatten_spec(child_key(prefix, name), value) {
                        Err(e) => Err(e),
                        Ok(x) => Ok(acc + x),
                    }
                }
            },
        }
    }
}

/// An error on a prefix of the members is the error on all of them.
proof fn lemma_flatten_members_err(prefix: Seq<char>, d: Seq<(Seq<char>, JsonData)>, k: int)
    requires
        0 <= k <= d.len(),
        flatten_members_spec(prefix, d.take(k)) is Err,
    ensures
        flatten_members_spec(prefix, d) == flatten_members_spec(prefix, d.take(k)),
    decreases d.len() - k,
{
    if k < d.len() {
        assert(d.drop_last().take(k) =~= d.take(k));
        lemma_flatten_members_err(prefix, d.drop_last(), k);
    } else {
        assert(d.take(k) =~= d);
    }
}

fn child_key_string(prefix: &str, name: &str) -> (r: String)
    ensures
        r@ == child_key(prefix@, name@),
{
    if prefix.unicode_len() == 0 {
        copy_str(name)
    } else {
        let mut s = copy_str(prefix);
        push_char(&mut s, '.');
        append_str(&mut s, name);
        s
    }
}

/// Appends the leaves of `value` below `prefix` to `out` (see
/// `flatten_spec`).
pub fn flatten_object(prefix: &str, value: &JsonValue, out: &mut Vec<(String, JsonValue)>) -> (r: Result<(), LccpError>)
    ensures
        match r {
            Ok(()) => flatten_spec(prefix@, value.data()) matches Ok(x) && members_data(final(out)@) == members_data(
                old(out)@,
            ) + x,
            Err(e) => flatten_spec(prefix@, value.data()) == Err::<Seq<(Seq<char>, JsonData)>, ErrorView>(e@),
        },
    decreases value, 1nat,
{
    match value {
        JsonValue::Object(members) => {
            proof {
                assert(*value == JsonValue::Object(*members));
                assert(decreases_to!(*value => *members));
            }
            flatten_members(prefix, members, out)
        },
        _ => {
            validate_canonical_key(prefix)?;
            let ghost before = out@;
            out.push((copy_str(prefix), value.copy()));
            proof {
                lemma_members_data(before);
                lemma_members_data(out@);
                assert(members_data(out@) =~= members_data(before) + seq![(prefix@, value.data())]);
            }
            Ok(())
        },
    }
}

fn flatten_members(prefix: &str, members: &Vec<(String, JsonValue)>, out: &mut Vec<(String, JsonValue)>) -> (r: Result<(), LccpError>)
    ensures
        match r {
            Ok(()) => flatten_members_spec(prefix@, members_data(members@)) matches Ok(x) && members_data(final(out)@)
                == members_data(old(out)@) + x,
            Err(e) => flatten_members_spec(prefix@, members_data(members@)) == Err::<Seq<(Seq<char>, JsonData)>, ErrorView>(e@),
        },
    decreases members, 0nat,
{
    let ghost start = members_data(out@);
    let ghost d = members_data(members@);
    proof {
        lemma_members_data(members@);
        assert(d.take(0) =~= Seq::<(Seq<char>, JsonData)>::empty());
        assert(start + Seq::<(Seq<char>, JsonData)>::empty() =~= start);
    }
    for i in 0..members.len()
        invariant
            d == members_data(members@),
            d.len() == members@.len(),
            forall|j: int| 0 <= j < members@.len() ==> #[trigger] d[j] == (members@[j].0@, members@[j].1.data()),
            flatten_members_spec(prefix@, d.take(i as int)) matches Ok(x) && members_data(out@) == start + x,
    {
        proof {
            assert(decreases_to!(*members => members@));
            assert(decreases_to!(members@ => members@[i as int]));
            assert(decreases_to!(members@[i as int] => members@[i as int].1));
        }
        let ghost t = d.take(i + 1);
        let ghost acc_out = members_data(out@);
        proof {
            assert(t.drop_last() =~= d.take(i as int));
            assert(t.last() == (members@[i as int].0@, members@[i as int].1.data()));
        }
        match validate_canonical_key_segment(members[i].0.as_str()) {
            Ok(()) => {},
            Err(e) => {
                proof { lemma_flatten_members_err(prefix@, d, i + 1); }
                return Err(e);
            },
        }
        let key = child_key_string(prefix, members[i].0.as_str());
        match flatten_object(key.as_str(), &members[i].1, out) {
            Ok(()) => {},
            Err(e) => {
                proof { lemma_flatten_members_err(prefix@, d, i + 1); }
                return Err(e);
            },
        }
        proof {
            let x = flatten_members_spec(prefix@, d.take(i as int))->Ok_0;
            let y = flatten_spec(key@, members@[i as int].1.data())->Ok_0;
            assert(members_data(out@) == acc_out + y);
            assert(members_data(out@) =~= start + (x + y));
        }
    }
    proof {
        assert(d.take(d.len() as int) == d);
    }
    Ok(())
}

} // verus!

verus! {

/// The error for a null value, which TOML cannot hold.
pub open spec fn null_toml_error() -> ErrorView {
    ErrorView::SerializeToml("null values cannot be emitted as TOML"@)
}

/// The error for an unsigned integer above the largest TOML integer.
pub open spec fn too_large_error(u: u64) -> ErrorView {
    ErrorView::SerializeToml("integer value "@ + decimal_text(u as nat) + " is too large for TOML emission"@)
}

/// The TOML value of a document: booleans, strings, integers that fit in
/// `i64`, floats, arrays and tables (members put in order); a null or an
/// integer above `i64::MAX` is an error, the first one met.
pub open spec fn json_to_toml_spec(d: JsonData) -> Result<TomlData, ErrorView>
    decreases d, 1nat,
{
    match d {
        JsonData::Null => Err(null_toml_error()),
        JsonData::Bool(b) => Ok(TomlData::Boolean(b)),
        JsonData::Number(n) => match n {
            NumberData::PosInt(u) => if u <= i64::MAX {
                Ok(TomlData::Integer(u as i64))
            } else {
                Err(too_large_error(u))
            },
            NumberData::NegInt(i) => Ok(TomlData::Integer(i)),
            NumberData::Float(b, t) => Ok(TomlData::Float(b, t)),
        },
        JsonData::Str(s) => Ok(TomlData::Str(s)),
        JsonData::Array(items) => match json_items_to_toml(items) {
            Ok(v) => Ok(TomlData::Array(v)),
            Err(e) => Err(e),
        },
        JsonData::Object(members) => match json_members_to_toml(members) {
            Ok(t) => Ok(TomlData::Table(t)),
            Err(e) => Err(e),
        },
    }
}

/// Converts items in order; the first error wins.
pub open spec fn json_items_to_toml(items: Seq<JsonData>) -> Result<Seq<TomlData>, ErrorView>
    decreases items, 0nat,
{
    if items.len() == 0 {
        Ok(Seq::empty())
    } else {
        match json_items_to_toml(items.drop_last()) {
            Err(e) => Err(e),
            Ok(acc) => match json_to_toml_spec(items.last()) {
                Err(e) => Err(e),
                Ok(v) => Ok(acc.push(v)),
            },
        }
    }
}

/// Converts members in order, putting each into the table; the first error
/// wins.
pub open spec fn json_members_to_toml(members: Seq<(Seq<char>, JsonData)>) -> Result<Seq<(Seq<char>, TomlData)>, ErrorView>
    decreases members, 0nat,
{
    if members.len() == 0 {
        Ok(Seq::empty())
    } else {
        match json_members_to_toml(members.drop_last()) {
            Err(e) => Err(e),
            Ok(acc) => match json_to_toml_spec(members.last().1) {
                Err(e) => Err(e),
                Ok(v) => Ok(put(acc, members.last().0, v)),
            },
        }
    }
}

proof fn lemma_items_to_toml_err(d: Seq<JsonData>, k: int)
    requires
        0 <= k <= d.len(),
        json_items_to_toml(d.take(k)) is Err,
    ensures
        json_items_to_toml(d) == json_items_to_toml(d.take(k)),
    decreases d.len() - k,
{
    if k < d.len() {
        assert(d.drop_last().take(k) =~= d.take(k));
        lemma_items_to_toml_err(d.drop_last(), k);
    } else {
        assert(d.take(k) =~= d);
    }
}

proof fn lemma_members_to_toml_err(d: Seq<(Seq<char>, JsonData)>, k: int)
    requires
        0 <= k <= d.len(),
        json_members_to_toml(d.take(k)) is Err,
    ensures
        json_members_to_toml(d) == json_members_to_toml(d.take(k)),
    decreases d.len() - k,
{
    if k < d.len() {
        assert(d.drop_last().take(k) =~= d.take(k));
        lemma_members_to_toml_err(d.drop_last(), k);
    } else {
        assert(d.take(k) =~= d);
    }
}

/// The models of TOML table entries are the views of the entries.
proof fn lemma_toml_entries_view(s: Seq<(String, TomlValue)>)
    ensures
        toml_entries_data(s) == entries_view(s),
{
    lemma_toml_entries_data(s);
    assert(toml_entries_data(s) =~= entries_view(s));
}

/// Converts a document to a TOML value (see `json_to_toml_spec`).
pub fn json_to_toml(value: &JsonValue) -> (r: Result<TomlValue, LccpError>)
    ensures
        match r {
            Ok(t) => json_to_toml_spec(value.data()) == Ok::<TomlData, ErrorView>(t.data()),
            Err(e) => json_to_toml_spec(value.data()) == Err::<TomlData, ErrorView>(e@),
        },
    decreases value, 1nat,
{
    match value {
        JsonValue::Null => Err(LccpError::SerializeToml(copy_str("null values cannot be emitted as TOML"))),
        JsonValue::Bool(b) => Ok(TomlValue::Boolean(*b)),
        JsonValue::Number(n) => match n {
            JsonNumber::PosInt(u) => {
                if *u <= 9223372036854775807u64 {
                    Ok(TomlValue::Integer(*u as i64))
                } else {
                    let mut msg = copy_str("integer value ");
                    push_decimal(&mut msg, *u);
                    append_str(&mut msg, " is too large for TOML emission");
                    Err(LccpError::SerializeToml(msg))
                }
            },
            JsonNumber::NegInt(i) => Ok(TomlValue::Integer(*i)),
            JsonNumber::Float(b, t) => Ok(TomlValue::Float(*b, copy_str(t.as_str()))),
        },
        JsonValue::String(s) => Ok(TomlValue::String(copy_str(s.as_str()))),
        JsonValue::Array(items) => {
            proof {
                assert(*value == JsonValue::Array(*items));
                assert(decreases_to!(*value => *items));
            }
            match json_items_exec(items) {
                Ok(v) => Ok(TomlValue::Array(v)),
                Err(e) => Err(e),
            }
        },
        JsonValue::Object(members) => {
            proof {
                assert(*value == JsonValue::Object(*members));
                assert(decreases_to!(*value => *members));
            }
            match json_members_exec(members) {
                Ok(t) => {
                    proof { lemma_toml_entries_view(t@); }
                    Ok(TomlValue::Table(t))
                },
                Err(e) => Err(e),
            }
        },
    }
}

fn json_items_exec(items: &Vec<JsonValue>) -> (r: Result<Vec<TomlValue>, LccpError>)
    ensures
        match r {
            Ok(v) => json_items_to_toml(items_data(items@)) == Ok::<Seq<TomlData>, ErrorView>(toml_items_data(v@)),
            Err(e) => json_items_to_toml(items_data(items@)) == Err::<Seq<TomlData>, ErrorView>(e@),
        },
    decreases items, 0nat,
{
    let ghost d = items_data(items@);
    let mut out: Vec<TomlValue> = Vec::new();
    proof {
        lemma_items_data(items@);
        lemma_toml_items_data(out@);
        assert(d.take(0) =~= Seq::<JsonData>::empty());
        assert(toml_items_data(out@) =~= Seq::<TomlData>::empty());
    }
    for i in 0..items.len()
        invariant
            d == items_data(items@),
            d.len() == items@.len(),
            forall|j: int| 0 <= j < items@.len() ==> #[trigger] d[j] == items@[j].data(),
            json_items_to_toml(d.take(i as int)) == Ok::<Seq<TomlData>, ErrorView>(toml_items_data(out@)),
    {
        proof {
            assert(decreases_to!(*items => items@));
            assert(decreases_to!(items@ => items@[i as int]));
            assert(d.take(i + 1).drop_last() =~= d.take(i as int));
            assert(d.take(i + 1).last() == items@[i as int].data());
        }
        match json_to_toml(&items[i]) {
            Ok(t) => {
                let ghost before = out@;
                out.push(t);
                proof {
                    lemma_toml_items_data(before);
                    lemma_toml_items_data(out@);
                    assert(toml_items_data(out@) =~= toml_items_data(before).push(t.data()));
                }
            },
            Err(e) => {
                proof { lemma_items_to_toml_err(d, i + 1); }
                return Err(e);
            },
        }
    }
    proof {
        assert(d.take(d.len() as int) == d);
    }
    Ok(out)
}

fn json_members_exec(members: &Vec<(String, JsonValue)>) -> (r: Result<Vec<(String, TomlValue)>, LccpError>)
    ensures
        match r {
            Ok(t) => json_members_to_toml(members_data(members@)) == Ok::<Seq<(Seq<char>, TomlData)>, ErrorView>(
                entries_view(t@),
            ),
            Err(e) => json_members_to_toml(members_data(members@)) == Err::<Seq<(Seq<char>, TomlData)>, ErrorView>(e@),
        },
    decreases members, 0nat,
{
    let ghost d = members_data(members@);
    let mut out: Vec<(String, TomlValue)> = Vec::new();
    proof {
        lemma_members_data(members@);
        assert(d.take(0) =~= Seq::<(Seq<char>, JsonData)>::empty());
        assert(entries_view(out@) =~= Seq::<(Seq<char>, TomlData)>::empty());
    }
    for i in 0..members.len()
        invariant
            d == members_data(members@),
            d.len() == members@.len(),
            forall|j: int| 0 <= j < members@.len() ==> #[trigger] d[j] == (members@[j].0@, members@[j].1.data()),
            json_members_to_toml(d.take(i as int)) == Ok::<Seq<(Seq<char>, TomlData)>, ErrorView>(entries_view(out@)),
    {
        proof {
            assert(decreases_to!(*members => members@));
            assert(decreases_to!(members@ => members@[i as int]));
            assert(decreases_to!(members@[i as int] => members@[i as int].1));
            assert(d.take(i + 1).drop_last() =~= d.take(i as int));
            assert(d.take(i + 1).last() == (members@[i as int].0@, members@[i as int].1.data()));
        }
        match json_to_toml(&members[i].1) {
            Ok(t) => {
                put_entry(&mut out, copy_str(members[i].0.as_str()), t);
            },
            Err(e) => {
                proof { lemma_members_to_toml_err(d, i + 1); }
                return Err(e);
            },
        }
    }
    proof {
        assert(d.take(d.len() as int) == d);
    }
    Ok(out)
}

} // verus!

verus! {

/// The value at the path `parts` inside `d`, following object members by
/// name (the first member of each name).
pub open spec fn navigate(d: JsonData, parts: Seq<Seq<char>>) -> Option<JsonData>
    decreases parts.len(),
{
    if parts.len() == 0 {
        Some(d)
    } else {
        match d {
            JsonData::Object(m) => match first_lookup(m, parts[0]) {
                Some(c) => navigate(c, parts.drop_first()),
                None => None,
            },
            _ => None,
        }
    }
}

/// One path is a prefix of the other.
pub open spec fn prefix_related(p: Seq<Seq<char>>, q: Seq<Seq<char>>) -> bool {
    ||| (p.len() <= q.len() && q.take(p.len() as int) == p)
    ||| (q.len() <= p.len() && p.take(q.len() as int) == q)
}

/// Two paths with the same first piece that are not prefix-related have
/// tails that are not prefix-related either.
proof fn lemma_prefix_tails(p: Seq<Seq<char>>, q: Seq<Seq<char>>)
    requires
        p.len() >= 1,
        q.len() >= 1,
        p[0] == q[0],
        !prefix_related(p, q),
    ensures
        p.len() >= 2,
        q.len() >= 2,
        !prefix_related(p.drop_first(), q.drop_first()),
{
    if p.len() == 1 {
        assert(q.take(1) =~= p);
    }
    if q.len() == 1 {
        assert(p.take(1) =~= q);
    }
    let p2 = p.drop_first();
    let q2 = q.drop_first();
    if p2.len() <= q2.len() && q2.take(p2.len() as int) == p2 {
        assert forall|k: int| 0 <= k < p.len() implies #[trigger] q.take(p.len() as int)[k] == p[k] by {
            if k > 0 {
                assert(q2.take(p2.len() as int)[k - 1] == p2[k - 1]);
            }
        }
        assert(q.take(p.len() as int) =~= p);
    }
    if q2.len() <= p2.len() && p2.take(q2.len() as int) == q2 {
        assert forall|k: int| 0 <= k < q.len() implies #[trigger] p.take(q.len() as int)[k] == q[k] by {
            if k > 0 {
                assert(p2.take(q2.len() as int)[k - 1] == q2[k - 1]);
            }
        }
        assert(p.take(q.len() as int) =~= q);
    }
}

/// After placing `v` at `q`, the value at `q` is `v`.
pub proof fn lemma_navigate_inserted(root: JsonData, q: Seq<Seq<char>>, v: JsonData)
    ensures
        navigate(insert_parts(root, q, v), q) == Some(v),
    decreases q.len(),
{
    if q.len() > 0 {
        let members = match root {
            JsonData::Object(m) => m,
            _ => Seq::empty(),
        };
        if q.len() == 1 {
            crate::keyed::law_put_then_lookup(members, q[0], v);
            assert(insert_parts(root, q, v) == JsonData::Object(put(members, q[0], v)));
            assert(q.drop_first().len() == 0);
            assert(navigate(v, q.drop_first()) == Some(v));
            assert(navigate(JsonData::Object(put(members, q[0], v)), q) == navigate(v, q.drop_first()));
        } else {
            let child = match first_lookup(members, q[0]) {
                Some(c) => c,
                None => JsonData::Object(Seq::empty()),
            };
            let x = insert_parts(child, q.drop_first(), v);
            crate::keyed::law_put_then_lookup(members, q[0], x);
            assert(insert_parts(root, q, v) == JsonData::Object(put(members, q[0], x)));
            lemma_navigate_inserted(child, q.drop_first(), v);
            assert(navigate(JsonData::Object(put(members, q[0], x)), q) == navigate(x, q.drop_first()));
        }
    }
}

/// Placing a value at `q` leaves the value at any path `p` that is not
/// prefix-related to `q` as it was.
pub proof fn lemma_navigate_other(root: JsonData, q: Seq<Seq<char>>, v: JsonData, p: Seq<Seq<char>>)
    requires
        !prefix_related(p, q),
    ensures
        navigate(insert_parts(root, q, v), p) == navigate(root, p),
    decreases q.len(),
{
    if p.len() == 0 {
        assert(q.take(0) =~= p);
    }
    if q.len() == 0 {
        assert(p.take(0) =~= q);
    }
    let members = match root {
        JsonData::Object(m) => m,
        _ => Seq::empty(),
    };
    let child = match first_lookup(members, q[0]) {
        Some(c) => c,
        None => JsonData::Object(Seq::empty()),
    };
    let x = if q.len() == 1 {
        v
    } else {
        insert_parts(child, q.drop_first(), v)
    };
    assert(insert_parts(root, q, v) == JsonData::Object(put(members, q[0], x)));
    crate::keyed::law_put_then_lookup(members, q[0], x);
    if p[0] != q[0] {
        assert(first_lookup(put(members, q[0], x), p[0]) == first_lookup(members, p[0]));
        if !(root is Object) {
            assert(first_lookup(members, p[0]) is None);
        }
    } else {
        lemma_prefix_tails(p, q);
        lemma_navigate_other(child, q.drop_first(), v, p.drop_first());
        match root {
            JsonData::Object(m) => {
                match first_lookup(m, p[0]) {
                    Some(c) => {},
                    None => {
                        assert(first_lookup(Seq::<(Seq<char>, JsonData)>::empty(), p.drop_first()[0]) is None);
                    },
                }
            },
            _ => {
                assert(first_lookup(Seq::<(Seq<char>, JsonData)>::empty(), p.drop_first()[0]) is None);
            },
        }
    }
}

/// Items whose dotted keys, split at dots, are pairwise not
/// prefix-related.
pub open spec fn paths_apart(items: Seq<(Seq<char>, JsonData)>) -> bool {
    forall|a: int, b: int|
        0 <= a < items.len() && 0 <= b < items.len() && a != b ==> !prefix_related(
            split_on(#[trigger] items[a].0, '.'),
            split_on(#[trigger] items[b].0, '.'),
        )
}

/// In the document built from items whose paths lie apart, each item's
/// value sits at its path.
pub proof fn lemma_build_tree_navigate(items: Seq<(Seq<char>, JsonData)>, i: int)
    requires
        0 <= i < items.len(),
        paths_apart(items),
    ensures
        navigate(build_tree(items), split_on(items[i].0, '.')) == Some(items[i].1),
    decreases items.len(),
{
    let n = items.len() - 1;
    let prev = items.drop_last();
    let q = split_on(items[n].0, '.');
    if i == n {
        lemma_navigate_inserted(build_tree(prev), q, items[n].1);
    } else {
        assert(paths_apart(prev)) by {
            assert forall|a: int, b: int| 0 <= a < prev.len() && 0 <= b < prev.len() && a != b implies !prefix_related(
                split_on(#[trigger] prev[a].0, '.'),
                split_on(#[trigger] prev[b].0, '.'),
            ) by {
                assert(prev[a] == items[a] && prev[b] == items[b]);
            }
        }
        assert(!prefix_related(split_on(items[i].0, '.'), q));
        lemma_navigate_other(build_tree(prev), q, items[n].1, split_on(items[i].0, '.'));
        assert(prev[i] == items[i]);
        lemma_build_tree_navigate(prev, i);
    }
}

/// Pieces joined with `c` between them.
pub open spec fn join_on(parts: Seq<Seq<char>>, c: char) -> Seq<char>
    decreases parts.len(),
{
    if parts.len() == 0 {
        Seq::empty()
    } else if parts.len() == 1 {
        parts[0]
    } else {
        join_on(parts.drop_last(), c).push(c) + parts.last()
    }
}

/// Joining the pieces of `s` gives `s` back.
pub proof fn lemma_join_split(s: Seq<char>, c: char)
    ensures
        join_on(split_on(s, c), c) == s,
    decreases s.len(),
{
    if s.len() > 0 {
        let p = split_on(s.drop_last(), c);
        lemma_split_on_len(s.drop_last(), c);
        lemma_join_split(s.drop_last(), c);
        if s.last() == c {
            let t = p.push(Seq::empty());
            assert(t.drop_last() =~= p);
            assert(join_on(t, c) =~= s);
        } else {
            let t = p.update(p.len() - 1, p.last().push(s.last()));
            if p.len() == 1 {
                assert(join_on(t, c) =~= s);
            } else {
                assert(t.drop_last() =~= p.drop_last());
                assert(join_on(t, c) =~= join_on(p, c).push(s.last()));
                assert(join_on(t, c) =~= s);
            }
        }
    }
}

/// Joining two non-empty runs of pieces puts `c` between their joins.
proof fn lemma_join_concat(a: Seq<Seq<char>>, b: Seq<Seq<char>>, c: char)
    requires
        a.len() >= 1,
        b.len() >= 1,
    ensures
        join_on(a + b, c) == join_on(a, c).push(c) + join_on(b, c),
    decreases b.len(),
{
    if b.len() == 1 {
        assert((a + b).drop_last() =~= a);
    } else {
        lemma_join_concat(a, b.drop_last(), c);
        assert((a + b).drop_last() =~= a + b.drop_last());
        assert(join_on(a + b, c) =~= join_on(a, c).push(c) + join_on(b, c));
    }
}

/// When the pieces of `x` are a prefix of the pieces of `y`, `x` is `y` or
/// `x` followed by `c` starts `y`.
pub proof fn lemma_split_prefix(x: Seq<char>, y: Seq<char>, c: char)
    requires
        split_on(x, c).len() <= split_on(y, c).len(),
        split_on(y, c).take(split_on(x, c).len() as int) == split_on(x, c),
    ensures
        x == y || crate::text::is_prefix(x.push(c), y),
{
    let p = split_on(x, c);
    let q = split_on(y, c);
    lemma_join_split(x, c);
    lemma_join_split(y, c);
    lemma_split_on_len(x, c);
    if p.len() == q.len() {
        assert(q.take(p.len() as int) =~= q);
    } else {
        let rest = q.skip(p.len() as int);
        assert(q =~= p + rest);
        lemma_join_concat(p, rest, c);
        assert(y == x.push(c) + join_on(rest, c));
        assert(y.take(x.push(c).len() as int) =~= x.push(c));
    }
}

} // verus!

verus! {

/// The pretty TOML text of a document: its TOML value (see
/// `json_to_toml_spec`) as `toml::to_string_pretty` writes it, a writing
/// error becoming `SerializeToml` with its message.
pub open spec fn toml_text_spec(d: JsonData) -> Result<Seq<char>, ErrorView> {
    match json_to_toml_spec(d) {
        Err(e) => Err(e),
        Ok(t) => match toml_pretty_text(t) {
            Ok(s) => Ok(s),
            Err(m) => Err(ErrorView::SerializeToml(m)),
        },
    }
}

/// Writes a document as pretty TOML text (see `toml_text_spec`).
pub fn toml_text(root: &JsonValue) -> (r: Result<String, LccpError>)
    ensures
        match r {
            Ok(s) => toml_text_spec(root.data()) == Ok::<Seq<char>, ErrorView>(s@),
            Err(e) => toml_text_spec(root.data()) == Err::<Seq<char>, ErrorView>(e@),
        },
{
    match json_to_toml(root) {
        Err(e) => Err(e),
        Ok(t) => match toml_pretty(&t) {
            Ok(s) => Ok(s),
            Err(m) => Err(LccpError::SerializeToml(m)),
        },
    }
}

} // verus!
