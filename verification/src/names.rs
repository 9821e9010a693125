//! Validation of application names, command names, argument names, long
//! flags and canonical configuration keys, and the mappings from canonical
//! keys to long flags and environment variable names.

use vstd::prelude::*;
use vstd::string::*;
use crate::error::LccpError;
use crate::text::{all_chars, ascii_upper, chars_of, copy_str, is_lower_or_digit, string_of, to_ascii_upper};

verus! {

/// A character allowed in application names, command names and long flags.
pub open spec fn is_dash_name_char(c: char) -> bool {
    is_lower_or_digit(c) || c == '-'
}

/// A character allowed in argument names and key segments.
pub open spec fn is_underscore_name_char(c: char) -> bool {
    is_lower_or_digit(c) || c == '_'
}

/// Non-empty, lowercase ASCII letters, digits and dashes only.
pub open spec fn is_valid_dash_name(s: Seq<char>) -> bool {
    s.len() > 0 && forall|i: int| 0 <= i < s.len() ==> #[trigger] is_dash_name_char(s[i])
}

/// Non-empty, lowercase ASCII letters, digits and underscores only.
pub open spec fn is_valid_underscore_name(s: Seq<char>) -> bool {
    s.len() > 0 && forall|i: int| 0 <= i < s.len() ==> #[trigger] is_underscore_name_char(s[i])
}

/// A valid application name.
pub open spec fn is_valid_app_name(s: Seq<char>) -> bool {
    is_valid_dash_name(s)
}

/// A valid (sub)command name.
pub open spec fn is_valid_command_name(s: Seq<char>) -> bool {
    is_valid_dash_name(s)
}

/// A valid name of an application option or positional.
pub open spec fn is_valid_argument_name(s: Seq<char>) -> bool {
    is_valid_underscore_name(s)
}

/// A valid long flag name (without the leading `--`): dash-name characters
/// that neither start nor end with a dash.
pub open spec fn is_valid_long_flag(s: Seq<char>) -> bool {
    is_valid_dash_name(s) && s[0] != '-' && s[s.len() - 1] != '-'
}

/// A valid segment of a canonical key.
pub open spec fn is_valid_key_segment(s: Seq<char>) -> bool {
    is_valid_underscore_name(s)
}

/// A valid canonical key: one or more valid segments joined by `.`; that
/// is, only segment characters and dots, with no dot at either end and no
/// two dots in a row.
pub open spec fn is_valid_canonical_key(s: Seq<char>) -> bool {
    &&& s.len() > 0
    &&& forall|i: int| 0 <= i < s.len() ==> is_underscore_name_char(#[trigger] s[i]) || s[i] == '.'
    &&& s[0] != '.'
    &&& s[s.len() - 1] != '.'
    &&& forall|i: int| 0 <= i < s.len() - 1 ==> !(#[trigger] s[i] == '.' && s[i + 1] == '.')
}

fn is_dash_name(v: &Vec<char>) -> (r: bool)
    ensures
        r == is_valid_dash_name(v@),
{
    if v.len() == 0 {
        return false;
    }
    for i in 0..v.len()
        invariant
            forall|j: int| 0 <= j < i ==> #[trigger] is_dash_name_char(v@[j]),
    {
        let c = v[i];
        if !(('a' <= c && c <= 'z') || ('0' <= c && c <= '9') || c == '-') {
            assert(!is_dash_name_char(v@[i as int]));
            return false;
        }
    }
    true
}

fn is_underscore_name(v: &Vec<char>) -> (r: bool)
    ensures
        r == is_valid_underscore_name(v@),
{
    if v.len() == 0 {
        return false;
    }
    for i in 0..v.len()
        invariant
            forall|j: int| 0 <= j < i ==> #[trigger] is_underscore_name_char(v@[j]),
    {
        let c = v[i];
        if !(('a' <= c && c <= 'z') || ('0' <= c && c <= '9') || c == '_') {
            assert(!is_underscore_name_char(v@[i as int]));
            return false;
        }
    }
    true
}

/// Checks an application name.
pub fn validate_app_name(name: &str) -> (r: Result<(), LccpError>)
    ensures
        r is Ok <==> is_valid_app_name(name@),
        r matches Err(e) ==> e matches LccpError::InvalidAppName(n) && n@ == name@,
{
    let v = chars_of(name);
    if !is_dash_name(&v) {
        return Err(LccpError::InvalidAppName(copy_str(name)));
    }
    Ok(())
}

/// Checks a command name.
pub fn validate_command_name(name: &str) -> (r: Result<(), LccpError>)
    ensures
        r is Ok <==> is_valid_command_name(name@),
        r matches Err(e) ==> e matches LccpError::InvalidCommandName(n) && n@ == name@,
{
    let v = chars_of(name);
    if !is_dash_name(&v) {
        return Err(LccpError::InvalidCommandName(copy_str(name)));
    }
    Ok(())
}

/// Checks the name of an application option or positional.
pub fn validate_argument_name(name: &str) -> (r: Result<(), LccpError>)
    ensures
        r is Ok <==> is_valid_argument_name(name@),
        r matches Err(e) ==> e matches LccpError::InvalidArgumentName(n) && n@ == name@,
{
    let v = chars_of(name);
    if !is_underscore_name(&v) {
        return Err(LccpError::InvalidArgumentName(copy_str(name)));
    }
    Ok(())
}

/// Checks a long flag name (given without its leading `--`).
pub fn validate_long_flag(flag: &str) -> (r: Result<(), LccpError>)
    ensures
        r is Ok <==> is_valid_long_flag(flag@),
        r matches Err(e) ==> e matches LccpError::InvalidLongFlag(n) && n@ == flag@,
{
    let v = chars_of(flag);
    if v.len() == 0 || v[0] == '-' || v[v.len() - 1] == '-' || !is_dash_name(&v) {
        return Err(LccpError::InvalidLongFlag(copy_str(flag)));
    }
    Ok(())
}

/// Checks one segment of a canonical key.
pub fn validate_canonical_key_segment(segment: &str) -> (r: Result<(), LccpError>)
    ensures
        r is Ok <==> is_valid_key_segment(segment@),
        r matches Err(e) ==> e matches LccpError::InvalidCanonicalKey(n) && n@ == segment@,
{
    let v = chars_of(segment);
    if !is_underscore_name(&v) {
        return Err(LccpError::InvalidCanonicalKey(copy_str(segment)));
    }
    Ok(())
}

/// Whether the characters form a valid canonical key.
pub fn is_canonical_key(v: &Vec<char>) -> (r: bool)
    ensures
        r == is_valid_canonical_key(v@),
{
    let n = v.len();
    if n == 0 || v[0] == '.' || v[n - 1] == '.' {
        return false;
    }
    for i in 0..n
        invariant
            n == v@.len(),
            n > 0,
            forall|j: int| 0 <= j < i ==> is_underscore_name_char(#[trigger] v@[j]) || v@[j] == '.',
            forall|j: int| 0 <= j < i && j < n - 1 ==> !(#[trigger] v@[j] == '.' && v@[j + 1] == '.'),
    {
        let c = v[i];
        if !(('a' <= c && c <= 'z') || ('0' <= c && c <= '9') || c == '_' || c == '.') {
            assert(!(is_underscore_name_char(v@[i as int]) || v@[i as int] == '.'));
            return false;
        }
        if c == '.' && i + 1 < n && v[i + 1] == '.' {
            return false;
        }
    }
    true
}

/// Checks a canonical configuration key.
pub fn validate_canonical_key(key: &str) -> (r: Result<(), LccpError>)
    ensures
        r is Ok <==> is_valid_canonical_key(key@),
        r matches Err(e) ==> e matches LccpError::InvalidCanonicalKey(n) && n@ == key@,
{
    let v = chars_of(key);
    if !is_canonical_key(&v) {
        return Err(LccpError::InvalidCanonicalKey(copy_str(key)));
    }
    Ok(())
}

/// The long flag of a canonical key: every `.` and `_` becomes `-`.
pub open spec fn key_to_flag(key: Seq<char>) -> Seq<char> {
    key.map_values(|c: char| if c == '.' || c == '_' { '-' } else { c })
}

/// The long flag derived from a canonical key.
pub fn canonical_key_to_flag(key: &str) -> (r: String)
    ensures
        r@ == key_to_flag(key@),
{
    let v = chars_of(key);
    let mut out: Vec<char> = Vec::new();
    for i in 0..v.len()
        invariant
            out@ == key_to_flag(v@.take(i as int)),
    {
        let c = v[i];
        out.push(if c == '.' || c == '_' { '-' } else { c });
        assert(key_to_flag(v@.take(i + 1)) =~= key_to_flag(v@.take(i as int)).push(
            if c == '.' || c == '_' { '-' } else { c },
        ));
    }
    assert(v@.take(v@.len() as int) == v@);
    string_of(&out)
}

/// Replaces `from` by `to` and maps ASCII letters to uppercase.
pub open spec fn upper_with(s: Seq<char>, from: char, to: char) -> Seq<char> {
    s.map_values(|c: char| if c == from { to } else { ascii_upper(c) })
}

/// The environment variable that overrides a key: the application name and
/// the key, uppercased, with `-` and `.` turned into `_`, joined by `_`.
pub open spec fn env_var_name(app_name: Seq<char>, key: Seq<char>) -> Seq<char> {
    upper_with(app_name, '-', '_') + seq!['_'] + upper_with(key, '.', '_')
}

/// Pushes `s` with `from` replaced by `to`, uppercased, onto `out`.
fn push_upper_with(out: &mut Vec<char>, s: &Vec<char>, from: char, to: char)
    ensures
        final(out)@ == old(out)@ + upper_with(s@, from, to),
{
    let ghost start = out@;
    for i in 0..s.len()
        invariant
            out@ == start + upper_with(s@.take(i as int), from, to),
    {
        let c = s[i];
        let d = if c == from { to } else { to_ascii_upper(c) };
        out.push(d);
        assert(upper_with(s@.take(i + 1), from, to) =~= upper_with(s@.take(i as int), from, to).push(d));
    }
    assert(s@.take(s@.len() as int) == s@);
}

/// The environment variable name for `key` under application `app_name`
/// (the key itself is not checked here).
pub fn env_name_for(app_name: &str, key: &str) -> (r: String)
    ensures
        r@ == env_var_name(app_name@, key@),
{
    let a = chars_of(app_name);
    let k = chars_of(key);
    let mut out: Vec<char> = Vec::new();
    push_upper_with(&mut out, &a, '-', '_');
    out.push('_');
    push_upper_with(&mut out, &k, '.', '_');
    string_of(&out)
}

} // verus!
