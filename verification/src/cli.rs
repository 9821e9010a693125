//! The first pass over the command line: the standard LCCP flags
//! (`--config`, `--set`, `--print-default-config`, `--print-config`,
//! `--debug-config`), the long flags of declared configuration options, and
//! the arguments left for the application's command parser.

use vstd::prelude::*;
use crate::convert::{false_word, is_false_word, is_true_word, true_word};
use crate::error::{result_view, ErrorView, LccpError};
use crate::keyed::{entries_view, first_lookup, get_first};
use crate::specs::{OptionSpec, OptionSpecView};
use crate::text::{chars_eq_str, chars_of, copy_str, find_char, first_index_of, is_double_dash, starts_with_double_dash, string_of, string_of_range};
use crate::value::ValueType;

verus! {

broadcast use vstd::std_specs::vec::group_vec_axioms;

/// The flag name and the inline value of a flag written `name=value`.
pub open spec fn split_flag_spec(s: Seq<char>) -> (Seq<char>, Option<Seq<char>>) {
    match first_index_of(s, '=') {
        Some(i) => (s.take(i), Some(s.skip(i + 1))),
        None => (s, None),
    }
}

/// Splits `name=value` at the first `=`.
pub fn split_flag_value(s: &Vec<char>) -> (r: (String, Option<String>))
    ensures
        r.0@ == split_flag_spec(s@).0,
        match r.1 {
            Some(v) => split_flag_spec(s@).1 == Some(v@),
            None => split_flag_spec(s@).1 is None,
        },
{
    match find_char(s, '=') {
        Some(i) => {
            assert(i < s.len());
            let name = string_of_range(s, 0, i);
            let value = string_of_range(s, i + 1, s.len());
            proof {
                assert(s@.subrange(0, i as int) == s@.take(i as int));
                assert(s@.subrange(i + 1, s@.len() as int) == s@.skip(i + 1));
            }
            (name, Some(value))
        },
        None => (string_of(s), None),
    }
}

/// A following argument lets a boolean flag stand alone (meaning `true`)
/// unless it is one of the boolean words and not itself a long flag.
pub open spec fn implicit_bool_spec(next: Seq<char>) -> bool {
    is_double_dash(next) || !(is_true_word(next) || is_false_word(next))
}

/// Whether the argument after a boolean flag leaves the flag standing alone.
pub fn should_use_implicit_bool(next: &str) -> (r: bool)
    ensures
        r == implicit_bool_spec(next@),
{
    if starts_with_double_dash(next) {
        return true;
    }
    let v = chars_of(next);
    !(true_word(&v) || false_word(&v))
}

/// The model of indexed arguments: (position in argv, text).
pub open spec fn args_view(items: Seq<(usize, String)>) -> Seq<(int, Seq<char>)> {
    items.map_values(|e: (usize, String)| (e.0 as int, e.1@))
}

/// The value of a flag that needs one: its inline value, or else the next
/// argument when there is one and it is not a long flag; the flag is named
/// in the error otherwise. The boolean says whether the next argument was
/// used.
pub open spec fn inline_or_next_spec(inline: Option<Seq<char>>, items: Seq<(int, Seq<char>)>, index: int, flag_name: Seq<char>) -> Result<
    (Seq<char>, bool),
    ErrorView,
> {
    match inline {
        Some(v) => Ok((v, false)),
        None => if index + 1 < items.len() && !is_double_dash(items[index + 1].1) {
            Ok((items[index + 1].1, true))
        } else {
            Err(ErrorView::MissingArgumentValue(flag_name))
        },
    }
}

/// The value of a flag that needs one (see `inline_or_next_spec`).
pub fn inline_or_next_value(inline: Option<&str>, items: &Vec<(usize, String)>, index: usize, flag_name: &str) -> (r: Result<
    (String, bool),
    LccpError,
>)
    requires
        index < items@.len(),
    ensures
        match r {
            Ok((v, c)) => inline_or_next_spec(
                match inline {
                    Some(s) => Some(s@),
                    None => None,
                },
                args_view(items@),
                index as int,
                flag_name@,
            ) == Ok::<(Seq<char>, bool), ErrorView>((v@, c)),
            Err(e) => inline_or_next_spec(
                match inline {
                    Some(s) => Some(s@),
                    None => None,
                },
                args_view(items@),
                index as int,
                flag_name@,
            ) == Err::<(Seq<char>, bool), ErrorView>(e@),
        },
{
    if let Some(value) = inline {
        return Ok((copy_str(value), false));
    }
    if index >= items.len() - 1 {
        return Err(LccpError::MissingArgumentValue(copy_str(flag_name)));
    }
    let next = &items[index + 1].1;
    if starts_with_double_dash(next.as_str()) {
        return Err(LccpError::MissingArgumentValue(copy_str(flag_name)));
    }
    Ok((copy_str(next.as_str()), true))
}

/// A flag of this type stands alone as `true`: a boolean, or (for flags
/// that repeat) an array of booleans.
pub open spec fn implicit_true_type(t: ValueType, repeats: bool) -> bool {
    t is Boolean || (repeats && (t matches ValueType::Array(inner) && *inner is Boolean))
}

/// Whether a flag of this type stands alone as `true`.
pub fn takes_implicit_true(t: &ValueType, repeats: bool) -> (r: bool)
    ensures
        r == implicit_true_type(*t, repeats),
{
    match t {
        ValueType::Boolean => true,
        ValueType::Array(inner) => repeats && matches!(**inner, ValueType::Boolean),
        _ => false,
    }
}

/// The value given to a declared long flag at `index`: its inline value;
/// else `true` for a flag of boolean type when there is no next argument or
/// the next argument leaves it standing alone; else the next argument.
pub open spec fn flag_value_spec(t: ValueType, repeats: bool, inline: Option<Seq<char>>, items: Seq<(int, Seq<char>)>, index: int, flag_name: Seq<char>) -> Result<
    (Seq<char>, bool),
    ErrorView,
> {
    match inline {
        Some(v) => Ok((v, false)),
        None => if implicit_true_type(t, repeats) && (index + 1 >= items.len() || implicit_bool_spec(items[index + 1].1)) {
            Ok(("true"@, false))
        } else {
            inline_or_next_spec(None, items, index, flag_name)
        },
    }
}

/// The value given to a declared long flag (see `flag_value_spec`).
pub fn flag_value(t: &ValueType, repeats: bool, inline: Option<&str>, items: &Vec<(usize, String)>, index: usize, flag_name: &str) -> (r: Result<
    (String, bool),
    LccpError,
>)
    requires
        index < items@.len(),
    ensures
        match r {
            Ok((v, c)) => flag_value_spec(
                *t,
                repeats,
                match inline {
                    Some(s) => Some(s@),
                    None => None,
                },
                args_view(items@),
                index as int,
                flag_name@,
            ) == Ok::<(Seq<char>, bool), ErrorView>((v@, c)),
            Err(e) => flag_value_spec(
                *t,
                repeats,
                match inline {
                    Some(s) => Some(s@),
                    None => None,
                },
                args_view(items@),
                index as int,
                flag_name@,
            ) == Err::<(Seq<char>, bool), ErrorView>(e@),
        },
{
    if let Some(value) = inline {
        return Ok((copy_str(value), false));
    }
    if takes_implicit_true(t, repeats) {
        let alone = if index >= items.len() - 1 {
            true
        } else {
            should_use_implicit_bool(items[index + 1].1.as_str())
        };
        if alone {
            return Ok((copy_str("true"), false));
        }
    }
    inline_or_next_value(None, items, index, flag_name)
}

/// The standard LCCP print flags.
#[derive(Debug, Clone, Copy, PartialEq, Eq, Default)]
pub struct StandardFlags {
    pub print_default_config: bool,
    pub print_config: bool,
    pub debug_config: bool,
}

/// A `--set KEY=VALUE` argument.
#[derive(Debug)]
pub struct SetArg {
    pub key: String,
    pub raw: String,
    pub argv_position: usize,
}

/// An occurrence of a declared configuration option's long flag: of an
/// option taking one value, or one occurrence of a repeated option.
#[derive(Debug)]
pub enum NamedEvent {
    Scalar { key: String, raw: String, argv_position: usize },
    Repeated { key: String, raw: String, argv_position: usize },
}

/// What the first pass over the command line found.
#[derive(Debug)]
pub struct ParsedCli {
    pub standard_flags: StandardFlags,
    /// `--config` paths, in order.
    pub config_files: Vec<String>,
    /// `--set` arguments, in order.
    pub sets: Vec<SetArg>,
    /// Occurrences of declared long flags, in order.
    pub named: Vec<NamedEvent>,
    /// The arguments left for the application's command parser, with their
    /// positions in argv.
    pub remaining: Vec<(usize, String)>,
}

/// The model of a `--set` argument.
pub struct SetView {
    pub key: Seq<char>,
    pub raw: Seq<char>,
    pub position: int,
}

/// The model of a declared flag occurrence.
pub enum NamedView {
    Scalar { key: Seq<char>, raw: Seq<char>, position: int },
    Repeated { key: Seq<char>, raw: Seq<char>, position: int },
}

/// The model of the first pass's result.
pub struct ParsedView {
    pub flags: StandardFlags,
    pub config_files: Seq<Seq<char>>,
    pub sets: Seq<SetView>,
    pub named: Seq<NamedView>,
    pub remaining: Seq<(int, Seq<char>)>,
}

impl View for SetArg {
    type V = SetView;

    open spec fn view(&self) -> SetView {
        SetView { key: self.key@, raw: self.raw@, position: self.argv_position as int }
    }
}

impl View for NamedEvent {
    type V = NamedView;

    open spec fn view(&self) -> NamedView {
        match self {
            NamedEvent::Scalar { key, raw, argv_position } => NamedView::Scalar {
                key: key@,
                raw: raw@,
                position: *argv_position as int,
            },
            NamedEvent::Repeated { key, raw, argv_position } => NamedView::Repeated {
                key: key@,
                raw: raw@,
                position: *argv_position as int,
            },
        }
    }
}

impl View for ParsedCli {
    type V = ParsedView;

    open spec fn view(&self) -> ParsedView {
        ParsedView {
            flags: self.standard_flags,
            config_files: self.config_files@.map_values(|s: String| s@),
            sets: self.sets@.map_values(|a: SetArg| a@),
            named: self.named@.map_values(|e: NamedEvent| e@),
            remaining: args_view(self.remaining@),
        }
    }
}

/// Whether argv starts with the program name (a first argument that does
/// not start with `-`), which is then skipped.
pub open spec fn skips_program_name(args: Seq<Seq<char>>) -> bool {
    args.len() > 0 && !(args[0].len() > 0 && args[0][0] == '-')
}

/// The arguments to parse, each with its position in argv.
pub open spec fn argv_items(args: Seq<Seq<char>>) -> Seq<(int, Seq<char>)> {
    let all = Seq::new(args.len(), |i: int| (i, args[i]));
    if skips_program_name(args) {
        all.drop_first()
    } else {
        all
    }
}

/// The index after a flag, depending on whether its value was the next
/// argument.
pub open spec fn after(index: int, consumed: bool) -> int {
    if consumed {
        index + 2
    } else {
        index + 1
    }
}

/// One step of the first pass at `index`: arguments not starting with `--`
/// are left for the command parser; `--config` and `--set` take a value
/// (inline or next), a `--set` value must hold `=`; the print flags are
/// recorded (an inline value is ignored); a declared long flag takes its
/// value (see `flag_value_spec`) and is recorded with its 1-based argv
/// position; any other long flag is left for the command parser.
pub open spec fn argv_step(
    items: Seq<(int, Seq<char>)>,
    index: int,
    st: ParsedView,
    flags: Seq<(Seq<char>, Seq<char>)>,
    schema: Seq<(Seq<char>, OptionSpecView)>,
) -> Result<(ParsedView, int), ErrorView> {
    let (orig, cur) = items[index];
    if !is_double_dash(cur) {
        Ok((ParsedView { remaining: st.remaining.push(items[index]), ..st }, index + 1))
    } else {
        let (flag, inline) = split_flag_spec(cur.skip(2));
        let position = orig + 1;
        if flag == "config"@ {
            match inline_or_next_spec(inline, items, index, "--config"@) {
                Err(e) => Err(e),
                Ok((v, c)) => Ok((ParsedView { config_files: st.config_files.push(v), ..st }, after(index, c))),
            }
        } else if flag == "set"@ {
            match inline_or_next_spec(inline, items, index, "--set"@) {
                Err(e) => Err(e),
                Ok((v, c)) => match split_flag_spec(v) {
                    (k, Some(r)) => Ok((
                        ParsedView { sets: st.sets.push(SetView { key: k, raw: r, position: position }), ..st },
                        after(index, c),
                    )),
                    (_, None) => Err(ErrorView::InvalidSetSyntax(v)),
                },
            }
        } else if flag == "print-default-config"@ {
            Ok((ParsedView { flags: StandardFlags { print_default_config: true, ..st.flags }, ..st }, index + 1))
        } else if flag == "print-config"@ {
            Ok((ParsedView { flags: StandardFlags { print_config: true, ..st.flags }, ..st }, index + 1))
        } else if flag == "debug-config"@ {
            Ok((ParsedView { flags: StandardFlags { debug_config: true, ..st.flags }, ..st }, index + 1))
        } else {
            match first_lookup(flags, flag) {
                Some(key) => match first_lookup(schema, key) {
                    Some(opt) => match flag_value_spec(opt.value_type, opt.repeated_cli, inline, items, index, "--"@ + flag) {
                        Err(e) => Err(e),
                        Ok((v, c)) => Ok((
                            ParsedView {
                                named: st.named.push(
                                    if opt.repeated_cli {
                                        NamedView::Repeated { key: key, raw: v, position: position }
                                    } else {
                                        NamedView::Scalar { key: key, raw: v, position: position }
                                    },
                                ),
                                ..st
                            },
                            after(index, c),
                        )),
                    },
                    None => Ok((ParsedView { remaining: st.remaining.push(items[index]), ..st }, index + 1)),
                },
                None => Ok((ParsedView { remaining: st.remaining.push(items[index]), ..st }, index + 1)),
            }
        }
    }
}

/// The first pass from `index` on, starting from `st`; the first error
/// stops it.
pub open spec fn argv_scan(
    items: Seq<(int, Seq<char>)>,
    index: int,
    st: ParsedView,
    flags: Seq<(Seq<char>, Seq<char>)>,
    schema: Seq<(Seq<char>, OptionSpecView)>,
) -> Result<ParsedView, ErrorView>
    decreases items.len() - index,
{
    if index < 0 || index >= items.len() {
        Ok(st)
    } else {
        match argv_step(items, index, st, flags, schema) {
            Err(e) => Err(e),
            Ok((st2, next)) => if next > index {
                argv_scan(items, next, st2, flags, schema)
            } else {
                Ok(st2)
            },
        }
    }
}

/// The empty result.
pub open spec fn empty_parsed() -> ParsedView {
    ParsedView {
        flags: StandardFlags { print_default_config: false, print_config: false, debug_config: false },
        config_files: Seq::empty(),
        sets: Seq::empty(),
        named: Seq::empty(),
        remaining: Seq::empty(),
    }
}

/// The first pass over `args` with the given flag index and schema.
pub open spec fn parse_argv_spec(args: Seq<Seq<char>>, flags: Seq<(Seq<char>, Seq<char>)>, schema: Seq<(Seq<char>, OptionSpecView)>) -> Result<
    ParsedView,
    ErrorView,
> {
    argv_scan(argv_items(args), 0, empty_parsed(), flags, schema)
}

/// The models of argv.
pub open spec fn strings_view(v: Seq<String>) -> Seq<Seq<char>> {
    v.map_values(|s: String| s@)
}

/// The characters of `s` after its first two.
pub(crate) fn chars_after_dashes(s: &str) -> (r: Vec<char>)
    requires
        is_double_dash(s@),
    ensures
        r@ == s@.skip(2),
{
    let v = chars_of(s);
    let mut out: Vec<char> = Vec::new();
    let mut i: usize = 2;
    while i < v.len()
        invariant
            2 <= i <= v@.len(),
            v@ == s@,
            out@ == v@.subrange(2, i as int),
        decreases v@.len() - i,
    {
        out.push(v[i]);
        assert(v@.subrange(2, i + 1) == v@.subrange(2, i as int).push(v@[i as int]));
        i = i + 1;
    }
    out
}

/// The empty result of the first pass.
pub fn empty_parsed_cli() -> (r: ParsedCli)
    ensures
        r@ == empty_parsed(),
{
    let r = ParsedCli {
        standard_flags: StandardFlags { print_default_config: false, print_config: false, debug_config: false },
        config_files: Vec::new(),
        sets: Vec::new(),
        named: Vec::new(),
        remaining: Vec::new(),
    };
    proof {
        assert(r@.config_files =~= Seq::<Seq<char>>::empty());
        assert(r@.sets =~= Seq::<SetView>::empty());
        assert(r@.named =~= Seq::<NamedView>::empty());
        assert(r@.remaining =~= Seq::<(int, Seq<char>)>::empty());
    }
    r
}

/// One step of the first pass (see `argv_step`); returns the next index.
#[verifier::rlimit(40)]
fn argv_step_exec(
    items: &Vec<(usize, String)>,
    index: usize,
    parsed: &mut ParsedCli,
    flag_index: &Vec<(String, String)>,
    schema: &Vec<(String, OptionSpec)>,
    argv_len: usize,
) -> (r: Result<usize, LccpError>)
    requires
        index < items@.len(),
        forall|k: int| 0 <= k < items@.len() ==> (#[trigger] items@[k]).0 < argv_len,
    ensures
        match r {
            Ok(next) => argv_step(args_view(items@), index as int, old(parsed)@, entries_view(flag_index@), entries_view(schema@))
                == Ok::<(ParsedView, int), ErrorView>((final(parsed)@, next as int)) && next > index && next <= items@.len(),
            Err(e) => argv_step(args_view(items@), index as int, old(parsed)@, entries_view(flag_index@), entries_view(schema@))
                == Err::<(ParsedView, int), ErrorView>(e@),
        },
{
    let ghost iv = args_view(items@);
    let ghost st = parsed@;
    assert(index < items.len());
    let orig = items[index].0;
    let cur = &items[index].1;
    assert(iv[index as int] == (orig as int, cur@));
    if !starts_with_double_dash(cur.as_str()) {
        parsed.remaining.push((orig, copy_str(cur.as_str())));
        proof { assert(args_view(parsed.remaining@) =~= st.remaining.push(iv[index as int])); }
        return Ok(index + 1);
    }
    let stripped = chars_after_dashes(cur.as_str());
    let (flag, inline) = split_flag_value(&stripped);
    let flag_chars = chars_of(flag.as_str());
    let position = orig + 1;
    let inline_ref: Option<&str> = match &inline {
        Some(v) => Some(v.as_str()),
        None => None,
    };
    if chars_eq_str(&flag_chars, "config") {
        let (value, consumed) = inline_or_next_value(inline_ref, items, index, "--config")?;
        parsed.config_files.push(value);
        proof { assert(parsed@.config_files =~= st.config_files.push(value@)); }
        return Ok(if consumed { index + 2 } else { index + 1 });
    }
    if chars_eq_str(&flag_chars, "set") {
        let (value, consumed) = inline_or_next_value(inline_ref, items, index, "--set")?;
        let value_chars = chars_of(value.as_str());
        let (key, raw) = split_flag_value(&value_chars);
        match raw {
            Some(raw) => {
                parsed.sets.push(SetArg { key, raw, argv_position: position });
                proof { assert(parsed@.sets =~= st.sets.push(parsed@.sets.last())); }
                return Ok(if consumed { index + 2 } else { index + 1 });
            },
            None => {
                return Err(LccpError::InvalidSetSyntax(value));
            },
        }
    }
    if chars_eq_str(&flag_chars, "print-default-config") {
        parsed.standard_flags.print_default_config = true;
        return Ok(index + 1);
    }
    if chars_eq_str(&flag_chars, "print-config") {
        parsed.standard_flags.print_config = true;
        return Ok(index + 1);
    }
    if chars_eq_str(&flag_chars, "debug-config") {
        parsed.standard_flags.debug_config = true;
        return Ok(index + 1);
    }
    match get_first(flag_index, flag.as_str()) {
        Some(key) => match get_first(schema, key.as_str()) {
            Some(spec) => {
                let mut name = copy_str("--");
                crate::text::append_str(&mut name, flag.as_str());
                let (value, consumed) = flag_value(spec.value_type(), spec.repeated_cli(), inline_ref, items, index, name.as_str())?;
                let event = if spec.repeated_cli() {
                    NamedEvent::Repeated { key: copy_str(key.as_str()), raw: value, argv_position: position }
                } else {
                    NamedEvent::Scalar { key: copy_str(key.as_str()), raw: value, argv_position: position }
                };
                parsed.named.push(event);
                proof { assert(parsed@.named =~= st.named.push(parsed@.named.last())); }
                Ok(if consumed { index + 2 } else { index + 1 })
            },
            None => {
                parsed.remaining.push((orig, copy_str(cur.as_str())));
                proof { assert(args_view(parsed.remaining@) =~= st.remaining.push(iv[index as int])); }
                Ok(index + 1)
            },
        },
        None => {
            parsed.remaining.push((orig, copy_str(cur.as_str())));
            proof { assert(args_view(parsed.remaining@) =~= st.remaining.push(iv[index as int])); }
            Ok(index + 1)
        },
    }
}

/// The first pass over `argv` (see `parse_argv_spec`).
pub fn parse_argv(argv: &Vec<String>, flag_index: &Vec<(String, String)>, schema: &Vec<(String, OptionSpec)>) -> (r: Result<
    ParsedCli,
    LccpError,
>)
    ensures
        result_view(r) == parse_argv_spec(strings_view(argv@), entries_view(flag_index@), entries_view(schema@)),
{
    let ghost args = strings_view(argv@);
    let skip = argv.len() > 0 && !(argv[0].as_str().unicode_len() > 0 && argv[0].as_str().get_char(0) == '-');
    assert(skip == skips_program_name(args));
    let mut items: Vec<(usize, String)> = Vec::new();
    let ghost all = Seq::new(args.len(), |i: int| (i, args[i]));
    for i in 0..argv.len()
        invariant
            args == strings_view(argv@),
            all == Seq::new(args.len(), |i: int| (i, args[i])),
            skip == skips_program_name(args),
            args_view(items@) == (if skip { all.take(i as int).skip(if i > 0 { 1int } else { 0int }) } else { all.take(i as int) }),
            forall|k: int| 0 <= k < items@.len() ==> (#[trigger] items@[k]).0 < argv@.len(),
    {
        let ghost before = items@;
        if !(skip && i == 0) {
            items.push((i, copy_str(argv[i].as_str())));
        }
        proof {
            if skip {
                if i == 0 {
                    assert(all.take(1).skip(1) =~= Seq::<(int, Seq<char>)>::empty());
                    assert(args_view(items@) =~= Seq::<(int, Seq<char>)>::empty());
                } else {
                    assert(all.take(i + 1).skip(1) =~= all.take(i as int).skip(1).push(all[i as int]));
                    assert(args_view(items@) =~= args_view(before).push((i as int, args[i as int])));
                }
            } else {
                assert(all.take(i + 1) =~= all.take(i as int).push(all[i as int]));
                assert(args_view(items@) =~= args_view(before).push((i as int, args[i as int])));
            }
        }
    }
    proof {
        assert(all.take(argv@.len() as int) == all);
        if skip {
            assert(all.skip(1) == all.drop_first());
        }
    }
    let ghost iv = args_view(items@);
    assert(iv == argv_items(args));
    let ghost fv = entries_view(flag_index@);
    let ghost sv = entries_view(schema@);
    let mut parsed = empty_parsed_cli();
    let mut index: usize = 0;
    while index < items.len()
        invariant
            iv == args_view(items@),
            iv == argv_items(strings_view(argv@)),
            index <= items@.len(),
            iv.len() == items@.len(),
            forall|k: int| 0 <= k < items@.len() ==> (#[trigger] items@[k]).0 < argv@.len(),
            argv_scan(iv, 0, empty_parsed(), fv, sv) == argv_scan(iv, index as int, parsed@, fv, sv),
            fv == entries_view(flag_index@),
            sv == entries_view(schema@),
        decreases items@.len() - index,
    {
        let ghost st = parsed@;
        match argv_step_exec(&items, index, &mut parsed, flag_index, schema, argv.len()) {
            Ok(next) => {
                index = next;
            },
            Err(e) => {
                assert(argv_scan(iv, index as int, st, fv, sv) == Err::<ParsedView, ErrorView>(e@));
                return Err(e);
            },
        }
    }
    Ok(parsed)
}

} // verus!
