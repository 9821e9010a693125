//! The application's command-line parsing: matching the arguments left
//! after the first pass against a command's options, positionals and
//! subcommands.

use vstd::prelude::*;
use crate::cli::{after, args_view, flag_value, flag_value_spec, split_flag_spec, split_flag_value};
use crate::command::{option_for_flag_spec, positionals_view, CommandSpec, CommandSpecView};
use crate::convert::{parse_raw_for_value_type, typed_value, RawFactView, RawFacts};
use crate::error::{ErrorView, LccpError};
use crate::keyed::{entries_view, first_lookup, get_first, lookup};
use crate::specs::{CliOptionSpecView, PositionalSpecView};
use crate::text::{chars_eq_str, chars_of, copy_str, is_double_dash, starts_with_double_dash};
use crate::value::{items_data, lemma_items_data, lemma_members_data, members_data, JsonData, JsonValue, ValueType};

verus! {

broadcast use vstd::std_specs::vec::group_vec_axioms;

/// The model of a command's parsed matches.
pub struct MatchesView {
    pub command_name: Seq<char>,
    pub options: Seq<(Seq<char>, JsonData)>,
    pub positionals: Seq<(Seq<char>, JsonData)>,
    pub subcommand: Option<Box<MatchesView>>,
    pub help_requested: bool,
}

/// What was parsed for a command: its option and positional values (by
/// name), the matches of the selected subcommand, and whether `--help` was
/// given.
#[derive(Debug)]
pub struct CommandMatches {
    command_name: String,
    options: Vec<(String, JsonValue)>,
    positionals: Vec<(String, JsonValue)>,
    subcommand: Option<Box<CommandMatches>>,
    help_requested: bool,
}

impl CommandMatches {
    /// The model of these matches.
    pub closed spec fn model(self) -> MatchesView
        decreases self,
    {
        MatchesView {
            command_name: self.command_name@,
            options: members_data(self.options@),
            positionals: members_data(self.positionals@),
            subcommand: match self.subcommand {
                Some(b) => Some(Box::new(b.model())),
                None => None,
            },
            help_requested: self.help_requested,
        }
    }

    /// Matches of `command_name` with nothing parsed.
    pub fn new(command_name: &str) -> (r: CommandMatches)
        ensures
            r@ == (MatchesView {
                command_name: command_name@,
                options: Seq::empty(),
                positionals: Seq::empty(),
                subcommand: None,
                help_requested: false,
            }),
    {
        let r = CommandMatches {
            command_name: copy_str(command_name),
            options: Vec::new(),
            positionals: Vec::new(),
            subcommand: None,
            help_requested: false,
        };
        proof {
            lemma_members_data(r.options@);
            lemma_members_data(r.positionals@);
            assert(members_data(r.options@) =~= Seq::empty());
            assert(members_data(r.positionals@) =~= Seq::empty());
        }
        r
    }

    /// The command's name.
    pub fn command_name(&self) -> (r: &str)
        ensures
            r@ == self@.command_name,
    {
        self.command_name.as_str()
    }

    /// The value of the application option `name`, if it was given.
    pub fn option(&self, name: &str) -> (r: Option<&JsonValue>)
        ensures
            match r {
                Some(v) => first_lookup(self@.options, name@) == Some(v.data()),
                None => first_lookup(self@.options, name@) is None,
            },
    {
        proof { crate::toml_value::lemma_members_entries_view(self.options@); }
        get_first(&self.options, name)
    }

    /// The value of the positional `name`, if it was given.
    pub fn positional(&self, name: &str) -> (r: Option<&JsonValue>)
        ensures
            match r {
                Some(v) => first_lookup(self@.positionals, name@) == Some(v.data()),
                None => first_lookup(self@.positionals, name@) is None,
            },
    {
        proof { crate::toml_value::lemma_members_entries_view(self.positionals@); }
        get_first(&self.positionals, name)
    }

    /// All option values, by name.
    pub fn options(&self) -> (r: &Vec<(String, JsonValue)>)
        ensures
            members_data(r@) == self@.options,
    {
        &self.options
    }

    /// All positional values, by name.
    pub fn positionals(&self) -> (r: &Vec<(String, JsonValue)>)
        ensures
            members_data(r@) == self@.positionals,
    {
        &self.positionals
    }

    /// The matches of the selected subcommand, if any.
    pub fn subcommand(&self) -> (r: Option<&CommandMatches>)
        ensures
            match r {
                Some(m) => self@.subcommand == Some(Box::new(m@)),
                None => self@.subcommand is None,
            },
    {
        match &self.subcommand {
            Some(b) => Some(&**b),
            None => None,
        }
    }

    /// Whether `--help` was given to this command.
    pub fn help_requested(&self) -> (r: bool)
        ensures
            r == self@.help_requested,
    {
        self.help_requested
    }

    /// The command path to show help for: from this command down to the
    /// first command in the chain of subcommands that was given `--help`.
    pub fn help_command_path(&self) -> (r: Option<Vec<String>>)
        ensures
            match r {
                Some(p) => help_path(self@) == Some(p@.map_values(|s: String| s@)),
                None => help_path(self@) is None,
            },
        decreases self,
    {
        if self.help_requested {
            let mut v: Vec<String> = Vec::new();
            v.push(copy_str(self.command_name.as_str()));
            proof { assert(v@.map_values(|s: String| s@) =~= seq![self@.command_name]); }
            return Some(v);
        }
        match &self.subcommand {
            Some(b) => {
                let nested = b.help_command_path();
                match nested {
                    Some(rest) => {
                        let mut path: Vec<String> = Vec::new();
                        path.push(copy_str(self.command_name.as_str()));
                        let mut i: usize = 0;
                        while i < rest.len()
                            invariant
                                i <= rest@.len(),
                                path@.map_values(|s: String| s@) == seq![self@.command_name] + rest@.take(i as int).map_values(|s: String| s@),
                            decreases rest@.len() - i,
                        {
                            path.push(copy_str(rest[i].as_str()));
                            assert(rest@.take(i + 1).map_values(|s: String| s@) =~= rest@.take(i as int).map_values(|s: String| s@).push(rest@[i as int]@));
                            assert(path@.map_values(|s: String| s@) =~= (seq![self@.command_name] + rest@.take(i as int).map_values(|s: String| s@)).push(rest@[i as int]@));
                            i = i + 1;
                        }
                        assert(rest@.take(rest@.len() as int) == rest@);
                        Some(path)
                    },
                    None => None,
                }
            },
            None => None,
        }
    }
}

impl View for CommandMatches {
    type V = MatchesView;

    open spec fn view(&self) -> MatchesView {
        self.model()
    }
}

/// The command path to show help for (see `help_command_path`).
pub open spec fn help_path(m: MatchesView) -> Option<Seq<Seq<char>>>
    decreases m,
{
    if m.help_requested {
        Some(seq![m.command_name])
    } else {
        match m.subcommand {
            Some(sub) => match help_path(*sub) {
                Some(p) => Some(seq![m.command_name] + p),
                None => None,
            },
            None => None,
        }
    }
}

/// The state of scanning a command's arguments.
pub struct ScanView {
    /// `--help` was seen.
    pub help: bool,
    /// `--` was seen: later arguments are not options.
    pub stop: bool,
    /// Option values as given, by option name, in order.
    pub occurrences: Seq<(Seq<char>, Seq<char>)>,
    /// Positional values, by positional name, in order.
    pub positional_values: Seq<(Seq<char>, JsonData)>,
    /// The positional the next value goes to.
    pub positional_index: int,
    /// The matches of the subcommand, once one was met.
    pub subcommand: Option<MatchesView>,
}

/// The state before any argument.
pub open spec fn initial_scan() -> ScanView {
    ScanView {
        help: false,
        stop: false,
        occurrences: Seq::empty(),
        positional_values: Seq::empty(),
        positional_index: 0,
        subcommand: None,
    }
}

/// The values recorded under `name`, in order.
pub open spec fn values_named<V>(s: Seq<(Seq<char>, V)>, name: Seq<char>) -> Seq<V>
    decreases s.len(),
{
    if s.len() == 0 {
        Seq::empty()
    } else {
        let p = values_named(s.drop_last(), name);
        if s.last().0 == name {
            p.push(s.last().1)
        } else {
            p
        }
    }
}

/// Scans a command's arguments from `index`: `--` ends options, `--help`
/// asks for help; a long flag must be one of the command's options and
/// takes its value (see `flag_value_spec`); an argument naming a
/// subcommand hands the rest of the arguments to it; any other argument is
/// the value of the next positional (a positional taking multiple values
/// takes all the rest), and it is an error when no positional is left.
pub open spec fn cmd_scan(
    c: CommandSpecView,
    items: Seq<(int, Seq<char>)>,
    index: int,
    st: ScanView,
    facts: Seq<(Seq<char>, RawFactView)>,
) -> Result<(ScanView, int), ErrorView>
    decreases items.len() - index, 0nat,
{
    if index < 0 || index >= items.len() {
        Ok((st, index))
    } else {
        let cur = items[index].1;
        if !st.stop && cur == "--"@ {
            cmd_scan(c, items, index + 1, ScanView { stop: true, ..st }, facts)
        } else if !st.stop && cur == "--help"@ {
            cmd_scan(c, items, index + 1, ScanView { help: true, ..st }, facts)
        } else if !st.stop && is_double_dash(cur) {
            let (flag, inline) = split_flag_spec(cur.skip(2));
            match option_for_flag_spec(c, flag) {
                None => Err(ErrorView::UnknownFlag("--"@ + flag)),
                Some(o) => match flag_value_spec(o.value_type, o.repeated, inline, items, index, "--"@ + flag) {
                    Err(e) => Err(e),
                    Ok((v, consumed)) => if after(index, consumed) > index {
                        cmd_scan(
                            c,
                            items,
                            after(index, consumed),
                            ScanView { occurrences: st.occurrences.push((o.name, v)), ..st },
                            facts,
                        )
                    } else {
                        Ok((st, index))
                    },
                },
            }
        } else {
            match lookup(c.subcommands, cur) {
                Some(sub) => match parse_cmd(sub, items, index + 1, facts) {
                    Err(e) => Err(e),
                    Ok((m, end)) => Ok((ScanView { subcommand: Some(m), ..st }, end)),
                },
                None => if 0 <= st.positional_index < c.positionals.len() {
                    let p = c.positionals[st.positional_index];
                    match typed_value(p.name, p.value_type, cur, facts) {
                        Err(e) => Err(e),
                        Ok(v) => cmd_scan(
                            c,
                            items,
                            index + 1,
                            ScanView {
                                positional_values: st.positional_values.push((p.name, v)),
                                positional_index: if p.multiple {
                                    st.positional_index
                                } else {
                                    st.positional_index + 1
                                },
                                ..st
                            },
                            facts,
                        ),
                    }
                } else {
                    Err(ErrorView::UnexpectedPositional { command: c.name, value: cur })
                },
            }
        }
    }
}

/// Reads the raw values from position `i` on as values of type `t`,
/// appending them to `acc`; the first error wins.
pub open spec fn typed_values_from(
    key: Seq<char>,
    t: ValueType,
    raws: Seq<Seq<char>>,
    i: int,
    acc: Seq<JsonData>,
    facts: Seq<(Seq<char>, RawFactView)>,
) -> Result<Seq<JsonData>, ErrorView>
    decreases raws.len() - i,
{
    if i < 0 || i >= raws.len() {
        Ok(acc)
    } else {
        match typed_value(key, t, raws[i], facts) {
            Err(e) => Err(e),
            Ok(v) => typed_values_from(key, t, raws, i + 1, acc.push(v), facts),
        }
    }
}

/// Reads raw values of type `t` in order; the first error wins.
pub open spec fn typed_values(key: Seq<char>, t: ValueType, raws: Seq<Seq<char>>, facts: Seq<(Seq<char>, RawFactView)>) -> Result<
    Seq<JsonData>,
    ErrorView,
> {
    typed_values_from(key, t, raws, 0, Seq::empty(), facts)
}

/// The element type of a repeated option (its declared type otherwise).
pub open spec fn element_or_self(t: ValueType) -> ValueType {
    match t {
        ValueType::Array(inner) => *inner,
        _ => t,
    }
}

/// The value of option `o` from its occurrences, put into `acc`: a
/// repeated option collects all its values into an array, another option
/// takes its last value; a required option that was not given is an error.
pub open spec fn option_value_step(
    command: Seq<char>,
    o: CliOptionSpecView,
    occurrences: Seq<(Seq<char>, Seq<char>)>,
    facts: Seq<(Seq<char>, RawFactView)>,
    acc: Seq<(Seq<char>, JsonData)>,
) -> Result<Seq<(Seq<char>, JsonData)>, ErrorView> {
    let raws = values_named(occurrences, o.name);
    if raws.len() > 0 {
        if o.repeated {
            match typed_values(o.name, element_or_self(o.value_type), raws, facts) {
                Err(e) => Err(e),
                Ok(vs) => Ok(crate::keyed::put(acc, o.name, JsonData::Array(vs))),
            }
        } else {
            match typed_value(o.name, o.value_type, raws.last(), facts) {
                Err(e) => Err(e),
                Ok(v) => Ok(crate::keyed::put(acc, o.name, v)),
            }
        }
    } else if o.required {
        Err(ErrorView::MissingRequiredCliOption { command: command, option: o.name })
    } else {
        Ok(acc)
    }
}

/// The option values of a command, option by option from position `i` on.
pub open spec fn assemble_options_from(
    command: Seq<char>,
    opts: Seq<(Seq<char>, CliOptionSpecView)>,
    i: int,
    occurrences: Seq<(Seq<char>, Seq<char>)>,
    facts: Seq<(Seq<char>, RawFactView)>,
    acc: Seq<(Seq<char>, JsonData)>,
) -> Result<Seq<(Seq<char>, JsonData)>, ErrorView>
    decreases opts.len() - i,
{
    if i < 0 || i >= opts.len() {
        Ok(acc)
    } else {
        match option_value_step(command, opts[i].1, occurrences, facts, acc) {
            Err(e) => Err(e),
            Ok(acc2) => assemble_options_from(command, opts, i + 1, occurrences, facts, acc2),
        }
    }
}

/// The option values of a command, option by option in order.
pub open spec fn assemble_options(
    command: Seq<char>,
    opts: Seq<(Seq<char>, CliOptionSpecView)>,
    occurrences: Seq<(Seq<char>, Seq<char>)>,
    facts: Seq<(Seq<char>, RawFactView)>,
) -> Result<Seq<(Seq<char>, JsonData)>, ErrorView> {
    assemble_options_from(command, opts, 0, occurrences, facts, Seq::empty())
}

/// The value of positional `p`, put into `acc`: one taking multiple values
/// collects them into an array, another takes its value; a required
/// positional that was not given is an error.
pub open spec fn positional_value_step(
    command: Seq<char>,
    p: PositionalSpecView,
    values: Seq<(Seq<char>, JsonData)>,
    acc: Seq<(Seq<char>, JsonData)>,
) -> Result<Seq<(Seq<char>, JsonData)>, ErrorView> {
    let vs = values_named(values, p.name);
    if vs.len() > 0 {
        if p.multiple {
            Ok(crate::keyed::put(acc, p.name, JsonData::Array(vs)))
        } else {
            Ok(crate::keyed::put(acc, p.name, vs[0]))
        }
    } else if p.required {
        Err(ErrorView::MissingRequiredPositional { command: command, positional: p.name })
    } else {
        Ok(acc)
    }
}

/// The positional values of a command, positional by positional from `i`.
pub open spec fn assemble_positionals_from(
    command: Seq<char>,
    ps: Seq<PositionalSpecView>,
    i: int,
    values: Seq<(Seq<char>, JsonData)>,
    acc: Seq<(Seq<char>, JsonData)>,
) -> Result<Seq<(Seq<char>, JsonData)>, ErrorView>
    decreases ps.len() - i,
{
    if i < 0 || i >= ps.len() {
        Ok(acc)
    } else {
        match positional_value_step(command, ps[i], values, acc) {
            Err(e) => Err(e),
            Ok(acc2) => assemble_positionals_from(command, ps, i + 1, values, acc2),
        }
    }
}

/// The positional values of a command, positional by positional in order.
pub open spec fn assemble_positionals(
    command: Seq<char>,
    ps: Seq<PositionalSpecView>,
    values: Seq<(Seq<char>, JsonData)>,
) -> Result<Seq<(Seq<char>, JsonData)>, ErrorView> {
    assemble_positionals_from(command, ps, 0, values, Seq::empty())
}

/// Parses the arguments from `index` for command `c`: the scan, then the
/// option values, then the positional values; returns the matches and the
/// index where parsing ended.
pub open spec fn parse_cmd(
    c: CommandSpecView,
    items: Seq<(int, Seq<char>)>,
    index: int,
    facts: Seq<(Seq<char>, RawFactView)>,
) -> Result<(MatchesView, int), ErrorView>
    decreases items.len() - index, 1nat,
{
    match cmd_scan(c, items, index, initial_scan(), facts) {
        Err(e) => Err(e),
        Ok((st, end)) => match assemble_options(c.name, c.options, st.occurrences, facts) {
            Err(e) => Err(e),
            Ok(opts) => match assemble_positionals(c.name, c.positionals, st.positional_values) {
                Err(e) => Err(e),
                Ok(pos) => Ok((
                    MatchesView {
                        command_name: c.name,
                        options: opts,
                        positionals: pos,
                        subcommand: match st.subcommand {
                            Some(m) => Some(Box::new(m)),
                            None => None,
                        },
                        help_requested: st.help,
                    },
                    end,
                )),
            },
        },
    }
}

/// The models of a sequence of values.
pub open spec fn values_view(v: Seq<JsonValue>) -> Seq<JsonData> {
    v.map_values(|x: JsonValue| x.data())
}

/// The raw values recorded under `name`, in order.
fn raws_named(occ: &Vec<(String, String)>, name: &str) -> (r: Vec<String>)
    ensures
        r@.map_values(|s: String| s@) == values_named(entries_view(occ@), name@),
{
    let mut out: Vec<String> = Vec::new();
    let n = chars_of(name);
    for i in 0..occ.len()
        invariant
            n@ == name@,
            out@.map_values(|s: String| s@) == values_named(entries_view(occ@).take(i as int), name@),
    {
        let ghost before = out@;
        let k = chars_of(occ[i].0.as_str());
        if crate::text::chars_eq(&k, &n) {
            out.push(copy_str(occ[i].1.as_str()));
        }
        proof {
            let t = entries_view(occ@).take(i + 1);
            assert(t.drop_last() == entries_view(occ@).take(i as int));
            assert(t.last() == entries_view(occ@)[i as int]);
            if k@ == n@ {
                assert(out@.map_values(|s: String| s@) =~= before.map_values(|s: String| s@).push(occ@[i as int].1@));
            } else {
                assert(out@ == before);
            }
        }
    }
    proof { assert(entries_view(occ@).take(occ@.len() as int) == entries_view(occ@)); }
    out
}

/// Copies of the values recorded under `name`, in order.
fn json_named(vals: &Vec<(String, JsonValue)>, name: &str) -> (r: Vec<JsonValue>)
    ensures
        values_view(r@) == values_named(entries_view(vals@), name@),
{
    let mut out: Vec<JsonValue> = Vec::new();
    let n = chars_of(name);
    for i in 0..vals.len()
        invariant
            n@ == name@,
            values_view(out@) == values_named(entries_view(vals@).take(i as int), name@),
    {
        let ghost before = out@;
        let k = chars_of(vals[i].0.as_str());
        if crate::text::chars_eq(&k, &n) {
            out.push(vals[i].1.copy());
        }
        proof {
            let t = entries_view(vals@).take(i + 1);
            assert(t.drop_last() == entries_view(vals@).take(i as int));
            assert(t.last() == entries_view(vals@)[i as int]);
            if k@ == n@ {
                assert(values_view(out@) =~= values_view(before).push(vals@[i as int].1.data()));
            } else {
                assert(out@ == before);
            }
        }
    }
    proof { assert(entries_view(vals@).take(vals@.len() as int) == entries_view(vals@)); }
    out
}

/// Reads raw values of one type in order (see `typed_values`).
pub(crate) fn parse_typed_values(key: &str, t: &ValueType, raws: &Vec<String>, facts: &RawFacts) -> (r: Result<Vec<JsonValue>, LccpError>)
    ensures
        match r {
            Ok(vs) => typed_values(key@, *t, raws@.map_values(|s: String| s@), facts@) == Ok::<Seq<JsonData>, ErrorView>(values_view(vs@)),
            Err(e) => typed_values(key@, *t, raws@.map_values(|s: String| s@), facts@) == Err::<Seq<JsonData>, ErrorView>(e@),
        },
{
    let ghost rv = raws@.map_values(|s: String| s@);
    let mut out: Vec<JsonValue> = Vec::new();
    proof { assert(values_view(out@) =~= Seq::<JsonData>::empty()); }
    for i in 0..raws.len()
        invariant
            rv == raws@.map_values(|s: String| s@),
            typed_values(key@, *t, rv, facts@) == typed_values_from(key@, *t, rv, i as int, values_view(out@), facts@),
    {
        let ghost before = out@;
        match parse_raw_for_value_type(key, t, raws[i].as_str(), facts) {
            Ok(v) => {
                out.push(v);
                proof { assert(values_view(out@) =~= values_view(before).push(v.data())); }
            },
            Err(e) => {
                return Err(e);
            },
        }
    }
    Ok(out)
}

/// The option values of a command (see `assemble_options`).
fn collect_options(command: &CommandSpec, occ: &Vec<(String, String)>, facts: &RawFacts) -> (r: Result<Vec<(String, JsonValue)>, LccpError>)
    requires
        command.wf(),
    ensures
        match r {
            Ok(m) => assemble_options(command@.name, command@.options, entries_view(occ@), facts@)
                == Ok::<Seq<(Seq<char>, JsonData)>, ErrorView>(entries_view(m@)),
            Err(e) => assemble_options(command@.name, command@.options, entries_view(occ@), facts@)
                == Err::<Seq<(Seq<char>, JsonData)>, ErrorView>(e@),
        },
{
    let opts = command.options();
    let ghost ov = entries_view(opts@);
    let mut out: Vec<(String, JsonValue)> = Vec::new();
    proof { assert(entries_view(out@) =~= Seq::<(Seq<char>, JsonData)>::empty()); }
    for i in 0..opts.len()
        invariant
            ov == entries_view(opts@),
            ov == command@.options,
            assemble_options(command@.name, ov, entries_view(occ@), facts@)
                == assemble_options_from(command@.name, ov, i as int, entries_view(occ@), facts@, entries_view(out@)),
    {
        let spec = &opts[i].1;
        assert(ov[i as int].1 == spec@);
        let raws = raws_named(occ, spec.name());
        if raws.len() > 0 {
            if spec.repeated_values() {
                let element = match spec.value_type() {
                    ValueType::Array(inner) => &**inner,
                    other => other,
                };
                match parse_typed_values(spec.name(), element, &raws, facts) {
                    Ok(vs) => {
                        proof { lemma_items_data(vs@); assert(items_data(vs@) =~= values_view(vs@)); }
                        crate::keyed::put_entry(&mut out, copy_str(spec.name()), JsonValue::Array(vs));
                    },
                    Err(e) => {
                        return Err(e);
                    },
                }
            } else {
                let last = &raws[raws.len() - 1];
                proof { assert(raws@.map_values(|s: String| s@).last() == last@); }
                match parse_raw_for_value_type(spec.name(), spec.value_type(), last.as_str(), facts) {
                    Ok(v) => {
                        crate::keyed::put_entry(&mut out, copy_str(spec.name()), v);
                    },
                    Err(e) => {
                        return Err(e);
                    },
                }
            }
        } else if spec.required_option() {
            return Err(LccpError::MissingRequiredCliOption { command: copy_str(command.name()), option: copy_str(spec.name()) });
        }
    }
    Ok(out)
}

/// The positional values of a command (see `assemble_positionals`).
fn collect_positionals(command: &CommandSpec, vals: &Vec<(String, JsonValue)>) -> (r: Result<Vec<(String, JsonValue)>, LccpError>)
    ensures
        match r {
            Ok(m) => assemble_positionals(command@.name, command@.positionals, entries_view(vals@))
                == Ok::<Seq<(Seq<char>, JsonData)>, ErrorView>(entries_view(m@)),
            Err(e) => assemble_positionals(command@.name, command@.positionals, entries_view(vals@))
                == Err::<Seq<(Seq<char>, JsonData)>, ErrorView>(e@),
        },
{
    let ps = command.positionals();
    let ghost pv = positionals_view(ps@);
    let mut out: Vec<(String, JsonValue)> = Vec::new();
    proof { assert(entries_view(out@) =~= Seq::<(Seq<char>, JsonData)>::empty()); }
    for i in 0..ps.len()
        invariant
            pv == positionals_view(ps@),
            pv == command@.positionals,
            assemble_positionals(command@.name, pv, entries_view(vals@))
                == assemble_positionals_from(command@.name, pv, i as int, entries_view(vals@), entries_view(out@)),
    {
        let p = &ps[i];
        assert(pv[i as int] == p@);
        let vs = json_named(vals, p.name());
        if vs.len() > 0 {
            if p.multiple_values() {
                proof { lemma_items_data(vs@); assert(items_data(vs@) =~= values_view(vs@)); }
                crate::keyed::put_entry(&mut out, copy_str(p.name()), JsonValue::Array(vs));
            } else {
                let first = vs[0].copy();
                crate::keyed::put_entry(&mut out, copy_str(p.name()), first);
            }
        } else if p.required() {
            return Err(LccpError::MissingRequiredPositional { command: copy_str(command.name()), positional: copy_str(p.name()) });
        }
    }
    Ok(out)
}

/// The model of the scan state held in locals.
pub open spec fn scan_view(
    help: bool,
    stop: bool,
    occ: Seq<(String, String)>,
    vals: Seq<(String, JsonValue)>,
    pidx: usize,
    sub: Option<CommandMatches>,
) -> ScanView {
    ScanView {
        help: help,
        stop: stop,
        occurrences: entries_view(occ),
        positional_values: entries_view(vals),
        positional_index: pidx as int,
        subcommand: match sub {
            Some(m) => Some(m@),
            None => None,
        },
    }
}

/// Parses the arguments from `start` for `command` (see `parse_cmd`);
/// returns the matches and the index where parsing ended.
#[verifier::rlimit(60)]
pub fn parse_command(command: &CommandSpec, items: &Vec<(usize, String)>, start: usize, facts: &RawFacts) -> (r: Result<
    (CommandMatches, usize),
    LccpError,
>)
    requires
        command.wf(),
        start <= items@.len(),
    ensures
        match r {
            Ok((m, end)) => parse_cmd(command@, args_view(items@), start as int, facts@) == Ok::<(MatchesView, int), ErrorView>((m@, end as int)),
            Err(e) => parse_cmd(command@, args_view(items@), start as int, facts@) == Err::<(MatchesView, int), ErrorView>(e@),
        },
        r matches Ok((_, end)) ==> start <= end <= items@.len(),
    decreases items@.len() - start,
{
    let ghost cv = command@;
    let ghost iv = args_view(items@);
    let ghost fv = facts@;
    let mut help = false;
    let mut stop = false;
    let mut occ: Vec<(String, String)> = Vec::new();
    let mut vals: Vec<(String, JsonValue)> = Vec::new();
    let mut pidx: usize = 0;
    let mut sub: Option<CommandMatches> = None;
    let mut done = false;
    let mut index = start;
    proof {
        assert(entries_view(occ@) =~= Seq::<(Seq<char>, Seq<char>)>::empty());
        assert(entries_view(vals@) =~= Seq::<(Seq<char>, JsonData)>::empty());
        assert(scan_view(help, stop, occ@, vals@, pidx, sub) == initial_scan());
    }
    while !done && index < items.len()
        invariant
            cv == command@,
            iv == args_view(items@),
            fv == facts@,
            command.wf(),
            start <= index,
            index <= items@.len(),
            cmd_scan(cv, iv, start as int, initial_scan(), fv) == (if done {
                Ok::<(ScanView, int), ErrorView>((scan_view(help, stop, occ@, vals@, pidx, sub), index as int))
            } else {
                cmd_scan(cv, iv, index as int, scan_view(help, stop, occ@, vals@, pidx, sub), fv)
            }),
        decreases items@.len() - index, if done { 0int } else { 1int },
    {
        let ghost st = scan_view(help, stop, occ@, vals@, pidx, sub);
        let cur = &items[index].1;
        assert(iv[index as int].1 == cur@);
        if !stop && crate::text::str_eq(cur.as_str(), "--") {
            stop = true;
            index = index + 1;
            assert(scan_view(help, stop, occ@, vals@, pidx, sub) == (ScanView { stop: true, ..st }));
        } else if !stop && crate::text::str_eq(cur.as_str(), "--help") {
            help = true;
            index = index + 1;
            assert(scan_view(help, stop, occ@, vals@, pidx, sub) == (ScanView { help: true, ..st }));
        } else if !stop && starts_with_double_dash(cur.as_str()) {
            let stripped = crate::cli::chars_after_dashes(cur.as_str());
            let (flag, inline) = split_flag_value(&stripped);
            let mut name = copy_str("--");
            crate::text::append_str(&mut name, flag.as_str());
            match command.option_for_flag(flag.as_str()) {
                None => {
                    return Err(LccpError::UnknownFlag(name));
                },
                Some(spec) => {
                    let inline_ref: Option<&str> = match &inline {
                        Some(v) => Some(v.as_str()),
                        None => None,
                    };
                    match flag_value(spec.value_type(), spec.repeated_values(), inline_ref, items, index, name.as_str()) {
                        Err(e) => {
                            return Err(e);
                        },
                        Ok((value, consumed)) => {
                            let ghost before = occ@;
                            occ.push((copy_str(spec.name()), value));
                            proof {
                                assert(entries_view(occ@) =~= entries_view(before).push((spec@.name, value@)));
                            }
                            index = if consumed { index + 2 } else { index + 1 };
                        },
                    }
                },
            }
        } else {
            match command.subcommand(cur.as_str()) {
                Some(subspec) => {
                    match parse_command(subspec, items, index + 1, facts) {
                        Err(e) => {
                            return Err(e);
                        },
                        Ok((m, end)) => {
                            sub = Some(m);
                            done = true;
                            index = end;
                        },
                    }
                },
                None => {
                    let ps = command.positionals();
                    proof { assert(positionals_view(ps@) == cv.positionals); }
                    if pidx < ps.len() {
                        let p = &ps[pidx];
                        assert(cv.positionals[pidx as int] == p@);
                        match parse_raw_for_value_type(p.name(), p.value_type(), cur.as_str(), facts) {
                            Err(e) => {
                                return Err(e);
                            },
                            Ok(v) => {
                                let ghost before = vals@;
                                let ghost vd = v.data();
                                vals.push((copy_str(p.name()), v));
                                proof {
                                    assert(entries_view(vals@) =~= entries_view(before).push((p@.name, vd)));
                                }
                                if !p.multiple_values() {
                                    pidx = pidx + 1;
                                }
                                index = index + 1;
                            },
                        }
                    } else {
                        return Err(LccpError::UnexpectedPositional { command: copy_str(command.name()), value: copy_str(cur.as_str()) });
                    }
                },
            }
        }
    }
    let ghost st = scan_view(help, stop, occ@, vals@, pidx, sub);
    assert(cmd_scan(cv, iv, start as int, initial_scan(), fv) == Ok::<(ScanView, int), ErrorView>((st, index as int)));
    let options = match collect_options(command, &occ, facts) {
        Ok(o) => o,
        Err(e) => {
            return Err(e);
        },
    };
    let positionals = match collect_positionals(command, &vals) {
        Ok(p) => p,
        Err(e) => {
            return Err(e);
        },
    };
    let m = CommandMatches {
        command_name: copy_str(command.name()),
        options,
        positionals,
        subcommand: match sub {
            Some(x) => Some(Box::new(x)),
            None => None,
        },
        help_requested: help,
    };
    proof {
        crate::toml_value::lemma_members_entries_view(m.options@);
        crate::toml_value::lemma_members_entries_view(m.positionals@);
    }
    Ok((m, index))
}

} // verus!
