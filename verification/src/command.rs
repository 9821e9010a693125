//! Command declarations: a command's application options, positionals and
//! subcommands.

use vstd::prelude::*;
use crate::error::LccpError;
use crate::keyed::{entries_view, find_key, has_key, insert_entry, is_ordered, keys_of, lemma_entries_view_sorted, lemma_lookup_after_put, lemma_lookup_view, lemma_lookup_view_none, lemma_ordered_unique, lookup, sorted_model};
use crate::names::{is_valid_command_name, validate_command_name};
use crate::specs::{opt_as_str, opt_view, CliOptionSpec, CliOptionSpecView, PositionalSpec, PositionalSpecView};
use crate::text::{copy_str, seq_lt};

verus! {

/// The model of a command declaration.
pub struct CommandSpecView {
    pub name: Seq<char>,
    pub help: Option<Seq<char>>,
    /// Application options by name.
    pub options: Seq<(Seq<char>, CliOptionSpecView)>,
    /// Option names by long flag.
    pub flag_index: Seq<(Seq<char>, Seq<char>)>,
    pub positionals: Seq<PositionalSpecView>,
    /// Subcommands by name.
    pub subcommands: Seq<(Seq<char>, CommandSpecView)>,
}

/// A command: its name, help text, application options (by name, with an
/// index by long flag), positionals in order, and subcommands (by name).
#[derive(Debug)]
pub struct CommandSpec {
    name: String,
    help: Option<String>,
    options: Vec<(String, CliOptionSpec)>,
    flag_index: Vec<(String, String)>,
    positionals: Vec<PositionalSpec>,
    subcommands: Vec<(String, CommandSpec)>,
}

/// The models of positionals.
pub open spec fn positionals_view(s: Seq<PositionalSpec>) -> Seq<PositionalSpecView> {
    s.map_values(|p: PositionalSpec| p@)
}

impl CommandSpec {
    /// The model of this command.
    pub closed spec fn model(self) -> CommandSpecView
        decreases self,
    {
        CommandSpecView {
            name: self.name@,
            help: opt_view(self.help),
            options: entries_view(self.options@),
            flag_index: entries_view(self.flag_index@),
            positionals: positionals_view(self.positionals@),
            subcommands: subcommand_models(self.subcommands@),
        }
    }

    /// The command is consistent: see `parts_wf`.
    #[verifier::opaque]
    pub closed spec fn wf(self) -> bool
        decreases self, 2nat,
    {
        parts_wf(self.name@, self.options@, self.flag_index@, self.positionals@, self.subcommands@)
    }
}

/// Options ordered by name, each stored under its own name and
/// consistent, and a flag index (ordered by flag) mapping each option's long
/// flag to the option's name and nothing else.
pub closed spec fn options_wf(options: Seq<(String, CliOptionSpec)>, flag_index: Seq<(String, String)>) -> bool {
    &&& is_ordered(options)
    &&& forall|i: int|
        0 <= i < options.len() ==> {
            &&& (#[trigger] options[i]).0@ == options[i].1@.name
            &&& options[i].1.wf()
        }
    &&& is_ordered(flag_index)
    &&& forall|i: int|
        0 <= i < options.len() ==> exists|j: int|
            0 <= j < flag_index.len() && (#[trigger] flag_index[j]).0@
                == (#[trigger] options[i]).1@.long_flag && flag_index[j].1@ == options[i].0@
    &&& forall|j: int|
        0 <= j < flag_index.len() ==> exists|i: int|
            0 <= i < options.len() && (#[trigger] flag_index[j]).0@
                == (#[trigger] options[i]).1@.long_flag && flag_index[j].1@ == options[i].0@
}

/// Distinct positional names, and only the last positional may take
/// multiple values.
pub closed spec fn positionals_wf(positionals: Seq<PositionalSpec>) -> bool {
    &&& forall|a: int, b: int|
        0 <= a < b < positionals.len() ==> (#[trigger] positionals[a])@.name
            != (#[trigger] positionals[b])@.name
    &&& forall|a: int| 0 <= a < positionals.len() - 1 ==> !(#[trigger] positionals[a])@.multiple
}

/// A command made of these parts is consistent: a valid name; options
/// ordered by name, each stored under its own name; a flag index mapping
/// each option's long flag to the option's name and nothing else; distinct
/// positional names with only the last one taking multiple values;
/// subcommands ordered, stored under their names, and consistent
/// themselves.
pub closed spec fn parts_wf(
    name: Seq<char>,
    options: Seq<(String, CliOptionSpec)>,
    flag_index: Seq<(String, String)>,
    positionals: Seq<PositionalSpec>,
    subcommands: Seq<(String, CommandSpec)>,
) -> bool
    decreases subcommands, 1nat,
{
    &&& is_valid_command_name(name)
    &&& options_wf(options, flag_index)
    &&& positionals_wf(positionals)
    &&& is_ordered(subcommands)
    &&& subcommands_wf(subcommands)
}

impl View for CommandSpec {
    type V = CommandSpecView;

    open spec fn view(&self) -> CommandSpecView {
        self.model()
    }
}

/// The models of a sequence of subcommands.
pub closed spec fn subcommand_models(s: Seq<(String, CommandSpec)>) -> Seq<(Seq<char>, CommandSpecView)>
    decreases s,
{
    if s.len() == 0 {
        Seq::empty()
    } else {
        seq![(s[0].0@, s[0].1.model())] + subcommand_models(s.drop_first())
    }
}

/// Every subcommand is stored under its own name and is consistent.
pub closed spec fn subcommands_wf(s: Seq<(String, CommandSpec)>) -> bool
    decreases s, 0nat,
{
    if s.len() == 0 {
        true
    } else {
        s[0].0@ == s[0].1.model().name && s[0].1.wf() && subcommands_wf(s.drop_first())
    }
}

proof fn lemma_subcommand_models(s: Seq<(String, CommandSpec)>)
    ensures
        subcommand_models(s).len() == s.len(),
        forall|i: int| 0 <= i < s.len() ==> #[trigger] subcommand_models(s)[i] == (s[i].0@, s[i].1.model()),
    decreases s.len(),
{
    if s.len() > 0 {
        lemma_subcommand_models(s.drop_first());
        assert forall|i: int| 0 <= i < s.len() implies #[trigger] subcommand_models(s)[i] == (s[i].0@, s[i].1.model()) by {
            if i > 0 {
                assert(subcommand_models(s)[i] == subcommand_models(s.drop_first())[i - 1]);
            }
        }
    }
}

/// A subcommand entry is stored under its command's name and is consistent.
pub closed spec fn subcommand_entry_ok(e: (String, CommandSpec)) -> bool {
    e.0@ == e.1.model().name && e.1.wf()
}

proof fn lemma_subcommands_wf(s: Seq<(String, CommandSpec)>)
    ensures
        subcommands_wf(s) <==> forall|i: int| 0 <= i < s.len() ==> #[trigger] subcommand_entry_ok(s[i]),
    decreases s.len(),
{
    reveal(CommandSpec::wf);
    if s.len() > 0 {
        lemma_subcommands_wf(s.drop_first());
        if forall|i: int| 0 <= i < s.len() ==> #[trigger] subcommand_entry_ok(s[i]) {
            assert forall|i: int| 0 <= i < s.drop_first().len() implies #[trigger] subcommand_entry_ok(s.drop_first()[i]) by {
                assert(s.drop_first()[i] == s[i + 1]);
                assert(subcommand_entry_ok(s[i + 1]));
            }
            assert(subcommand_entry_ok(s[0]));
        }
        if subcommands_wf(s) {
            assert forall|i: int| 0 <= i < s.len() implies #[trigger] subcommand_entry_ok(s[i]) by {
                if i > 0 {
                    assert(s[i] == s.drop_first()[i - 1]);
                    assert(subcommand_entry_ok(s.drop_first()[i - 1]));
                }
            }
        }
    }
}

/// One call of a builder method on a command: `with_help`, `add_option`,
/// `add_positional` or `add_subcommand`, with what it was given.
pub enum BuildStep {
    Help(Seq<char>),
    AddOption(CliOptionSpecView),
    AddPositional(PositionalSpecView),
    AddSubcommand(CommandSpecView),
}

/// What one builder call does to a command, given whether it succeeded: a
/// failed call changes nothing; setting the help changes only the help;
/// adding an option puts it under its name and leaves the positionals and
/// subcommands; adding a positional appends it; adding a subcommand puts it
/// under its name and leaves the options and positionals.
pub open spec fn step_effect(before: CommandSpecView, step: BuildStep, ok: bool, after: CommandSpecView) -> bool {
    if !ok {
        after == before
    } else {
        match step {
            BuildStep::Help(h) => after == (CommandSpecView { help: Some(h), ..before }),
            BuildStep::AddOption(o) => {
                &&& inserted(before.options, after.options, o.name, o)
                &&& after.options.len() == before.options.len() + 1
                &&& after.positionals == before.positionals
                &&& after.subcommands == before.subcommands
                &&& after.name == before.name
                &&& after.help == before.help
            },
            BuildStep::AddPositional(p) => after == (CommandSpecView { positionals: before.positionals.push(p), ..before }),
            BuildStep::AddSubcommand(c) => {
                &&& inserted(before.subcommands, after.subcommands, c.name, c)
                &&& after.subcommands.len() == before.subcommands.len() + 1
                &&& after.options == before.options
                &&& after.positionals == before.positionals
                &&& after.name == before.name
                &&& after.help == before.help
            },
        }
    }
}

/// The entries of `s` whose key is not `k` are those of `t` whose key is not
/// `k`, and `k` maps to `v` in `t`.
pub open spec fn inserted<V>(s: Seq<(Seq<char>, V)>, t: Seq<(Seq<char>, V)>, k: Seq<char>, v: V) -> bool {
    &&& crate::keyed::lookup(t, k) == Some(v)
    &&& forall|k2: Seq<char>| k2 != k ==> crate::keyed::lookup(t, k2) == crate::keyed::lookup(s, k2)
}

impl CommandSpec {
    /// Declares a command with no options, positionals or subcommands.
    pub fn new(name: &str) -> (r: Result<CommandSpec, LccpError>)
        ensures
            r is Ok <==> is_valid_command_name(name@),
            r matches Err(e) ==> e matches LccpError::InvalidCommandName(n) && n@ == name@,
            r matches Ok(c) ==> c.wf() && c@ == (CommandSpecView {
                name: name@,
                help: None,
                options: Seq::empty(),
                flag_index: Seq::empty(),
                positionals: Seq::empty(),
                subcommands: Seq::empty(),
            }),
    {
        validate_command_name(name)?;
        let c = CommandSpec {
            name: copy_str(name),
            help: None,
            options: Vec::new(),
            flag_index: Vec::new(),
            positionals: Vec::new(),
            subcommands: Vec::new(),
        };
        proof {
            reveal(CommandSpec::wf);
            assert(entries_view(c.options@) =~= Seq::empty());
            assert(entries_view(c.flag_index@) =~= Seq::empty());
            assert(positionals_view(c.positionals@) =~= Seq::empty());
            assert(subcommand_models(c.subcommands@) =~= Seq::empty());
        }
        Ok(c)
    }

    /// Sets the help text.
    pub fn with_help(self, help: &str) -> (r: CommandSpec)
        ensures
            self.wf() ==> r.wf(),
            r@ == (CommandSpecView { help: Some(help@), ..self@ }),
            step_effect(self@, BuildStep::Help(help@), true, r@),
    {
        let r = CommandSpec { help: Some(copy_str(help)), ..self };
        proof {
            reveal(CommandSpec::wf);
            assert(r.name@ == self.name@);
            assert(r.flag_index@ == self.flag_index@);
            assert(r.positionals@ == self.positionals@);
            assert(r.options@ == self.options@);
            assert(r.subcommands@ == self.subcommands@);
        }
        r
    }

    /// Adds an application option. Fails when an option of the same name,
    /// or else an option with the same long flag, is already declared; the
    /// command is then unchanged.
    #[verifier::rlimit(40)]
    pub fn add_option(&mut self, spec: CliOptionSpec) -> (r: Result<(), LccpError>)
        requires
            old(self).wf(),
            spec.wf(),
        ensures
            final(self).wf(),
            lookup(old(self)@.options, spec@.name) is Some ==> (r matches Err(
                LccpError::DuplicateCliOption(n),
            ) && n@ == spec@.name),
            lookup(old(self)@.options, spec@.name) is None && flag_in_use(old(self)@, spec@.long_flag)
                ==> (r matches Err(LccpError::DuplicateFlag(f)) && f@ == spec@.long_flag),
            r is Err ==> final(self)@ == old(self)@,
            r is Ok <==> lookup(old(self)@.options, spec@.name) is None && !flag_in_use(old(self)@, spec@.long_flag),
            r is Ok ==> final(self)@ == (CommandSpecView {
                options: final(self)@.options,
                flag_index: final(self)@.flag_index,
                ..old(self)@
            }),
            r is Ok ==> inserted(old(self)@.options, final(self)@.options, spec@.name, spec@),
            r is Ok ==> inserted(old(self)@.flag_index, final(self)@.flag_index, spec@.long_flag, spec@.name),
            r is Ok ==> final(self)@.options.len() == old(self)@.options.len() + 1,
            step_effect(old(self)@, BuildStep::AddOption(spec@), r is Ok, final(self)@),
    {
        assert(flag_in_use(self@, spec@.long_flag) <==> lookup(self@.flag_index, spec@.long_flag) is Some) by {
            law_command_wf(&*self);
        }
        proof { reveal(CommandSpec::wf); }
        if let Some(i) = find_key(&self.options, spec.name()) {
            proof { lemma_lookup_view(self.options@, i as int); }
            return Err(LccpError::DuplicateCliOption(copy_str(spec.name())));
        }
        proof { lemma_lookup_view_none(self.options@, spec@.name); }
        if let Some(j) = find_key(&self.flag_index, spec.long_flag()) {
            proof { lemma_lookup_view(self.flag_index@, j as int); }
            return Err(LccpError::DuplicateFlag(copy_str(spec.long_flag())));
        }
        proof { lemma_lookup_view_none(self.flag_index@, spec@.long_flag); }
        let ghost old_self = *self;
        assert(is_ordered(self.flag_index@) && is_ordered(self.options@)) by { reveal(CommandSpec::wf); }
        let ghost old_opts = self.options@;
        let ghost old_flags = self.flag_index@;
        let flag = copy_str(spec.long_flag());
        let target = copy_str(spec.name());
        let ghost flag_v = flag@;
        let mut flags: Vec<(String, String)> = Vec::new();
        std::mem::swap(&mut flags, &mut self.flag_index);
        assert(flags@ == old_flags);
        assert(!has_key(flags@, flag@));
        let fpos = insert_entry(&mut flags, flag, target);
        assert(flags@.len() == old_flags.len() + 1);
        self.flag_index = flags;
        assert(!has_key(old_flags, flag_v));
        assert(self.flag_index@[fpos as int].0@ == flag_v);
        assert(fpos < self.flag_index@.len());
        assert(self.flag_index@.len() == old_flags.len() + 1);
        let name = copy_str(spec.name());
        let mut opts: Vec<(String, CliOptionSpec)> = Vec::new();
        std::mem::swap(&mut opts, &mut self.options);
        let opos = insert_entry(&mut opts, name, spec);
        self.options = opts;
        proof {
            lemma_lookup_after_put(old_flags, self.flag_index@, fpos as int, self.flag_index@[fpos as int]);
            lemma_lookup_after_put(old_opts, self.options@, opos as int, self.options@[opos as int]);
        }
        assert(self.wf()) by {
            let opts = self.options@;
            let flags = self.flag_index@;
            assert forall|i: int| 0 <= i < opts.len() implies {
                &&& (#[trigger] opts[i]).0@ == opts[i].1@.name
                &&& opts[i].1.wf()
            } by {
                if i != opos {
                    let i2 = if i < opos { i } else { i - 1 };
                    assert(opts[i] == old_opts[i2]);
                }
            }
            assert forall|i: int| 0 <= i < opts.len() implies exists|j: int|
                0 <= j < flags.len() && (#[trigger] flags[j]).0@ == (#[trigger] opts[i]).1@.long_flag
                    && flags[j].1@ == opts[i].0@ by {
                if i == opos {
                    assert(flags[fpos as int].0@ == opts[i].1@.long_flag);
                } else {
                    let i2 = if i < opos { i } else { i - 1 };
                    assert(opts[i] == old_opts[i2]);
                    let j2 = choose|j: int| 0 <= j < old_flags.len() && (#[trigger] old_flags[j]).0@ == old_opts[i2].1@.long_flag
                        && old_flags[j].1@ == old_opts[i2].0@;
                    let j = if j2 < fpos { j2 } else { j2 + 1 };
                    assert(flags[j] == old_flags[j2]);
                }
            }
            assert forall|j: int| 0 <= j < flags.len() implies exists|i: int|
                0 <= i < opts.len() && (#[trigger] flags[j]).0@ == (#[trigger] opts[i]).1@.long_flag
                    && flags[j].1@ == opts[i].0@ by {
                if j == fpos {
                    assert(flags[j].0@ == opts[opos as int].1@.long_flag);
                } else {
                    let j2 = if j < fpos { j } else { j - 1 };
                    assert(flags[j] == old_flags[j2]);
                    let i2 = choose|i: int| 0 <= i < old_opts.len() && (#[trigger] old_flags[j2]).0@ == (#[trigger] old_opts[i]).1@.long_flag
                        && old_flags[j2].1@ == old_opts[i].0@;
                    let i = if i2 < opos { i2 } else { i2 + 1 };
                    assert(opts[i] == old_opts[i2]);
                }
            }
        }
        Ok(())
    }
}

/// The models of subcommands are the views of the entries.
proof fn lemma_subcommand_models_view(s: Seq<(String, CommandSpec)>)
    ensures
        subcommand_models(s) == entries_view(s),
{
    lemma_subcommand_models(s);
    assert(subcommand_models(s) =~= entries_view(s));
}

/// The option that a command's flag index maps `flag` to, by the models.
pub open spec fn option_for_flag_spec(c: CommandSpecView, flag: Seq<char>) -> Option<CliOptionSpecView> {
    match lookup(c.flag_index, flag) {
        Some(name) => lookup(c.options, name),
        None => None,
    }
}

impl CommandSpec {
    /// Adds a positional after the existing ones. Fails when a positional of
    /// the same name exists, or else when an existing positional already
    /// takes multiple values; the command is then unchanged.
    #[verifier::loop_isolation(false)]
    pub fn add_positional(&mut self, spec: PositionalSpec) -> (r: Result<(), LccpError>)
        requires
            old(self).wf(),
        ensures
            final(self).wf(),
            (exists|i: int| 0 <= i < old(self)@.positionals.len() && old(self)@.positionals[i].name == spec@.name)
                ==> (r matches Err(LccpError::DuplicatePositional(n)) && n@ == spec@.name),
            !(exists|i: int| 0 <= i < old(self)@.positionals.len() && old(self)@.positionals[i].name == spec@.name)
                && (exists|i: int| 0 <= i < old(self)@.positionals.len() && old(self)@.positionals[i].multiple)
                ==> (r matches Err(LccpError::InvalidPositionalLayout(n)) && n@ == old(self)@.name),
            r is Ok <==> !(exists|i: int| 0 <= i < old(self)@.positionals.len() && old(self)@.positionals[i].name == spec@.name)
                && !(exists|i: int| 0 <= i < old(self)@.positionals.len() && old(self)@.positionals[i].multiple),
            r is Err ==> final(self)@ == old(self)@,
            r is Ok ==> final(self)@ == (CommandSpecView {
                positionals: old(self)@.positionals.push(spec@),
                ..old(self)@
            }),
            step_effect(old(self)@, BuildStep::AddPositional(spec@), r is Ok, final(self)@),
    {
        proof { reveal(CommandSpec::wf); }
        let ghost old_pos = self.positionals@;
        for i in 0..self.positionals.len()
            invariant
                self.positionals@ == old_pos,
                forall|j: int| 0 <= j < i ==> (#[trigger] old_pos[j])@.name != spec@.name,
        {
            if crate::text::str_eq(self.positionals[i].name(), spec.name()) {
                assert(positionals_view(old_pos)[i as int].name == spec@.name);
                return Err(LccpError::DuplicatePositional(copy_str(spec.name())));
            }
        }
        for i in 0..self.positionals.len()
            invariant
                self.positionals@ == old_pos,
                forall|j: int| 0 <= j < i ==> !(#[trigger] old_pos[j])@.multiple,
        {
            if self.positionals[i].multiple_values() {
                assert(positionals_view(old_pos)[i as int].multiple);
                return Err(LccpError::InvalidPositionalLayout(copy_str(self.name.as_str())));
            }
        }
        proof {
            assert forall|i: int| 0 <= i < old_pos.len() implies positionals_view(old_pos)[i].name != spec@.name
                && !positionals_view(old_pos)[i].multiple by {
                assert(old_pos[i]@.name != spec@.name);
            }
        }
        let mut ps: Vec<PositionalSpec> = Vec::new();
        std::mem::swap(&mut ps, &mut self.positionals);
        ps.push(spec);
        self.positionals = ps;
        proof {
            assert(positionals_view(self.positionals@) =~= positionals_view(old_pos).push(spec@));
            let p = self.positionals@;
            assert forall|a: int, b: int| 0 <= a < b < p.len() implies (#[trigger] p[a])@.name != (#[trigger] p[b])@.name by {
                if b == p.len() - 1 {
                    assert(p[a] == old_pos[a]);
                } else {
                    assert(p[a] == old_pos[a] && p[b] == old_pos[b]);
                }
            }
            assert forall|a: int| 0 <= a < p.len() - 1 implies !(#[trigger] p[a])@.multiple by {
                assert(p[a] == old_pos[a]);
            }
            assert(parts_wf(self.name@, self.options@, self.flag_index@, self.positionals@, self.subcommands@));
        }
        Ok(())
    }

    /// Adds a subcommand. Fails when a subcommand of the same name exists;
    /// the command is then unchanged.
    pub fn add_subcommand(&mut self, spec: CommandSpec) -> (r: Result<(), LccpError>)
        requires
            old(self).wf(),
            spec.wf(),
        ensures
            final(self).wf(),
            lookup(old(self)@.subcommands, spec@.name) is Some ==> (r matches Err(
                LccpError::DuplicateSubcommand(n),
            ) && n@ == spec@.name),
            r is Ok <==> lookup(old(self)@.subcommands, spec@.name) is None,
            r is Err ==> final(self)@ == old(self)@,
            r is Ok ==> final(self)@ == (CommandSpecView { subcommands: final(self)@.subcommands, ..old(self)@ }),
            r is Ok ==> inserted(old(self)@.subcommands, final(self)@.subcommands, spec@.name, spec@),
            r is Ok ==> final(self)@.subcommands.len() == old(self)@.subcommands.len() + 1,
            step_effect(old(self)@, BuildStep::AddSubcommand(spec@), r is Ok, final(self)@),
    {
        proof {
            reveal(CommandSpec::wf);
            lemma_subcommand_models_view(self.subcommands@);
        }
        let ghost old_subs = self.subcommands@;
        if let Some(i) = find_key(&self.subcommands, spec.name.as_str()) {
            proof { lemma_lookup_view(self.subcommands@, i as int); }
            return Err(LccpError::DuplicateSubcommand(copy_str(spec.name.as_str())));
        }
        proof { lemma_lookup_view_none(self.subcommands@, spec.name@); }
        let key = copy_str(spec.name.as_str());
        let mut subs: Vec<(String, CommandSpec)> = Vec::new();
        std::mem::swap(&mut subs, &mut self.subcommands);
        let pos = insert_entry(&mut subs, key, spec);
        self.subcommands = subs;
        proof {
            lemma_subcommand_models_view(self.subcommands@);
            lemma_lookup_after_put(old_subs, self.subcommands@, pos as int, self.subcommands@[pos as int]);
            lemma_subcommands_wf(old_subs);
            lemma_subcommands_wf(self.subcommands@);
            assert forall|i: int| 0 <= i < self.subcommands@.len() implies #[trigger] subcommand_entry_ok(self.subcommands@[i]) by {
                if i != pos {
                    let i2 = if i < pos { i } else { i - 1 };
                    assert(self.subcommands@[i] == old_subs[i2]);
                }
            }
            assert(parts_wf(self.name@, self.options@, self.flag_index@, self.positionals@, self.subcommands@));
        }
        Ok(())
    }

    /// The command's name.
    pub fn name(&self) -> (r: &str)
        ensures
            r@ == self@.name,
    {
        self.name.as_str()
    }

    /// The help text, if any.
    pub fn help(&self) -> (r: Option<&str>)
        ensures
            r matches Some(s) ==> self@.help == Some(s@),
            r is None ==> self@.help is None,
    {
        opt_as_str(&self.help)
    }

    /// The application options, ordered by name.
    pub fn options(&self) -> (r: &Vec<(String, CliOptionSpec)>)
        ensures
            entries_view(r@) == self@.options,
            self.wf() ==> is_ordered(r@),
    {
        proof { reveal(CommandSpec::wf); }
        &self.options
    }

    /// The positionals, in order.
    pub fn positionals(&self) -> (r: &[PositionalSpec])
        ensures
            positionals_view(r@) == self@.positionals,
    {
        self.positionals.as_slice()
    }

    /// The subcommands, ordered by name.
    pub fn subcommands(&self) -> (r: &Vec<(String, CommandSpec)>)
        ensures
            entries_view(r@) == self@.subcommands,
            self.wf() ==> is_ordered(r@),
            self.wf() ==> forall|i: int| 0 <= i < r@.len() ==> (#[trigger] r@[i]).1.wf(),
    {
        proof {
            reveal(CommandSpec::wf);
            lemma_subcommand_models_view(self.subcommands@);
            lemma_subcommands_wf(self.subcommands@);
            assert forall|i: int| self.wf() && 0 <= i < self.subcommands@.len() implies (#[trigger] self.subcommands@[i]).1.wf() by {
                assert(subcommand_entry_ok(self.subcommands@[i]));
            }
        }
        &self.subcommands
    }

    /// The subcommand named `name`, if any.
    pub fn subcommand(&self, name: &str) -> (r: Option<&CommandSpec>)
        ensures
            r matches Some(c) ==> (self.wf() ==> lookup(self@.subcommands, name@) == Some(c@) && c.wf()),
            r is None ==> lookup(self@.subcommands, name@) is None,
    {
        proof {
            reveal(CommandSpec::wf);
            lemma_subcommand_models_view(self.subcommands@);
            lemma_subcommands_wf(self.subcommands@);
        }
        match find_key(&self.subcommands, name) {
            Some(i) => {
                proof {
                    if self.wf() {
                        lemma_lookup_view(self.subcommands@, i as int);
                        assert(subcommand_entry_ok(self.subcommands@[i as int]));
                    }
                }
                Some(&self.subcommands[i].1)
            },
            None => {
                proof { lemma_lookup_view_none(self.subcommands@, name@); }
                None
            },
        }
    }
}

impl CommandSpec {
    /// The option that `flag` (without `--`) selects, if any.
    pub fn option_for_flag(&self, flag: &str) -> (r: Option<&CliOptionSpec>)
        requires
            self.wf(),
        ensures
            match r {
                Some(o) => option_for_flag_spec(self@, flag@) == Some(o@) && o.wf(),
                None => option_for_flag_spec(self@, flag@) is None,
            },
    {
        proof {
            reveal(CommandSpec::wf);
            crate::keyed::lemma_lookup_first(self.flag_index@, flag@);
        }
        match crate::keyed::get_first(&self.flag_index, flag) {
            Some(name) => {
                proof { crate::keyed::lemma_lookup_first(self.options@, name@); }
                match find_key(&self.options, name.as_str()) {
                    Some(i) => {
                        proof {
                            lemma_lookup_view(self.options@, i as int);
                        }
                        Some(&self.options[i].1)
                    },
                    None => {
                        proof {
                            lemma_lookup_view_none(self.options@, name@);
                            let j = choose|j: int| 0 <= j < self.flag_index@.len() && entries_view(self.flag_index@)[j].0 == flag@;
                            lemma_lookup_view(self.flag_index@, j);
                            let i = choose|i: int| 0 <= i < self.options@.len() && (#[trigger] self.flag_index@[j]).0@
                                == (#[trigger] self.options@[i]).1@.long_flag && self.flag_index@[j].1@ == self.options@[i].0@;
                            assert(has_key(self.options@, name@));
                        }
                        None
                    },
                }
            },
            None => None,
        }
    }
}

} // verus!

verus! {

/// Every subcommand, at any depth, is stored under its own name.
pub open spec fn names_consistent(c: CommandSpecView) -> bool
    decreases c, 1nat,
{
    subs_consistent(c.subcommands)
}

/// Every entry names its command and is consistent below.
pub open spec fn subs_consistent(s: Seq<(Seq<char>, CommandSpecView)>) -> bool
    decreases s, 0nat,
{
    if s.len() == 0 {
        true
    } else {
        s[0].1.name == s[0].0 && names_consistent(s[0].1) && subs_consistent(s.drop_first())
    }
}

/// `subs_consistent` entry by entry.
pub proof fn lemma_subs_consistent(s: Seq<(Seq<char>, CommandSpecView)>)
    ensures
        subs_consistent(s) <==> forall|i: int| 0 <= i < s.len() ==> (#[trigger] s[i]).1.name == s[i].0 && names_consistent(s[i].1),
    decreases s.len(),
{
    if s.len() > 0 {
        lemma_subs_consistent(s.drop_first());
        if forall|i: int| 0 <= i < s.len() ==> (#[trigger] s[i]).1.name == s[i].0 && names_consistent(s[i].1) {
            assert forall|i: int| 0 <= i < s.drop_first().len() implies (#[trigger] s.drop_first()[i]).1.name == s.drop_first()[i].0
                && names_consistent(s.drop_first()[i].1) by {
                assert(s.drop_first()[i] == s[i + 1]);
            }
        }
        if subs_consistent(s) {
            assert forall|i: int| 0 <= i < s.len() implies (#[trigger] s[i]).1.name == s[i].0 && names_consistent(s[i].1) by {
                if i > 0 {
                    assert(s[i] == s.drop_first()[i - 1]);
                }
            }
        }
    }
}

/// A consistent command stores every subcommand, at any depth, under its
/// own name.
pub proof fn lemma_wf_names_consistent(c: CommandSpec)
    requires
        c.wf(),
    ensures
        names_consistent(c@),
    decreases c,
{
    reveal(CommandSpec::wf);
    let s = c.subcommands@;
    lemma_subcommands_wf(s);
    lemma_subcommand_models(s);
    let m = subcommand_models(s);
    assert forall|i: int| 0 <= i < m.len() implies (#[trigger] m[i]).1.name == m[i].0 && names_consistent(m[i].1) by {
        assert(subcommand_entry_ok(s[i]));
        assert(decreases_to!(c => c.subcommands));
        assert(decreases_to!(c.subcommands => c.subcommands@));
        assert(decreases_to!(c.subcommands@ => c.subcommands@[i]));
        assert(decreases_to!(c.subcommands@[i] => c.subcommands@[i].1));
        lemma_wf_names_consistent(s[i].1);
    }
    lemma_subs_consistent(m);
}

} // verus!

verus! {

/// Whether some option of `c` has the long flag `f`.
pub open spec fn flag_in_use(c: CommandSpecView, f: Seq<char>) -> bool {
    exists|i: int| 0 <= i < c.options.len() && (#[trigger] c.options[i]).1.long_flag == f
}

/// Law: every command built by `new`, `with_help`, `add_option`,
/// `add_positional` and `add_subcommand` is consistent, and a consistent
/// command keeps its options ordered by name, each under its own name, with
/// pairwise different long flags, and its flag index holds exactly those
/// long flags, each mapped to its option's name; its positionals have
/// pairwise different names and only the last one takes multiple values;
/// its subcommands are ordered by name, each under its own name.
pub proof fn law_command_wf(c: &CommandSpec)
    requires
        c.wf(),
    ensures
        sorted_model(c@.options),
        forall|i: int| 0 <= i < c@.options.len() ==> (#[trigger] c@.options[i]).0 == c@.options[i].1.name,
        forall|i: int, j: int|
            0 <= i < j < c@.options.len() ==> (#[trigger] c@.options[i]).1.long_flag != (#[trigger] c@.options[j]).1.long_flag,
        forall|f: Seq<char>| (#[trigger] lookup(c@.flag_index, f)) is Some <==> flag_in_use(c@, f),
        forall|i: int| 0 <= i < c@.options.len() ==> lookup(c@.flag_index, (#[trigger] c@.options[i]).1.long_flag) == Some(c@.options[i].0),
        forall|a: int, b: int|
            0 <= a < b < c@.positionals.len() ==> (#[trigger] c@.positionals[a]).name != (#[trigger] c@.positionals[b]).name,
        forall|a: int| 0 <= a < c@.positionals.len() - 1 ==> !(#[trigger] c@.positionals[a]).multiple,
        sorted_model(c@.subcommands),
        forall|i: int| 0 <= i < c@.subcommands.len() ==> (#[trigger] c@.subcommands[i]).0 == c@.subcommands[i].1.name,
{
    reveal(CommandSpec::wf);
    let opts = c.options@;
    let flags = c.flag_index@;
    lemma_entries_view_sorted(opts);
    lemma_entries_view_sorted(c.subcommands@);
    lemma_subcommand_models_view(c.subcommands@);
    lemma_subcommands_wf(c.subcommands@);
    assert forall|i: int| 0 <= i < c@.options.len() implies (#[trigger] c@.options[i]).0 == c@.options[i].1.name by {
        assert(c@.options[i] == (opts[i].0@, opts[i].1@));
    }
    assert forall|i: int| 0 <= i < c@.options.len() implies lookup(c@.flag_index, (#[trigger] c@.options[i]).1.long_flag)
        == Some(c@.options[i].0) by {
        assert(c@.options[i] == (opts[i].0@, opts[i].1@));
        let j = choose|j: int|
            0 <= j < flags.len() && (#[trigger] flags[j]).0@ == (#[trigger] opts[i]).1@.long_flag && flags[j].1@ == opts[i].0@;
        lemma_lookup_view(flags, j);
    }
    assert forall|i: int, j: int| 0 <= i < j < c@.options.len() implies (#[trigger] c@.options[i]).1.long_flag
        != (#[trigger] c@.options[j]).1.long_flag by {
        assert(c@.options[i] == (opts[i].0@, opts[i].1@));
        assert(c@.options[j] == (opts[j].0@, opts[j].1@));
        if opts[i].1@.long_flag == opts[j].1@.long_flag {
            let a = choose|a: int|
                0 <= a < flags.len() && (#[trigger] flags[a]).0@ == (#[trigger] opts[i]).1@.long_flag && flags[a].1@ == opts[i].0@;
            let b = choose|b: int|
                0 <= b < flags.len() && (#[trigger] flags[b]).0@ == (#[trigger] opts[j]).1@.long_flag && flags[b].1@ == opts[j].0@;
            lemma_ordered_unique(flags, a, b);
            lemma_ordered_unique(opts, i, j);
        }
    }
    assert forall|f: Seq<char>| (#[trigger] lookup(c@.flag_index, f)) is Some <==> flag_in_use(c@, f) by {
        if flag_in_use(c@, f) {
            let i = choose|i: int| 0 <= i < c@.options.len() && (#[trigger] c@.options[i]).1.long_flag == f;
            assert(lookup(c@.flag_index, c@.options[i].1.long_flag) == Some(c@.options[i].0));
        } else if has_key(flags, f) {
            let j = choose|j: int| 0 <= j < flags.len() && flags[j].0@ == f;
            assert(flags[j] == flags[j]);
            let i = choose|i: int|
                0 <= i < opts.len() && (#[trigger] flags[j]).0@ == (#[trigger] opts[i]).1@.long_flag && flags[j].1@ == opts[i].0@;
            assert(c@.options[i] == (opts[i].0@, opts[i].1@));
            assert(flag_in_use(c@, f));
        } else {
            lemma_lookup_view_none(flags, f);
        }
    }
    let ps = c.positionals@;
    assert forall|a: int, b: int| 0 <= a < b < c@.positionals.len() implies (#[trigger] c@.positionals[a]).name
        != (#[trigger] c@.positionals[b]).name by {
        assert(c@.positionals[a] == ps[a]@ && c@.positionals[b] == ps[b]@);
    }
    assert forall|a: int| 0 <= a < c@.positionals.len() - 1 implies !(#[trigger] c@.positionals[a]).multiple by {
        assert(c@.positionals[a] == ps[a]@);
    }
    assert forall|i: int| 0 <= i < c@.subcommands.len() implies (#[trigger] c@.subcommands[i]).0 == c@.subcommands[i].1.name by {
        assert(subcommand_entry_ok(c.subcommands@[i]));
        assert(c@.subcommands[i] == (c.subcommands@[i].0@, c.subcommands@[i].1@));
    }
}

} // verus!

verus! {

/// The positionals that the successful `add_positional` calls of a run of
/// builder calls added, in the order of the calls.
pub open spec fn added_positionals(steps: Seq<BuildStep>, oks: Seq<bool>) -> Seq<PositionalSpecView>
    decreases steps.len(),
{
    if steps.len() == 0 || oks.len() == 0 {
        Seq::empty()
    } else {
        let p = added_positionals(steps.drop_last(), oks.drop_last());
        match steps.last() {
            BuildStep::AddPositional(q) => if oks.last() {
                p.push(q)
            } else {
                p
            },
            _ => p,
        }
    }
}

/// The option named `k` that the last successful `add_option` call of a run
/// of builder calls for that name added, if any.
pub open spec fn added_option(steps: Seq<BuildStep>, oks: Seq<bool>, k: Seq<char>) -> Option<CliOptionSpecView>
    decreases steps.len(),
{
    if steps.len() == 0 || oks.len() == 0 {
        None
    } else {
        match steps.last() {
            BuildStep::AddOption(o) => if oks.last() && o.name == k {
                Some(o)
            } else {
                added_option(steps.drop_last(), oks.drop_last(), k)
            },
            _ => added_option(steps.drop_last(), oks.drop_last(), k),
        }
    }
}

/// Law: for a command built by `new` and then any run of `with_help`,
/// `add_option`, `add_positional` and `add_subcommand` calls, each of which
/// may succeed or fail (`cs[i + 1]` is the command after call `i`, `oks[i]`
/// whether it succeeded), the options table holds exactly the specs that
/// the successful `add_option` calls added, each under its name, and the
/// positionals are those of the successful `add_positional` calls, in the
/// order of the calls.
pub proof fn law_build_trace(cs: Seq<CommandSpecView>, steps: Seq<BuildStep>, oks: Seq<bool>)
    requires
        cs.len() == steps.len() + 1,
        oks.len() == steps.len(),
        cs[0].options.len() == 0,
        cs[0].positionals.len() == 0,
        forall|i: int| 0 <= i < steps.len() ==> step_effect(cs[i], #[trigger] steps[i], oks[i], cs[i + 1]),
    ensures
        cs.last().positionals == added_positionals(steps, oks),
        forall|k: Seq<char>| #[trigger] lookup(cs.last().options, k) == added_option(steps, oks, k),
    decreases steps.len(),
{
    if steps.len() == 0 {
        assert(cs[0].positionals =~= Seq::<PositionalSpecView>::empty());
        assert forall|k: Seq<char>| #[trigger] lookup(cs.last().options, k) == added_option(steps, oks, k) by {
            assert(!(exists|i: int| 0 <= i < cs[0].options.len() && cs[0].options[i].0 == k));
        }
    } else {
        let n = steps.len() - 1;
        let cs2 = cs.drop_last();
        let steps2 = steps.drop_last();
        let oks2 = oks.drop_last();
        assert forall|i: int| 0 <= i < steps2.len() implies step_effect(cs2[i], #[trigger] steps2[i], oks2[i], cs2[i + 1]) by {
            assert(steps2[i] == steps[i]);
            assert(step_effect(cs[i], steps[i], oks[i], cs[i + 1]));
        }
        law_build_trace(cs2, steps2, oks2);
        assert(cs2.last() == cs[n]);
        assert(cs.last() == cs[n + 1]);
        assert(step_effect(cs[n], steps[n], oks[n], cs[n + 1]));
        assert forall|k: Seq<char>| #[trigger] lookup(cs.last().options, k) == added_option(steps, oks, k) by {
            assert(lookup(cs2.last().options, k) == added_option(steps2, oks2, k));
        }
    }
}

} // verus!
