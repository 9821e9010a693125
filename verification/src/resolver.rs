//! The resolver: the configuration schema, its defaults and the
//! application's command, and resolution of a configuration from all the
//! sources in order of precedence.

use vstd::prelude::*;
use crate::command::{CommandSpec, CommandSpecView};
use crate::error::{ErrorView, LccpError};
use crate::keyed::{
    entries_view, first_lookup, get_first, lemma_put_elements, lemma_sorted_lookup_first, lemma_sorted_put, lookup,
    put, put_entry, sorted_model,
};
use crate::names::{
    env_name_for, env_var_name, is_valid_app_name, is_valid_canonical_key, key_to_flag, validate_app_name,
    validate_canonical_key,
};
use crate::specs::{OptionSpec, OptionSpecView};
use crate::cli::{parse_argv, parse_argv_spec, strings_view, NamedEvent, NamedView, SetArg, SetView};
use crate::convert::{parse_raw_for_value_type, parse_untyped_cli_value, typed_value, untyped_value, RawFactView, RawFacts};
use crate::help::{help_text, join_space, join_with_space, render_help_text};
use crate::inputs::{file_of, ConfigFiles, FileView, OptionsView, ResolveOptions};
use crate::matching::{element_or_self, parse_cmd, parse_command, parse_typed_values, typed_values};
use crate::paths::{
    config_format, format_of, install_dir, install_dir_text, is_absolute, is_absolute_path, join_path, join_text,
    normalize_path, normalize_text, ConfigFormat,
};
use crate::render::{decimal_string, decimal_text, push_decimal, render_value, value_text};
use crate::formats::{json_document_reading, read_json_document, read_toml_document, toml_document_reading};
use crate::resolved::{apply_leaf_spec, RecordView, ResolvedConfig, ResolvedView, SourceInfo, SourceKind, SourceView};
use crate::text::{append_str, copy_str};
use crate::toml_value::{toml_to_json, toml_to_json_spec};
use crate::tree::{flatten_object, flatten_spec, strings_model};
use crate::value::members_data;
use crate::toml_value::{TomlData, TomlValue};
use crate::tree::{build_tree, insert_value_at_path, json_to_toml_spec, toml_text_spec};
use crate::value::{first_mismatch, validate_value_matches_type, JsonData, JsonValue, ValueType};

verus! {

broadcast use vstd::std_specs::vec::group_vec_axioms;

/// The model of a resolver.
pub struct ResolverView {
    pub app_name: Seq<char>,
    pub executable_path: Seq<char>,
    /// Declared options by canonical key.
    pub schema: Seq<(Seq<char>, OptionSpecView)>,
    /// Canonical keys by long flag.
    pub flag_index: Seq<(Seq<char>, Seq<char>)>,
    /// Default values by canonical key.
    pub defaults: Seq<(Seq<char>, JsonData)>,
    /// The application's root command.
    pub command: CommandSpecView,
}

/// Declares an application's configuration and command line, and resolves
/// configurations.
#[derive(Debug)]
pub struct Resolver {
    app_name: String,
    executable_path: String,
    schema: Vec<(String, OptionSpec)>,
    flag_index: Vec<(String, String)>,
    defaults: Vec<(String, JsonValue)>,
    root_command: CommandSpec,
}

impl View for Resolver {
    type V = ResolverView;

    closed spec fn view(&self) -> ResolverView {
        ResolverView {
            app_name: self.app_name@,
            executable_path: self.executable_path@,
            schema: entries_view(self.schema@),
            flag_index: entries_view(self.flag_index@),
            defaults: entries_view(self.defaults@),
            command: self.root_command@,
        }
    }
}

/// A consistent option declaration: a valid key, the long flag derived
/// from it, and an array type when the flag may repeat.
pub open spec fn option_view_wf(o: OptionSpecView) -> bool {
    &&& is_valid_canonical_key(o.key)
    &&& o.long_flag == key_to_flag(o.key)
    &&& o.repeated_cli ==> o.value_type is Array
}

/// The schema and its flag index agree: both ordered; every option is
/// stored under its key and consistent; every option's long flag selects
/// it; every flag selects an option with that flag.
pub open spec fn schema_wf(schema: Seq<(Seq<char>, OptionSpecView)>, flags: Seq<(Seq<char>, Seq<char>)>) -> bool {
    &&& sorted_model(schema)
    &&& sorted_model(flags)
    &&& forall|i: int|
        0 <= i < schema.len() ==> (#[trigger] schema[i]).0 == schema[i].1.key && option_view_wf(schema[i].1)
    &&& forall|i: int| 0 <= i < schema.len() ==> lookup(flags, (#[trigger] schema[i]).1.long_flag) == Some(schema[i].0)
    &&& forall|j: int|
        0 <= j < flags.len() ==> (lookup(schema, (#[trigger] flags[j]).1) matches Some(o) && o.long_flag == flags[j].0)
}

/// Defaults are ordered by key and every key is canonical.
pub open spec fn defaults_wf(defaults: Seq<(Seq<char>, JsonData)>) -> bool {
    &&& sorted_model(defaults)
    &&& forall|i: int| 0 <= i < defaults.len() ==> is_valid_canonical_key((#[trigger] defaults[i]).0)
}

impl Resolver {
    /// The resolver is consistent: a valid application name, a schema that
    /// agrees with its flag index, ordered defaults with canonical keys, and
    /// a consistent root command.
    pub open spec fn wf(&self) -> bool {
        &&& is_valid_app_name(self@.app_name)
        &&& schema_wf(self@.schema, self@.flag_index)
        &&& defaults_wf(self@.defaults)
        &&& self.root_wf()
    }

    /// The root command is consistent.
    pub closed spec fn root_wf(&self) -> bool {
        self.root_command.wf()
    }
}

/// Checking `d` against the type declared for `key`, if any.
pub open spec fn normalize_spec(schema: Seq<(Seq<char>, OptionSpecView)>, key: Seq<char>, d: JsonData) -> Result<
    JsonData,
    ErrorView,
> {
    match first_lookup(schema, key) {
        Some(o) => match first_mismatch(d, o.value_type) {
            None => Ok(d),
            Some(m) => Err(ErrorView::TypeMismatch { key: key, expected: m.0, actual: m.1 }),
        },
        None => Ok(d),
    }
}

impl Resolver {
    /// A resolver for application `app_name` whose executable lives at
    /// `executable_path`, with no options, no defaults and a root command
    /// named after the application.
    pub fn new(app_name: &str, executable_path: &str) -> (r: Result<Resolver, LccpError>)
        ensures
            r is Ok <==> is_valid_app_name(app_name@),
            r matches Err(e) ==> e matches LccpError::InvalidAppName(n) && n@ == app_name@,
            r matches Ok(res) ==> res.wf() && res@.app_name == app_name@ && res@.executable_path
                == executable_path@ && res@.schema.len() == 0 && res@.flag_index.len() == 0 && res@.defaults.len() == 0
                && res@.command == (CommandSpecView {
                name: app_name@,
                help: None,
                options: Seq::empty(),
                flag_index: Seq::empty(),
                positionals: Seq::empty(),
                subcommands: Seq::empty(),
            }),
    {
        match validate_app_name(app_name) {
            Ok(()) => {},
            Err(e) => {
                return Err(e);
            },
        }
        let root = match CommandSpec::new(app_name) {
            Ok(c) => c,
            Err(e) => {
                return Err(e);
            },
        };
        let r = Resolver {
            app_name: copy_str(app_name),
            executable_path: copy_str(executable_path),
            schema: Vec::new(),
            flag_index: Vec::new(),
            defaults: Vec::new(),
            root_command: root,
        };
        proof {
            assert(entries_view(r.schema@) =~= Seq::<(Seq<char>, OptionSpecView)>::empty());
            assert(entries_view(r.flag_index@) =~= Seq::<(Seq<char>, Seq<char>)>::empty());
            assert(entries_view(r.defaults@) =~= Seq::<(Seq<char>, JsonData)>::empty());
        }
        Ok(r)
    }

    /// Declares a configuration option. Fails when an option with the same
    /// key, or else one with the same long flag, is declared already; the
    /// resolver is then unchanged.
    pub fn declare_option(&mut self, spec: OptionSpec) -> (r: Result<(), LccpError>)
        requires
            old(self).wf(),
            spec.wf(),
        ensures
            final(self).wf(),
            lookup(old(self)@.schema, spec@.key) is Some ==> (r matches Err(LccpError::DuplicateOption(k)) && k@
                == spec@.key),
            lookup(old(self)@.schema, spec@.key) is None && lookup(old(self)@.flag_index, spec@.long_flag) is Some
                ==> (r matches Err(LccpError::DuplicateFlag(f)) && f@ == spec@.long_flag),
            r is Ok <==> lookup(old(self)@.schema, spec@.key) is None && lookup(old(self)@.flag_index, spec@.long_flag) is None,
            r is Err ==> final(self)@ == old(self)@,
            r is Ok ==> final(self)@ == (ResolverView {
                schema: put(old(self)@.schema, spec@.key, spec@),
                flag_index: put(old(self)@.flag_index, spec@.long_flag, spec@.key),
                ..old(self)@
            }),
    {
        let ghost s0 = entries_view(self.schema@);
        let ghost f0 = entries_view(self.flag_index@);
        proof {
            lemma_sorted_lookup_first(s0, spec@.key);
            lemma_sorted_lookup_first(f0, spec@.long_flag);
        }
        if get_first(&self.schema, spec.key()).is_some() {
            return Err(LccpError::DuplicateOption(copy_str(spec.key())));
        }
        if get_first(&self.flag_index, spec.long_flag()).is_some() {
            return Err(LccpError::DuplicateFlag(copy_str(spec.long_flag())));
        }
        let key = copy_str(spec.key());
        let flag = copy_str(spec.long_flag());
        let ghost sv = spec@;
        put_entry(&mut self.flag_index, flag, copy_str(spec.key()));
        put_entry(&mut self.schema, key, spec);
        proof {
            let s1 = entries_view(self.schema@);
            let f1 = entries_view(self.flag_index@);
            assert(s1 == put(s0, sv.key, sv));
            assert(f1 == put(f0, sv.long_flag, sv.key));
            lemma_sorted_put(s0, sv.key, sv);
            lemma_sorted_put(f0, sv.long_flag, sv.key);
            lemma_put_elements(s0, sv.key, sv);
            lemma_put_elements(f0, sv.long_flag, sv.key);
            assert forall|i: int| 0 <= i < s1.len() implies (#[trigger] s1[i]).0 == s1[i].1.key && option_view_wf(s1[i].1) by {
                if s1[i] != (sv.key, sv) {
                    let j = choose|j: int| 0 <= j < s0.len() && s1[i] == #[trigger] s0[j];
                }
            }
            assert forall|i: int| 0 <= i < s1.len() implies lookup(f1, (#[trigger] s1[i]).1.long_flag) == Some(s1[i].0) by {
                if s1[i] != (sv.key, sv) {
                    let j = choose|j: int| 0 <= j < s0.len() && s1[i] == #[trigger] s0[j];
                    assert(lookup(f0, s0[j].1.long_flag) == Some(s0[j].0));
                    assert(s0[j].1.long_flag != sv.long_flag);
                }
            }
            assert forall|j: int| 0 <= j < f1.len() implies (lookup(s1, (#[trigger] f1[j]).1) matches Some(o) && o.long_flag
                == f1[j].0) by {
                if f1[j] != (sv.long_flag, sv.key) {
                    let a = choose|a: int| 0 <= a < f0.len() && f1[j] == #[trigger] f0[a];
                    assert(lookup(s0, f0[a].1) is Some);
                    assert(f0[a].1 != sv.key);
                }
            }
        }
        Ok(())
    }

    /// Checks `value` against the type declared for `key`, if any.
    fn normalize_declared_value(&self, key: &str, value: &JsonValue) -> (r: Result<(), LccpError>)
        ensures
            match normalize_spec(self@.schema, key@, value.data()) {
                Ok(_) => r is Ok,
                Err(e) => r matches Err(x) && x@ == e,
            },
    {
        match get_first(&self.schema, key) {
            Some(spec) => validate_value_matches_type(key, value, spec.value_type()),
            None => Ok(()),
        }
    }

    /// Sets the default value of `key`, replacing an earlier default. Fails
    /// when the key is not canonical, or when the value does not have the
    /// type declared for the key; the resolver is then unchanged.
    pub fn set_default(&mut self, key: &str, value: JsonValue) -> (r: Result<(), LccpError>)
        requires
            old(self).wf(),
        ensures
            final(self).wf(),
            !is_valid_canonical_key(key@) ==> (r matches Err(LccpError::InvalidCanonicalKey(k)) && k@ == key@),
            is_valid_canonical_key(key@) ==> match normalize_spec(old(self)@.schema, key@, value.data()) {
                Ok(d) => r is Ok && final(self)@ == (ResolverView {
                    defaults: put(old(self)@.defaults, key@, d),
                    ..old(self)@
                }),
                Err(e) => r matches Err(x) && x@ == e,
            },
            r is Err ==> final(self)@ == old(self)@,
    {
        match validate_canonical_key(key) {
            Ok(()) => {},
            Err(e) => {
                return Err(e);
            },
        }
        match self.normalize_declared_value(key, &value) {
            Ok(()) => {},
            Err(e) => {
                return Err(e);
            },
        }
        let ghost d0 = entries_view(self.defaults@);
        let ghost k = key@;
        let ghost v = value.data();
        put_entry(&mut self.defaults, copy_str(key), value);
        proof {
            lemma_sorted_put(d0, k, v);
            lemma_put_elements(d0, k, v);
            let d1 = entries_view(self.defaults@);
            assert forall|i: int| 0 <= i < d1.len() implies is_valid_canonical_key((#[trigger] d1[i]).0) by {
                if d1[i] != (k, v) {
                    let j = choose|j: int| 0 <= j < d0.len() && d1[i] == #[trigger] d0[j];
                }
            }
        }
        Ok(())
    }

    /// The environment variable that overrides `key`: the application name
    /// and the key, uppercased, dashes and dots turned into underscores,
    /// joined by an underscore. Fails when the key is not canonical.
    pub fn environment_variable_name(&self, key: &str) -> (r: Result<String, LccpError>)
        ensures
            r is Ok <==> is_valid_canonical_key(key@),
            r matches Ok(s) ==> s@ == env_var_name(self@.app_name, key@),
            r matches Err(e) ==> e matches LccpError::InvalidCanonicalKey(k) && k@ == key@,
    {
        match validate_canonical_key(key) {
            Ok(()) => Ok(env_name_for(self.app_name.as_str(), key)),
            Err(e) => Err(e),
        }
    }

    /// The defaults as pretty TOML text: every default placed at its dotted
    /// key (see `toml_text_spec`).
    pub fn emit_default_config(&self) -> (r: Result<String, LccpError>)
        ensures
            match r {
                Ok(t) => toml_text_spec(build_tree(self@.defaults)) == Ok::<Seq<char>, ErrorView>(t@),
                Err(e) => toml_text_spec(build_tree(self@.defaults)) == Err::<Seq<char>, ErrorView>(e@),
            },
    {
        let ghost f = entries_view(self.defaults@);
        let mut root = JsonValue::Object(Vec::new());
        proof {
            assert(f.take(0) =~= Seq::<(Seq<char>, JsonData)>::empty());
            crate::value::lemma_members_data(Seq::<(String, JsonValue)>::empty());
            assert(crate::value::members_data(Seq::<(String, JsonValue)>::empty()) =~= Seq::<(Seq<char>, JsonData)>::empty());
        }
        for i in 0..self.defaults.len()
            invariant
                f == entries_view(self.defaults@),
                root.data() == build_tree(f.take(i as int)),
        {
            proof {
                assert(f.take(i + 1).drop_last() =~= f.take(i as int));
                assert(f[i as int] == (self.defaults@[i as int].0@, self.defaults@[i as int].1.data()));
            }
            let v = self.defaults[i].1.copy();
            root = insert_value_at_path(root, self.defaults[i].0.as_str(), v);
        }
        proof {
            assert(f.take(f.len() as int) == f);
        }
        crate::tree::toml_text(&root)
    }

    /// The application's root command.
    pub fn command(&self) -> (r: &CommandSpec)
        requires
            self.wf(),
        ensures
            r@ == self@.command,
            r.wf(),
    {
        &self.root_command
    }

    /// The application's root command, to declare its options, positionals
    /// and subcommands.
    pub fn command_mut(&mut self) -> (r: &mut CommandSpec)
        requires
            old(self).wf(),
        ensures
            (*r)@ == old(self)@.command,
            (*r).wf(),
            final(self)@ == (ResolverView { command: final(r)@, ..old(self)@ }),
            final(r).wf() ==> final(self).wf(),
    {
        &mut self.root_command
    }
}

} // verus!

verus! {

/// A record of `value` from a source.
pub open spec fn rec_of(value: JsonData, kind: SourceKind, location: Seq<char>, level: u8, raw: Option<Seq<char>>) -> RecordView {
    RecordView { value: value, source: SourceView { kind: kind, location: location, level: level, raw: raw } }
}

/// The resolution state after applying `rec` to `key`.
pub open spec fn with_leaf(st: ResolvedView, key: Seq<char>, rec: RecordView) -> ResolvedView {
    ResolvedView { entries: apply_leaf_spec(st.entries, key, rec), ..st }
}

/// One leaf of a configuration file: checked against the declared type,
/// then applied with the file as its location and its rendering as raw
/// text.
pub open spec fn leaf_step(
    st: ResolvedView,
    schema: Seq<(Seq<char>, OptionSpecView)>,
    kind: SourceKind,
    level: u8,
    path: Seq<char>,
    leaf: (Seq<char>, JsonData),
) -> Result<ResolvedView, ErrorView> {
    match normalize_spec(schema, leaf.0, leaf.1) {
        Err(e) => Err(e),
        Ok(v) => Ok(with_leaf(st, leaf.0, rec_of(v, kind, path, level, Some(value_text(v))))),
    }
}

/// The leaves of a file from position `i` on, in order; the first error
/// stops.
pub open spec fn leaves_from(
    st: ResolvedView,
    schema: Seq<(Seq<char>, OptionSpecView)>,
    kind: SourceKind,
    level: u8,
    path: Seq<char>,
    leaves: Seq<(Seq<char>, JsonData)>,
    i: int,
) -> Result<ResolvedView, ErrorView>
    decreases leaves.len() - i,
{
    if i < 0 || i >= leaves.len() {
        Ok(st)
    } else {
        match leaf_step(st, schema, kind, level, path, leaves[i]) {
            Err(e) => Err(e),
            Ok(s2) => leaves_from(s2, schema, kind, level, path, leaves, i + 1),
        }
    }
}

/// A parsed configuration document: its root must be an object; its
/// leaves are applied in order.
pub open spec fn load_document(
    st: ResolvedView,
    schema: Seq<(Seq<char>, OptionSpecView)>,
    kind: SourceKind,
    level: u8,
    path: Seq<char>,
    d: JsonData,
) -> Result<ResolvedView, ErrorView> {
    if !(d is Object) {
        Err(ErrorView::InvalidConfigRoot(path))
    } else {
        match flatten_spec(""@, d) {
            Err(e) => Err(e),
            Ok(leaves) => leaves_from(st, schema, kind, level, path, leaves, 0),
        }
    }
}

/// What is added to a read error of a file named by `--config`.
pub open spec fn read_context(explicit: bool) -> Seq<char> {
    if explicit {
        " (explicitly named by --config)"@
    } else {
        ""@
    }
}

/// Loading a configuration file: it must be readable, have a `.json` or
/// `.toml` name, and parse in that format; its document is then loaded.
pub open spec fn load_file_spec(
    st: ResolvedView,
    schema: Seq<(Seq<char>, OptionSpecView)>,
    kind: SourceKind,
    level: u8,
    path: Seq<char>,
    explicit: bool,
    files: Seq<(Seq<char>, FileView)>,
) -> Result<ResolvedView, ErrorView> {
    match file_of(files, path).read {
        Err(m) => Err(ErrorView::ReadConfigFile { path: path, source: m, read_context: read_context(explicit) }),
        Ok(text) => match format_of(path) {
            None => Err(ErrorView::UnsupportedConfigFormat(path)),
            Some(ConfigFormat::Json) => match json_document_reading(text) {
                Err(m) => Err(ErrorView::ParseJsonConfig { path: path, message: m }),
                Ok(d) => load_document(st, schema, kind, level, path, d),
            },
            Some(ConfigFormat::Toml) => match toml_document_reading(text) {
                Err(m) => Err(ErrorView::ParseTomlConfig { path: path, message: m }),
                Ok(t) => match toml_to_json_spec(t) {
                    Err(e) => Err(e),
                    Ok(d) => load_document(st, schema, kind, level, path, d),
                },
            },
        },
    }
}

/// The warning raised when both discovered files of a level exist.
pub open spec fn both_files_warning(level: u8, json: Seq<char>, toml: Seq<char>) -> Seq<char> {
    "Both discovered configuration files exist at level "@ + decimal_text(level as nat) + ": "@ + json + " and "@
        + toml + ". TOML overrides JSON at this level."@
}

/// A discovered level: a warning when both files exist, then the JSON file
/// if it exists, then the TOML file if it exists.
pub open spec fn load_level_spec(
    st: ResolvedView,
    schema: Seq<(Seq<char>, OptionSpecView)>,
    kind: SourceKind,
    level: u8,
    json: Seq<char>,
    toml: Seq<char>,
    files: Seq<(Seq<char>, FileView)>,
) -> Result<ResolvedView, ErrorView> {
    let je = file_of(files, json).is_file;
    let te = file_of(files, toml).is_file;
    let s1 = if je && te {
        ResolvedView { warnings: st.warnings.push(both_files_warning(level, json, toml)), ..st }
    } else {
        st
    };
    let r2 = if je {
        load_file_spec(s1, schema, kind, level, json, false, files)
    } else {
        Ok(s1)
    };
    match r2 {
        Err(e) => Err(e),
        Ok(s2) => if te {
            load_file_spec(s2, schema, kind, level, toml, false, files)
        } else {
            Ok(s2)
        },
    }
}

impl Resolver {
    /// Applies the leaves of a parsed document (see `load_document`).
    fn load_document(
        &self,
        resolved: &mut ResolvedConfig,
        kind: SourceKind,
        level: u8,
        path: &str,
        doc: &JsonValue,
    ) -> (r: Result<(), LccpError>)
        ensures
            match r {
                Ok(()) => load_document(old(resolved)@, self@.schema, kind, level, path@, doc.data())
                    == Ok::<ResolvedView, ErrorView>(final(resolved)@),
                Err(e) => load_document(old(resolved)@, self@.schema, kind, level, path@, doc.data())
                    == Err::<ResolvedView, ErrorView>(e@),
            },
    {
        if !matches!(doc, JsonValue::Object(_)) {
            return Err(LccpError::InvalidConfigRoot(copy_str(path)));
        }
        let mut leaves: Vec<(String, JsonValue)> = Vec::new();
        match flatten_object("", doc, &mut leaves) {
            Ok(()) => {},
            Err(e) => {
                return Err(e);
            },
        }
        let ghost lv = members_data(leaves@);
        proof {
            crate::value::lemma_members_data(Seq::<(String, JsonValue)>::empty());
            assert(members_data(Seq::<(String, JsonValue)>::empty()) + lv =~= lv);
            crate::value::lemma_members_data(leaves@);
        }
        let ghost s0 = resolved@;
        let ghost schema = self@.schema;
        assert(load_document(s0, schema, kind, level, path@, doc.data()) == leaves_from(s0, schema, kind, level, path@, lv, 0));
        for i in 0..leaves.len()
            invariant
                s0 == old(resolved)@,
                load_document(s0, schema, kind, level, path@, doc.data()) == leaves_from(s0, schema, kind, level, path@, lv, 0),
                lv == members_data(leaves@),
                lv.len() == leaves@.len(),
                forall|j: int| 0 <= j < leaves@.len() ==> #[trigger] lv[j] == (leaves@[j].0@, leaves@[j].1.data()),
                schema == self@.schema,
                leaves_from(s0, schema, kind, level, path@, lv, 0) == leaves_from(resolved@, schema, kind, level, path@, lv, i as int),
        {
            let key = &leaves[i].0;
            match self.normalize_declared_value(key.as_str(), &leaves[i].1) {
                Ok(()) => {},
                Err(e) => {
                    proof {
                        assert(lv[i as int] == (leaves@[i as int].0@, leaves@[i as int].1.data()));
                        assert(leaf_step(resolved@, schema, kind, level, path@, lv[i as int]) == Err::<ResolvedView, ErrorView>(e@));
                        assert(leaves_from(resolved@, schema, kind, level, path@, lv, i as int) == Err::<ResolvedView, ErrorView>(e@));
                    }
                    return Err(e);
                },
            }
            let value = leaves[i].1.copy();
            let raw = render_value(&value);
            resolved.apply_leaf(
                key.as_str(),
                value,
                SourceInfo { kind: kind, location: copy_str(path), precedence_level: level, raw: Some(raw) },
            );
        }
        Ok(())
    }

    /// Loads one configuration file (see `load_file_spec`).
    fn load_config_file(
        &self,
        resolved: &mut ResolvedConfig,
        kind: SourceKind,
        level: u8,
        path: &str,
        explicit: bool,
        files: &ConfigFiles,
    ) -> (r: Result<(), LccpError>)
        ensures
            match r {
                Ok(()) => load_file_spec(old(resolved)@, self@.schema, kind, level, path@, explicit, files@)
                    == Ok::<ResolvedView, ErrorView>(final(resolved)@),
                Err(e) => load_file_spec(old(resolved)@, self@.schema, kind, level, path@, explicit, files@)
                    == Err::<ResolvedView, ErrorView>(e@),
            },
    {
        let context = if explicit {
            copy_str(" (explicitly named by --config)")
        } else {
            copy_str("")
        };
        let text = match files.get(path) {
            Some(state) => match &state.read {
                Ok(t) => t,
                Err(m) => {
                    return Err(
                        LccpError::ReadConfigFile { path: copy_str(path), source: copy_str(m.as_str()), read_context: context },
                    );
                },
            },
            None => {
                return Err(
                    LccpError::ReadConfigFile {
                        path: copy_str(path),
                        source: copy_str("the file was not read"),
                        read_context: context,
                    },
                );
            },
        };
        let format = match config_format(path) {
            Ok(f) => f,
            Err(e) => {
                return Err(e);
            },
        };
        let doc = match format {
            ConfigFormat::Json => match read_json_document(text.as_str()) {
                Ok(v) => v,
                Err(m) => {
                    return Err(LccpError::ParseJsonConfig { path: copy_str(path), message: copy_str(m.as_str()) });
                },
            },
            ConfigFormat::Toml => match read_toml_document(text.as_str()) {
                Ok(t) => match toml_to_json(&t) {
                    Ok(v) => v,
                    Err(e) => {
                        return Err(e);
                    },
                },
                Err(m) => {
                    return Err(LccpError::ParseTomlConfig { path: copy_str(path), message: copy_str(m.as_str()) });
                },
            },
        };
        self.load_document(resolved, kind, level, path, &doc)
    }

    /// Loads a discovered level (see `load_level_spec`).
    fn load_discovered_level(
        &self,
        resolved: &mut ResolvedConfig,
        kind: SourceKind,
        level: u8,
        json: &str,
        toml: &str,
        files: &ConfigFiles,
    ) -> (r: Result<(), LccpError>)
        ensures
            match r {
                Ok(()) => load_level_spec(old(resolved)@, self@.schema, kind, level, json@, toml@, files@)
                    == Ok::<ResolvedView, ErrorView>(final(resolved)@),
                Err(e) => load_level_spec(old(resolved)@, self@.schema, kind, level, json@, toml@, files@)
                    == Err::<ResolvedView, ErrorView>(e@),
            },
    {
        let je = files.is_file(json);
        let te = files.is_file(toml);
        if je && te {
            let mut w = copy_str("Both discovered configuration files exist at level ");
            push_decimal(&mut w, level as u64);
            append_str(&mut w, ": ");
            append_str(&mut w, json);
            append_str(&mut w, " and ");
            append_str(&mut w, toml);
            append_str(&mut w, ". TOML overrides JSON at this level.");
            proof {
                assert(w@ =~= both_files_warning(level, json@, toml@));
            }
            resolved.insert_warning(w);
        }
        if je {
            match self.load_config_file(resolved, kind, level, json, false, files) {
                Ok(()) => {},
                Err(e) => {
                    return Err(e);
                },
            }
        }
        if te {
            match self.load_config_file(resolved, kind, level, toml, false, files) {
                Ok(()) => {},
                Err(e) => {
                    return Err(e);
                },
            }
        }
        Ok(())
    }
}

} // verus!

verus! {

/// The environment variable of a declared option: when it is set, its
/// text is read with the option's type and applied.
pub open spec fn env_step(
    st: ResolvedView,
    app: Seq<char>,
    entry: (Seq<char>, OptionSpecView),
    env: Seq<(Seq<char>, Seq<char>)>,
    facts: Seq<(Seq<char>, RawFactView)>,
) -> Result<ResolvedView, ErrorView> {
    let key = entry.0;
    if !is_valid_canonical_key(key) {
        Err(ErrorView::InvalidCanonicalKey(key))
    } else {
        let name = env_var_name(app, key);
        match first_lookup(env, name) {
            None => Ok(st),
            Some(raw) => match typed_value(key, entry.1.value_type, raw, facts) {
                Err(e) => Err(e),
                Ok(v) => Ok(with_leaf(st, key, rec_of(v, SourceKind::Environment, name, 6, Some(raw)))),
            },
        }
    }
}

/// The environment stage from option `i` on, in key order.
pub open spec fn env_from(
    st: ResolvedView,
    app: Seq<char>,
    schema: Seq<(Seq<char>, OptionSpecView)>,
    env: Seq<(Seq<char>, Seq<char>)>,
    facts: Seq<(Seq<char>, RawFactView)>,
    i: int,
) -> Result<ResolvedView, ErrorView>
    decreases schema.len() - i,
{
    if i < 0 || i >= schema.len() {
        Ok(st)
    } else {
        match env_step(st, app, schema[i], env, facts) {
            Err(e) => Err(e),
            Ok(s2) => env_from(s2, app, schema, env, facts, i + 1),
        }
    }
}

/// Where a file named by `--config` is: the path itself when absolute,
/// otherwise the path below the working directory, normalized.
pub open spec fn cli_file_path(cwd: Seq<char>, p: Seq<char>) -> Seq<char> {
    if is_absolute_path(p) {
        p
    } else {
        normalize_text(join_text(cwd, p))
    }
}

/// The files named by `--config` from the `i`-th on, in order.
pub open spec fn cli_files_from(
    st: ResolvedView,
    schema: Seq<(Seq<char>, OptionSpecView)>,
    cwd: Seq<char>,
    paths: Seq<Seq<char>>,
    files: Seq<(Seq<char>, FileView)>,
    i: int,
) -> Result<ResolvedView, ErrorView>
    decreases paths.len() - i,
{
    if i < 0 || i >= paths.len() {
        Ok(st)
    } else {
        match load_file_spec(st, schema, SourceKind::CliConfigFile, 7, cli_file_path(cwd, paths[i]), true, files) {
            Err(e) => Err(e),
            Ok(s2) => cli_files_from(s2, schema, cwd, paths, files, i + 1),
        }
    }
}

/// The location of a single argv argument (1-based).
pub open spec fn argv_location(position: int) -> Seq<char> {
    "argument "@ + decimal_text(position as nat) + " of argv"@
}

/// A `--set KEY=VALUE`: the key must be canonical; the value is read with
/// the declared type, or untyped for an undeclared key, then checked and
/// applied.
pub open spec fn set_step(
    st: ResolvedView,
    schema: Seq<(Seq<char>, OptionSpecView)>,
    s: SetView,
    facts: Seq<(Seq<char>, RawFactView)>,
) -> Result<ResolvedView, ErrorView> {
    if !is_valid_canonical_key(s.key) {
        Err(ErrorView::InvalidCanonicalKey(s.key))
    } else {
        let read = match first_lookup(schema, s.key) {
            Some(o) => typed_value(s.key, o.value_type, s.raw, facts),
            None => Ok(untyped_value(s.raw, facts)),
        };
        match read {
            Err(e) => Err(e),
            Ok(v) => match normalize_spec(schema, s.key, v) {
                Err(e) => Err(e),
                Ok(v2) => Ok(with_leaf(st, s.key, rec_of(v2, SourceKind::CliSet, argv_location(s.position), 8, Some(s.raw)))),
            },
        }
    }
}

/// The `--set` arguments from the `i`-th on, in order.
pub open spec fn sets_from(
    st: ResolvedView,
    schema: Seq<(Seq<char>, OptionSpecView)>,
    sets: Seq<SetView>,
    facts: Seq<(Seq<char>, RawFactView)>,
    i: int,
) -> Result<ResolvedView, ErrorView>
    decreases sets.len() - i,
{
    if i < 0 || i >= sets.len() {
        Ok(st)
    } else {
        match set_step(st, schema, sets[i], facts) {
            Err(e) => Err(e),
            Ok(s2) => sets_from(s2, schema, sets, facts, i + 1),
        }
    }
}

/// A repeated flag of `key` occurs after position `i`.
pub open spec fn later_repeated(named: Seq<NamedView>, i: int, key: Seq<char>) -> bool {
    exists|j: int| i < j < named.len() && (#[trigger] named[j] matches NamedView::Repeated { key: k, .. } && k == key)
}

/// The values and positions of the repeated flags of `key`, in order.
pub open spec fn repeated_items(named: Seq<NamedView>, key: Seq<char>) -> Seq<(Seq<char>, int)>
    decreases named.len(),
{
    if named.len() == 0 {
        Seq::empty()
    } else {
        let p = repeated_items(named.drop_last(), key);
        match named.last() {
            NamedView::Repeated { key: k, raw, position } => if k == key {
                p.push((raw, position))
            } else {
                p
            },
            _ => p,
        }
    }
}

/// Texts joined by `, `.
pub open spec fn join_comma(parts: Seq<Seq<char>>) -> Seq<char>
    decreases parts.len(),
{
    if parts.len() == 0 {
        Seq::empty()
    } else if parts.len() == 1 {
        parts[0]
    } else {
        join_comma(parts.drop_last()) + ", "@ + parts.last()
    }
}

/// The raw values of repeated items.
pub open spec fn item_raws(items: Seq<(Seq<char>, int)>) -> Seq<Seq<char>> {
    items.map_values(|x: (Seq<char>, int)| x.0)
}

/// The positions of repeated items, in decimal.
pub open spec fn item_positions(items: Seq<(Seq<char>, int)>) -> Seq<Seq<char>> {
    items.map_values(|x: (Seq<char>, int)| decimal_text(x.1 as nat))
}

/// One declared flag occurrence, in argv order: a single-valued flag is
/// read with the option's type and applied at once; the occurrences of a
/// repeated flag are applied together, as one array, at the last of them.
pub open spec fn named_step(
    st: ResolvedView,
    schema: Seq<(Seq<char>, OptionSpecView)>,
    named: Seq<NamedView>,
    i: int,
    facts: Seq<(Seq<char>, RawFactView)>,
) -> Result<ResolvedView, ErrorView> {
    match named[i] {
        NamedView::Scalar { key, raw, position } => match first_lookup(schema, key) {
            None => Ok(st),
            Some(o) => match typed_value(key, o.value_type, raw, facts) {
                Err(e) => Err(e),
                Ok(v) => Ok(with_leaf(st, key, rec_of(v, SourceKind::CliExplicit, argv_location(position), 9, Some(raw)))),
            },
        },
        NamedView::Repeated { key, .. } => if later_repeated(named, i, key) {
            Ok(st)
        } else {
            match first_lookup(schema, key) {
                None => Ok(st),
                Some(o) => {
                    let items = repeated_items(named.take(i + 1), key);
                    match typed_values(key, element_or_self(o.value_type), item_raws(items), facts) {
                        Err(e) => Err(e),
                        Ok(vs) => Ok(
                            with_leaf(
                                st,
                                key,
                                rec_of(
                                    JsonData::Array(vs),
                                    SourceKind::CliExplicit,
                                    "arguments "@ + join_comma(item_positions(items)) + " of argv"@,
                                    9,
                                    Some(join_comma(item_raws(items))),
                                ),
                            ),
                        ),
                    }
                },
            }
        },
    }
}

/// The declared flag occurrences from the `i`-th on.
pub open spec fn named_from(
    st: ResolvedView,
    schema: Seq<(Seq<char>, OptionSpecView)>,
    named: Seq<NamedView>,
    facts: Seq<(Seq<char>, RawFactView)>,
    i: int,
) -> Result<ResolvedView, ErrorView>
    decreases named.len() - i,
{
    if i < 0 || i >= named.len() {
        Ok(st)
    } else {
        match named_step(st, schema, named, i, facts) {
            Err(e) => Err(e),
            Ok(s2) => named_from(s2, schema, named, facts, i + 1),
        }
    }
}

} // verus!

verus! {

/// The models of declared flag occurrences.
pub open spec fn named_view(v: Seq<NamedEvent>) -> Seq<NamedView> {
    v.map_values(|e: NamedEvent| e@)
}

/// The models of `--set` arguments.
pub open spec fn sets_view(v: Seq<SetArg>) -> Seq<SetView> {
    v.map_values(|a: SetArg| a@)
}

fn location_of(position: usize) -> (r: String)
    ensures
        r@ == argv_location(position as int),
{
    let mut loc = copy_str("argument ");
    push_decimal(&mut loc, position as u64);
    append_str(&mut loc, " of argv");
    loc
}

/// The texts joined by `, ` (see `join_comma`).
fn join_with_comma(parts: &Vec<String>) -> (r: String)
    ensures
        r@ == join_comma(strings_model(parts@)),
{
    let ghost pv = strings_model(parts@);
    let mut out = String::new();
    proof {
        assert(pv.take(0) =~= Seq::<Seq<char>>::empty());
    }
    for i in 0..parts.len()
        invariant
            pv == strings_model(parts@),
            out@ == join_comma(pv.take(i as int)),
    {
        proof {
            assert(pv.take(i + 1).drop_last() =~= pv.take(i as int));
            assert(pv.take(i + 1).last() == parts@[i as int]@);
        }
        if i > 0 {
            append_str(&mut out, ", ");
        }
        append_str(&mut out, parts[i].as_str());
        proof {
            if i == 0 {
                assert(pv.take(1).len() == 1);
                assert(out@ =~= join_comma(pv.take(1)));
            } else {
                assert(out@ =~= join_comma(pv.take(i + 1)));
            }
        }
    }
    proof {
        assert(pv.take(pv.len() as int) == pv);
    }
    out
}

/// Whether a repeated flag of `key` occurs after position `i`.
fn has_later_repeated(named: &Vec<NamedEvent>, i: usize, key: &str) -> (r: bool)
    requires
        i < named@.len(),
    ensures
        r == later_repeated(named_view(named@), i as int, key@),
{
    let ghost nv = named_view(named@);
    let mut j = i;
    while j < named.len()
        invariant
            nv == named_view(named@),
            i <= j <= named@.len(),
            forall|m: int| i < m < j ==> !(#[trigger] nv[m] matches NamedView::Repeated { key: k, .. } && k == key@),
        decreases named@.len() - j,
    {
        if j == i {
            j = j + 1;
            continue;
        }
        match &named[j] {
            NamedEvent::Repeated { key: k, .. } => {
                if crate::text::str_eq(k.as_str(), key) {
                    proof {
                        assert(nv[j as int] matches NamedView::Repeated { key: k2, .. } && k2 == key@);
                    }
                    return true;
                }
            },
            _ => {},
        }
        j = j + 1;
    }
    false
}

/// The raw values and positions of the repeated flags of `key` among the
/// first `upto` occurrences.
fn collect_repeated(named: &Vec<NamedEvent>, upto: usize, key: &str) -> (r: (Vec<String>, Vec<String>))
    requires
        upto <= named@.len(),
    ensures
        strings_model(r.0@) == item_raws(repeated_items(named_view(named@).take(upto as int), key@)),
        strings_model(r.1@) == item_positions(repeated_items(named_view(named@).take(upto as int), key@)),
{
    let ghost nv = named_view(named@);
    let mut raws: Vec<String> = Vec::new();
    let mut positions: Vec<String> = Vec::new();
    proof {
        assert(nv.take(0) =~= Seq::<NamedView>::empty());
        assert(strings_model(raws@) =~= Seq::<Seq<char>>::empty());
        assert(item_raws(repeated_items(nv.take(0), key@)) =~= Seq::<Seq<char>>::empty());
        assert(item_positions(repeated_items(nv.take(0), key@)) =~= Seq::<Seq<char>>::empty());
    }
    for j in 0..upto
        invariant
            nv == named_view(named@),
            upto <= named@.len(),
            strings_model(raws@) == item_raws(repeated_items(nv.take(j as int), key@)),
            strings_model(positions@) == item_positions(repeated_items(nv.take(j as int), key@)),
    {
        let ghost items = repeated_items(nv.take(j as int), key@);
        proof {
            assert(nv.take(j + 1).drop_last() =~= nv.take(j as int));
            assert(nv.take(j + 1).last() == named@[j as int]@);
        }
        match &named[j] {
            NamedEvent::Repeated { key: k, raw, argv_position } => {
                if crate::text::str_eq(k.as_str(), key) {
                    let ghost r0 = raws@;
                    let ghost p0 = positions@;
                    raws.push(copy_str(raw.as_str()));
                    positions.push(decimal_string(*argv_position as u64));
                    proof {
                        let items2 = repeated_items(nv.take(j + 1), key@);
                        assert(items2 == items.push((raw@, *argv_position as int)));
                        assert(strings_model(raws@) =~= strings_model(r0).push(raw@));
                        assert(strings_model(positions@) =~= strings_model(p0).push(decimal_text(*argv_position as nat)));
                        assert(item_raws(items2) =~= item_raws(items).push(raw@));
                        assert(item_positions(items2) =~= item_positions(items).push(decimal_text(*argv_position as nat)));
                        assert(strings_model(raws@) =~= item_raws(items2));
                        assert(strings_model(positions@) =~= item_positions(items2));
                    }
                }
            },
            _ => {},
        }
    }
    (raws, positions)
}

/// The element type of a repeated option (its declared type otherwise).
fn element_type_of(t: &ValueType) -> (r: &ValueType)
    ensures
        *r == element_or_self(*t),
{
    match t {
        ValueType::Array(inner) => &**inner,
        _ => t,
    }
}

impl Resolver {
    /// The environment stage (see `env_from`).
    fn apply_env(&self, resolved: &mut ResolvedConfig, options: &ResolveOptions, facts: &RawFacts) -> (r: Result<(), LccpError>)
        ensures
            match r {
                Ok(()) => env_from(old(resolved)@, self@.app_name, self@.schema, options@.env, facts@, 0)
                    == Ok::<ResolvedView, ErrorView>(final(resolved)@),
                Err(e) => env_from(old(resolved)@, self@.app_name, self@.schema, options@.env, facts@, 0)
                    == Err::<ResolvedView, ErrorView>(e@),
            },
    {
        let ghost s0 = resolved@;
        let ghost sv = self@.schema;
        for i in 0..self.schema.len()
            invariant
                s0 == old(resolved)@,
                sv == self@.schema,
                env_from(s0, self@.app_name, sv, options@.env, facts@, 0) == env_from(
                    resolved@,
                    self@.app_name,
                    sv,
                    options@.env,
                    facts@,
                    i as int,
                ),
        {
            let key = &self.schema[i].0;
            let spec = &self.schema[i].1;
            proof {
                assert(sv[i as int] == (key@, spec@));
            }
            let name = match self.environment_variable_name(key.as_str()) {
                Ok(n) => n,
                Err(e) => {
                    return Err(e);
                },
            };
            match get_first(&options.env, name.as_str()) {
                None => {},
                Some(raw) => {
                    let v = match parse_raw_for_value_type(key.as_str(), spec.value_type(), raw.as_str(), facts) {
                        Ok(v) => v,
                        Err(e) => {
                            return Err(e);
                        },
                    };
                    resolved.apply_leaf(
                        key.as_str(),
                        v,
                        SourceInfo {
                            kind: SourceKind::Environment,
                            location: name,
                            precedence_level: 6,
                            raw: Some(copy_str(raw.as_str())),
                        },
                    );
                },
            }
        }
        Ok(())
    }

    /// The `--config` stage (see `cli_files_from`).
    fn apply_cli_files(
        &self,
        resolved: &mut ResolvedConfig,
        cwd: &str,
        paths: &Vec<String>,
        files: &ConfigFiles,
    ) -> (r: Result<(), LccpError>)
        ensures
            match r {
                Ok(()) => cli_files_from(old(resolved)@, self@.schema, cwd@, strings_model(paths@), files@, 0)
                    == Ok::<ResolvedView, ErrorView>(final(resolved)@),
                Err(e) => cli_files_from(old(resolved)@, self@.schema, cwd@, strings_model(paths@), files@, 0)
                    == Err::<ResolvedView, ErrorView>(e@),
            },
    {
        let ghost s0 = resolved@;
        let ghost pv = strings_model(paths@);
        for i in 0..paths.len()
            invariant
                s0 == old(resolved)@,
                pv == strings_model(paths@),
                cli_files_from(s0, self@.schema, cwd@, pv, files@, 0) == cli_files_from(
                    resolved@,
                    self@.schema,
                    cwd@,
                    pv,
                    files@,
                    i as int,
                ),
        {
            let p = paths[i].as_str();
            let path = if is_absolute(p) {
                copy_str(p)
            } else {
                let joined = join_path(cwd, p);
                normalize_path(joined.as_str())
            };
            match self.load_config_file(resolved, SourceKind::CliConfigFile, 7, path.as_str(), true, files) {
                Ok(()) => {},
                Err(e) => {
                    return Err(e);
                },
            }
        }
        Ok(())
    }

    /// The `--set` stage (see `sets_from`).
    fn apply_sets(&self, resolved: &mut ResolvedConfig, sets: &Vec<SetArg>, facts: &RawFacts) -> (r: Result<(), LccpError>)
        ensures
            match r {
                Ok(()) => sets_from(old(resolved)@, self@.schema, sets_view(sets@), facts@, 0) == Ok::<
                    ResolvedView,
                    ErrorView,
                >(final(resolved)@),
                Err(e) => sets_from(old(resolved)@, self@.schema, sets_view(sets@), facts@, 0) == Err::<
                    ResolvedView,
                    ErrorView,
                >(e@),
            },
    {
        let ghost s0 = resolved@;
        let ghost sv = sets_view(sets@);
        for i in 0..sets.len()
            invariant
                s0 == old(resolved)@,
                sv == sets_view(sets@),
                sets_from(s0, self@.schema, sv, facts@, 0) == sets_from(resolved@, self@.schema, sv, facts@, i as int),
        {
            let item = &sets[i];
            proof {
                assert(sv[i as int] == item@);
            }
            match validate_canonical_key(item.key.as_str()) {
                Ok(()) => {},
                Err(e) => {
                    return Err(e);
                },
            }
            let v = match get_first(&self.schema, item.key.as_str()) {
                Some(o) => match parse_raw_for_value_type(item.key.as_str(), o.value_type(), item.raw.as_str(), facts) {
                    Ok(v) => v,
                    Err(e) => {
                        return Err(e);
                    },
                },
                None => parse_untyped_cli_value(item.raw.as_str(), facts),
            };
            match self.normalize_declared_value(item.key.as_str(), &v) {
                Ok(()) => {},
                Err(e) => {
                    return Err(e);
                },
            }
            resolved.apply_leaf(
                item.key.as_str(),
                v,
                SourceInfo {
                    kind: SourceKind::CliSet,
                    location: location_of(item.argv_position),
                    precedence_level: 8,
                    raw: Some(copy_str(item.raw.as_str())),
                },
            );
        }
        Ok(())
    }

    /// The stage of declared flags (see `named_from`).
    fn apply_named(&self, resolved: &mut ResolvedConfig, named: &Vec<NamedEvent>, facts: &RawFacts) -> (r: Result<(), LccpError>)
        ensures
            match r {
                Ok(()) => named_from(old(resolved)@, self@.schema, named_view(named@), facts@, 0) == Ok::<
                    ResolvedView,
                    ErrorView,
                >(final(resolved)@),
                Err(e) => named_from(old(resolved)@, self@.schema, named_view(named@), facts@, 0) == Err::<
                    ResolvedView,
                    ErrorView,
                >(e@),
            },
    {
        let ghost s0 = resolved@;
        let ghost nv = named_view(named@);
        for i in 0..named.len()
            invariant
                s0 == old(resolved)@,
                nv == named_view(named@),
                named_from(s0, self@.schema, nv, facts@, 0) == named_from(resolved@, self@.schema, nv, facts@, i as int),
        {
            proof {
                assert(nv[i as int] == named@[i as int]@);
            }
            match &named[i] {
                NamedEvent::Scalar { key, raw, argv_position } => {
                    match get_first(&self.schema, key.as_str()) {
                        None => {},
                        Some(o) => {
                            let v = match parse_raw_for_value_type(key.as_str(), o.value_type(), raw.as_str(), facts) {
                                Ok(v) => v,
                                Err(e) => {
                                    return Err(e);
                                },
                            };
                            resolved.apply_leaf(
                                key.as_str(),
                                v,
                                SourceInfo {
                                    kind: SourceKind::CliExplicit,
                                    location: location_of(*argv_position),
                                    precedence_level: 9,
                                    raw: Some(copy_str(raw.as_str())),
                                },
                            );
                        },
                    }
                },
                NamedEvent::Repeated { key, .. } => {
                    if !has_later_repeated(named, i, key.as_str()) {
                        match get_first(&self.schema, key.as_str()) {
                            None => {},
                            Some(o) => {
                                let (raws, positions) = collect_repeated(named, i + 1, key.as_str());
                                let vs = match parse_typed_values(
                                    key.as_str(),
                                    element_type_of(o.value_type()),
                                    &raws,
                                    facts,
                                ) {
                                    Ok(vs) => vs,
                                    Err(e) => {
                                        return Err(e);
                                    },
                                };
                                let mut location = copy_str("arguments ");
                                append_str(&mut location, join_with_comma(&positions).as_str());
                                append_str(&mut location, " of argv");
                                let raw_text = join_with_comma(&raws);
                                proof {
                                    crate::value::lemma_items_data(vs@);
                                    assert(crate::value::items_data(vs@) =~= crate::matching::values_view(vs@));
                                }
                                resolved.apply_leaf(
                                    key.as_str(),
                                    JsonValue::Array(vs),
                                    SourceInfo {
                                        kind: SourceKind::CliExplicit,
                                        location: location,
                                        precedence_level: 9,
                                        raw: Some(raw_text),
                                    },
                                );
                            },
                        }
                    }
                },
            }
        }
        Ok(())
    }
}

} // verus!

verus! {

/// The location recorded for a default.
pub open spec fn default_location(key: Seq<char>) -> Seq<char> {
    "default["@ + key + "]"@
}

/// The defaults from the `i`-th on, in key order, each applied at level 1.
pub open spec fn defaults_from(st: ResolvedView, defaults: Seq<(Seq<char>, JsonData)>, i: int) -> ResolvedView
    decreases defaults.len() - i,
{
    if i < 0 || i >= defaults.len() {
        st
    } else {
        let (k, v) = defaults[i];
        defaults_from(
            with_leaf(st, k, rec_of(v, SourceKind::Default, default_location(k), 1, Some(value_text(v)))),
            defaults,
            i + 1,
        )
    }
}

/// The discovered files, level by level: `<app>.json` and `<app>.toml` in
/// the system configuration directory (level 2), in the installation's
/// `etc` directory (level 3), `config.json` and `config.toml` in
/// `~/.<app>` when there is a home directory (level 4), and
/// `<app>.json` and `<app>.toml` in the working directory (level 5).
pub open spec fn discovered_spec(
    st: ResolvedView,
    r: ResolverView,
    o: OptionsView,
    files: Seq<(Seq<char>, FileView)>,
) -> Result<ResolvedView, ErrorView> {
    let app = r.app_name;
    let json = app + ".json"@;
    let toml = app + ".toml"@;
    match load_level_spec(
        st,
        r.schema,
        SourceKind::SystemFile,
        2,
        join_text(o.system_config_dir, json),
        join_text(o.system_config_dir, toml),
        files,
    ) {
        Err(e) => Err(e),
        Ok(s2) => {
            let inst = install_dir_text(r.executable_path);
            match load_level_spec(s2, r.schema, SourceKind::InstallFile, 3, join_text(inst, json), join_text(inst, toml), files) {
                Err(e) => Err(e),
                Ok(s3) => {
                    let r4 = match o.home_dir {
                        Some(h) => {
                            let dir = join_text(h, "."@ + app);
                            load_level_spec(
                                s3,
                                r.schema,
                                SourceKind::UserFile,
                                4,
                                join_text(dir, "config.json"@),
                                join_text(dir, "config.toml"@),
                                files,
                            )
                        },
                        None => Ok(s3),
                    };
                    match r4 {
                        Err(e) => Err(e),
                        Ok(s4) => load_level_spec(
                            s4,
                            r.schema,
                            SourceKind::WorkingDirFile,
                            5,
                            join_text(o.cwd, json),
                            join_text(o.cwd, toml),
                            files,
                        ),
                    }
                },
            }
        },
    }
}

/// Resolution: the command line's first pass, then the application's
/// command parsing, then the sources in order of precedence — defaults,
/// discovered files, environment, `--config` files, `--set` arguments and
/// declared flags — each applied over what came before; the first error
/// stops it.
pub open spec fn resolve_spec(
    r: ResolverView,
    argv: Seq<Seq<char>>,
    o: OptionsView,
    facts: Seq<(Seq<char>, RawFactView)>,
    files: Seq<(Seq<char>, FileView)>,
) -> Result<ResolvedView, ErrorView> {
    match parse_argv_spec(argv, r.flag_index, r.schema) {
        Err(e) => Err(e),
        Ok(p) => match parse_cmd(r.command, p.remaining, 0, facts) {
            Err(e) => Err(e),
            Ok((m, _)) => {
                let s1 = defaults_from(
                    ResolvedView { entries: Seq::empty(), warnings: Seq::empty(), flags: p.flags, matches: m },
                    r.defaults,
                    0,
                );
                match discovered_spec(s1, r, o, files) {
                    Err(e) => Err(e),
                    Ok(s5) => match env_from(s5, r.app_name, r.schema, o.env, facts, 0) {
                        Err(e) => Err(e),
                        Ok(s6) => match cli_files_from(s6, r.schema, o.cwd, p.config_files, files, 0) {
                            Err(e) => Err(e),
                            Ok(s7) => match sets_from(s7, r.schema, p.sets, facts, 0) {
                                Err(e) => Err(e),
                                Ok(s8) => named_from(s8, r.schema, p.named, facts, 0),
                            },
                        },
                    },
                }
            },
        },
    }
}

fn with_suffix(base: &str, suffix: &str) -> (r: String)
    ensures
        r@ == base@ + suffix@,
{
    let mut s = copy_str(base);
    append_str(&mut s, suffix);
    s
}

impl Resolver {
    /// The defaults stage (see `defaults_from`).
    fn apply_defaults(&self, resolved: &mut ResolvedConfig)
        ensures
            final(resolved)@ == defaults_from(old(resolved)@, self@.defaults, 0),
    {
        let ghost s0 = resolved@;
        let ghost dv = self@.defaults;
        for i in 0..self.defaults.len()
            invariant
                s0 == old(resolved)@,
                dv == self@.defaults,
                defaults_from(s0, dv, 0) == defaults_from(resolved@, dv, i as int),
        {
            let key = &self.defaults[i].0;
            let value = &self.defaults[i].1;
            proof {
                assert(dv[i as int] == (key@, value.data()));
            }
            let location = with_suffix(with_suffix("default[", key.as_str()).as_str(), "]");
            let raw = render_value(value);
            resolved.apply_leaf(
                key.as_str(),
                value.copy(),
                SourceInfo { kind: SourceKind::Default, location: location, precedence_level: 1, raw: Some(raw) },
            );
        }
    }

    /// The discovered files (see `discovered_spec`).
    fn apply_discovered(&self, resolved: &mut ResolvedConfig, options: &ResolveOptions, files: &ConfigFiles) -> (r: Result<(), LccpError>)
        ensures
            match r {
                Ok(()) => discovered_spec(old(resolved)@, self@, options@, files@) == Ok::<ResolvedView, ErrorView>(final(resolved)@),
                Err(e) => discovered_spec(old(resolved)@, self@, options@, files@) == Err::<ResolvedView, ErrorView>(e@),
            },
    {
        let app = self.app_name.as_str();
        let json = with_suffix(app, ".json");
        let toml = with_suffix(app, ".toml");
        let sys = options.system_config_dir.as_str();
        match self.load_discovered_level(
            resolved,
            SourceKind::SystemFile,
            2,
            join_path(sys, json.as_str()).as_str(),
            join_path(sys, toml.as_str()).as_str(),
            files,
        ) {
            Ok(()) => {},
            Err(e) => {
                return Err(e);
            },
        }
        let inst = install_dir(self.executable_path.as_str());
        match self.load_discovered_level(
            resolved,
            SourceKind::InstallFile,
            3,
            join_path(inst.as_str(), json.as_str()).as_str(),
            join_path(inst.as_str(), toml.as_str()).as_str(),
            files,
        ) {
            Ok(()) => {},
            Err(e) => {
                return Err(e);
            },
        }
        match &options.home_dir {
            Some(h) => {
                let hidden = with_suffix(".", app);
                let dir = join_path(h.as_str(), hidden.as_str());
                match self.load_discovered_level(
                    resolved,
                    SourceKind::UserFile,
                    4,
                    join_path(dir.as_str(), "config.json").as_str(),
                    join_path(dir.as_str(), "config.toml").as_str(),
                    files,
                ) {
                    Ok(()) => {},
                    Err(e) => {
                        return Err(e);
                    },
                }
            },
            None => {},
        }
        let cwd = options.cwd.as_str();
        self.load_discovered_level(
            resolved,
            SourceKind::WorkingDirFile,
            5,
            join_path(cwd, json.as_str()).as_str(),
            join_path(cwd, toml.as_str()).as_str(),
            files,
        )
    }

    /// Resolves the configuration for command line `argv` (see
    /// `resolve_spec`). What is read from the surroundings comes in as
    /// values: `options` for the working directory, home directory and
    /// environment, `facts` for how raw strings read as floats, and `files`
    /// for the text of each configuration file path.
    pub fn resolve_with(
        &self,
        argv: &Vec<String>,
        options: &ResolveOptions,
        facts: &RawFacts,
        files: &ConfigFiles,
    ) -> (r: Result<ResolvedConfig, LccpError>)
        requires
            self.wf(),
        ensures
            match r {
                Ok(c) => resolve_spec(self@, strings_view(argv@), options@, facts@, files@) == Ok::<ResolvedView, ErrorView>(c@),
                Err(e) => resolve_spec(self@, strings_view(argv@), options@, facts@, files@) == Err::<ResolvedView, ErrorView>(e@),
            },
    {
        let parsed = match parse_argv(argv, &self.flag_index, &self.schema) {
            Ok(p) => p,
            Err(e) => {
                return Err(e);
            },
        };
        let ghost p = parsed@;
        let (matches, _end) = match parse_command(&self.root_command, &parsed.remaining, 0, facts) {
            Ok(x) => x,
            Err(e) => {
                return Err(e);
            },
        };
        let mut resolved = ResolvedConfig::empty(parsed.standard_flags, matches);
        self.apply_defaults(&mut resolved);
        match self.apply_discovered(&mut resolved, options, files) {
            Ok(()) => {},
            Err(e) => {
                return Err(e);
            },
        }
        match self.apply_env(&mut resolved, options, facts) {
            Ok(()) => {},
            Err(e) => {
                return Err(e);
            },
        }
        proof {
            assert(strings_model(parsed.config_files@) =~= p.config_files);
            assert(sets_view(parsed.sets@) =~= p.sets);
            assert(named_view(parsed.named@) =~= p.named);
        }
        match self.apply_cli_files(&mut resolved, options.cwd.as_str(), &parsed.config_files, files) {
            Ok(()) => {},
            Err(e) => {
                return Err(e);
            },
        }
        match self.apply_sets(&mut resolved, &parsed.sets, facts) {
            Ok(()) => {},
            Err(e) => {
                return Err(e);
            },
        }
        match self.apply_named(&mut resolved, &parsed.named, facts) {
            Ok(()) => {},
            Err(e) => {
                return Err(e);
            },
        }
        Ok(resolved)
    }
}

} // verus!

verus! {

/// Follows subcommand names from position `i` of `path` down from `cur`.
pub open spec fn walk_path(cur: CommandSpecView, path: Seq<Seq<char>>, i: int) -> Option<CommandSpecView>
    decreases path.len() - i,
{
    if i < 0 || i >= path.len() {
        Some(cur)
    } else {
        match lookup(cur.subcommands, path[i]) {
            Some(c) => walk_path(c, path, i + 1),
            None => None,
        }
    }
}

/// The command that a help path names: the root for an empty path; a path
/// may start with the root's name; each further piece names a subcommand.
pub open spec fn command_for_path_spec(root: CommandSpecView, path: Seq<Seq<char>>) -> Option<CommandSpecView> {
    if path.len() == 0 {
        Some(root)
    } else if path[0] == root.name {
        walk_path(root, path, 1)
    } else {
        match lookup(root.subcommands, path[0]) {
            Some(c) => walk_path(c, path, 1),
            None => None,
        }
    }
}

impl Resolver {
    /// The command that `path` names (see `command_for_path_spec`).
    fn command_for_path(&self, path: &Vec<String>) -> (r: Result<&CommandSpec, LccpError>)
        requires
            self.wf(),
        ensures
            match r {
                Ok(c) => command_for_path_spec(self@.command, strings_model(path@)) == Some(c@) && c.wf(),
                Err(e) => command_for_path_spec(self@.command, strings_model(path@)) is None && e@ == ErrorView::UnknownCommandPath(
                    join_space(strings_model(path@)),
                ),
            },
    {
        let ghost pv = strings_model(path@);
        let root = &self.root_command;
        if path.len() == 0 {
            return Ok(root);
        }
        let mut cur: &CommandSpec = root;
        if !crate::text::str_eq(path[0].as_str(), root.name()) {
            match root.subcommand(path[0].as_str()) {
                Some(c) => {
                    cur = c;
                },
                None => {
                    return Err(LccpError::UnknownCommandPath(join_with_space(path)));
                },
            }
        }
        let mut i: usize = 1;
        while i < path.len()
            invariant
                pv == strings_model(path@),
                1 <= i <= path@.len(),
                cur.wf(),
                command_for_path_spec(self@.command, pv) == walk_path(cur@, pv, i as int),
            decreases path@.len() - i,
        {
            match cur.subcommand(path[i].as_str()) {
                Some(c) => {
                    cur = c;
                },
                None => {
                    return Err(LccpError::UnknownCommandPath(join_with_space(path)));
                },
            }
            i = i + 1;
        }
        Ok(cur)
    }

    /// The help text of the command that `path` names (see `help_text`);
    /// fails when no command has that path.
    pub fn render_help_for(&self, path: &Vec<String>) -> (r: Result<String, LccpError>)
        requires
            self.wf(),
        ensures
            match command_for_path_spec(self@.command, strings_model(path@)) {
                Some(c) => r matches Ok(s) && s@ == help_text(self@.app_name, c, strings_model(path@), self@.schema),
                None => r matches Err(e) && e@ == ErrorView::UnknownCommandPath(join_space(strings_model(path@))),
            },
    {
        match self.command_for_path(path) {
            Ok(c) => Ok(render_help_text(self.app_name.as_str(), c, path, &self.schema)),
            Err(e) => Err(e),
        }
    }

    /// The help text of the root command.
    pub fn render_help(&self) -> (r: String)
        requires
            self.wf(),
        ensures
            r@ == help_text(self@.app_name, self@.command, Seq::empty(), self@.schema),
    {
        let path: Vec<String> = Vec::new();
        proof {
            assert(strings_model(path@) =~= Seq::<Seq<char>>::empty());
        }
        render_help_text(self.app_name.as_str(), &self.root_command, &path, &self.schema)
    }
}

} // verus!

verus! {

/// The discovered configuration files, in the order they are consulted.
pub open spec fn discovered_paths(r: ResolverView, o: OptionsView) -> Seq<Seq<char>> {
    let app = r.app_name;
    let json = app + ".json"@;
    let toml = app + ".toml"@;
    let inst = install_dir_text(r.executable_path);
    seq![
        join_text(o.system_config_dir, json),
        join_text(o.system_config_dir, toml),
        join_text(inst, json),
        join_text(inst, toml),
    ] + match o.home_dir {
        Some(h) => {
            let dir = join_text(h, "."@ + app);
            seq![join_text(dir, "config.json"@), join_text(dir, "config.toml"@)]
        },
        None => Seq::empty(),
    } + seq![join_text(o.cwd, json), join_text(o.cwd, toml)]
}

/// The configuration files that resolving `argv` may consult: the
/// discovered ones, then those named by `--config` (when the command line's
/// first pass succeeds).
pub open spec fn requested_paths(r: ResolverView, argv: Seq<Seq<char>>, o: OptionsView) -> Seq<Seq<char>> {
    discovered_paths(r, o) + match parse_argv_spec(argv, r.flag_index, r.schema) {
        Ok(p) => p.config_files.map_values(|c: Seq<char>| cli_file_path(o.cwd, c)),
        Err(_) => Seq::empty(),
    }
}

/// What follows each `=` of `a`, from position `i` on.
pub open spec fn eq_suffixes_from(a: Seq<char>, i: int) -> Seq<Seq<char>>
    decreases a.len() - i,
{
    if i < 0 || i >= a.len() {
        Seq::empty()
    } else {
        (if a[i] == '=' {
            seq![a.skip(i + 1)]
        } else {
            Seq::empty()
        }) + eq_suffixes_from(a, i + 1)
    }
}

/// Every argument followed by what follows each `=` in it.
pub open spec fn argv_raws(argv: Seq<Seq<char>>) -> Seq<Seq<char>>
    decreases argv.len(),
{
    if argv.len() == 0 {
        Seq::empty()
    } else {
        argv_raws(argv.drop_last()) + seq![argv.last()] + eq_suffixes_from(argv.last(), 0)
    }
}

/// The raw strings that resolving `argv` may read as values: every
/// argument, what follows each `=` in it, every environment value, and
/// `true`, the value of a boolean flag given without one.
pub open spec fn raw_candidates_spec(argv: Seq<Seq<char>>, env: Seq<(Seq<char>, Seq<char>)>) -> Seq<Seq<char>> {
    argv_raws(argv) + env.map_values(|e: (Seq<char>, Seq<char>)| e.1) + seq!["true"@]
}

impl Resolver {
    /// The configuration files that resolving `argv` may consult (see
    /// `requested_paths`), for the caller to read beforehand.
    pub fn config_file_paths(&self, argv: &Vec<String>, options: &ResolveOptions) -> (r: Vec<String>)
        ensures
            strings_model(r@) == requested_paths(self@, strings_view(argv@), options@),
    {
        let app = self.app_name.as_str();
        let json = with_suffix(app, ".json");
        let toml = with_suffix(app, ".toml");
        let sys = options.system_config_dir.as_str();
        let inst = install_dir(self.executable_path.as_str());
        let mut out: Vec<String> = Vec::new();
        out.push(join_path(sys, json.as_str()));
        out.push(join_path(sys, toml.as_str()));
        out.push(join_path(inst.as_str(), json.as_str()));
        out.push(join_path(inst.as_str(), toml.as_str()));
        match &options.home_dir {
            Some(h) => {
                let hidden = with_suffix(".", app);
                let dir = join_path(h.as_str(), hidden.as_str());
                out.push(join_path(dir.as_str(), "config.json"));
                out.push(join_path(dir.as_str(), "config.toml"));
            },
            None => {},
        }
        let cwd = options.cwd.as_str();
        out.push(join_path(cwd, json.as_str()));
        out.push(join_path(cwd, toml.as_str()));
        proof {
            assert(strings_model(out@) =~= discovered_paths(self@, options@));
        }
        let ghost head = strings_model(out@);
        match parse_argv(argv, &self.flag_index, &self.schema) {
            Ok(parsed) => {
                let ghost cf = parsed@.config_files;
                proof {
                    assert(cf =~= strings_model(parsed.config_files@));
                    assert(cf.take(0).map_values(|c: Seq<char>| cli_file_path(cwd@, c)) =~= Seq::<Seq<char>>::empty());
                }
                for i in 0..parsed.config_files.len()
                    invariant
                        cf == strings_model(parsed.config_files@),
                        strings_model(out@) == head + cf.take(i as int).map_values(|c: Seq<char>| cli_file_path(cwd@, c)),
                {
                    let p = parsed.config_files[i].as_str();
                    let path = if is_absolute(p) {
                        copy_str(p)
                    } else {
                        let joined = join_path(cwd, p);
                        normalize_path(joined.as_str())
                    };
                    let ghost before = strings_model(out@);
                    out.push(path);
                    proof {
                        assert(cf.take(i + 1).map_values(|c: Seq<char>| cli_file_path(cwd@, c)) =~= cf.take(i as int).map_values(
                            |c: Seq<char>| cli_file_path(cwd@, c),
                        ).push(cli_file_path(cwd@, cf[i as int])));
                        assert(strings_model(out@) =~= before.push(path@));
                    }
                }
                proof {
                    assert(cf.take(cf.len() as int) == cf);
                }
            },
            Err(_) => {
                proof {
                    assert(strings_model(out@) =~= head + Seq::<Seq<char>>::empty());
                }
            },
        }
        out
    }
}

/// What follows each `=` of `a` (see `eq_suffixes_from`), appended to
/// `out`.
fn push_eq_suffixes(out: &mut Vec<String>, a: &str)
    ensures
        strings_model(final(out)@) == strings_model(old(out)@) + eq_suffixes_from(a@, 0),
{
    let v = crate::text::chars_of(a);
    let ghost start = strings_model(out@);
    proof {
        assert(start + eq_suffixes_from(v@, 0) =~= start + eq_suffixes_from(v@, 0));
    }
    for i in 0..v.len()
        invariant
            v@ == a@,
            strings_model(out@) + eq_suffixes_from(v@, i as int) == start + eq_suffixes_from(v@, 0),
    {
        let ghost before = strings_model(out@);
        if v[i] == '=' {
            let s = crate::text::string_of_range(&v, i + 1, v.len());
            out.push(s);
            proof {
                assert(v@.subrange(i + 1, v@.len() as int) =~= v@.skip(i + 1));
                assert(strings_model(out@) =~= before.push(v@.skip(i + 1)));
                assert(before + eq_suffixes_from(v@, i as int) =~= strings_model(out@) + eq_suffixes_from(v@, i + 1));
            }
        } else {
            proof {
                assert(eq_suffixes_from(v@, i as int) =~= eq_suffixes_from(v@, i + 1));
            }
        }
    }
    proof {
        assert(eq_suffixes_from(v@, v@.len() as int) =~= Seq::<Seq<char>>::empty());
        assert(strings_model(out@) =~= strings_model(out@) + Seq::<Seq<char>>::empty());
    }
}

/// The raw strings that resolving `argv` may read as values (see
/// `raw_candidates_spec`), for the caller to record facts about.
pub fn raw_candidates(argv: &Vec<String>, options: &ResolveOptions) -> (r: Vec<String>)
    ensures
        strings_model(r@) == raw_candidates_spec(strings_view(argv@), options@.env),
{
    let ghost av = strings_view(argv@);
    let mut out: Vec<String> = Vec::new();
    proof {
        assert(av.take(0) =~= Seq::<Seq<char>>::empty());
        assert(strings_model(out@) =~= argv_raws(av.take(0)));
    }
    for i in 0..argv.len()
        invariant
            av == strings_view(argv@),
            strings_model(out@) == argv_raws(av.take(i as int)),
    {
        proof {
            assert(av.take(i + 1).drop_last() =~= av.take(i as int));
            assert(av.take(i + 1).last() == argv@[i as int]@);
        }
        let ghost before = strings_model(out@);
        out.push(copy_str(argv[i].as_str()));
        proof {
            assert(strings_model(out@) =~= before.push(argv@[i as int]@));
        }
        push_eq_suffixes(&mut out, argv[i].as_str());
        proof {
            assert(strings_model(out@) =~= argv_raws(av.take(i + 1)));
        }
    }
    proof {
        assert(av.take(av.len() as int) == av);
    }
    let ghost head = strings_model(out@);
    let ghost ev = options@.env;
    for j in 0..options.env.len()
        invariant
            ev == options@.env,
            strings_model(out@) == head + ev.take(j as int).map_values(|e: (Seq<char>, Seq<char>)| e.1),
    {
        let ghost before = strings_model(out@);
        out.push(copy_str(options.env[j].1.as_str()));
        proof {
            assert(ev[j as int] == (options.env@[j as int].0@, options.env@[j as int].1@));
            assert(ev.take(j + 1).map_values(|e: (Seq<char>, Seq<char>)| e.1) =~= ev.take(j as int).map_values(
                |e: (Seq<char>, Seq<char>)| e.1,
            ).push(ev[j as int].1));
            assert(strings_model(out@) =~= before.push(options.env@[j as int].1@));
        }
    }
    proof {
        assert(ev.take(ev.len() as int) == ev);
    }
    let ghost before = strings_model(out@);
    out.push(copy_str("true"));
    proof {
        assert(strings_model(out@) =~= before.push("true"@));
    }
    out
}

} // verus!

verus! {

/// A consistent resolver's command stores every subcommand, at any depth,
/// under its own name.
pub proof fn lemma_command_names(r: Resolver)
    requires
        r.wf(),
    ensures
        crate::command::names_consistent(r@.command),
{
    crate::command::lemma_wf_names_consistent(r.root_command);
}

} // verus!
