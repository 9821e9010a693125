//! Properties of resolution as a whole: every resolved history lists its
//! records in order of precedence, so the value that wins is the one from
//! the highest level that set the key.

use vstd::prelude::*;
use crate::inputs::{file_of, FileView, OptionsView};
use crate::keyed::{first_lookup, lemma_sorted_lookup_at, lookup};
use crate::resolved::{apply_leaf_spec, entries_wf, extended, law_apply_leaf, related, RecordView, ResolvedView};
use crate::resolver::{
    argv_location, both_files_warning, cli_file_path, cli_files_from, default_location, defaults_from, discovered_spec,
    env_from, env_step, item_positions, item_raws, join_comma, later_repeated, leaf_step, leaves_from, load_file_spec,
    load_level_spec, named_from, named_step, normalize_spec, rec_of, repeated_items, resolve_spec, set_step, sets_from,
    with_leaf, discovered_paths, requested_paths, ResolverView, argv_raws, eq_suffixes_from, raw_candidates_spec,
};
use crate::paths::{install_dir_text, join_text};
use crate::specs::OptionSpecView;
use crate::cli::{after, argv_items, argv_scan, flag_value_spec, inline_or_next_spec, split_flag_spec, NamedView, ParsedView, SetView};
use crate::command::{lemma_subs_consistent, names_consistent, option_for_flag_spec, CommandSpecView};
use crate::convert::{fact_of, typed_value, untyped_value};
use crate::error::ErrorView;
use crate::matching::{cmd_scan, help_path, initial_scan, parse_cmd, MatchesView, ScanView};
use crate::resolver::{command_for_path_spec, walk_path};
use crate::resolved::{get_spec, subtree_entries, SourceKind};
use crate::text::{is_double_dash, is_prefix};
use crate::tree::{build_tree, lemma_build_tree_navigate, lemma_split_prefix, navigate, paths_apart, prefix_related, split_on};
use crate::convert::RawFactView;
use crate::value::{JsonData, NumberData, ValueType};
use crate::keyed::{lemma_put_append, put, sorted_model};
use crate::text::{first_index_of, seq_lt};
use crate::toml_value::{is_finite_bits, toml_items_to_json, toml_table_to_json, toml_to_json_spec, TomlData};
use crate::tree::{json_items_to_toml, json_members_to_toml, json_to_toml_spec};

verus! {

/// The records of a history come in non-decreasing order of precedence
/// level.
pub open spec fn levels_sorted(h: Seq<RecordView>) -> bool {
    forall|i: int, j: int| 0 <= i < j < h.len() ==> #[trigger] h[i].source.level <= #[trigger] h[j].source.level
}

/// No record of a history has a level above `l`.
pub open spec fn levels_at_most(h: Seq<RecordView>, l: int) -> bool {
    forall|i: int| 0 <= i < h.len() ==> #[trigger] h[i].source.level <= l
}

/// The precedence level that goes with each source kind: defaults 1, the
/// system file 2, the installation file 3, the user file 4, the
/// working-directory file 5, the environment 6, `--config` files 7,
/// `--set` 8, explicit flags 9.
pub open spec fn kind_level(k: SourceKind) -> u8 {
    match k {
        SourceKind::Default => 1,
        SourceKind::SystemFile => 2,
        SourceKind::InstallFile => 3,
        SourceKind::UserFile => 4,
        SourceKind::WorkingDirFile => 5,
        SourceKind::Environment => 6,
        SourceKind::CliConfigFile => 7,
        SourceKind::CliSet => 8,
        SourceKind::CliExplicit => 9,
    }
}

/// Every record of a history has the level that goes with its kind.
pub open spec fn kinds_match(h: Seq<RecordView>) -> bool {
    forall|i: int| 0 <= i < h.len() ==> kind_level(#[trigger] h[i].source.kind) == h[i].source.level
}

/// A resolution state whose entries are consistent and whose histories are
/// in precedence order, each record at the level of its kind, with no
/// level above `l` yet.
pub open spec fn ordered_state(st: ResolvedView, l: int) -> bool {
    &&& entries_wf(st.entries)
    &&& forall|i: int| 0 <= i < st.entries.len() ==> kinds_match(#[trigger] st.entries[i].1)
    &&& forall|i: int| 0 <= i < st.entries.len() ==> levels_sorted(#[trigger] st.entries[i].1)
    &&& forall|i: int| 0 <= i < st.entries.len() ==> levels_at_most(#[trigger] st.entries[i].1, l)
}

proof fn lemma_ordered_mono(st: ResolvedView, l: int, m: int)
    requires
        ordered_state(st, l),
        l <= m,
    ensures
        ordered_state(st, m),
{
    assert forall|i: int| 0 <= i < st.entries.len() implies levels_at_most(#[trigger] st.entries[i].1, m) by {
        assert(levels_at_most(st.entries[i].1, l));
    }
}

/// Applying a record whose level is at least every level so far keeps the
/// histories in precedence order.
proof fn lemma_with_leaf_ordered(st: ResolvedView, l: int, key: Seq<char>, rec: RecordView)
    requires
        ordered_state(st, l),
        l <= rec.source.level,
        kind_level(rec.source.kind) == rec.source.level,
    ensures
        ordered_state(with_leaf(st, key, rec), rec.source.level as int),
{
    let s = st.entries;
    let t = apply_leaf_spec(s, key, rec);
    law_apply_leaf(s, key, rec);
    let m = rec.source.level as int;
    assert forall|i: int| 0 <= i < t.len() implies levels_sorted(#[trigger] t[i].1) && levels_at_most(t[i].1, m)
        && kinds_match(t[i].1) by {
        lemma_sorted_lookup_at(t, i);
        let k = t[i].0;
        if k == key {
            match lookup(s, key) {
                Some(h0) => {
                    let j = choose|j: int| 0 <= j < s.len() && s[j].0 == key;
                    lemma_sorted_lookup_at(s, j);
                    assert(levels_sorted(s[j].1));
                    assert(levels_at_most(s[j].1, l));
                    assert(t[i].1 == h0.push(rec));
                    assert forall|a: int, b: int| 0 <= a < b < t[i].1.len() implies #[trigger] t[i].1[a].source.level
                        <= #[trigger] t[i].1[b].source.level by {
                        if b < h0.len() {
                            assert(t[i].1[a] == h0[a] && t[i].1[b] == h0[b]);
                        } else {
                            assert(t[i].1[a] == h0[a]);
                        }
                    }
                    assert forall|a: int| 0 <= a < t[i].1.len() implies #[trigger] t[i].1[a].source.level <= m by {
                        if a < h0.len() {
                            assert(t[i].1[a] == h0[a]);
                        }
                    }
                    assert(kinds_match(s[j].1));
                    assert forall|a: int| 0 <= a < t[i].1.len() implies kind_level(#[trigger] t[i].1[a].source.kind)
                        == t[i].1[a].source.level by {
                        if a < h0.len() {
                            assert(t[i].1[a] == h0[a]);
                        }
                    }
                },
                None => {
                    assert(t[i].1 == seq![rec]);
                },
            }
        } else {
            assert(lookup(t, k) == if related(k, key) { None } else { lookup(s, k) });
            let j = choose|j: int| 0 <= j < s.len() && s[j].0 == k;
            lemma_sorted_lookup_at(s, j);
            assert(t[i].1 == s[j].1);
            assert(levels_sorted(s[j].1));
            assert(levels_at_most(s[j].1, l));
            assert(kinds_match(s[j].1));
        }
    }
}

proof fn lemma_defaults_ordered(st: ResolvedView, d: Seq<(Seq<char>, JsonData)>, i: int)
    requires
        ordered_state(st, 1),
    ensures
        ordered_state(defaults_from(st, d, i), 1),
        defaults_from(st, d, i).matches == st.matches,
    decreases d.len() - i,
{
    if 0 <= i < d.len() {
        let (k, v) = d[i];
        let rec = rec_of(v, crate::resolved::SourceKind::Default, default_location(k), 1, Some(crate::render::value_text(v)));
        lemma_with_leaf_ordered(st, 1, k, rec);
        lemma_defaults_ordered(with_leaf(st, k, rec), d, i + 1);
    }
}

proof fn lemma_leaves_ordered(
    st: ResolvedView,
    schema: Seq<(Seq<char>, OptionSpecView)>,
    kind: crate::resolved::SourceKind,
    level: u8,
    path: Seq<char>,
    leaves: Seq<(Seq<char>, JsonData)>,
    i: int,
)
    requires
        kind_level(kind) == level,
        ordered_state(st, level as int),
    ensures
        leaves_from(st, schema, kind, level, path, leaves, i) matches Ok(s2) ==> ordered_state(s2, level as int) && s2.matches == st.matches,
    decreases leaves.len() - i,
{
    if 0 <= i < leaves.len() {
        match leaf_step(st, schema, kind, level, path, leaves[i]) {
            Ok(s2) => {
                let v = normalize_spec(schema, leaves[i].0, leaves[i].1)->Ok_0;
                lemma_with_leaf_ordered(st, level as int, leaves[i].0, rec_of(v, kind, path, level, Some(crate::render::value_text(v))));
                lemma_leaves_ordered(s2, schema, kind, level, path, leaves, i + 1);
            },
            Err(_) => {},
        }
    }
}

proof fn lemma_file_ordered(
    st: ResolvedView,
    schema: Seq<(Seq<char>, OptionSpecView)>,
    kind: crate::resolved::SourceKind,
    level: u8,
    path: Seq<char>,
    explicit: bool,
    files: Seq<(Seq<char>, FileView)>,
)
    requires
        kind_level(kind) == level,
        ordered_state(st, level as int),
    ensures
        load_file_spec(st, schema, kind, level, path, explicit, files) matches Ok(s2) ==> ordered_state(s2, level as int) && s2.matches == st.matches,
{
    match crate::inputs::file_of(files, path).read {
        Ok(c) => {
            match crate::paths::format_of(path) {
                Some(crate::paths::ConfigFormat::Json) => match crate::formats::json_document_reading(c) {
                    Ok(d) => {
                        if d is Object {
                            match crate::tree::flatten_spec(""@, d) {
                                Ok(leaves) => lemma_leaves_ordered(st, schema, kind, level, path, leaves, 0),
                                Err(_) => {},
                            }
                        }
                    },
                    Err(_) => {},
                },
                Some(crate::paths::ConfigFormat::Toml) => match crate::formats::toml_document_reading(c) {
                    Ok(t) => match crate::toml_value::toml_to_json_spec(t) {
                        Ok(d) => {
                            if d is Object {
                                match crate::tree::flatten_spec(""@, d) {
                                    Ok(leaves) => lemma_leaves_ordered(st, schema, kind, level, path, leaves, 0),
                                    Err(_) => {},
                                }
                            }
                        },
                        Err(_) => {},
                    },
                    Err(_) => {},
                },
                None => {},
            }
        },
        Err(_) => {},
    }
}

proof fn lemma_level_ordered(
    st: ResolvedView,
    l: int,
    schema: Seq<(Seq<char>, OptionSpecView)>,
    kind: crate::resolved::SourceKind,
    level: u8,
    json: Seq<char>,
    toml: Seq<char>,
    files: Seq<(Seq<char>, FileView)>,
)
    requires
        ordered_state(st, l),
        l <= level,
        kind_level(kind) == level,
    ensures
        load_level_spec(st, schema, kind, level, json, toml, files) matches Ok(s2) ==> ordered_state(s2, level as int) && s2.matches == st.matches,
{
    lemma_ordered_mono(st, l, level as int);
    let je = crate::inputs::file_of(files, json).is_file;
    let te = crate::inputs::file_of(files, toml).is_file;
    let s1 = if je && te {
        ResolvedView { warnings: st.warnings.push(both_files_warning(level, json, toml)), ..st }
    } else {
        st
    };
    assert(ordered_state(s1, level as int));
    if je {
        lemma_file_ordered(s1, schema, kind, level, json, false, files);
    }
    let r2 = if je {
        load_file_spec(s1, schema, kind, level, json, false, files)
    } else {
        Ok(s1)
    };
    match r2 {
        Ok(s2) => {
            if te {
                lemma_file_ordered(s2, schema, kind, level, toml, false, files);
            }
        },
        Err(_) => {},
    }
}

proof fn lemma_discovered_ordered(st: ResolvedView, r: ResolverView, o: OptionsView, files: Seq<(Seq<char>, FileView)>)
    requires
        ordered_state(st, 1),
    ensures
        discovered_spec(st, r, o, files) matches Ok(s2) ==> ordered_state(s2, 5) && s2.matches == st.matches,
{
    let app = r.app_name;
    let json = app + ".json"@;
    let toml = app + ".toml"@;
    lemma_level_ordered(
        st,
        1,
        r.schema,
        crate::resolved::SourceKind::SystemFile,
        2,
        crate::paths::join_text(o.system_config_dir, json),
        crate::paths::join_text(o.system_config_dir, toml),
        files,
    );
    match load_level_spec(
        st,
        r.schema,
        crate::resolved::SourceKind::SystemFile,
        2,
        crate::paths::join_text(o.system_config_dir, json),
        crate::paths::join_text(o.system_config_dir, toml),
        files,
    ) {
        Ok(s2) => {
            let inst = crate::paths::install_dir_text(r.executable_path);
            lemma_level_ordered(
                s2,
                2,
                r.schema,
                crate::resolved::SourceKind::InstallFile,
                3,
                crate::paths::join_text(inst, json),
                crate::paths::join_text(inst, toml),
                files,
            );
            match load_level_spec(
                s2,
                r.schema,
                crate::resolved::SourceKind::InstallFile,
                3,
                crate::paths::join_text(inst, json),
                crate::paths::join_text(inst, toml),
                files,
            ) {
                Ok(s3) => {
                    let r4 = match o.home_dir {
                        Some(h) => {
                            let dir = crate::paths::join_text(h, "."@ + app);
                            lemma_level_ordered(
                                s3,
                                3,
                                r.schema,
                                crate::resolved::SourceKind::UserFile,
                                4,
                                crate::paths::join_text(dir, "config.json"@),
                                crate::paths::join_text(dir, "config.toml"@),
                                files,
                            );
                            load_level_spec(
                                s3,
                                r.schema,
                                crate::resolved::SourceKind::UserFile,
                                4,
                                crate::paths::join_text(dir, "config.json"@),
                                crate::paths::join_text(dir, "config.toml"@),
                                files,
                            )
                        },
                        None => {
                            lemma_ordered_mono(s3, 3, 4);
                            Ok(s3)
                        },
                    };
                    match r4 {
                        Ok(s4) => {
                            lemma_level_ordered(
                                s4,
                                4,
                                r.schema,
                                crate::resolved::SourceKind::WorkingDirFile,
                                5,
                                crate::paths::join_text(o.cwd, json),
                                crate::paths::join_text(o.cwd, toml),
                                files,
                            );
                        },
                        Err(_) => {},
                    }
                },
                Err(_) => {},
            }
        },
        Err(_) => {},
    }
}

proof fn lemma_env_ordered(
    st: ResolvedView,
    app: Seq<char>,
    schema: Seq<(Seq<char>, OptionSpecView)>,
    env: Seq<(Seq<char>, Seq<char>)>,
    facts: Seq<(Seq<char>, RawFactView)>,
    i: int,
)
    requires
        ordered_state(st, 6),
    ensures
        env_from(st, app, schema, env, facts, i) matches Ok(s2) ==> ordered_state(s2, 6) && s2.matches == st.matches,
    decreases schema.len() - i,
{
    if 0 <= i < schema.len() {
        match env_step(st, app, schema[i], env, facts) {
            Ok(s2) => {
                let key = schema[i].0;
                let name = crate::names::env_var_name(app, key);
                match crate::keyed::first_lookup(env, name) {
                    Some(raw) => {
                        let v = crate::convert::typed_value(key, schema[i].1.value_type, raw, facts)->Ok_0;
                        lemma_with_leaf_ordered(st, 6, key, rec_of(v, crate::resolved::SourceKind::Environment, name, 6, Some(raw)));
                    },
                    None => {},
                }
                lemma_env_ordered(s2, app, schema, env, facts, i + 1);
            },
            Err(_) => {},
        }
    }
}

proof fn lemma_cli_files_ordered(
    st: ResolvedView,
    schema: Seq<(Seq<char>, OptionSpecView)>,
    cwd: Seq<char>,
    paths: Seq<Seq<char>>,
    files: Seq<(Seq<char>, FileView)>,
    i: int,
)
    requires
        ordered_state(st, 7),
    ensures
        cli_files_from(st, schema, cwd, paths, files, i) matches Ok(s2) ==> ordered_state(s2, 7) && s2.matches == st.matches,
    decreases paths.len() - i,
{
    if 0 <= i < paths.len() {
        lemma_file_ordered(st, schema, crate::resolved::SourceKind::CliConfigFile, 7, cli_file_path(cwd, paths[i]), true, files);
        match load_file_spec(st, schema, crate::resolved::SourceKind::CliConfigFile, 7, cli_file_path(cwd, paths[i]), true, files) {
            Ok(s2) => lemma_cli_files_ordered(s2, schema, cwd, paths, files, i + 1),
            Err(_) => {},
        }
    }
}

proof fn lemma_sets_ordered(
    st: ResolvedView,
    schema: Seq<(Seq<char>, OptionSpecView)>,
    sets: Seq<SetView>,
    facts: Seq<(Seq<char>, RawFactView)>,
    i: int,
)
    requires
        ordered_state(st, 8),
    ensures
        sets_from(st, schema, sets, facts, i) matches Ok(s2) ==> ordered_state(s2, 8) && s2.matches == st.matches,
    decreases sets.len() - i,
{
    if 0 <= i < sets.len() {
        match set_step(st, schema, sets[i], facts) {
            Ok(s2) => {
                let s = sets[i];
                let read = match crate::keyed::first_lookup(schema, s.key) {
                    Some(o) => crate::convert::typed_value(s.key, o.value_type, s.raw, facts),
                    None => Ok(crate::convert::untyped_value(s.raw, facts)),
                };
                let v = read->Ok_0;
                let v2 = normalize_spec(schema, s.key, v)->Ok_0;
                lemma_with_leaf_ordered(st, 8, s.key, rec_of(v2, crate::resolved::SourceKind::CliSet, argv_location(s.position), 8, Some(s.raw)));
                lemma_sets_ordered(s2, schema, sets, facts, i + 1);
            },
            Err(_) => {},
        }
    }
}

proof fn lemma_named_ordered(
    st: ResolvedView,
    schema: Seq<(Seq<char>, OptionSpecView)>,
    named: Seq<NamedView>,
    facts: Seq<(Seq<char>, RawFactView)>,
    i: int,
)
    requires
        ordered_state(st, 9),
    ensures
        named_from(st, schema, named, facts, i) matches Ok(s2) ==> ordered_state(s2, 9) && s2.matches == st.matches,
    decreases named.len() - i,
{
    if 0 <= i < named.len() {
        match named_step(st, schema, named, i, facts) {
            Ok(s2) => {
                match named[i] {
                    NamedView::Scalar { key, raw, position } => match crate::keyed::first_lookup(schema, key) {
                        Some(o) => {
                            let v = crate::convert::typed_value(key, o.value_type, raw, facts)->Ok_0;
                            lemma_with_leaf_ordered(
                                st,
                                9,
                                key,
                                rec_of(v, crate::resolved::SourceKind::CliExplicit, argv_location(position), 9, Some(raw)),
                            );
                        },
                        None => {},
                    },
                    NamedView::Repeated { key, .. } => {
                        if !later_repeated(named, i, key) {
                            match crate::keyed::first_lookup(schema, key) {
                                Some(o) => {
                                    let items = repeated_items(named.take(i + 1), key);
                                    let vs = crate::matching::typed_values(
                                        key,
                                        crate::matching::element_or_self(o.value_type),
                                        item_raws(items),
                                        facts,
                                    )->Ok_0;
                                    lemma_with_leaf_ordered(
                                        st,
                                        9,
                                        key,
                                        rec_of(
                                            JsonData::Array(vs),
                                            crate::resolved::SourceKind::CliExplicit,
                                            "arguments "@ + join_comma(item_positions(items)) + " of argv"@,
                                            9,
                                            Some(join_comma(item_raws(items))),
                                        ),
                                    );
                                },
                                None => {},
                            }
                        }
                    },
                }
                lemma_named_ordered(s2, schema, named, facts, i + 1);
            },
            Err(_) => {},
        }
    }
}

/// What every successful resolution satisfies: ordered histories, and the
/// command matches of the command line.
proof fn lemma_resolve_stages(
    r: ResolverView,
    argv: Seq<Seq<char>>,
    o: OptionsView,
    facts: Seq<(Seq<char>, RawFactView)>,
    files: Seq<(Seq<char>, FileView)>,
)
    ensures
        resolve_spec(r, argv, o, facts, files) matches Ok(v) ==> entries_wf(v.entries) && forall|i: int|
            0 <= i < v.entries.len() ==> levels_sorted(#[trigger] v.entries[i].1),
        resolve_spec(r, argv, o, facts, files) matches Ok(v) ==> forall|i: int|
            0 <= i < v.entries.len() ==> kinds_match(#[trigger] v.entries[i].1),
        resolve_spec(r, argv, o, facts, files) matches Ok(v) ==> (crate::cli::parse_argv_spec(argv, r.flag_index, r.schema) matches Ok(p)
            && crate::matching::parse_cmd(r.command, p.remaining, 0, facts) matches Ok((m, _)) && v.matches == m),
{
    match crate::cli::parse_argv_spec(argv, r.flag_index, r.schema) {
        Ok(p) => match crate::matching::parse_cmd(r.command, p.remaining, 0, facts) {
            Ok((m, _)) => {
                let s0 = ResolvedView { entries: Seq::empty(), warnings: Seq::empty(), flags: p.flags, matches: m };
                assert(ordered_state(s0, 1));
                lemma_defaults_ordered(s0, r.defaults, 0);
                let s1 = defaults_from(s0, r.defaults, 0);
                lemma_discovered_ordered(s1, r, o, files);
                match discovered_spec(s1, r, o, files) {
                    Ok(s5) => {
                        lemma_ordered_mono(s5, 5, 6);
                        lemma_env_ordered(s5, r.app_name, r.schema, o.env, facts, 0);
                        match env_from(s5, r.app_name, r.schema, o.env, facts, 0) {
                            Ok(s6) => {
                                lemma_ordered_mono(s6, 6, 7);
                                lemma_cli_files_ordered(s6, r.schema, o.cwd, p.config_files, files, 0);
                                match cli_files_from(s6, r.schema, o.cwd, p.config_files, files, 0) {
                                    Ok(s7) => {
                                        lemma_ordered_mono(s7, 7, 8);
                                        lemma_sets_ordered(s7, r.schema, p.sets, facts, 0);
                                        match sets_from(s7, r.schema, p.sets, facts, 0) {
                                            Ok(s8) => {
                                                lemma_ordered_mono(s8, 8, 9);
                                                lemma_named_ordered(s8, r.schema, p.named, facts, 0);
                                            },
                                            Err(_) => {},
                                        }
                                    },
                                    Err(_) => {},
                                }
                            },
                            Err(_) => {},
                        }
                    },
                    Err(_) => {},
                }
            },
            Err(_) => {},
        },
        Err(_) => {},
    }
}

} // verus!

verus! {

/// Two tables of files record the same for each of `paths`.
pub open spec fn agree_on(f1: Seq<(Seq<char>, FileView)>, f2: Seq<(Seq<char>, FileView)>, paths: Seq<Seq<char>>) -> bool {
    forall|i: int| 0 <= i < paths.len() ==> file_of(f1, #[trigger] paths[i]) == file_of(f2, paths[i])
}

proof fn lemma_level_frame(
    st: ResolvedView,
    schema: Seq<(Seq<char>, OptionSpecView)>,
    kind: crate::resolved::SourceKind,
    level: u8,
    json: Seq<char>,
    toml: Seq<char>,
    f1: Seq<(Seq<char>, FileView)>,
    f2: Seq<(Seq<char>, FileView)>,
)
    requires
        file_of(f1, json) == file_of(f2, json),
        file_of(f1, toml) == file_of(f2, toml),
    ensures
        load_level_spec(st, schema, kind, level, json, toml, f1) == load_level_spec(st, schema, kind, level, json, toml, f2),
{
    let je = file_of(f1, json).is_file;
    let te = file_of(f1, toml).is_file;
    let s1 = if je && te {
        ResolvedView { warnings: st.warnings.push(both_files_warning(level, json, toml)), ..st }
    } else {
        st
    };
    assert(load_file_spec(s1, schema, kind, level, json, false, f1) == load_file_spec(s1, schema, kind, level, json, false, f2));
    let r2 = if je {
        load_file_spec(s1, schema, kind, level, json, false, f1)
    } else {
        Ok(s1)
    };
    match r2 {
        Ok(s2) => {
            assert(load_file_spec(s2, schema, kind, level, toml, false, f1) == load_file_spec(s2, schema, kind, level, toml, false, f2));
        },
        Err(_) => {},
    }
}

proof fn lemma_cli_files_frame(
    st: ResolvedView,
    schema: Seq<(Seq<char>, OptionSpecView)>,
    cwd: Seq<char>,
    paths: Seq<Seq<char>>,
    f1: Seq<(Seq<char>, FileView)>,
    f2: Seq<(Seq<char>, FileView)>,
    i: int,
)
    requires
        forall|j: int| 0 <= j < paths.len() ==> file_of(f1, cli_file_path(cwd, #[trigger] paths[j])) == file_of(
            f2,
            cli_file_path(cwd, paths[j]),
        ),
    ensures
        cli_files_from(st, schema, cwd, paths, f1, i) == cli_files_from(st, schema, cwd, paths, f2, i),
    decreases paths.len() - i,
{
    if 0 <= i < paths.len() {
        let p = cli_file_path(cwd, paths[i]);
        assert(file_of(f1, p) == file_of(f2, p));
        assert(load_file_spec(st, schema, crate::resolved::SourceKind::CliConfigFile, 7, p, true, f1) == load_file_spec(
            st,
            schema,
            crate::resolved::SourceKind::CliConfigFile,
            7,
            p,
            true,
            f2,
        ));
        match load_file_spec(st, schema, crate::resolved::SourceKind::CliConfigFile, 7, p, true, f1) {
            Ok(s2) => lemma_cli_files_frame(s2, schema, cwd, paths, f1, f2, i + 1),
            Err(_) => {},
        }
    }
}

proof fn lemma_discovered_frame(
    st: ResolvedView,
    r: ResolverView,
    o: OptionsView,
    f1: Seq<(Seq<char>, FileView)>,
    f2: Seq<(Seq<char>, FileView)>,
)
    requires
        agree_on(f1, f2, discovered_paths(r, o)),
    ensures
        discovered_spec(st, r, o, f1) == discovered_spec(st, r, o, f2),
{
    let d = discovered_paths(r, o);
    let app = r.app_name;
    let json = app + ".json"@;
    let toml = app + ".toml"@;
    let inst = install_dir_text(r.executable_path);
    let sys_json = join_text(o.system_config_dir, json);
    let sys_toml = join_text(o.system_config_dir, toml);
    assert(d[0] == sys_json);
    assert(d[1] == sys_toml);
    assert(d[2] == join_text(inst, json));
    assert(d[3] == join_text(inst, toml));
    let n = d.len();
    assert(d[n - 2] == join_text(o.cwd, json));
    assert(d[n - 1] == join_text(o.cwd, toml));
    lemma_level_frame(st, r.schema, crate::resolved::SourceKind::SystemFile, 2, sys_json, sys_toml, f1, f2);
    match load_level_spec(st, r.schema, crate::resolved::SourceKind::SystemFile, 2, sys_json, sys_toml, f1) {
        Ok(s2) => {
            lemma_level_frame(
                s2,
                r.schema,
                crate::resolved::SourceKind::InstallFile,
                3,
                join_text(inst, json),
                join_text(inst, toml),
                f1,
                f2,
            );
            match load_level_spec(
                s2,
                r.schema,
                crate::resolved::SourceKind::InstallFile,
                3,
                join_text(inst, json),
                join_text(inst, toml),
                f1,
            ) {
                Ok(s3) => {
                    let r4 = match o.home_dir {
                        Some(h) => {
                            let dir = join_text(h, "."@ + app);
                            assert(d[4] == join_text(dir, "config.json"@));
                            assert(d[5] == join_text(dir, "config.toml"@));
                            lemma_level_frame(
                                s3,
                                r.schema,
                                crate::resolved::SourceKind::UserFile,
                                4,
                                join_text(dir, "config.json"@),
                                join_text(dir, "config.toml"@),
                                f1,
                                f2,
                            );
                            load_level_spec(
                                s3,
                                r.schema,
                                crate::resolved::SourceKind::UserFile,
                                4,
                                join_text(dir, "config.json"@),
                                join_text(dir, "config.toml"@),
                                f1,
                            )
                        },
                        None => Ok(s3),
                    };
                    match r4 {
                        Ok(s4) => {
                            lemma_level_frame(
                                s4,
                                r.schema,
                                crate::resolved::SourceKind::WorkingDirFile,
                                5,
                                join_text(o.cwd, json),
                                join_text(o.cwd, toml),
                                f1,
                                f2,
                            );
                        },
                        Err(_) => {},
                    }
                },
                Err(_) => {},
            }
        },
        Err(_) => {},
    }
}

/// Law: resolution consults no configuration file other than those that
/// `config_file_paths` lists: two tables of files that record the same for
/// each listed path give the same resolution.
pub proof fn law_requested_paths_suffice(
    r: ResolverView,
    argv: Seq<Seq<char>>,
    o: OptionsView,
    facts: Seq<(Seq<char>, RawFactView)>,
    f1: Seq<(Seq<char>, FileView)>,
    f2: Seq<(Seq<char>, FileView)>,
)
    requires
        agree_on(f1, f2, requested_paths(r, argv, o)),
    ensures
        resolve_spec(r, argv, o, facts, f1) == resolve_spec(r, argv, o, facts, f2),
{
    let req = requested_paths(r, argv, o);
    let d = discovered_paths(r, o);
    assert(agree_on(f1, f2, d)) by {
        assert forall|i: int| 0 <= i < d.len() implies file_of(f1, #[trigger] d[i]) == file_of(f2, d[i]) by {
            assert(req[i] == d[i]);
        }
    }
    match crate::cli::parse_argv_spec(argv, r.flag_index, r.schema) {
        Ok(p) => match crate::matching::parse_cmd(r.command, p.remaining, 0, facts) {
            Ok((m, _)) => {
                let s0 = ResolvedView { entries: Seq::empty(), warnings: Seq::empty(), flags: p.flags, matches: m };
                let s1 = defaults_from(s0, r.defaults, 0);
                lemma_discovered_frame(s1, r, o, f1, f2);
                match discovered_spec(s1, r, o, f1) {
                    Ok(s5) => match env_from(s5, r.app_name, r.schema, o.env, facts, 0) {
                        Ok(s6) => {
                            let cf = p.config_files;
                            assert forall|j: int| 0 <= j < cf.len() implies file_of(f1, cli_file_path(o.cwd, #[trigger] cf[j]))
                                == file_of(f2, cli_file_path(o.cwd, cf[j])) by {
                                assert(req[d.len() + j] == cli_file_path(o.cwd, cf[j]));
                            }
                            lemma_cli_files_frame(s6, r.schema, o.cwd, cf, f1, f2, 0);
                        },
                        Err(_) => {},
                    },
                    Err(_) => {},
                }
            },
            Err(_) => {},
        },
        Err(_) => {},
    }
}

} // verus!

verus! {

/// Law: in every resolved configuration, the entries are consistent and
/// each key's history lists its records in non-decreasing order of
/// precedence level (defaults 1, system file 2, installation file 3, user
/// file 4, working-directory file 5, environment 6, `--config` files 7,
/// `--set` 8, explicit flags 9), so the value that wins is one from the
/// highest level that set the key; every history is non-empty, and each
/// of its records carries the level that goes with its source kind.
pub proof fn law_precedence_order(
    r: ResolverView,
    argv: Seq<Seq<char>>,
    o: OptionsView,
    facts: Seq<(Seq<char>, RawFactView)>,
    files: Seq<(Seq<char>, FileView)>,
)
    ensures
        resolve_spec(r, argv, o, facts, files) matches Ok(v) ==> entries_wf(v.entries) && forall|i: int|
            0 <= i < v.entries.len() ==> levels_sorted(#[trigger] v.entries[i].1) && v.entries[i].1.len() > 0
                && kinds_match(v.entries[i].1),
{
    lemma_resolve_stages(r, argv, o, facts, files);
}

/// Law: the command matches of a resolved configuration are those that
/// parsing the application's command gives for the arguments the first
/// pass leaves; no configuration source changes them.
pub proof fn law_resolved_matches(
    r: ResolverView,
    argv: Seq<Seq<char>>,
    o: OptionsView,
    facts: Seq<(Seq<char>, RawFactView)>,
    files: Seq<(Seq<char>, FileView)>,
)
    ensures
        resolve_spec(r, argv, o, facts, files) matches Ok(v) ==> (crate::cli::parse_argv_spec(argv, r.flag_index, r.schema) matches Ok(p)
            && crate::matching::parse_cmd(r.command, p.remaining, 0, facts) matches Ok((m, _)) && v.matches == m),
{
    lemma_resolve_stages(r, argv, o, facts, files);
}

} // verus!

verus! {

/// Scanning a command's arguments selects a subcommand only by a name that
/// the command declares, with the subcommand's own parse of the arguments
/// after that name.
proof fn lemma_scan_subcommand(
    c: CommandSpecView,
    items: Seq<(int, Seq<char>)>,
    index: int,
    st: ScanView,
    facts: Seq<(Seq<char>, RawFactView)>,
)
    requires
        st.subcommand is None,
    ensures
        cmd_scan(c, items, index, st, facts) matches Ok((st2, _)) ==> (st2.subcommand is None || exists|j: int, sub: CommandSpecView|
            #![trigger parse_cmd(sub, items, j + 1, facts), lookup(c.subcommands, items[j].1)]
            index <= j < items.len() && lookup(c.subcommands, items[j].1) == Some(sub) && (parse_cmd(sub, items, j + 1, facts)
                matches Ok((mm, _)) && mm == st2.subcommand->Some_0)),
    decreases items.len() - index,
{
    if 0 <= index < items.len() {
        let cur = items[index].1;
        if !st.stop && cur == "--"@ {
            lemma_scan_subcommand(c, items, index + 1, ScanView { stop: true, ..st }, facts);
        } else if !st.stop && cur == "--help"@ {
            lemma_scan_subcommand(c, items, index + 1, ScanView { help: true, ..st }, facts);
        } else if !st.stop && is_double_dash(cur) {
            let (flag, inline) = split_flag_spec(cur.skip(2));
            match option_for_flag_spec(c, flag) {
                None => {},
                Some(o) => match flag_value_spec(o.value_type, o.repeated, inline, items, index, "--"@ + flag) {
                    Err(_) => {},
                    Ok((v, consumed)) => {
                        if after(index, consumed) > index {
                            lemma_scan_subcommand(
                                c,
                                items,
                                after(index, consumed),
                                ScanView { occurrences: st.occurrences.push((o.name, v)), ..st },
                                facts,
                            );
                        }
                    },
                },
            }
        } else {
            match lookup(c.subcommands, cur) {
                Some(sub) => {
                    match parse_cmd(sub, items, index + 1, facts) {
                        Ok((m, end)) => {
                            assert(lookup(c.subcommands, items[index].1) == Some(sub));
                        },
                        Err(_) => {},
                    }
                },
                None => {
                    if 0 <= st.positional_index < c.positionals.len() {
                        let p = c.positionals[st.positional_index];
                        match typed_value(p.name, p.value_type, cur, facts) {
                            Err(_) => {},
                            Ok(v) => {
                                lemma_scan_subcommand(
                                    c,
                                    items,
                                    index + 1,
                                    ScanView {
                                        positional_values: st.positional_values.push((p.name, v)),
                                        positional_index: if p.multiple {
                                            st.positional_index
                                        } else {
                                            st.positional_index + 1
                                        },
                                        ..st
                                    },
                                    facts,
                                );
                            },
                        }
                    }
                },
            }
        }
    }
}

/// Walking a path with a piece in front from one position further on is
/// walking the path itself.
proof fn lemma_walk_shift(x: CommandSpecView, a: Seq<char>, q: Seq<Seq<char>>, i: int)
    requires
        0 <= i,
    ensures
        walk_path(x, seq![a] + q, i + 1) == walk_path(x, q, i),
    decreases q.len() - i,
{
    let p = seq![a] + q;
    if i < q.len() {
        assert(p[i + 1] == q[i]);
        match lookup(x.subcommands, q[i]) {
            Some(c) => lemma_walk_shift(c, a, q, i + 1),
            None => {},
        }
    }
}

/// When `--help` was given somewhere in a command's parse, walking the help
/// path down from the command (after its own name) reaches a command.
proof fn lemma_help_walk(
    c: CommandSpecView,
    items: Seq<(int, Seq<char>)>,
    index: int,
    facts: Seq<(Seq<char>, RawFactView)>,
    m: MatchesView,
    e: int,
)
    requires
        names_consistent(c),
        parse_cmd(c, items, index, facts) == Ok::<(MatchesView, int), ErrorView>((m, e)),
    ensures
        m.command_name == c.name,
        help_path(m) matches Some(p) ==> walk_path(c, p, 1) is Some,
    decreases items.len() - index,
{
    let (st, end) = cmd_scan(c, items, index, initial_scan(), facts)->Ok_0;
    lemma_scan_subcommand(c, items, index, initial_scan(), facts);
    if !m.help_requested {
        match m.subcommand {
            Some(b) => {
                assert(st.subcommand == Some(*b));
                let (j, sub) = choose|j: int, sub: CommandSpecView|
                    #![trigger parse_cmd(sub, items, j + 1, facts), lookup(c.subcommands, items[j].1)]
                    index <= j < items.len() && lookup(c.subcommands, items[j].1) == Some(sub) && (parse_cmd(sub, items, j + 1, facts)
                        matches Ok((mm, _)) && mm == st.subcommand->Some_0);
                let e2 = parse_cmd(sub, items, j + 1, facts)->Ok_0.1;
                let k = items[j].1;
                let a = choose|a: int| 0 <= a < c.subcommands.len() && c.subcommands[a].0 == k;
                lemma_subs_consistent(c.subcommands);
                assert(c.subcommands[a].1.name == c.subcommands[a].0 && names_consistent(c.subcommands[a].1));
                lemma_help_walk(sub, items, j + 1, facts, *b, e2);
                match help_path(*b) {
                    Some(q) => {
                        let p = seq![m.command_name] + q;
                        assert(help_path(m) == Some(p));
                        assert(q[0] == b.command_name) by {
                            if b.help_requested {
                            } else {
                                match b.subcommand {
                                    Some(bb) => {
                                        let q2 = help_path(*bb)->Some_0;
                                        assert(q == seq![b.command_name] + q2);
                                    },
                                    None => {},
                                }
                            }
                        }
                        assert(p[1] == k);
                        lemma_walk_shift(sub, m.command_name, q, 1);
                    },
                    None => {},
                }
            },
            None => {},
        }
    }
}

/// Law: when `--help` was given, the command path that
/// `help_command_path` reports names a command, so `render_help_for`
/// renders its help.
pub proof fn law_help_path_names_command(
    root: CommandSpecView,
    items: Seq<(int, Seq<char>)>,
    facts: Seq<(Seq<char>, RawFactView)>,
    m: MatchesView,
    e: int,
)
    requires
        names_consistent(root),
        parse_cmd(root, items, 0, facts) == Ok::<(MatchesView, int), ErrorView>((m, e)),
    ensures
        help_path(m) matches Some(p) ==> command_for_path_spec(root, p) is Some,
{
    lemma_help_walk(root, items, 0, facts, m, e);
    match help_path(m) {
        Some(p) => {
            assert(p[0] == m.command_name) by {
                if !m.help_requested {
                    let b = m.subcommand->Some_0;
                    let q = help_path(*b)->Some_0;
                    assert(p == seq![m.command_name] + q);
                }
            }
        },
        None => {},
    }
}

} // verus!

verus! {

/// Law: for a command whose subcommands are stored under their names (as
/// in every consistent resolver, see `lemma_command_names`), the help path
/// of a resolved configuration's command matches names a command, so
/// `render_help_for` renders its help.
pub proof fn law_resolved_help_path(
    r: ResolverView,
    argv: Seq<Seq<char>>,
    o: OptionsView,
    facts: Seq<(Seq<char>, RawFactView)>,
    files: Seq<(Seq<char>, FileView)>,
)
    requires
        names_consistent(r.command),
    ensures
        resolve_spec(r, argv, o, facts, files) matches Ok(v) ==> (help_path(v.matches) matches Some(p)
            ==> command_for_path_spec(r.command, p) is Some),
{
    lemma_resolve_stages(r, argv, o, facts, files);
    match resolve_spec(r, argv, o, facts, files) {
        Ok(v) => {
            let p = crate::cli::parse_argv_spec(argv, r.flag_index, r.schema)->Ok_0;
            let (m, e) = parse_cmd(r.command, p.remaining, 0, facts)->Ok_0;
            law_help_path_names_command(r.command, p.remaining, facts, m, e);
        },
        Err(_) => {},
    }
}

} // verus!

verus! {

/// What an entry below `key` contributes to the object of `key`: the rest
/// of its key and its final value.
pub open spec fn below_item(key: Seq<char>, e: (Seq<char>, Seq<RecordView>)) -> (Seq<char>, JsonData) {
    (e.0.skip(key.len() + 1int), e.1.last().value)
}

/// Two different keys below `key`, neither below the other, have rests
/// whose pieces are not prefix-related.
proof fn lemma_apart_pair(key: Seq<char>, k1: Seq<char>, k2: Seq<char>)
    requires
        is_prefix(key.push('.'), k1),
        is_prefix(key.push('.'), k2),
        k1 != k2,
        !related(k1, k2),
        !related(k2, k1),
    ensures
        !prefix_related(split_on(k1.skip(key.len() + 1int), '.'), split_on(k2.skip(key.len() + 1int), '.')),
{
    let p = key.push('.');
    let l = p.len() as int;
    let r1 = k1.skip(l);
    let r2 = k2.skip(l);
    assert(k1 =~= p + r1);
    assert(k2 =~= p + r2);
    let s1 = split_on(r1, '.');
    let s2 = split_on(r2, '.');
    if s1.len() <= s2.len() && s2.take(s1.len() as int) == s1 {
        lemma_split_prefix(r1, r2, '.');
        if is_prefix(r1.push('.'), r2) {
            assert(k1.push('.') =~= p + r1.push('.'));
            assert(k2.take(k1.push('.').len() as int) =~= k1.push('.'));
            assert(related(k2, k1));
        }
    }
    if s2.len() <= s1.len() && s1.take(s2.len() as int) == s2 {
        lemma_split_prefix(r2, r1, '.');
        if is_prefix(r2.push('.'), r1) {
            assert(k2.push('.') =~= p + r2.push('.'));
            assert(k1.take(k2.push('.').len() as int) =~= k2.push('.'));
            assert(related(k1, k2));
        }
    }
}

/// Dropping the last entry keeps the entries consistent.
proof fn lemma_wf_drop_last(s: Seq<(Seq<char>, Seq<RecordView>)>)
    requires
        entries_wf(s),
        s.len() > 0,
    ensures
        entries_wf(s.drop_last()),
{
    let t = s.drop_last();
    assert forall|i: int, j: int| 0 <= i < j < t.len() implies crate::text::seq_lt(#[trigger] t[i].0, #[trigger] t[j].0) by {
        assert(t[i] == s[i] && t[j] == s[j]);
    }
    assert forall|i: int| 0 <= i < t.len() implies (#[trigger] t[i]).1.len() > 0 by {
        assert(t[i] == s[i]);
    }
    assert forall|i: int, j: int| 0 <= i < t.len() && 0 <= j < t.len() implies !related(#[trigger] t[i].0, #[trigger] t[j].0) by {
        assert(t[i] == s[i] && t[j] == s[j]);
    }
}

/// Every item below `key` comes from an entry below `key`: the index of
/// that entry.
proof fn lemma_sub_source(s: Seq<(Seq<char>, Seq<RecordView>)>, key: Seq<char>, a: int) -> (j: int)
    requires
        0 <= a < subtree_entries(s, key).len(),
    ensures
        0 <= j < s.len(),
        is_prefix(key.push('.'), s[j].0),
        subtree_entries(s, key)[a] == below_item(key, s[j]),
    decreases s.len(),
{
    let t = s.drop_last();
    let n = s.len() - 1;
    let st = subtree_entries(t, key);
    if a < st.len() {
        if is_prefix(key.push('.'), s[n].0) {
            assert(subtree_entries(s, key)[a] == st[a]);
        } else {
            assert(subtree_entries(s, key) == st);
        }
        let j = lemma_sub_source(t, key, a);
        assert(t[j] == s[j]);
        j
    } else {
        if !is_prefix(key.push('.'), s[n].0) {
            assert(subtree_entries(s, key) == st);
        }
        assert(subtree_entries(s, key)[a] == below_item(key, s[n]));
        n
    }
}

/// Every entry below `key` gives an item below `key`.
proof fn lemma_sub_complete(s: Seq<(Seq<char>, Seq<RecordView>)>, key: Seq<char>, j: int)
    requires
        0 <= j < s.len(),
        is_prefix(key.push('.'), s[j].0),
    ensures
        exists|a: int| 0 <= a < subtree_entries(s, key).len() && #[trigger] subtree_entries(s, key)[a] == below_item(key, s[j]),
    decreases s.len(),
{
    let t = s.drop_last();
    let n = s.len() - 1;
    let st = subtree_entries(t, key);
    if j < n {
        assert(t[j] == s[j]);
        lemma_sub_complete(t, key, j);
        let a = choose|a: int| 0 <= a < st.len() && #[trigger] st[a] == below_item(key, t[j]);
        if is_prefix(key.push('.'), s[n].0) {
            assert(subtree_entries(s, key)[a] == st[a]);
        } else {
            assert(subtree_entries(s, key) == st);
        }
    } else {
        assert(subtree_entries(s, key)[st.len() as int] == below_item(key, s[n]));
    }
}

/// The items below `key` have paths that lie apart.
proof fn lemma_sub_apart(s: Seq<(Seq<char>, Seq<RecordView>)>, key: Seq<char>)
    requires
        entries_wf(s),
    ensures
        paths_apart(subtree_entries(s, key)),
    decreases s.len(),
{
    let sub = subtree_entries(s, key);
    if s.len() > 0 {
        let t = s.drop_last();
        let n = s.len() - 1;
        lemma_wf_drop_last(s);
        lemma_sub_apart(t, key);
        let st = subtree_entries(t, key);
        if is_prefix(key.push('.'), s[n].0) {
            crate::keyed::lemma_sorted_distinct(s);
            assert forall|a: int, b: int| 0 <= a < sub.len() && 0 <= b < sub.len() && a != b implies !prefix_related(
                split_on(#[trigger] sub[a].0, '.'),
                split_on(#[trigger] sub[b].0, '.'),
            ) by {
                if a < st.len() && b < st.len() {
                    assert(sub[a] == st[a] && sub[b] == st[b]);
                } else {
                    let other = if a < st.len() { a } else { b };
                    assert(sub[other] == st[other]);
                    let j = lemma_sub_source(t, key, other);
                    assert(t[j] == s[j]);
                    assert(s[j].0 != s[n].0);
                    assert(!related(s[j].0, s[n].0) && !related(s[n].0, s[j].0));
                    lemma_apart_pair(key, s[j].0, s[n].0);
                }
            }
        }
    }
}

/// Law: asking for a key that has no value of its own gives, when keys lie
/// below it, an object in which each of them sits at the rest of its
/// dotted key with its final value; so merging is by key, and a parent key
/// reads as the subtree of its children.
pub proof fn law_get_subtree(s: Seq<(Seq<char>, Seq<RecordView>)>, key: Seq<char>, i: int)
    requires
        entries_wf(s),
        first_lookup(s, key) is None,
        0 <= i < s.len(),
        is_prefix(key.push('.'), s[i].0),
    ensures
        get_spec(s, key) matches Some(d) && navigate(d, split_on(s[i].0.skip(key.len() + 1int), '.')) == Some(
            s[i].1.last().value,
        ),
{
    lemma_sub_complete(s, key, i);
    lemma_sub_apart(s, key);
    let sub = subtree_entries(s, key);
    let a = choose|a: int| 0 <= a < sub.len() && #[trigger] sub[a] == below_item(key, s[i]);
    lemma_build_tree_navigate(sub, a);
}

/// Law: a key with a value of its own reads as its final value.
pub proof fn law_get_leaf(s: Seq<(Seq<char>, Seq<RecordView>)>, key: Seq<char>, i: int)
    requires
        entries_wf(s),
        0 <= i < s.len(),
        s[i].0 == key,
    ensures
        get_spec(s, key) == Some(s[i].1.last().value),
{
    crate::keyed::lemma_sorted_lookup_at(s, i);
    crate::keyed::lemma_sorted_lookup_first(s, key);
}

} // verus!

verus! {

/// A document that TOML holds unchanged: no null anywhere, integers within
/// the range of `i64` (negative ones stored as negative), finite floats, and
/// objects whose keys are in order without repeats, as the library keeps
/// them.
pub open spec fn toml_ready(d: JsonData) -> bool
    decreases d,
{
    match d {
        JsonData::Null => false,
        JsonData::Bool(_) => true,
        JsonData::Number(n) => match n {
            NumberData::PosInt(u) => u <= i64::MAX,
            NumberData::NegInt(i) => i < 0,
            NumberData::Float(b, _) => is_finite_bits(b),
        },
        JsonData::Str(_) => true,
        JsonData::Array(items) => forall|i: int| 0 <= i < items.len() ==> toml_ready(#[trigger] items[i]),
        JsonData::Object(members) => sorted_model(members) && forall|i: int|
            0 <= i < members.len() ==> toml_ready(#[trigger] members[i].1),
    }
}

/// Items that all convert convert one by one, in order.
proof fn lemma_items_to_toml_ok(items: Seq<JsonData>)
    requires
        forall|i: int| 0 <= i < items.len() ==> json_to_toml_spec(#[trigger] items[i]) is Ok,
    ensures
        json_items_to_toml(items) == Ok::<Seq<TomlData>, ErrorView>(
            Seq::new(items.len(), |i: int| json_to_toml_spec(items[i])->Ok_0),
        ),
    decreases items.len(),
{
    if items.len() > 0 {
        let t = items.drop_last();
        assert forall|i: int| 0 <= i < t.len() implies json_to_toml_spec(#[trigger] t[i]) is Ok by {
            assert(t[i] == items[i]);
        }
        lemma_items_to_toml_ok(t);
        assert(json_to_toml_spec(items.last()) is Ok);
        assert(Seq::new(t.len(), |i: int| json_to_toml_spec(t[i])->Ok_0).push(json_to_toml_spec(items.last())->Ok_0)
            =~= Seq::new(items.len(), |i: int| json_to_toml_spec(items[i])->Ok_0));
    } else {
        assert(Seq::new(items.len(), |i: int| json_to_toml_spec(items[i])->Ok_0) =~= Seq::<TomlData>::empty());
    }
}

/// TOML items that all convert convert one by one, in order.
proof fn lemma_items_to_json_ok(ts: Seq<TomlData>)
    requires
        forall|i: int| 0 <= i < ts.len() ==> toml_to_json_spec(#[trigger] ts[i]) is Ok,
    ensures
        toml_items_to_json(ts) == Ok::<Seq<JsonData>, ErrorView>(
            Seq::new(ts.len(), |i: int| toml_to_json_spec(ts[i])->Ok_0),
        ),
    decreases ts.len(),
{
    if ts.len() > 0 {
        let t = ts.drop_first();
        assert forall|i: int| 0 <= i < t.len() implies toml_to_json_spec(#[trigger] t[i]) is Ok by {
            assert(t[i] == ts[i + 1]);
        }
        lemma_items_to_json_ok(t);
        assert(toml_to_json_spec(ts[0]) is Ok);
        assert(seq![toml_to_json_spec(ts[0])->Ok_0] + Seq::new(t.len(), |i: int| toml_to_json_spec(t[i])->Ok_0)
            =~= Seq::new(ts.len(), |i: int| toml_to_json_spec(ts[i])->Ok_0));
    } else {
        assert(Seq::new(ts.len(), |i: int| toml_to_json_spec(ts[i])->Ok_0) =~= Seq::<JsonData>::empty());
    }
}

/// Ordered members that all convert give a table with the same keys, in
/// the same order.
proof fn lemma_members_to_toml_ok(members: Seq<(Seq<char>, JsonData)>)
    requires
        sorted_model(members),
        forall|i: int| 0 <= i < members.len() ==> json_to_toml_spec(#[trigger] members[i].1) is Ok,
    ensures
        json_members_to_toml(members) == Ok::<Seq<(Seq<char>, TomlData)>, ErrorView>(
            Seq::new(members.len(), |i: int| (members[i].0, json_to_toml_spec(members[i].1)->Ok_0)),
        ),
    decreases members.len(),
{
    if members.len() > 0 {
        let t = members.drop_last();
        let n = members.len() - 1;
        assert forall|i: int| 0 <= i < t.len() implies json_to_toml_spec(#[trigger] t[i].1) is Ok by {
            assert(t[i] == members[i]);
        }
        assert forall|i: int, j: int| 0 <= i < j < t.len() implies seq_lt(#[trigger] t[i].0, #[trigger] t[j].0) by {
            assert(t[i] == members[i] && t[j] == members[j]);
        }
        lemma_members_to_toml_ok(t);
        let acc = Seq::new(t.len(), |i: int| (t[i].0, json_to_toml_spec(t[i].1)->Ok_0));
        assert forall|j: int| 0 <= j < acc.len() implies seq_lt(#[trigger] acc[j].0, members[n].0) by {
            assert(acc[j].0 == members[j].0);
        }
        assert(json_to_toml_spec(members[n].1) is Ok);
        lemma_put_append(acc, members[n].0, json_to_toml_spec(members[n].1)->Ok_0);
        assert(acc.push((members[n].0, json_to_toml_spec(members[n].1)->Ok_0))
            =~= Seq::new(members.len(), |i: int| (members[i].0, json_to_toml_spec(members[i].1)->Ok_0)));
    } else {
        assert(Seq::new(members.len(), |i: int| (members[i].0, json_to_toml_spec(members[i].1)->Ok_0))
            =~= Seq::<(Seq<char>, TomlData)>::empty());
    }
}

/// Ordered table entries, all of which convert, put after smaller keys,
/// are appended one by one, in order.
proof fn lemma_table_to_json_ok(entries: Seq<(Seq<char>, TomlData)>, acc: Seq<(Seq<char>, JsonData)>)
    requires
        sorted_model(entries),
        forall|a: int, b: int| 0 <= a < acc.len() && 0 <= b < entries.len() ==> seq_lt(#[trigger] acc[a].0, #[trigger] entries[b].0),
        forall|i: int| 0 <= i < entries.len() ==> toml_to_json_spec(#[trigger] entries[i].1) is Ok,
    ensures
        toml_table_to_json(entries, acc) == Ok::<Seq<(Seq<char>, JsonData)>, ErrorView>(
            acc + Seq::new(entries.len(), |i: int| (entries[i].0, toml_to_json_spec(entries[i].1)->Ok_0)),
        ),
    decreases entries.len(),
{
    if entries.len() > 0 {
        let e = entries[0];
        let rest = entries.drop_first();
        assert(toml_to_json_spec(e.1) is Ok);
        let v = toml_to_json_spec(e.1)->Ok_0;
        assert forall|j: int| 0 <= j < acc.len() implies seq_lt(#[trigger] acc[j].0, e.0) by {
            assert(seq_lt(acc[j].0, entries[0].0));
        }
        lemma_put_append(acc, e.0, v);
        let acc2 = acc.push((e.0, v));
        assert forall|i: int| 0 <= i < rest.len() implies toml_to_json_spec(#[trigger] rest[i].1) is Ok by {
            assert(rest[i] == entries[i + 1]);
        }
        assert forall|i: int, j: int| 0 <= i < j < rest.len() implies seq_lt(#[trigger] rest[i].0, #[trigger] rest[j].0) by {
            assert(rest[i] == entries[i + 1] && rest[j] == entries[j + 1]);
        }
        assert forall|a: int, b: int| 0 <= a < acc2.len() && 0 <= b < rest.len() implies seq_lt(
            #[trigger] acc2[a].0,
            #[trigger] rest[b].0,
        ) by {
            assert(rest[b] == entries[b + 1]);
            if a < acc.len() {
                assert(seq_lt(acc[a].0, entries[b + 1].0));
            } else {
                assert(seq_lt(entries[0].0, entries[b + 1].0));
            }
        }
        lemma_table_to_json_ok(rest, acc2);
        assert(acc2 + Seq::new(rest.len(), |i: int| (rest[i].0, toml_to_json_spec(rest[i].1)->Ok_0))
            =~= acc + Seq::new(entries.len(), |i: int| (entries[i].0, toml_to_json_spec(entries[i].1)->Ok_0)));
    } else {
        assert(acc + Seq::new(entries.len(), |i: int| (entries[i].0, toml_to_json_spec(entries[i].1)->Ok_0)) =~= acc);
    }
}

/// Law: a document that TOML can hold converts to TOML, and reading that
/// TOML back gives the same document; so what `emit_toml` and
/// `emit_default_config` write loads back as the values they were given.
pub proof fn law_toml_round_trip(d: JsonData)
    requires
        toml_ready(d),
    ensures
        json_to_toml_spec(d) is Ok,
        toml_to_json_spec(json_to_toml_spec(d)->Ok_0) == Ok::<JsonData, ErrorView>(d),
    decreases d,
{
    match d {
        JsonData::Array(items) => {
            assert forall|i: int| 0 <= i < items.len() implies json_to_toml_spec(#[trigger] items[i]) is Ok
                && toml_to_json_spec(json_to_toml_spec(items[i])->Ok_0) == Ok::<JsonData, ErrorView>(items[i]) by {
                law_toml_round_trip(items[i]);
            }
            lemma_items_to_toml_ok(items);
            let ts = Seq::new(items.len(), |i: int| json_to_toml_spec(items[i])->Ok_0);
            assert forall|i: int| 0 <= i < ts.len() implies toml_to_json_spec(#[trigger] ts[i]) is Ok by {
                assert(ts[i] == json_to_toml_spec(items[i])->Ok_0);
            }
            lemma_items_to_json_ok(ts);
            assert(Seq::new(ts.len(), |i: int| toml_to_json_spec(ts[i])->Ok_0) =~= items);
        },
        JsonData::Object(members) => {
            assert forall|i: int| 0 <= i < members.len() implies json_to_toml_spec(#[trigger] members[i].1) is Ok
                && toml_to_json_spec(json_to_toml_spec(members[i].1)->Ok_0) == Ok::<JsonData, ErrorView>(members[i].1) by {
                law_toml_round_trip(members[i].1);
            }
            lemma_members_to_toml_ok(members);
            let es = Seq::new(members.len(), |i: int| (members[i].0, json_to_toml_spec(members[i].1)->Ok_0));
            assert forall|i: int| 0 <= i < es.len() implies toml_to_json_spec(#[trigger] es[i].1) is Ok by {
                assert(es[i].1 == json_to_toml_spec(members[i].1)->Ok_0);
            }
            assert forall|i: int, j: int| 0 <= i < j < es.len() implies seq_lt(#[trigger] es[i].0, #[trigger] es[j].0) by {
                assert(seq_lt(members[i].0, members[j].0));
            }
            lemma_table_to_json_ok(es, Seq::empty());
            assert(Seq::<(Seq<char>, JsonData)>::empty() + Seq::new(es.len(), |i: int| (es[i].0, toml_to_json_spec(es[i].1)->Ok_0))
                =~= members);
        },
        _ => {},
    }
}

} // verus!

verus! {

/// Every float in `d` is finite.
pub open spec fn floats_finite(d: JsonData) -> bool
    decreases d,
{
    match d {
        JsonData::Number(NumberData::Float(b, _)) => is_finite_bits(b),
        JsonData::Array(items) => forall|i: int| 0 <= i < items.len() ==> floats_finite(#[trigger] items[i]),
        JsonData::Object(members) => forall|i: int| 0 <= i < members.len() ==> floats_finite(#[trigger] members[i].1),
        _ => true,
    }
}

/// A TOML value that converts gives only finite floats.
proof fn lemma_toml_json_finite(t: TomlData)
    ensures
        toml_to_json_spec(t) matches Ok(d) ==> floats_finite(d),
    decreases t, 1nat,
{
    match t {
        TomlData::Array(items) => {
            lemma_toml_items_finite(items);
        },
        TomlData::Table(entries) => {
            lemma_toml_table_finite(entries, Seq::empty());
        },
        _ => {},
    }
}

proof fn lemma_toml_items_finite(items: Seq<TomlData>)
    ensures
        toml_items_to_json(items) matches Ok(v) ==> forall|i: int| 0 <= i < v.len() ==> floats_finite(#[trigger] v[i]),
    decreases items, 0nat,
{
    if items.len() > 0 {
        lemma_toml_json_finite(items[0]);
        lemma_toml_items_finite(items.drop_first());
        match toml_items_to_json(items) {
            Ok(v) => {
                let h = toml_to_json_spec(items[0])->Ok_0;
                let rest = toml_items_to_json(items.drop_first())->Ok_0;
                assert(v == seq![h] + rest);
                assert forall|i: int| 0 <= i < v.len() implies floats_finite(#[trigger] v[i]) by {
                    if i > 0 {
                        assert(v[i] == rest[i - 1]);
                    }
                }
            },
            Err(_) => {},
        }
    }
}

proof fn lemma_toml_table_finite(entries: Seq<(Seq<char>, TomlData)>, acc: Seq<(Seq<char>, JsonData)>)
    requires
        forall|i: int| 0 <= i < acc.len() ==> floats_finite(#[trigger] acc[i].1),
    ensures
        toml_table_to_json(entries, acc) matches Ok(m) ==> forall|i: int| 0 <= i < m.len() ==> floats_finite(#[trigger] m[i].1),
    decreases entries, 0nat,
{
    if entries.len() > 0 {
        lemma_toml_json_finite(entries[0].1);
        match toml_to_json_spec(entries[0].1) {
            Ok(v) => {
                let acc2 = put(acc, entries[0].0, v);
                crate::keyed::lemma_put_elements(acc, entries[0].0, v);
                assert forall|i: int| 0 <= i < acc2.len() implies floats_finite(#[trigger] acc2[i].1) by {
                    if acc2[i] != (entries[0].0, v) {
                        let j = choose|j: int| 0 <= j < acc.len() && acc2[i] == #[trigger] acc[j];
                        assert(floats_finite(acc[j].1));
                    }
                }
                lemma_toml_table_finite(entries.drop_first(), acc2);
            },
            Err(_) => {},
        }
    }
}

/// Law: whatever facts are recorded, every float that the library reads
/// from a raw string is finite: an untyped reading holds only finite
/// floats, and so does every value that a typed reading accepts.
pub proof fn law_readings_finite(key: Seq<char>, t: ValueType, raw: Seq<char>, facts: Seq<(Seq<char>, RawFactView)>)
    ensures
        floats_finite(untyped_value(raw, facts)),
        typed_value(key, t, raw, facts) matches Ok(d) ==> floats_finite(d),
{
    match crate::formats::toml_expression_reading(raw) {
        Some(tv) => lemma_toml_json_finite(tv),
        None => {},
    }
}

} // verus!

verus! {

/// A TOML value that JSON holds unchanged: no date-time anywhere (JSON
/// reads one as a string), finite floats, and tables whose keys are in
/// order without repeats.
pub open spec fn json_ready(t: TomlData) -> bool
    decreases t,
{
    match t {
        TomlData::Datetime(_) => false,
        TomlData::Float(b, _) => is_finite_bits(b),
        TomlData::Array(items) => forall|i: int| 0 <= i < items.len() ==> json_ready(#[trigger] items[i]),
        TomlData::Table(entries) => sorted_model(entries) && forall|i: int|
            0 <= i < entries.len() ==> json_ready(#[trigger] entries[i].1),
        _ => true,
    }
}

/// Law: a TOML value that JSON can hold converts to JSON, and converting
/// that back to TOML gives the same value.
pub proof fn law_json_round_trip(t: TomlData)
    requires
        json_ready(t),
    ensures
        toml_to_json_spec(t) is Ok,
        json_to_toml_spec(toml_to_json_spec(t)->Ok_0) == Ok::<TomlData, ErrorView>(t),
    decreases t,
{
    match t {
        TomlData::Array(items) => {
            assert forall|i: int| 0 <= i < items.len() implies toml_to_json_spec(#[trigger] items[i]) is Ok
                && json_to_toml_spec(toml_to_json_spec(items[i])->Ok_0) == Ok::<TomlData, ErrorView>(items[i]) by {
                law_json_round_trip(items[i]);
            }
            lemma_items_to_json_ok(items);
            let js = Seq::new(items.len(), |i: int| toml_to_json_spec(items[i])->Ok_0);
            assert forall|i: int| 0 <= i < js.len() implies json_to_toml_spec(#[trigger] js[i]) is Ok by {
                assert(js[i] == toml_to_json_spec(items[i])->Ok_0);
            }
            lemma_items_to_toml_ok(js);
            assert(Seq::new(js.len(), |i: int| json_to_toml_spec(js[i])->Ok_0) =~= items);
        },
        TomlData::Table(entries) => {
            assert forall|i: int| 0 <= i < entries.len() implies toml_to_json_spec(#[trigger] entries[i].1) is Ok
                && json_to_toml_spec(toml_to_json_spec(entries[i].1)->Ok_0) == Ok::<TomlData, ErrorView>(entries[i].1) by {
                law_json_round_trip(entries[i].1);
            }
            lemma_table_to_json_ok(entries, Seq::empty());
            let ms = Seq::new(entries.len(), |i: int| (entries[i].0, toml_to_json_spec(entries[i].1)->Ok_0));
            assert(Seq::<(Seq<char>, JsonData)>::empty() + ms =~= ms);
            assert forall|i: int| 0 <= i < ms.len() implies json_to_toml_spec(#[trigger] ms[i].1) is Ok by {
                assert(ms[i].1 == toml_to_json_spec(entries[i].1)->Ok_0);
            }
            assert forall|i: int, j: int| 0 <= i < j < ms.len() implies seq_lt(#[trigger] ms[i].0, #[trigger] ms[j].0) by {
                assert(seq_lt(entries[i].0, entries[j].0));
            }
            lemma_members_to_toml_ok(ms);
            assert(Seq::new(ms.len(), |i: int| (ms[i].0, json_to_toml_spec(ms[i].1)->Ok_0)) =~= entries);
        },
        _ => {},
    }
}

} // verus!

verus! {

/// Every float in `t` is finite.
pub open spec fn toml_floats_finite(t: TomlData) -> bool
    decreases t,
{
    match t {
        TomlData::Float(b, _) => is_finite_bits(b),
        TomlData::Array(items) => forall|i: int| 0 <= i < items.len() ==> toml_floats_finite(#[trigger] items[i]),
        TomlData::Table(entries) => forall|i: int| 0 <= i < entries.len() ==> toml_floats_finite(#[trigger] entries[i].1),
        _ => true,
    }
}

proof fn lemma_items_ok_iff(items: Seq<TomlData>)
    ensures
        toml_items_to_json(items) is Ok <==> forall|i: int| 0 <= i < items.len() ==> toml_floats_finite(#[trigger] items[i]),
    decreases items, 0nat,
{
    if items.len() > 0 {
        law_toml_to_json_fails(items[0]);
        let rest = items.drop_first();
        lemma_items_ok_iff(rest);
        if forall|i: int| 0 <= i < items.len() ==> toml_floats_finite(#[trigger] items[i]) {
            assert forall|i: int| 0 <= i < rest.len() implies toml_floats_finite(#[trigger] rest[i]) by {
                assert(rest[i] == items[i + 1]);
            }
        } else {
            let i = choose|i: int| 0 <= i < items.len() && !toml_floats_finite(#[trigger] items[i]);
            if i > 0 {
                assert(rest[i - 1] == items[i]);
            }
        }
    }
}

proof fn lemma_table_ok_iff(entries: Seq<(Seq<char>, TomlData)>, acc: Seq<(Seq<char>, JsonData)>)
    ensures
        toml_table_to_json(entries, acc) is Ok <==> forall|i: int|
            0 <= i < entries.len() ==> toml_floats_finite(#[trigger] entries[i].1),
    decreases entries, 0nat,
{
    if entries.len() > 0 {
        law_toml_to_json_fails(entries[0].1);
        let rest = entries.drop_first();
        match toml_to_json_spec(entries[0].1) {
            Ok(v) => lemma_table_ok_iff(rest, put(acc, entries[0].0, v)),
            Err(_) => {},
        }
        if forall|i: int| 0 <= i < entries.len() ==> toml_floats_finite(#[trigger] entries[i].1) {
            assert forall|i: int| 0 <= i < rest.len() implies toml_floats_finite(#[trigger] rest[i].1) by {
                assert(rest[i] == entries[i + 1]);
            }
        } else {
            let i = choose|i: int| 0 <= i < entries.len() && !toml_floats_finite(#[trigger] entries[i].1);
            if i > 0 {
                assert(rest[i - 1] == entries[i]);
            }
        }
    }
}

/// Law: converting a TOML value to JSON fails exactly when the value holds
/// a float that is not finite (an infinity or a NaN), anywhere inside it.
pub proof fn law_toml_to_json_fails(t: TomlData)
    ensures
        toml_to_json_spec(t) is Err <==> !toml_floats_finite(t),
    decreases t, 1nat,
{
    match t {
        TomlData::Array(items) => lemma_items_ok_iff(items),
        TomlData::Table(entries) => lemma_table_ok_iff(entries, Seq::empty()),
        _ => {},
    }
}

} // verus!

verus! {

/// `r` is what follows some `=` in `a`.
pub open spec fn is_eq_suffix(a: Seq<char>, r: Seq<char>) -> bool {
    exists|k: int| 0 <= k < a.len() && #[trigger] a[k] == '=' && r == a.skip(k + 1)
}

proof fn lemma_first_exists(s: Seq<char>, c: char, i: int)
    requires
        0 <= i < s.len(),
        s[i] == c,
    ensures
        exists|m: int| 0 <= m < s.len() && s[m] == c && forall|j: int| 0 <= j < m ==> s[j] != c,
    decreases i,
{
    if exists|j: int| 0 <= j < i && s[j] == c {
        let j = choose|j: int| 0 <= j < i && s[j] == c;
        lemma_first_exists(s, c, j);
    } else {
        assert(forall|j: int| 0 <= j < i ==> s[j] != c);
    }
}

/// The inline value of `name=value` is what follows an `=`.
proof fn lemma_split_suffix(s: Seq<char>)
    ensures
        split_flag_spec(s).1 matches Some(v) ==> is_eq_suffix(s, v),
{
    if exists|i: int| 0 <= i < s.len() && s[i] == '=' {
        let i = choose|i: int| 0 <= i < s.len() && s[i] == '=';
        lemma_first_exists(s, '=', i);
        let m = first_index_of(s, '=')->Some_0;
        assert(0 <= m < s.len() && s[m] == '=');
    }
}

/// What follows an `=` after the first two characters follows an `=` of
/// the whole.
proof fn lemma_skip2_suffix(a: Seq<char>, r: Seq<char>)
    requires
        a.len() >= 2,
        is_eq_suffix(a.skip(2), r),
    ensures
        is_eq_suffix(a, r),
{
    let b = a.skip(2);
    let k = choose|k: int| 0 <= k < b.len() && #[trigger] b[k] == '=' && r == b.skip(k + 1);
    assert(a[k + 2] == b[k]);
    assert(b.skip(k + 1) =~= a.skip(k + 3));
}

/// What follows an `=` of what follows an `=` follows an `=`.
proof fn lemma_suffix_trans(a: Seq<char>, v: Seq<char>, r: Seq<char>)
    requires
        is_eq_suffix(a, v),
        is_eq_suffix(v, r),
    ensures
        is_eq_suffix(a, r),
{
    let k = choose|k: int| 0 <= k < a.len() && #[trigger] a[k] == '=' && v == a.skip(k + 1);
    let m = choose|m: int| 0 <= m < v.len() && #[trigger] v[m] == '=' && r == v.skip(m + 1);
    assert(a[k + 1 + m] == v[m]);
    assert(v.skip(m + 1) =~= a.skip(k + 1 + m + 1));
}

proof fn lemma_eq_suffixes_has(a: Seq<char>, j: int, k: int) -> (m: int)
    requires
        0 <= j <= k < a.len(),
        a[k] == '=',
    ensures
        0 <= m < eq_suffixes_from(a, j).len(),
        eq_suffixes_from(a, j)[m] == a.skip(k + 1),
    decreases k - j,
{
    let head: Seq<Seq<char>> = if a[j] == '=' { seq![a.skip(j + 1)] } else { Seq::empty() };
    assert(eq_suffixes_from(a, j) == head + eq_suffixes_from(a, j + 1));
    if j == k {
        0
    } else {
        let m2 = lemma_eq_suffixes_has(a, j + 1, k);
        head.len() + m2
    }
}

/// Every argument, and what follows each `=` in it, is among `argv_raws`.
proof fn lemma_argv_raws_has(argv: Seq<Seq<char>>, i: int, r: Seq<char>) -> (m: int)
    requires
        0 <= i < argv.len(),
        r == argv[i] || is_eq_suffix(argv[i], r),
    ensures
        0 <= m < argv_raws(argv).len(),
        argv_raws(argv)[m] == r,
    decreases argv.len(),
{
    let n = argv.len() - 1;
    let p = argv_raws(argv.drop_last());
    let a = argv.last();
    assert(argv_raws(argv) == p + seq![a] + eq_suffixes_from(a, 0));
    if i < n {
        assert(argv.drop_last()[i] == argv[i]);
        lemma_argv_raws_has(argv.drop_last(), i, r)
    } else if r == a {
        p.len() as int
    } else {
        let k = choose|k: int| 0 <= k < a.len() && #[trigger] a[k] == '=' && r == a.skip(k + 1);
        let m2 = lemma_eq_suffixes_has(a, 0, k);
        p.len() + 1 + m2
    }
}

} // verus!

verus! {

/// The two fact tables record the same for `r`.
pub open spec fn same_fact(f1: Seq<(Seq<char>, RawFactView)>, f2: Seq<(Seq<char>, RawFactView)>, r: Seq<char>) -> bool {
    fact_of(f1, r) == fact_of(f2, r)
}

/// The tables agree on `s` and on what follows each `=` in it.
pub open spec fn piece_ok(f1: Seq<(Seq<char>, RawFactView)>, f2: Seq<(Seq<char>, RawFactView)>, s: Seq<char>) -> bool {
    &&& same_fact(f1, f2, s)
    &&& forall|r: Seq<char>| #[trigger] is_eq_suffix(s, r) ==> same_fact(f1, f2, r)
}

/// The tables agree on every argument of `items` and what follows its `=`s.
pub open spec fn items_ok(f1: Seq<(Seq<char>, RawFactView)>, f2: Seq<(Seq<char>, RawFactView)>, items: Seq<(int, Seq<char>)>) -> bool {
    forall|j: int| 0 <= j < items.len() ==> piece_ok(f1, f2, #[trigger] items[j].1)
}

/// The tables agree on every recorded option value.
pub open spec fn occ_ok(f1: Seq<(Seq<char>, RawFactView)>, f2: Seq<(Seq<char>, RawFactView)>, occ: Seq<(Seq<char>, Seq<char>)>) -> bool {
    forall|k: int| 0 <= k < occ.len() ==> same_fact(f1, f2, #[trigger] occ[k].1)
}

proof fn lemma_typed_frame(
    key: Seq<char>,
    t: ValueType,
    raw: Seq<char>,
    f1: Seq<(Seq<char>, RawFactView)>,
    f2: Seq<(Seq<char>, RawFactView)>,
)
    requires
        same_fact(f1, f2, raw),
    ensures
        typed_value(key, t, raw, f1) == typed_value(key, t, raw, f2),
        untyped_value(raw, f1) == untyped_value(raw, f2),
{
}

proof fn lemma_typed_values_frame(
    key: Seq<char>,
    t: ValueType,
    raws: Seq<Seq<char>>,
    i: int,
    acc: Seq<JsonData>,
    f1: Seq<(Seq<char>, RawFactView)>,
    f2: Seq<(Seq<char>, RawFactView)>,
)
    requires
        forall|j: int| 0 <= j < raws.len() ==> same_fact(f1, f2, #[trigger] raws[j]),
    ensures
        crate::matching::typed_values_from(key, t, raws, i, acc, f1) == crate::matching::typed_values_from(key, t, raws, i, acc, f2),
    decreases raws.len() - i,
{
    if 0 <= i < raws.len() {
        lemma_typed_frame(key, t, raws[i], f1, f2);
        match typed_value(key, t, raws[i], f1) {
            Ok(v) => lemma_typed_values_frame(key, t, raws, i + 1, acc.push(v), f1, f2),
            Err(_) => {},
        }
    }
}

proof fn lemma_values_named_ok(occ: Seq<(Seq<char>, Seq<char>)>, name: Seq<char>, f1: Seq<(Seq<char>, RawFactView)>, f2: Seq<(Seq<char>, RawFactView)>)
    requires
        occ_ok(f1, f2, occ),
    ensures
        forall|j: int| 0 <= j < crate::matching::values_named(occ, name).len() ==> same_fact(f1, f2, #[trigger] crate::matching::values_named(occ, name)[j]),
    decreases occ.len(),
{
    if occ.len() > 0 {
        let t = occ.drop_last();
        assert forall|k: int| 0 <= k < t.len() implies same_fact(f1, f2, #[trigger] t[k].1) by {
            assert(t[k] == occ[k]);
        }
        lemma_values_named_ok(t, name, f1, f2);
        let p = crate::matching::values_named(t, name);
        let v = crate::matching::values_named(occ, name);
        assert forall|j: int| 0 <= j < v.len() implies same_fact(f1, f2, #[trigger] v[j]) by {
            if j < p.len() {
                assert(v[j] == p[j]);
            } else {
                assert(v[j] == occ.last().1);
                assert(same_fact(f1, f2, occ[occ.len() - 1].1));
            }
        }
    }
}

proof fn lemma_assemble_frame(
    command: Seq<char>,
    opts: Seq<(Seq<char>, crate::specs::CliOptionSpecView)>,
    i: int,
    occ: Seq<(Seq<char>, Seq<char>)>,
    acc: Seq<(Seq<char>, JsonData)>,
    f1: Seq<(Seq<char>, RawFactView)>,
    f2: Seq<(Seq<char>, RawFactView)>,
)
    requires
        occ_ok(f1, f2, occ),
    ensures
        crate::matching::assemble_options_from(command, opts, i, occ, f1, acc) == crate::matching::assemble_options_from(
            command,
            opts,
            i,
            occ,
            f2,
            acc,
        ),
    decreases opts.len() - i,
{
    if 0 <= i < opts.len() {
        let o = opts[i].1;
        let raws = crate::matching::values_named(occ, o.name);
        lemma_values_named_ok(occ, o.name, f1, f2);
        lemma_typed_values_frame(o.name, crate::matching::element_or_self(o.value_type), raws, 0, Seq::empty(), f1, f2);
        if raws.len() > 0 {
            lemma_typed_frame(o.name, o.value_type, raws.last(), f1, f2);
        }
        assert(crate::matching::option_value_step(command, o, occ, f1, acc) == crate::matching::option_value_step(command, o, occ, f2, acc));
        match crate::matching::option_value_step(command, o, occ, f1, acc) {
            Ok(acc2) => lemma_assemble_frame(command, opts, i + 1, occ, acc2, f1, f2),
            Err(_) => {},
        }
    }
}

/// The value that a declared flag takes is one the tables agree on.
proof fn lemma_flag_value_ok(
    t: ValueType,
    repeats: bool,
    cur: Seq<char>,
    items: Seq<(int, Seq<char>)>,
    index: int,
    name: Seq<char>,
    f1: Seq<(Seq<char>, RawFactView)>,
    f2: Seq<(Seq<char>, RawFactView)>,
)
    requires
        items_ok(f1, f2, items),
        same_fact(f1, f2, "true"@),
        0 <= index < items.len(),
        cur == items[index].1,
        is_double_dash(cur),
    ensures
        flag_value_spec(t, repeats, split_flag_spec(cur.skip(2)).1, items, index, name) matches Ok((v, _)) ==> same_fact(f1, f2, v),
        inline_or_next_spec(split_flag_spec(cur.skip(2)).1, items, index, name) matches Ok((v, _)) ==> is_eq_suffix(cur, v) || (
        index + 1 < items.len() && v == items[index + 1].1),
{
    lemma_split_suffix(cur.skip(2));
    assert(piece_ok(f1, f2, items[index].1));
    match split_flag_spec(cur.skip(2)).1 {
        Some(v) => {
            lemma_skip2_suffix(cur, v);
        },
        None => {
            if index + 1 < items.len() {
                assert(piece_ok(f1, f2, items[index + 1].1));
            }
        },
    }
}

proof fn lemma_scan_frame(
    c: CommandSpecView,
    items: Seq<(int, Seq<char>)>,
    index: int,
    st: crate::matching::ScanView,
    f1: Seq<(Seq<char>, RawFactView)>,
    f2: Seq<(Seq<char>, RawFactView)>,
)
    requires
        items_ok(f1, f2, items),
        same_fact(f1, f2, "true"@),
        occ_ok(f1, f2, st.occurrences),
    ensures
        cmd_scan(c, items, index, st, f1) == cmd_scan(c, items, index, st, f2),
        cmd_scan(c, items, index, st, f1) matches Ok((s2, _)) ==> occ_ok(f1, f2, s2.occurrences),
    decreases items.len() - index, 0nat,
{
    if 0 <= index < items.len() {
        let cur = items[index].1;
        assert(piece_ok(f1, f2, items[index].1));
        if !st.stop && cur == "--"@ {
            lemma_scan_frame(c, items, index + 1, crate::matching::ScanView { stop: true, ..st }, f1, f2);
        } else if !st.stop && cur == "--help"@ {
            lemma_scan_frame(c, items, index + 1, crate::matching::ScanView { help: true, ..st }, f1, f2);
        } else if !st.stop && is_double_dash(cur) {
            let (flag, inline) = split_flag_spec(cur.skip(2));
            match option_for_flag_spec(c, flag) {
                None => {},
                Some(o) => {
                    lemma_flag_value_ok(o.value_type, o.repeated, cur, items, index, "--"@ + flag, f1, f2);
                    match flag_value_spec(o.value_type, o.repeated, inline, items, index, "--"@ + flag) {
                        Err(_) => {},
                        Ok((v, consumed)) => {
                            if after(index, consumed) > index {
                                let st2 = crate::matching::ScanView { occurrences: st.occurrences.push((o.name, v)), ..st };
                                assert forall|k: int| 0 <= k < st2.occurrences.len() implies same_fact(f1, f2, #[trigger] st2.occurrences[k].1) by {
                                    if k < st.occurrences.len() {
                                        assert(st2.occurrences[k] == st.occurrences[k]);
                                    }
                                }
                                lemma_scan_frame(c, items, after(index, consumed), st2, f1, f2);
                            }
                        },
                    }
                },
            }
        } else {
            match lookup(c.subcommands, cur) {
                Some(sub) => {
                    lemma_parse_frame(sub, items, index + 1, f1, f2);
                },
                None => {
                    if 0 <= st.positional_index < c.positionals.len() {
                        let p = c.positionals[st.positional_index];
                        lemma_typed_frame(p.name, p.value_type, cur, f1, f2);
                        match typed_value(p.name, p.value_type, cur, f1) {
                            Err(_) => {},
                            Ok(v) => {
                                lemma_scan_frame(
                                    c,
                                    items,
                                    index + 1,
                                    crate::matching::ScanView {
                                        positional_values: st.positional_values.push((p.name, v)),
                                        positional_index: if p.multiple {
                                            st.positional_index
                                        } else {
                                            st.positional_index + 1
                                        },
                                        ..st
                                    },
                                    f1,
                                    f2,
                                );
                            },
                        }
                    }
                },
            }
        }
    }
}

proof fn lemma_parse_frame(
    c: CommandSpecView,
    items: Seq<(int, Seq<char>)>,
    index: int,
    f1: Seq<(Seq<char>, RawFactView)>,
    f2: Seq<(Seq<char>, RawFactView)>,
)
    requires
        items_ok(f1, f2, items),
        same_fact(f1, f2, "true"@),
    ensures
        parse_cmd(c, items, index, f1) == parse_cmd(c, items, index, f2),
    decreases items.len() - index, 1nat,
{
    lemma_scan_frame(c, items, index, initial_scan(), f1, f2);
    match cmd_scan(c, items, index, initial_scan(), f1) {
        Ok((st, _)) => {
            lemma_assemble_frame(c.name, c.options, 0, st.occurrences, Seq::empty(), f1, f2);
        },
        Err(_) => {},
    }
}

} // verus!

verus! {

/// The raw value of a declared flag occurrence.
pub open spec fn named_raw(n: NamedView) -> Seq<char> {
    match n {
        NamedView::Scalar { raw, .. } => raw,
        NamedView::Repeated { raw, .. } => raw,
    }
}

/// The tables agree on every argument left for the command parser (and
/// what follows its `=`s), and on every `--set` value and declared flag
/// value.
pub open spec fn parsed_ok(f1: Seq<(Seq<char>, RawFactView)>, f2: Seq<(Seq<char>, RawFactView)>, p: ParsedView) -> bool {
    &&& items_ok(f1, f2, p.remaining)
    &&& forall|j: int| 0 <= j < p.sets.len() ==> same_fact(f1, f2, #[trigger] p.sets[j].raw)
    &&& forall|j: int| 0 <= j < p.named.len() ==> same_fact(f1, f2, named_raw(#[trigger] p.named[j]))
}

proof fn lemma_argv_scan_ok(
    items: Seq<(int, Seq<char>)>,
    index: int,
    st: ParsedView,
    flags: Seq<(Seq<char>, Seq<char>)>,
    schema: Seq<(Seq<char>, OptionSpecView)>,
    f1: Seq<(Seq<char>, RawFactView)>,
    f2: Seq<(Seq<char>, RawFactView)>,
)
    requires
        items_ok(f1, f2, items),
        same_fact(f1, f2, "true"@),
        parsed_ok(f1, f2, st),
    ensures
        argv_scan(items, index, st, flags, schema) matches Ok(p) ==> parsed_ok(f1, f2, p),
    decreases items.len() - index,
{
    if 0 <= index < items.len() {
        let cur = items[index].1;
        assert(piece_ok(f1, f2, items[index].1));
        match crate::cli::argv_step(items, index, st, flags, schema) {
            Err(_) => {},
            Ok((st2, next)) => {
                if !is_double_dash(cur) {
                    assert(st2.remaining == st.remaining.push(items[index]));
                    assert forall|j: int| 0 <= j < st2.remaining.len() implies piece_ok(f1, f2, #[trigger] st2.remaining[j].1) by {
                        if j < st.remaining.len() {
                            assert(st2.remaining[j] == st.remaining[j]);
                        }
                    }
                } else {
                    let (flag, inline) = split_flag_spec(cur.skip(2));
                    lemma_flag_value_ok(ValueType::String, false, cur, items, index, "--config"@, f1, f2);
                    lemma_flag_value_ok(ValueType::String, false, cur, items, index, "--set"@, f1, f2);
                    if flag == "config"@ {
                    } else if flag == "set"@ {
                        let (v, c) = inline_or_next_spec(inline, items, index, "--set"@)->Ok_0;
                        let r = split_flag_spec(v).1->Some_0;
                        lemma_split_suffix(v);
                        if is_eq_suffix(cur, v) {
                            lemma_suffix_trans(cur, v, r);
                        } else {
                            assert(piece_ok(f1, f2, items[index + 1].1));
                        }
                        assert(same_fact(f1, f2, r));
                        assert forall|j: int| 0 <= j < st2.sets.len() implies same_fact(f1, f2, #[trigger] st2.sets[j].raw) by {
                            if j < st.sets.len() {
                                assert(st2.sets[j] == st.sets[j]);
                            }
                        }
                    } else if flag == "print-default-config"@ || flag == "print-config"@ || flag == "debug-config"@ {
                    } else {
                        match crate::keyed::first_lookup(flags, flag) {
                            Some(key) => match crate::keyed::first_lookup(schema, key) {
                                Some(opt) => {
                                    lemma_flag_value_ok(opt.value_type, opt.repeated_cli, cur, items, index, "--"@ + flag, f1, f2);
                                    assert forall|j: int| 0 <= j < st2.named.len() implies same_fact(f1, f2, named_raw(#[trigger] st2.named[j])) by {
                                        if j < st.named.len() {
                                            assert(st2.named[j] == st.named[j]);
                                        }
                                    }
                                },
                                None => {
                                    assert forall|j: int| 0 <= j < st2.remaining.len() implies piece_ok(f1, f2, #[trigger] st2.remaining[j].1) by {
                                        if j < st.remaining.len() {
                                            assert(st2.remaining[j] == st.remaining[j]);
                                        }
                                    }
                                },
                            },
                            None => {
                                assert forall|j: int| 0 <= j < st2.remaining.len() implies piece_ok(f1, f2, #[trigger] st2.remaining[j].1) by {
                                    if j < st.remaining.len() {
                                        assert(st2.remaining[j] == st.remaining[j]);
                                    }
                                }
                            },
                        }
                    }
                }
                assert(parsed_ok(f1, f2, st2));
                if next > index {
                    lemma_argv_scan_ok(items, next, st2, flags, schema, f1, f2);
                }
            },
        }
    }
}

} // verus!

verus! {

proof fn lemma_first_lookup_in(s: Seq<(Seq<char>, Seq<char>)>, k: Seq<char>) -> (j: int)
    requires
        crate::keyed::first_lookup(s, k) is Some,
    ensures
        0 <= j < s.len(),
        s[j].1 == crate::keyed::first_lookup(s, k)->Some_0,
    decreases s.len(),
{
    if s[0].0 == k {
        0
    } else {
        let j = lemma_first_lookup_in(s.drop_first(), k);
        assert(s.drop_first()[j] == s[j + 1]);
        j + 1
    }
}

proof fn lemma_env_frame(
    st: ResolvedView,
    app: Seq<char>,
    schema: Seq<(Seq<char>, OptionSpecView)>,
    env: Seq<(Seq<char>, Seq<char>)>,
    f1: Seq<(Seq<char>, RawFactView)>,
    f2: Seq<(Seq<char>, RawFactView)>,
    i: int,
)
    requires
        forall|j: int| 0 <= j < env.len() ==> same_fact(f1, f2, #[trigger] env[j].1),
    ensures
        env_from(st, app, schema, env, f1, i) == env_from(st, app, schema, env, f2, i),
    decreases schema.len() - i,
{
    if 0 <= i < schema.len() {
        let name = crate::names::env_var_name(app, schema[i].0);
        if crate::keyed::first_lookup(env, name) is Some {
            let j = lemma_first_lookup_in(env, name);
            lemma_typed_frame(schema[i].0, schema[i].1.value_type, env[j].1, f1, f2);
        }
        assert(env_step(st, app, schema[i], env, f1) == env_step(st, app, schema[i], env, f2));
        match env_step(st, app, schema[i], env, f1) {
            Ok(s2) => lemma_env_frame(s2, app, schema, env, f1, f2, i + 1),
            Err(_) => {},
        }
    }
}

proof fn lemma_sets_frame(
    st: ResolvedView,
    schema: Seq<(Seq<char>, OptionSpecView)>,
    sets: Seq<SetView>,
    f1: Seq<(Seq<char>, RawFactView)>,
    f2: Seq<(Seq<char>, RawFactView)>,
    i: int,
)
    requires
        forall|j: int| 0 <= j < sets.len() ==> same_fact(f1, f2, #[trigger] sets[j].raw),
    ensures
        sets_from(st, schema, sets, f1, i) == sets_from(st, schema, sets, f2, i),
    decreases sets.len() - i,
{
    if 0 <= i < sets.len() {
        match crate::keyed::first_lookup(schema, sets[i].key) {
            Some(o) => lemma_typed_frame(sets[i].key, o.value_type, sets[i].raw, f1, f2),
            None => lemma_typed_frame(sets[i].key, ValueType::String, sets[i].raw, f1, f2),
        }
        assert(set_step(st, schema, sets[i], f1) == set_step(st, schema, sets[i], f2));
        match set_step(st, schema, sets[i], f1) {
            Ok(s2) => lemma_sets_frame(s2, schema, sets, f1, f2, i + 1),
            Err(_) => {},
        }
    }
}

proof fn lemma_repeated_raws_ok(ns: Seq<NamedView>, key: Seq<char>, f1: Seq<(Seq<char>, RawFactView)>, f2: Seq<(Seq<char>, RawFactView)>)
    requires
        forall|j: int| 0 <= j < ns.len() ==> same_fact(f1, f2, named_raw(#[trigger] ns[j])),
    ensures
        forall|m: int| 0 <= m < item_raws(repeated_items(ns, key)).len() ==> same_fact(f1, f2, #[trigger] item_raws(repeated_items(ns, key))[m]),
    decreases ns.len(),
{
    if ns.len() > 0 {
        let t = ns.drop_last();
        assert forall|j: int| 0 <= j < t.len() implies same_fact(f1, f2, named_raw(#[trigger] t[j])) by {
            assert(t[j] == ns[j]);
        }
        lemma_repeated_raws_ok(t, key, f1, f2);
        let p = repeated_items(t, key);
        let q = repeated_items(ns, key);
        assert(same_fact(f1, f2, named_raw(ns[ns.len() - 1])));
        assert forall|m: int| 0 <= m < item_raws(q).len() implies same_fact(f1, f2, #[trigger] item_raws(q)[m]) by {
            assert(item_raws(q)[m] == q[m].0);
            if m < p.len() {
                assert(q[m] == p[m]);
                assert(item_raws(p)[m] == p[m].0);
            }
        }
    }
}

proof fn lemma_named_frame(
    st: ResolvedView,
    schema: Seq<(Seq<char>, OptionSpecView)>,
    named: Seq<NamedView>,
    f1: Seq<(Seq<char>, RawFactView)>,
    f2: Seq<(Seq<char>, RawFactView)>,
    i: int,
)
    requires
        forall|j: int| 0 <= j < named.len() ==> same_fact(f1, f2, named_raw(#[trigger] named[j])),
    ensures
        named_from(st, schema, named, f1, i) == named_from(st, schema, named, f2, i),
    decreases named.len() - i,
{
    if 0 <= i < named.len() {
        assert(same_fact(f1, f2, named_raw(named[i])));
        match named[i] {
            NamedView::Scalar { key, raw, .. } => match crate::keyed::first_lookup(schema, key) {
                Some(o) => lemma_typed_frame(key, o.value_type, raw, f1, f2),
                None => {},
            },
            NamedView::Repeated { key, .. } => match crate::keyed::first_lookup(schema, key) {
                Some(o) => {
                    let ns = named.take(i + 1);
                    assert forall|j: int| 0 <= j < ns.len() implies same_fact(f1, f2, named_raw(#[trigger] ns[j])) by {
                        assert(ns[j] == named[j]);
                    }
                    lemma_repeated_raws_ok(ns, key, f1, f2);
                    lemma_typed_values_frame(
                        key,
                        crate::matching::element_or_self(o.value_type),
                        item_raws(repeated_items(ns, key)),
                        0,
                        Seq::empty(),
                        f1,
                        f2,
                    );
                },
                None => {},
            },
        }
        assert(named_step(st, schema, named, i, f1) == named_step(st, schema, named, i, f2));
        match named_step(st, schema, named, i, f1) {
            Ok(s2) => lemma_named_frame(s2, schema, named, f1, f2, i + 1),
            Err(_) => {},
        }
    }
}

/// Two fact tables record the same for each of `raws`.
pub open spec fn facts_agree_on(f1: Seq<(Seq<char>, RawFactView)>, f2: Seq<(Seq<char>, RawFactView)>, raws: Seq<Seq<char>>) -> bool {
    forall|i: int| 0 <= i < raws.len() ==> fact_of(f1, #[trigger] raws[i]) == fact_of(f2, raws[i])
}

/// Law: resolution reads the facts about raw strings only for the strings
/// that `raw_candidates` lists: two fact tables that record the same for
/// each listed string give the same resolution.
pub proof fn law_listed_raws_suffice(
    r: ResolverView,
    argv: Seq<Seq<char>>,
    o: OptionsView,
    f1: Seq<(Seq<char>, RawFactView)>,
    f2: Seq<(Seq<char>, RawFactView)>,
    files: Seq<(Seq<char>, FileView)>,
)
    requires
        facts_agree_on(f1, f2, raw_candidates_spec(argv, o.env)),
    ensures
        resolve_spec(r, argv, o, f1, files) == resolve_spec(r, argv, o, f2, files),
{
    let cands = raw_candidates_spec(argv, o.env);
    let ar = argv_raws(argv);
    let ev = o.env.map_values(|e: (Seq<char>, Seq<char>)| e.1);
    assert(cands == ar + ev + seq!["true"@]);
    assert(cands[(ar.len() + ev.len()) as int] == "true"@);
    assert(same_fact(f1, f2, "true"@));
    assert forall|j: int| 0 <= j < o.env.len() implies same_fact(f1, f2, #[trigger] o.env[j].1) by {
        assert(cands[ar.len() + j] == ev[j]);
    }
    assert forall|i: int| 0 <= i < argv.len() implies piece_ok(f1, f2, #[trigger] argv[i]) by {
        let m = lemma_argv_raws_has(argv, i, argv[i]);
        assert(cands[m] == ar[m]);
        assert forall|x: Seq<char>| #[trigger] is_eq_suffix(argv[i], x) implies same_fact(f1, f2, x) by {
            let m2 = lemma_argv_raws_has(argv, i, x);
            assert(cands[m2] == ar[m2]);
        }
    }
    let items = argv_items(argv);
    let all = Seq::new(argv.len(), |i: int| (i, argv[i]));
    assert forall|j: int| 0 <= j < items.len() implies piece_ok(f1, f2, #[trigger] items[j].1) by {
        if crate::cli::skips_program_name(argv) {
            assert(items[j] == all[j + 1]);
            assert(piece_ok(f1, f2, argv[j + 1]));
        } else {
            assert(items[j] == all[j]);
            assert(piece_ok(f1, f2, argv[j]));
        }
    }
    let e0 = crate::cli::empty_parsed();
    assert(e0.remaining =~= Seq::<(int, Seq<char>)>::empty());
    assert(parsed_ok(f1, f2, e0));
    lemma_argv_scan_ok(items, 0, e0, r.flag_index, r.schema, f1, f2);
    match crate::cli::parse_argv_spec(argv, r.flag_index, r.schema) {
        Err(_) => {},
        Ok(p) => {
            lemma_parse_frame(r.command, p.remaining, 0, f1, f2);
            match parse_cmd(r.command, p.remaining, 0, f1) {
                Err(_) => {},
                Ok((m, _)) => {
                    let s1 = defaults_from(
                        ResolvedView { entries: Seq::empty(), warnings: Seq::empty(), flags: p.flags, matches: m },
                        r.defaults,
                        0,
                    );
                    match discovered_spec(s1, r, o, files) {
                        Err(_) => {},
                        Ok(s5) => {
                            lemma_env_frame(s5, r.app_name, r.schema, o.env, f1, f2, 0);
                            match env_from(s5, r.app_name, r.schema, o.env, f1, 0) {
                                Err(_) => {},
                                Ok(s6) => match cli_files_from(s6, r.schema, o.cwd, p.config_files, files, 0) {
                                    Err(_) => {},
                                    Ok(s7) => {
                                        lemma_sets_frame(s7, r.schema, p.sets, f1, f2, 0);
                                        match sets_from(s7, r.schema, p.sets, f1, 0) {
                                            Err(_) => {},
                                            Ok(s8) => lemma_named_frame(s8, r.schema, p.named, f1, f2, 0),
                                        }
                                    },
                                },
                            }
                        },
                    }
                },
            }
        },
    }
}

} // verus!

verus! {

/// Law: a declared boolean long flag (not repeated, written without `=`)
/// followed by one of the words `false`, `FALSE`, `False` takes that word as
/// its value: the first pass records it for the flag's key and goes on
/// after it, so it is not left for the command parser; and that word reads
/// as the boolean `false`.
pub proof fn law_bool_flag_takes_false_word(
    items: Seq<(int, Seq<char>)>,
    index: int,
    st: ParsedView,
    flags: Seq<(Seq<char>, Seq<char>)>,
    schema: Seq<(Seq<char>, OptionSpecView)>,
    flag: Seq<char>,
    key: Seq<char>,
    facts: Seq<(Seq<char>, RawFactView)>,
)
    requires
        0 <= index,
        index + 1 < items.len(),
        items[index].1 == "--"@ + flag,
        !flag.contains('='),
        flag != "config"@,
        flag != "set"@,
        flag != "print-default-config"@,
        flag != "print-config"@,
        flag != "debug-config"@,
        crate::keyed::first_lookup(flags, flag) == Some(key),
        crate::keyed::first_lookup(schema, key) matches Some(o) && o.value_type is Boolean && !o.repeated_cli,
        items[index + 1].1 == "false"@ || items[index + 1].1 == "FALSE"@ || items[index + 1].1 == "False"@,
    ensures
        crate::cli::argv_step(items, index, st, flags, schema) == Ok::<(ParsedView, int), ErrorView>((
            ParsedView {
                named: st.named.push(NamedView::Scalar { key: key, raw: items[index + 1].1, position: items[index].0 + 1 }),
                ..st
            },
            index + 2,
        )),
        typed_value(key, ValueType::Boolean, items[index + 1].1, facts) == Ok::<JsonData, ErrorView>(JsonData::Bool(false)),
{
    reveal_strlit("--");
    reveal_strlit("false");
    reveal_strlit("FALSE");
    reveal_strlit("False");
    reveal_strlit("true");
    reveal_strlit("TRUE");
    reveal_strlit("True");
    let cur = items[index].1;
    assert(cur.skip(2) =~= flag);
    assert(crate::text::is_double_dash(cur));
    assert(!(exists|i: int| 0 <= i < flag.len() && flag[i] == '=')) by {
        if exists|i: int| 0 <= i < flag.len() && flag[i] == '=' {
            let i = choose|i: int| 0 <= i < flag.len() && flag[i] == '=';
            assert(flag.contains('='));
        }
    }
    assert(split_flag_spec(cur.skip(2)) == (flag, None::<Seq<char>>));
    let w = items[index + 1].1;
    assert(w.len() == 5);
    assert(!crate::text::is_double_dash(w));
}

/// The values recorded under `name` end with the value of its last
/// occurrence.
proof fn lemma_values_named_last(occ: Seq<(Seq<char>, Seq<char>)>, name: Seq<char>, k: int)
    requires
        0 <= k < occ.len(),
        occ[k].0 == name,
        forall|m: int| k < m < occ.len() ==> occ[m].0 != name,
    ensures
        crate::matching::values_named(occ, name).len() > 0,
        crate::matching::values_named(occ, name).last() == occ[k].1,
    decreases occ.len(),
{
    let n = occ.len() - 1;
    if k < n {
        let t = occ.drop_last();
        assert forall|m: int| k < m < t.len() implies t[m].0 != name by {
            assert(t[m] == occ[m]);
        }
        assert(t[k] == occ[k]);
        lemma_values_named_last(t, name, k);
        assert(occ.last().0 != name);
    }
}

/// Law: a command option that is not repeated and is given several times
/// takes the value of its last occurrence: whatever the earlier occurrences
/// hold, its matched value is the typed reading of the raw value of the last
/// one.
pub proof fn law_last_occurrence_wins(
    command: Seq<char>,
    o: crate::specs::CliOptionSpecView,
    occ: Seq<(Seq<char>, Seq<char>)>,
    facts: Seq<(Seq<char>, RawFactView)>,
    acc: Seq<(Seq<char>, JsonData)>,
    k: int,
)
    requires
        !o.repeated,
        0 <= k < occ.len(),
        occ[k].0 == o.name,
        forall|m: int| k < m < occ.len() ==> occ[m].0 != o.name,
    ensures
        crate::matching::option_value_step(command, o, occ, facts, acc) == match typed_value(o.name, o.value_type, occ[k].1, facts) {
            Ok(v) => Ok::<Seq<(Seq<char>, JsonData)>, ErrorView>(put(acc, o.name, v)),
            Err(e) => Err::<Seq<(Seq<char>, JsonData)>, ErrorView>(e),
        },
{
    lemma_values_named_last(occ, o.name, k);
}

/// Law: read as a boolean, each of `true`, `TRUE`, `True` gives `true`,
/// each of `false`, `FALSE`, `False` gives `false`, and every other string
/// is a conversion error naming the key, `boolean` and the string.
pub proof fn law_boolean_words(key: Seq<char>, raw: Seq<char>, facts: Seq<(Seq<char>, RawFactView)>)
    ensures
        typed_value(key, ValueType::Boolean, raw, facts) == if raw == "true"@ || raw == "TRUE"@ || raw == "True"@ {
            Ok::<JsonData, ErrorView>(JsonData::Bool(true))
        } else if raw == "false"@ || raw == "FALSE"@ || raw == "False"@ {
            Ok::<JsonData, ErrorView>(JsonData::Bool(false))
        } else {
            Err::<JsonData, ErrorView>(ErrorView::TypeConversion { key: key, expected: "boolean"@, raw: raw })
        },
{
    reveal_strlit("false");
    reveal_strlit("FALSE");
    reveal_strlit("False");
    reveal_strlit("true");
    reveal_strlit("TRUE");
    reveal_strlit("True");
}

/// Law: a float-typed option accepts every number, integers included: no
/// number is a type mismatch for `Float`, and checking a number against a
/// declared float option keeps it as it is; anything else is a mismatch.
pub proof fn law_float_accepts_numbers(d: JsonData, schema: Seq<(Seq<char>, OptionSpecView)>, key: Seq<char>)
    ensures
        crate::value::first_mismatch(JsonData::Number(NumberData::PosInt(0)), ValueType::Float) is None,
        forall|u: u64| #[trigger] crate::value::first_mismatch(JsonData::Number(NumberData::PosInt(u)), ValueType::Float) is None,
        forall|i: i64| #[trigger] crate::value::first_mismatch(JsonData::Number(NumberData::NegInt(i)), ValueType::Float) is None,
        crate::value::first_mismatch(d, ValueType::Float) is None <==> d is Number,
        d is Number && (crate::keyed::first_lookup(schema, key) matches Some(o) && o.value_type is Float)
            ==> normalize_spec(schema, key, d) == Ok::<JsonData, ErrorView>(d),
{
}

/// The keys of consistent entries give paths that lie apart.
proof fn lemma_final_values_apart(s: Seq<(Seq<char>, Seq<RecordView>)>)
    requires
        entries_wf(s),
    ensures
        paths_apart(crate::resolved::final_values(s)),
{
    let f = crate::resolved::final_values(s);
    crate::keyed::lemma_sorted_distinct(s);
    assert forall|a: int, b: int| 0 <= a < f.len() && 0 <= b < f.len() && a != b implies !prefix_related(
        split_on(#[trigger] f[a].0, '.'),
        split_on(#[trigger] f[b].0, '.'),
    ) by {
        let x = s[a].0;
        let y = s[b].0;
        assert(f[a].0 == x && f[b].0 == y);
        assert(!related(x, y) && !related(y, x));
        if a < b {
            assert(x != y);
        } else {
            assert(y != x);
        }
        let p = split_on(x, '.');
        let q = split_on(y, '.');
        if p.len() <= q.len() && q.take(p.len() as int) == p {
            lemma_split_prefix(x, y, '.');
        }
        if q.len() <= p.len() && p.take(q.len() as int) == q {
            lemma_split_prefix(y, x, '.');
        }
    }
}

/// Law: the document that `emit_toml` writes holds, at the dotted path of
/// every resolved key, the same value that `get` returns for that key: the
/// value of the last record of its history, the one that won.
pub proof fn law_emitted_values_are_final(s: Seq<(Seq<char>, Seq<RecordView>)>, i: int)
    requires
        entries_wf(s),
        0 <= i < s.len(),
    ensures
        navigate(build_tree(crate::resolved::final_values(s)), split_on(s[i].0, '.')) == get_spec(s, s[i].0),
        get_spec(s, s[i].0) == Some(s[i].1.last().value),
{
    lemma_final_values_apart(s);
    let f = crate::resolved::final_values(s);
    lemma_build_tree_navigate(f, i);
    law_get_leaf(s, s[i].0, i);
}

} // verus!
