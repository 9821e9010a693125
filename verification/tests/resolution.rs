use lccp::convert::{RawFact, RawFacts};
use lccp::error::LccpError;
use lccp::inputs::{ConfigFiles, FileState, ResolveOptions};
use lccp::render::render_value;
use lccp::resolved::{ResolvedConfig, SourceKind};
use lccp::resolver::{raw_candidates, Resolver};
use lccp::specs::OptionSpec;
use lccp::toml_value::TomlValue;
use lccp::value::{JsonNumber, JsonValue, ValueType};

const EXECUTABLE: &str = "/opt/tool/bin/tool";

fn s(text: &str) -> JsonValue {
    JsonValue::String(text.to_string())
}

fn num(n: u64) -> JsonValue {
    JsonValue::Number(JsonNumber::PosInt(n))
}

fn obj(members: Vec<(&str, JsonValue)>) -> JsonValue {
    JsonValue::Object(members.into_iter().map(|(k, v)| (k.to_string(), v)).collect())
}

fn json_file(value: JsonValue) -> FileState {
    FileState {
        is_file: true,
        read: Ok(render_value(&value)),
    }
}

fn toml_text_file(text: &str) -> FileState {
    FileState {
        is_file: true,
        read: Ok(text.to_string()),
    }
}

fn options(env: Vec<(&str, &str)>) -> ResolveOptions {
    ResolveOptions {
        cwd: "/work".to_string(),
        home_dir: Some("/home/user".to_string()),
        env: env
            .into_iter()
            .map(|(k, v)| (k.to_string(), v.to_string()))
            .collect(),
        system_config_dir: "/etc".to_string(),
    }
}

fn argv(items: &[&str]) -> Vec<String> {
    items.iter().map(|a| a.to_string()).collect()
}

fn tool() -> Resolver {
    let mut resolver = Resolver::new("tool", EXECUTABLE).unwrap();
    resolver
        .declare_option(OptionSpec::new("server.host", ValueType::String).unwrap())
        .unwrap();
    resolver
        .declare_option(OptionSpec::new("server.port", ValueType::Integer).unwrap())
        .unwrap();
    resolver
        .declare_option(OptionSpec::new("ratio", ValueType::Float).unwrap())
        .unwrap();
    resolver
        .declare_option(OptionSpec::repeated("tags", ValueType::String).unwrap())
        .unwrap();
    resolver.set_default("server.host", s("localhost")).unwrap();
    resolver.set_default("server.port", num(8080)).unwrap();
    resolver
}

fn resolve(
    resolver: &Resolver,
    args: &[&str],
    env: Vec<(&str, &str)>,
    files: &ConfigFiles,
) -> Result<ResolvedConfig, LccpError> {
    resolver.resolve_with(&argv(args), &options(env), &RawFacts::new(), files)
}

#[test]
fn history_levels_follow_the_precedence_chain() {
    let resolver = tool();
    let mut files = ConfigFiles::new();
    files.insert(
        "/etc/tool.json",
        json_file(obj(vec![("server", obj(vec![("port", num(1))]))])),
    );
    files.insert(
        "/work/tool.json",
        json_file(obj(vec![("server", obj(vec![("port", num(2))]))])),
    );
    let resolved = resolve(
        &resolver,
        &["tool", "--set", "server.port=3", "--server-port", "4"],
        vec![("TOOL_SERVER_PORT", "5")],
        &files,
    )
    .unwrap();
    let provenance = resolved.provenance("server.port").unwrap();
    let levels: Vec<u8> = provenance
        .history
        .iter()
        .map(|record| record.source.precedence_level)
        .collect();
    assert_eq!(levels, vec![1, 2, 5, 6, 8, 9]);
    assert_eq!(provenance.final_value(), Some(&num(4)));
    assert_eq!(
        provenance.final_source().unwrap().location,
        "argument 4 of argv"
    );
    assert_eq!(resolved.get("server.port"), Some(num(4)));
}

#[test]
fn a_leaf_replaces_the_keys_below_it_and_a_key_below_replaces_the_leaf() {
    let resolver = tool();
    let mut files = ConfigFiles::new();
    files.insert("/etc/tool.json", json_file(obj(vec![("server", s("plain"))])));
    let resolved = resolve(&resolver, &["tool"], vec![], &files).unwrap();
    assert_eq!(resolved.get("server"), Some(s("plain")));
    assert_eq!(resolved.get("server.host"), None);
    assert!(resolved.provenance("server.port").is_none());

    let resolved = resolve(
        &resolver,
        &["tool", "--set", "server.host=again"],
        vec![],
        &files,
    )
    .unwrap();
    assert!(resolved.provenance("server").is_none());
    assert_eq!(resolved.get("server"), Some(obj(vec![("host", s("again"))])));
}

#[test]
fn parent_keys_assemble_nested_subtrees() {
    let mut resolver = Resolver::new("tool", EXECUTABLE).unwrap();
    resolver.set_default("a.b.c", num(1)).unwrap();
    resolver.set_default("a.b.d", s("x")).unwrap();
    resolver.set_default("a.e", JsonValue::Bool(true)).unwrap();
    let resolved = resolve(&resolver, &["tool"], vec![], &ConfigFiles::new()).unwrap();
    assert_eq!(
        resolved.get("a"),
        Some(obj(vec![
            ("b", obj(vec![("c", num(1)), ("d", s("x"))])),
            ("e", JsonValue::Bool(true)),
        ]))
    );
    assert_eq!(resolved.get("a.b"), Some(obj(vec![("c", num(1)), ("d", s("x"))])));
    assert_eq!(resolved.get("a.b.c"), Some(num(1)));
    assert_eq!(resolved.get("a.x"), None);
    assert_eq!(resolved.get("b"), None);
}

#[test]
fn repeated_flags_apply_together_at_their_last_occurrence() {
    let resolver = tool();
    let resolved = resolve(
        &resolver,
        &["tool", "--tags", "a", "--server-port", "9", "--tags=b"],
        vec![],
        &ConfigFiles::new(),
    )
    .unwrap();
    assert_eq!(resolved.get("tags"), Some(JsonValue::Array(vec![s("a"), s("b")])));
    let record = &resolved.provenance("tags").unwrap().history[0];
    assert_eq!(record.source.location, "arguments 2, 6 of argv");
    assert_eq!(record.source.raw.as_deref(), Some("a, b"));
    assert_eq!(record.source.kind, SourceKind::CliExplicit);
}

#[test]
fn float_values_come_from_recorded_facts() {
    let resolver = tool();
    let mut facts = RawFacts::new();
    let bits = 1.5f64.to_bits();
    facts.insert(
        "1.5",
        RawFact {
            float: Some((bits, "1.5".to_string())),
        },
    );
    let resolved = resolver
        .resolve_with(
            &argv(&["tool", "--ratio", "1.5"]),
            &options(vec![]),
            &facts,
            &ConfigFiles::new(),
        )
        .unwrap();
    assert_eq!(
        resolved.get("ratio"),
        Some(JsonValue::Number(JsonNumber::Float(bits, "1.5".to_string())))
    );

    let missing = resolver
        .resolve_with(
            &argv(&["tool", "--ratio", "1.5"]),
            &options(vec![]),
            &RawFacts::new(),
            &ConfigFiles::new(),
        )
        .unwrap_err();
    assert!(matches!(missing, LccpError::TypeConversion { .. }));
}

#[test]
fn infinite_floats_are_refused() {
    let resolver = tool();
    let mut facts = RawFacts::new();
    facts.insert(
        "inf",
        RawFact {
            float: Some((f64::INFINITY.to_bits(), "inf".to_string())),
        },
    );
    let error = resolver
        .resolve_with(
            &argv(&["tool", "--ratio", "inf"]),
            &options(vec![]),
            &facts,
            &ConfigFiles::new(),
        )
        .unwrap_err();
    assert!(matches!(error, LccpError::TypeConversion { .. }));
}

#[test]
fn undeclared_set_values_are_read_untyped() {
    let resolver = tool();
    let resolved = resolve(
        &resolver,
        &[
            "tool",
            "--set",
            "extra.count=42",
            "--set",
            "extra.flag=True",
            "--set",
            "extra.none=null",
            "--set",
            "extra.word=hello",
            "--set",
            "extra.negative=-7",
        ],
        vec![],
        &ConfigFiles::new(),
    )
    .unwrap();
    assert_eq!(resolved.get("extra.count"), Some(num(42)));
    assert_eq!(resolved.get("extra.flag"), Some(JsonValue::Bool(true)));
    assert_eq!(resolved.get("extra.none"), Some(JsonValue::Null));
    assert_eq!(resolved.get("extra.word"), Some(s("hello")));
    assert_eq!(
        resolved.get("extra.negative"),
        Some(JsonValue::Number(JsonNumber::NegInt(-7)))
    );
}

#[test]
fn set_with_a_non_canonical_key_is_refused() {
    let resolver = tool();
    let error = resolve(&resolver, &["tool", "--set", "Bad.Key=1"], vec![], &ConfigFiles::new())
        .unwrap_err();
    match error {
        LccpError::InvalidCanonicalKey(key) => assert_eq!(key, "Bad.Key"),
        other => panic!("unexpected error {other:?}"),
    }
}

#[test]
fn file_values_of_the_wrong_type_are_refused() {
    let resolver = tool();
    let mut files = ConfigFiles::new();
    files.insert(
        "/work/tool.json",
        json_file(obj(vec![("server", obj(vec![("port", s("eighty"))]))])),
    );
    let error = resolve(&resolver, &["tool"], vec![], &files).unwrap_err();
    match error {
        LccpError::TypeMismatch {
            key,
            expected,
            actual,
        } => {
            assert_eq!(key, "server.port");
            assert_eq!(expected, "integer");
            assert_eq!(actual, "string");
        }
        other => panic!("unexpected error {other:?}"),
    }
}

#[test]
fn file_roots_must_be_objects_and_keys_canonical() {
    let resolver = tool();
    let mut files = ConfigFiles::new();
    files.insert("/work/list.json", json_file(JsonValue::Array(vec![num(1)])));
    files.insert("/work/bad.json", json_file(obj(vec![("Server", num(1))])));
    let error = resolve(&resolver, &["tool", "--config", "list.json"], vec![], &files).unwrap_err();
    match error {
        LccpError::InvalidConfigRoot(path) => assert_eq!(path, "/work/list.json"),
        other => panic!("unexpected error {other:?}"),
    }
    let error = resolve(&resolver, &["tool", "--config", "bad.json"], vec![], &files).unwrap_err();
    match error {
        LccpError::InvalidCanonicalKey(segment) => assert_eq!(segment, "Server"),
        other => panic!("unexpected error {other:?}"),
    }
}

#[test]
fn read_errors_name_the_file_and_the_flag() {
    let resolver = tool();
    let error = resolve(
        &resolver,
        &["tool", "--config", "../elsewhere/missing.toml"],
        vec![],
        &ConfigFiles::new(),
    )
    .unwrap_err();
    match error {
        LccpError::ReadConfigFile {
            path,
            source,
            read_context,
        } => {
            assert_eq!(path, "/elsewhere/missing.toml");
            assert_eq!(source, "the file was not read");
            assert_eq!(read_context, " (explicitly named by --config)");
        }
        other => panic!("unexpected error {other:?}"),
    }
}

#[test]
fn a_flag_without_its_value_is_refused() {
    let resolver = tool();
    let error = resolve(&resolver, &["tool", "--config"], vec![], &ConfigFiles::new()).unwrap_err();
    match error {
        LccpError::MissingArgumentValue(flag) => assert_eq!(flag, "--config"),
        other => panic!("unexpected error {other:?}"),
    }
    let error = resolve(
        &resolver,
        &["tool", "--server-host", "--server-port", "1"],
        vec![],
        &ConfigFiles::new(),
    )
    .unwrap_err();
    match error {
        LccpError::MissingArgumentValue(flag) => assert_eq!(flag, "--server-host"),
        other => panic!("unexpected error {other:?}"),
    }
}

#[test]
fn both_discovered_files_raise_the_exact_warning() {
    let resolver = tool();
    let mut files = ConfigFiles::new();
    files.insert("/home/user/.tool/config.json", json_file(obj(vec![])));
    files.insert(
        "/home/user/.tool/config.toml",
        toml_text_file(""),
    );
    let resolved = resolve(&resolver, &["tool"], vec![], &files).unwrap();
    assert_eq!(
        resolved.warnings(),
        &["Both discovered configuration files exist at level 4: /home/user/.tool/config.json and /home/user/.tool/config.toml. TOML overrides JSON at this level.".to_string()]
    );
}

#[test]
fn environment_values_are_typed() {
    let resolver = tool();
    let error = resolve(&resolver, &["tool"], vec![("TOOL_SERVER_PORT", "many")], &ConfigFiles::new())
        .unwrap_err();
    match error {
        LccpError::TypeConversion { key, expected, raw } => {
            assert_eq!(key, "server.port");
            assert_eq!(expected, "integer");
            assert_eq!(raw, "many");
        }
        other => panic!("unexpected error {other:?}"),
    }
    let resolved = resolve(&resolver, &["tool"], vec![("TOOL_SERVER_HOST", "env-host")], &ConfigFiles::new())
        .unwrap();
    let record = resolved.provenance("server.host").unwrap();
    let last = record.history.last().unwrap();
    assert_eq!(last.source.location, "TOOL_SERVER_HOST");
    assert_eq!(last.source.raw.as_deref(), Some("env-host"));
    assert_eq!(last.source.precedence_level, 6);
}

#[test]
fn debug_output_is_exact() {
    let mut resolver = Resolver::new("tool", EXECUTABLE).unwrap();
    resolver.set_default("name", s("say \"hi\"\n")).unwrap();
    resolver.set_default("ports", JsonValue::Array(vec![num(1), s("a\"b")])).unwrap();
    let resolved = resolve(&resolver, &["tool"], vec![], &ConfigFiles::new()).unwrap();
    let expected = [
        "name = \"say \\\"hi\\\"\\n\"\n",
        "  final_source: default @ default[name] (level 1)\n",
        "  override_history:\n",
        "    1. default @ default[name] => \"say \\\"hi\\\"\\n\"\n",
        "ports = [1,\"a\\\"b\"]\n",
        "  final_source: default @ default[ports] (level 1)\n",
        "  override_history:\n",
        "    1. default @ default[ports] => [1,\"a\\\"b\"]\n",
    ]
        .concat();
    assert_eq!(resolved.debug_output(), expected);
    let record = &resolved.provenance("name").unwrap().history[0];
    assert_eq!(record.source.raw.as_deref(), Some("\"say \\\"hi\\\"\\n\""));
}

#[test]
fn toml_documents_refuse_null_and_huge_integers() {
    let mut resolver = Resolver::new("tool", EXECUTABLE).unwrap();
    resolver.set_default("nothing", JsonValue::Null).unwrap();
    match resolver.emit_default_config().unwrap_err() {
        LccpError::SerializeToml(message) => {
            assert_eq!(message, "null values cannot be emitted as TOML")
        }
        other => panic!("unexpected error {other:?}"),
    }
    let mut resolver = Resolver::new("tool", EXECUTABLE).unwrap();
    resolver.set_default("big", num(u64::MAX)).unwrap();
    match resolver.emit_default_config().unwrap_err() {
        LccpError::SerializeToml(message) => assert_eq!(
            message,
            "integer value 18446744073709551615 is too large for TOML emission"
        ),
        other => panic!("unexpected error {other:?}"),
    }
}

#[test]
fn toml_documents_nest_keys_in_order() {
    let mut resolver = Resolver::new("tool", EXECUTABLE).unwrap();
    resolver.set_default("b.y", num(2)).unwrap();
    resolver.set_default("a", JsonValue::Bool(true)).unwrap();
    resolver.set_default("b.x", s("v")).unwrap();
    let document = resolver.emit_default_config().unwrap();
    assert_eq!(document, "a = true\n\n[b]\nx = \"v\"\ny = 2\n");
}

#[test]
fn requested_paths_list_every_consulted_file() {
    let resolver = tool();
    let paths = resolver.config_file_paths(
        &argv(&["tool", "--config", "extra.toml", "--config=/abs/other.json"]),
        &options(vec![]),
    );
    assert_eq!(
        paths,
        vec![
            "/etc/tool.json",
            "/etc/tool.toml",
            "/opt/tool/etc/tool.json",
            "/opt/tool/etc/tool.toml",
            "/home/user/.tool/config.json",
            "/home/user/.tool/config.toml",
            "/work/tool.json",
            "/work/tool.toml",
            "/work/extra.toml",
            "/abs/other.json",
        ]
    );
}

#[test]
fn raw_candidates_cover_arguments_values_and_environment() {
    let candidates = raw_candidates(
        &argv(&["tool", "--set", "a.b=c=d", "x"]),
        &options(vec![("TOOL_A", "1.0")]),
    );
    assert_eq!(
        candidates,
        vec!["tool", "--set", "a.b=c=d", "c=d", "d", "x", "1.0", "true"]
    );
}

#[test]
fn declaring_an_option_twice_is_refused() {
    let mut resolver = Resolver::new("tool", EXECUTABLE).unwrap();
    resolver
        .declare_option(OptionSpec::new("a_b", ValueType::String).unwrap())
        .unwrap();
    match resolver
        .declare_option(OptionSpec::new("a_b", ValueType::Integer).unwrap())
        .unwrap_err()
    {
        LccpError::DuplicateOption(key) => assert_eq!(key, "a_b"),
        other => panic!("unexpected error {other:?}"),
    }
    match resolver
        .declare_option(OptionSpec::new("a.b", ValueType::Integer).unwrap())
        .unwrap_err()
    {
        LccpError::DuplicateFlag(flag) => assert_eq!(flag, "a-b"),
        other => panic!("unexpected error {other:?}"),
    }
}

#[test]
fn defaults_are_checked_against_declared_types() {
    let mut resolver = tool();
    match resolver.set_default("server.port", s("high")).unwrap_err() {
        LccpError::TypeMismatch {
            key,
            expected,
            actual,
        } => {
            assert_eq!(key, "server.port");
            assert_eq!(expected, "integer");
            assert_eq!(actual, "string");
        }
        other => panic!("unexpected error {other:?}"),
    }
    resolver.set_default("server.port", num(1)).unwrap();
    resolver.set_default("server.port", num(2)).unwrap();
    let resolved = resolve(&resolver, &["tool"], vec![], &ConfigFiles::new()).unwrap();
    assert_eq!(resolved.get("server.port"), Some(num(2)));
}

#[test]
fn tables_give_back_what_was_put() {
    let mut files = ConfigFiles::new();
    files.insert("/a", json_file(num(1)));
    files.insert("/a", json_file(num(2)));
    files.insert("/b", json_file(num(3)));
    assert!(files.is_file("/a"));
    assert!(!files.is_file("/c"));
    assert_eq!(files.get("/a").unwrap().read.as_deref(), Ok("2"));
    let mut facts = RawFacts::new();
    facts.insert("x", RawFact { float: None });
    facts.insert("x", RawFact { float: Some((0, "0.0".to_string())) });
    assert_eq!(facts.get("x").unwrap().float, Some((0, "0.0".to_string())));
    assert!(facts.get("y").is_none());
}

#[test]
fn user_files_live_in_the_hidden_application_directory() {
    let resolver = tool();
    let mut files = ConfigFiles::new();
    files.insert(
        "/home/user/.tool/config.toml",
        toml_text_file("[server]\nhost = \"user\"\n"),
    );
    files.insert(
        "/home/user/.config/tool/config.toml",
        toml_text_file("[server]\nhost = \"elsewhere\"\n"),
    );
    let resolved = resolve(&resolver, &["tool"], vec![], &files).unwrap();
    assert_eq!(resolved.get("server.host"), Some(s("user")));
    let provenance = resolved.provenance("server.host").unwrap();
    let source = provenance.final_source().unwrap();
    assert_eq!((source.kind, source.precedence_level), (SourceKind::UserFile, 4));
    assert_eq!(source.location, "/home/user/.tool/config.toml");
}

#[test]
fn facts_about_unlisted_strings_change_nothing() {
    let resolver = tool();
    let args = argv(&["tool", "--ratio=2.5", "--set", "extra=7"]);
    let opts = options(vec![("TOOL_SERVER_HOST", "h")]);
    let listed = raw_candidates(&args, &opts);
    let bits = 2.5f64.to_bits();
    let mut facts = RawFacts::new();
    for raw in &listed {
        if raw == "2.5" {
            facts.insert(raw, RawFact { float: Some((bits, "2.5".to_string())) });
        }
    }
    let mut more = RawFacts::new();
    more.insert("2.5", RawFact { float: Some((bits, "2.5".to_string())) });
    more.insert("unlisted", RawFact { float: Some((0, "0.0".to_string())) });
    let a = resolver.resolve_with(&args, &opts, &facts, &ConfigFiles::new()).unwrap();
    let b = resolver.resolve_with(&args, &opts, &more, &ConfigFiles::new()).unwrap();
    assert_eq!(a.debug_output(), b.debug_output());
    assert_eq!(a.get("ratio"), Some(JsonValue::Number(JsonNumber::Float(bits, "2.5".to_string()))));
}
