use lccp::convert::RawFacts;
use lccp::error::LccpError;
use lccp::inputs::{ConfigFiles, FileState, ResolveOptions};
use lccp::render::render_value;
use lccp::resolved::{ResolvedConfig, SourceKind};
use lccp::resolver::Resolver;
use lccp::specs::OptionSpec;
use lccp::toml_value::TomlValue;
use lccp::value::{JsonNumber, JsonValue, ValueType};

const SYSTEM_DIR: &str = "/srv/harness/system";
const HOME_DIR: &str = "/srv/harness/home";
const CWD: &str = "/srv/harness/cwd";
const EXECUTABLE: &str = "/srv/harness/install-root/bin/example-app";
const INSTALL_ETC: &str = "/srv/harness/install-root/etc";

fn s(text: &str) -> JsonValue {
    JsonValue::String(text.to_string())
}

fn num(n: u64) -> JsonValue {
    JsonValue::Number(JsonNumber::PosInt(n))
}

fn obj(members: Vec<(&str, JsonValue)>) -> JsonValue {
    JsonValue::Object(members.into_iter().map(|(k, v)| (k.to_string(), v)).collect())
}

fn table(entries: Vec<(&str, TomlValue)>) -> TomlValue {
    TomlValue::Table(entries.into_iter().map(|(k, v)| (k.to_string(), v)).collect())
}

fn tstr(text: &str) -> TomlValue {
    TomlValue::String(text.to_string())
}

fn json_file(value: JsonValue) -> FileState {
    FileState {
        is_file: true,
        read: Ok(render_value(&value)),
    }
}

fn toml_file(value: TomlValue) -> FileState {
    FileState {
        is_file: true,
        read: Ok(toml::to_string_pretty(&to_toml(&value)).unwrap()),
    }
}

fn text_file(text: &str) -> FileState {
    FileState {
        is_file: true,
        read: Ok(text.to_string()),
    }
}

struct Harness {
    files: ConfigFiles,
    env: Vec<(String, String)>,
}

impl Harness {
    fn new() -> Self {
        Harness {
            files: ConfigFiles::new(),
            env: Vec::new(),
        }
    }

    fn write(&mut self, path: &str, state: FileState) {
        self.files.insert(path, state);
    }

    fn resolve_options(&self) -> ResolveOptions {
        ResolveOptions {
            cwd: CWD.to_string(),
            home_dir: Some(HOME_DIR.to_string()),
            env: self
                .env
                .iter()
                .map(|(k, v)| (k.clone(), v.clone()))
                .collect(),
            system_config_dir: SYSTEM_DIR.to_string(),
        }
    }

    fn resolve(&self, resolver: &Resolver, argv: &[&str]) -> Result<ResolvedConfig, LccpError> {
        let argv: Vec<String> = argv.iter().map(|a| a.to_string()).collect();
        resolver.resolve_with(&argv, &self.resolve_options(), &RawFacts::new(), &self.files)
    }
}

fn resolver() -> Resolver {
    let mut resolver = Resolver::new("example-app", EXECUTABLE).unwrap();
    resolver
        .declare_option(OptionSpec::new("server.host", ValueType::String).unwrap())
        .unwrap();
    resolver
        .declare_option(OptionSpec::new("server.port", ValueType::Integer).unwrap())
        .unwrap();
    resolver
        .declare_option(OptionSpec::new("logging.level", ValueType::String).unwrap())
        .unwrap();
    resolver
        .declare_option(OptionSpec::new("features.enable_cache", ValueType::Boolean).unwrap())
        .unwrap();
    resolver
        .declare_option(OptionSpec::repeated("ports", ValueType::Integer).unwrap())
        .unwrap();

    resolver.set_default("server.host", s("default.example")).unwrap();
    resolver.set_default("server.port", num(80)).unwrap();
    resolver.set_default("logging.level", s("warn")).unwrap();
    resolver
        .set_default("features.enable_cache", JsonValue::Bool(false))
        .unwrap();
    resolver
        .set_default("ports", JsonValue::Array(vec![num(1), num(2)]))
        .unwrap();

    resolver
}

fn to_toml(value: &TomlValue) -> toml::Value {
    match value {
        TomlValue::String(s) => toml::Value::String(s.clone()),
        TomlValue::Integer(i) => toml::Value::Integer(*i),
        TomlValue::Float(bits, _) => toml::Value::Float(f64::from_bits(*bits)),
        TomlValue::Boolean(b) => toml::Value::Boolean(*b),
        TomlValue::Datetime(s) => toml::Value::String(s.clone()),
        TomlValue::Array(items) => toml::Value::Array(items.iter().map(to_toml).collect()),
        TomlValue::Table(entries) => {
            let mut map = toml::map::Map::new();
            for (k, v) in entries {
                map.insert(k.clone(), to_toml(v));
            }
            toml::Value::Table(map)
        }
    }
}

fn kinds(resolved: &ResolvedConfig, key: &str) -> Vec<SourceKind> {
    resolved
        .provenance(key)
        .unwrap()
        .history
        .iter()
        .map(|record| record.source.kind)
        .collect()
}

#[test]
fn canonical_mappings_match_the_spec() {
    let resolver = resolver();

    assert_eq!(
        resolver.environment_variable_name("server.host").unwrap(),
        "EXAMPLE_APP_SERVER_HOST"
    );
    assert_eq!(
        OptionSpec::new("features.enable_cache", ValueType::Boolean)
            .unwrap()
            .long_flag(),
        "features-enable-cache"
    );
}

#[test]
fn full_precedence_chain_is_applied_in_order() {
    let resolver = resolver();
    let mut harness = Harness::new();

    harness.write(
        &format!("{SYSTEM_DIR}/example-app.json"),
        json_file(obj(vec![("server", obj(vec![("host", s("system.example"))]))])),
    );
    harness.write(
        &format!("{INSTALL_ETC}/example-app.toml"),
        toml_file(table(vec![("server", table(vec![("host", tstr("install.example"))]))])),
    );
    harness.write(
        &format!("{HOME_DIR}/.example-app/config.toml"),
        toml_file(table(vec![("server", table(vec![("host", tstr("user.example"))]))])),
    );
    harness.write(
        &format!("{CWD}/example-app.json"),
        json_file(obj(vec![("server", obj(vec![("host", s("cwd.example"))]))])),
    );
    harness.write(
        &format!("{CWD}/cli-config.toml"),
        toml_file(table(vec![("server", table(vec![("host", tstr("cli-config.example"))]))])),
    );
    harness.env.push((
        "EXAMPLE_APP_SERVER_HOST".to_string(),
        "env.example".to_string(),
    ));

    let resolved = harness
        .resolve(
            &resolver,
            &[
                "example-app",
                "--config",
                "cli-config.toml",
                "--set",
                "server.host=set.example",
                "--server-host",
                "explicit.example",
            ],
        )
        .unwrap();

    assert_eq!(resolved.get("server.host"), Some(s("explicit.example")));
    assert_eq!(
        kinds(&resolved, "server.host"),
        vec![
            SourceKind::Default,
            SourceKind::SystemFile,
            SourceKind::InstallFile,
            SourceKind::UserFile,
            SourceKind::WorkingDirFile,
            SourceKind::Environment,
            SourceKind::CliConfigFile,
            SourceKind::CliSet,
            SourceKind::CliExplicit,
        ]
    );
}

#[test]
fn discovered_json_and_toml_warn_and_toml_wins_at_the_same_level() {
    let resolver = resolver();
    let mut harness = Harness::new();

    harness.write(
        &format!("{SYSTEM_DIR}/example-app.json"),
        json_file(obj(vec![("logging", obj(vec![("level", s("json-level"))]))])),
    );
    harness.write(
        &format!("{SYSTEM_DIR}/example-app.toml"),
        toml_file(table(vec![("logging", table(vec![("level", tstr("toml-level"))]))])),
    );

    let resolved = harness.resolve(&resolver, &["example-app"]).unwrap();

    assert_eq!(resolved.get("logging.level"), Some(s("toml-level")));
    assert_eq!(resolved.warnings().len(), 1);
    assert!(resolved.warnings()[0].contains("example-app.json"));
    assert!(resolved.warnings()[0].contains("example-app.toml"));
}

#[test]
fn install_relative_configuration_uses_the_executable_path() {
    let resolver = resolver();
    let mut harness = Harness::new();

    harness.write(
        &format!("{INSTALL_ETC}/example-app.json"),
        json_file(obj(vec![("logging", obj(vec![("level", s("install-only"))]))])),
    );

    let resolved = harness.resolve(&resolver, &["example-app"]).unwrap();

    assert_eq!(resolved.get("logging.level"), Some(s("install-only")));
}

#[test]
fn object_merge_is_recursive_and_querying_parent_keys_returns_subtrees() {
    let resolver = resolver();
    let mut harness = Harness::new();

    harness.write(
        &format!("{HOME_DIR}/.example-app/config.toml"),
        toml_file(table(vec![("server", table(vec![("host", tstr("merged.example"))]))])),
    );

    let resolved = harness.resolve(&resolver, &["example-app"]).unwrap();

    assert_eq!(resolved.get("server.host"), Some(s("merged.example")));
    assert_eq!(resolved.get("server.port"), Some(num(80)));
    assert_eq!(
        resolved.get("server"),
        Some(obj(vec![("host", s("merged.example")), ("port", num(80))]))
    );
}

#[test]
fn arrays_replace_across_levels_and_repeated_cli_values_collect_in_order() {
    let resolver = resolver();
    let mut harness = Harness::new();

    harness.write(
        &format!("{CWD}/example-app.toml"),
        toml_file(table(vec![(
            "ports",
            TomlValue::Array(vec![TomlValue::Integer(3), TomlValue::Integer(4)]),
        )])),
    );

    let resolved = harness
        .resolve(&resolver, &["example-app", "--ports", "7", "--ports", "8"])
        .unwrap();

    assert_eq!(
        resolved.get("ports"),
        Some(JsonValue::Array(vec![num(7), num(8)]))
    );
    let provenance = resolved.provenance("ports").unwrap();
    assert_eq!(provenance.history.len(), 3);
    assert_eq!(provenance.history[2].source.kind, SourceKind::CliExplicit);
}

#[test]
fn print_flags_and_toml_emitters_are_available() {
    let resolver = resolver();
    let harness = Harness::new();

    let resolved = harness
        .resolve(
            &resolver,
            &[
                "example-app",
                "--print-default-config",
                "--print-config",
                "--debug-config",
            ],
        )
        .unwrap();

    assert!(resolved.standard_flags().print_default_config);
    assert!(resolved.standard_flags().print_config);
    assert!(resolved.standard_flags().debug_config);

    let default_toml = resolver.emit_default_config().unwrap();
    assert!(default_toml.contains("host = \"default.example\""));
    assert!(default_toml.contains("level = \"warn\""));

    let resolved_toml = resolved.emit_toml().unwrap();
    assert!(resolved_toml.contains("port = 80"));
    assert!(resolved_toml.contains("enable_cache = false"));
}

#[test]
fn debug_output_includes_final_source_and_override_history() {
    let resolver = resolver();
    let mut harness = Harness::new();
    harness.env.push((
        "EXAMPLE_APP_SERVER_HOST".to_string(),
        "env.example".to_string(),
    ));

    let resolved = harness
        .resolve(&resolver, &["example-app", "--server-host", "explicit.example"])
        .unwrap();

    let debug = resolved.debug_output();
    assert!(debug.contains("server.host = \"explicit.example\""));
    assert!(debug.contains("final_source: cli_explicit"));
    assert!(debug.contains("1. default"));
    assert!(debug.contains("2. environment"));
    assert!(debug.contains("3. cli_explicit"));
}

#[test]
fn cli_config_files_are_loaded_left_to_right() {
    let resolver = resolver();
    let mut harness = Harness::new();

    harness.write(
        &format!("{CWD}/one.toml"),
        toml_file(table(vec![("logging", table(vec![("level", tstr("one"))]))])),
    );
    harness.write(
        &format!("{CWD}/two.toml"),
        toml_file(table(vec![("logging", table(vec![("level", tstr("two"))]))])),
    );

    let resolved = harness
        .resolve(
            &resolver,
            &["example-app", "--config", "one.toml", "--config", "two.toml"],
        )
        .unwrap();

    assert_eq!(resolved.get("logging.level"), Some(s("two")));
}

#[test]
fn cli_sets_are_loaded_left_to_right_and_explicit_flags_win_over_them() {
    let resolver = resolver();
    let harness = Harness::new();

    let resolved = harness
        .resolve(
            &resolver,
            &[
                "example-app",
                "--set",
                "logging.level=info",
                "--set",
                "logging.level=debug",
                "--logging-level",
                "error",
            ],
        )
        .unwrap();

    assert_eq!(resolved.get("logging.level"), Some(s("error")));
    assert_eq!(
        kinds(&resolved, "logging.level"),
        vec![
            SourceKind::Default,
            SourceKind::CliSet,
            SourceKind::CliSet,
            SourceKind::CliExplicit,
        ]
    );
}

#[test]
fn absent_discovered_files_do_not_cause_errors() {
    let resolver = resolver();
    let harness = Harness::new();

    let resolved = harness.resolve(&resolver, &["example-app"]).unwrap();

    assert_eq!(resolved.get("server.host"), Some(s("default.example")));
    assert!(resolved.warnings().is_empty());
}

#[test]
fn invalid_set_unknown_flags_and_type_conversion_fail_clearly() {
    let resolver = resolver();
    let harness = Harness::new();

    let invalid_set = harness
        .resolve(&resolver, &["example-app", "--set", "server.host"])
        .unwrap_err();
    assert!(matches!(invalid_set, LccpError::InvalidSetSyntax(_)));

    let unknown_flag = harness
        .resolve(&resolver, &["example-app", "--unknown-flag", "x"])
        .unwrap_err();
    assert!(matches!(unknown_flag, LccpError::UnknownFlag(_)));

    let type_error = harness
        .resolve(&resolver, &["example-app", "--server-port", "nope"])
        .unwrap_err();
    assert!(matches!(type_error, LccpError::TypeConversion { .. }));
}

#[test]
fn malformed_explicit_config_files_and_unsupported_formats_fail() {
    let resolver = resolver();
    let mut harness = Harness::new();

    harness.write(
        &format!("{CWD}/broken.json"),
        text_file("{not-json"),
    );
    harness.write(
        &format!("{CWD}/broken.toml"),
        text_file("server = {"),
    );
    harness.write(
        &format!("{CWD}/config.yaml"),
        text_file("server:\n  host: nope\n"),
    );
    harness.write(
        &format!("{CWD}/unreadable.toml"),
        FileState {
            is_file: false,
            read: Err("Is a directory (os error 21)".to_string()),
        },
    );

    let json_error = harness
        .resolve(&resolver, &["example-app", "--config", "broken.json"])
        .unwrap_err();
    assert!(matches!(json_error, LccpError::ParseJsonConfig { .. }));

    let toml_error = harness
        .resolve(&resolver, &["example-app", "--config", "broken.toml"])
        .unwrap_err();
    assert!(matches!(toml_error, LccpError::ParseTomlConfig { .. }));

    let format_error = harness
        .resolve(&resolver, &["example-app", "--config", "config.yaml"])
        .unwrap_err();
    assert!(matches!(
        format_error,
        LccpError::UnsupportedConfigFormat(_)
    ));

    let read_error = harness
        .resolve(&resolver, &["example-app", "--config", "unreadable.toml"])
        .unwrap_err();
    assert!(matches!(read_error, LccpError::ReadConfigFile { .. }));
}

#[test]
fn invalid_app_names_and_keys_are_rejected() {
    assert!(matches!(
        Resolver::new("Example-App", "/tmp/example-app"),
        Err(LccpError::InvalidAppName(_))
    ));
    assert!(matches!(
        OptionSpec::new("Server.Host", ValueType::String),
        Err(LccpError::InvalidCanonicalKey(_))
    ));

    let mut resolver = Resolver::new("example-app", EXECUTABLE).unwrap();
    let error = resolver
        .set_default("bad-key", JsonValue::String("x".to_string()))
        .unwrap_err();
    assert!(matches!(error, LccpError::InvalidCanonicalKey(_)));
}
