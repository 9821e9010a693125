use lccp::error::LccpError;
use lccp::names::{canonical_key_to_flag, env_name_for, validate_canonical_key};
use lccp::paths::{config_format, install_dir, is_absolute, join_path, normalize_path, path_extension, ConfigFormat};
use lccp::render::{decimal_string, render_value};
use lccp::resolved::SourceKind;
use lccp::toml_value::{toml_to_json, TomlValue};
use lccp::tree::{insert_value_at_path, json_to_toml, split_dots};
use lccp::convert::{parse_raw_for_value_type, parse_untyped_cli_value, RawFact, RawFacts};
use lccp::value::{JsonNumber, JsonValue, ValueType};

#[test]
fn paths_join_like_unix_paths() {
    assert_eq!(join_path("/a", "b"), "/a/b");
    assert_eq!(join_path("/a/", "b"), "/a/b");
    assert_eq!(join_path("/a", "/b"), "/b");
    assert_eq!(join_path("", "b"), "b");
    assert!(is_absolute("/x"));
    assert!(!is_absolute("x/y"));
    assert!(!is_absolute(""));
}

#[test]
fn normalization_is_lexical() {
    assert_eq!(normalize_path("/a/./b/../c"), "/a/c");
    assert_eq!(normalize_path("a//b/"), "a/b");
    assert_eq!(normalize_path("../x"), "x");
    assert_eq!(normalize_path("/../x"), "/x");
    assert_eq!(normalize_path("./"), "");
    assert_eq!(normalize_path("/"), "/");
    assert_eq!(normalize_path("/work/../elsewhere/missing.toml"), "/elsewhere/missing.toml");
}

#[test]
fn installation_directory_sits_beside_the_binary_directory() {
    assert_eq!(install_dir("/opt/app/bin/app"), "/opt/app/etc");
    assert_eq!(install_dir("bin/app"), "etc");
    assert_eq!(install_dir("app"), "etc");
    assert_eq!(install_dir("/"), "etc");
    assert_eq!(install_dir("/usr/bin/"), "/etc");
}

#[test]
fn extensions_select_the_format() {
    assert_eq!(path_extension("/a/b.json"), Some("json".to_string()));
    assert_eq!(path_extension("/a/b.tar.gz"), Some("gz".to_string()));
    assert_eq!(path_extension("/a/.json"), None);
    assert_eq!(path_extension("/a/b"), None);
    assert_eq!(path_extension("/a/b."), Some(String::new()));
    assert_eq!(path_extension("/a/b.toml/.."), None);
    assert_eq!(config_format("x.json").unwrap(), ConfigFormat::Json);
    assert_eq!(config_format("dir/x.toml").unwrap(), ConfigFormat::Toml);
    match config_format("x.JSON").unwrap_err() {
        LccpError::UnsupportedConfigFormat(path) => assert_eq!(path, "x.JSON"),
        other => panic!("unexpected error {other:?}"),
    }
    assert!(config_format(".toml").is_err());
}

#[test]
fn keys_map_to_flags_and_environment_names() {
    assert_eq!(canonical_key_to_flag("a.b_c"), "a-b-c");
    assert_eq!(env_name_for("my-app", "a.b_c"), "MY_APP_A_B_C");
    assert!(validate_canonical_key("a.b").is_ok());
    assert!(validate_canonical_key("a..b").is_err());
    assert!(validate_canonical_key(".a").is_err());
    assert!(validate_canonical_key("a.").is_err());
    assert!(validate_canonical_key("").is_err());
    assert!(validate_canonical_key("a-b").is_err());
}

#[test]
fn values_render_as_json_or_quoted_strings() {
    assert_eq!(render_value(&JsonValue::String("a\tb".to_string())), "\"a\\tb\"");
    assert_eq!(render_value(&JsonValue::Null), "null");
    assert_eq!(
        render_value(&JsonValue::Number(JsonNumber::NegInt(-12))),
        "-12"
    );
    assert_eq!(
        render_value(&JsonValue::Number(JsonNumber::Float(2.5f64.to_bits(), "2.5".to_string()))),
        "2.5"
    );
    assert_eq!(
        render_value(&JsonValue::Array(vec![
            JsonValue::Bool(false),
            JsonValue::String("x\u{1}y".to_string()),
        ])),
        "[false,\"x\\u0001y\"]"
    );
    assert_eq!(
        render_value(&JsonValue::Object(vec![
            ("k\"".to_string(), JsonValue::Number(JsonNumber::PosInt(0))),
            ("z".to_string(), JsonValue::Array(vec![])),
        ])),
        "{\"k\\\"\":0,\"z\":[]}"
    );
}

#[test]
fn decimals_have_no_leading_zeros() {
    assert_eq!(decimal_string(0), "0");
    assert_eq!(decimal_string(7), "7");
    assert_eq!(decimal_string(1200), "1200");
    assert_eq!(decimal_string(u64::MAX), "18446744073709551615");
}

#[test]
fn dotted_paths_place_values_in_nested_objects() {
    assert_eq!(split_dots("a..b"), vec!["a", "", "b"]);
    assert_eq!(split_dots(""), vec![""]);
    let root = JsonValue::Object(vec![]);
    let root = insert_value_at_path(root, "b.c", JsonValue::Bool(true));
    let root = insert_value_at_path(root, "a", JsonValue::Null);
    let root = insert_value_at_path(root, "b.d", JsonValue::Bool(false));
    assert_eq!(
        root,
        JsonValue::Object(vec![
            ("a".to_string(), JsonValue::Null),
            (
                "b".to_string(),
                JsonValue::Object(vec![
                    ("c".to_string(), JsonValue::Bool(true)),
                    ("d".to_string(), JsonValue::Bool(false)),
                ])
            ),
        ])
    );
    let replaced = insert_value_at_path(root, "a.x", JsonValue::Null);
    match replaced {
        JsonValue::Object(members) => {
            assert_eq!(
                members[0],
                (
                    "a".to_string(),
                    JsonValue::Object(vec![("x".to_string(), JsonValue::Null)])
                )
            );
        }
        _ => panic!("expected an object"),
    }
}

#[test]
fn source_kinds_have_their_names() {
    assert_eq!(SourceKind::Default.label(), "default");
    assert_eq!(SourceKind::WorkingDirFile.label(), "working_dir_file");
    assert_eq!(SourceKind::CliConfigFile.label(), "cli_config_file");
    assert_eq!(SourceKind::CliExplicit.label(), "cli_explicit");
}

#[test]
fn toml_round_trip_keeps_documents() {
    let doc = JsonValue::Object(vec![
        ("a".to_string(), JsonValue::Array(vec![
            JsonValue::Number(JsonNumber::PosInt(7)),
            JsonValue::Number(JsonNumber::NegInt(-3)),
        ])),
        ("b".to_string(), JsonValue::Object(vec![
            ("c".to_string(), JsonValue::Bool(true)),
            ("d".to_string(), JsonValue::String("x y".to_string())),
        ])),
        ("e".to_string(), JsonValue::Number(JsonNumber::Float(1.5f64.to_bits(), "1.5".to_string()))),
    ]);
    let toml = json_to_toml(&doc).unwrap();
    assert!(matches!(toml, TomlValue::Table(_)));
    assert_eq!(toml_to_json(&toml).unwrap(), doc);
}

#[test]
fn toml_cannot_hold_null_or_huge_integers() {
    assert!(matches!(json_to_toml(&JsonValue::Null), Err(LccpError::SerializeToml(_))));
    let big = JsonValue::Number(JsonNumber::PosInt(u64::MAX));
    assert!(matches!(json_to_toml(&big), Err(LccpError::SerializeToml(_))));
}

#[test]
fn json_round_trip_keeps_toml_values() {
    let toml = TomlValue::Table(vec![
        ("a".to_string(), TomlValue::Integer(-4)),
        ("b".to_string(), TomlValue::Array(vec![TomlValue::Integer(3), TomlValue::Boolean(false)])),
        ("c".to_string(), TomlValue::Table(vec![("d".to_string(), TomlValue::String("e".to_string()))])),
        ("f".to_string(), TomlValue::Float(0.25f64.to_bits(), "0.25".to_string())),
    ]);
    let json = toml_to_json(&toml).unwrap();
    assert_eq!(json_to_toml(&json).unwrap(), toml);
}

#[test]
fn toml_to_json_fails_exactly_on_non_finite_floats() {
    let inf = TomlValue::Table(vec![(
        "a".to_string(),
        TomlValue::Array(vec![TomlValue::Integer(1), TomlValue::Float(f64::INFINITY.to_bits(), "inf".to_string())]),
    )]);
    assert!(matches!(toml_to_json(&inf), Err(LccpError::SerializeToml(_))));
    let fine = TomlValue::Table(vec![(
        "a".to_string(),
        TomlValue::Array(vec![TomlValue::Integer(1), TomlValue::Float(2.0f64.to_bits(), "2.0".to_string())]),
    )]);
    assert!(toml_to_json(&fine).is_ok());
}

#[test]
fn raw_values_are_read_by_type() {
    let ints = ValueType::Array(Box::new(ValueType::Integer));
    let mut facts = RawFacts::new();
    facts.insert("1.5", RawFact { float: Some((1.5f64.to_bits(), "1.5".to_string())) });
    assert_eq!(
        parse_raw_for_value_type("k", &ints, "[1, 2]", &facts).unwrap(),
        JsonValue::Array(vec![JsonValue::Number(JsonNumber::PosInt(1)), JsonValue::Number(JsonNumber::PosInt(2))])
    );
    match parse_raw_for_value_type("k", &ints, "7", &facts).unwrap_err() {
        LccpError::TypeConversion { key, expected, raw } => {
            assert_eq!((key.as_str(), expected.as_str(), raw.as_str()), ("k", "array<integer>", "7"))
        }
        other => panic!("unexpected {other:?}"),
    }
    match parse_raw_for_value_type("k", &ints, "[\"a\"]", &facts).unwrap_err() {
        LccpError::TypeMismatch { key, expected, actual } => {
            assert_eq!((key.as_str(), expected.as_str(), actual.as_str()), ("k", "integer", "string"))
        }
        other => panic!("unexpected {other:?}"),
    }
    assert_eq!(
        parse_raw_for_value_type("k", &ValueType::Float, "1.5", &facts).unwrap(),
        JsonValue::Number(JsonNumber::Float(1.5f64.to_bits(), "1.5".to_string()))
    );
    assert!(matches!(
        parse_raw_for_value_type("k", &ValueType::Float, "x", &facts),
        Err(LccpError::TypeConversion { .. })
    ));
    assert_eq!(
        parse_untyped_cli_value("{ a = 1 }", &facts),
        JsonValue::Object(vec![("a".to_string(), JsonValue::Number(JsonNumber::PosInt(1)))])
    );
    assert_eq!(parse_untyped_cli_value("plain words", &facts), JsonValue::String("plain words".to_string()));
}
