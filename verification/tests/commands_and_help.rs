use lccp::command::CommandSpec;
use lccp::convert::RawFacts;
use lccp::error::LccpError;
use lccp::inputs::{ConfigFiles, ResolveOptions};
use lccp::resolver::Resolver;
use lccp::specs::{CliOptionSpec, OptionSpec, PositionalSpec};
use lccp::value::{JsonNumber, JsonValue, ValueType};

fn s(text: &str) -> JsonValue {
    JsonValue::String(text.to_string())
}

fn options() -> ResolveOptions {
    ResolveOptions {
        cwd: "/work".to_string(),
        home_dir: None,
        env: Vec::new(),
        system_config_dir: "/etc".to_string(),
    }
}

fn argv(items: &[&str]) -> Vec<String> {
    items.iter().map(|a| a.to_string()).collect()
}

fn app() -> Resolver {
    let mut resolver = Resolver::new("deploy", "/usr/bin/deploy").unwrap();
    resolver
        .declare_option(
            OptionSpec::new("server.host", ValueType::String)
                .unwrap()
                .with_help("Host to bind")
                .with_value_name("HOST"),
        )
        .unwrap();
    resolver
        .declare_option(
            OptionSpec::new("verbose", ValueType::Boolean)
                .unwrap()
                .with_help("Talk more"),
        )
        .unwrap();
    let root = resolver.command_mut();
    root.add_option(
        CliOptionSpec::new("dry_run", "dry-run", ValueType::Boolean)
            .unwrap()
            .with_help("Only print what would happen"),
    )
    .unwrap();
    root.add_option(
        CliOptionSpec::repeated("label", "label", ValueType::String)
            .unwrap()
            .with_value_name("NAME"),
    )
    .unwrap();
    root.add_positional(
        PositionalSpec::new("target", ValueType::String)
            .unwrap()
            .with_help("Where to deploy"),
    )
    .unwrap();
    root.add_positional(
        PositionalSpec::new("extra", ValueType::Integer)
            .unwrap()
            .optional()
            .multiple(),
    )
    .unwrap();
    let mut status = CommandSpec::new("status").unwrap().with_help("Show status");
    status
        .add_option(
            CliOptionSpec::new("limit", "limit", ValueType::Integer)
                .unwrap()
                .required(true),
        )
        .unwrap();
    root.add_subcommand(status).unwrap();
    resolver
}

fn parse(resolver: &Resolver, args: &[&str]) -> Result<lccp::resolved::ResolvedConfig, LccpError> {
    resolver.resolve_with(&argv(args), &options(), &RawFacts::new(), &ConfigFiles::new())
}

#[test]
fn command_line_parts_are_matched() {
    let resolver = app();
    let resolved = parse(
        &resolver,
        &["deploy", "--dry-run", "--label", "a", "prod", "1", "--label=b", "2"],
    )
    .unwrap();
    let matches = resolved.command_matches();
    assert_eq!(matches.command_name(), "deploy");
    assert_eq!(matches.option("dry_run"), Some(&JsonValue::Bool(true)));
    assert_eq!(
        matches.option("label"),
        Some(&JsonValue::Array(vec![s("a"), s("b")]))
    );
    assert_eq!(matches.positional("target"), Some(&s("prod")));
    assert_eq!(
        matches.positional("extra"),
        Some(&JsonValue::Array(vec![
            JsonValue::Number(JsonNumber::PosInt(1)),
            JsonValue::Number(JsonNumber::PosInt(2)),
        ]))
    );
    assert!(matches.subcommand().is_none());
    assert!(!matches.help_requested());
}

#[test]
fn configuration_flags_are_taken_before_command_parsing() {
    let resolver = app();
    let resolved = parse(&resolver, &["deploy", "--verbose", "prod", "--server-host", "h"]).unwrap();
    assert_eq!(resolved.get("verbose"), Some(JsonValue::Bool(true)));
    assert_eq!(resolved.get("server.host"), Some(s("h")));
    assert_eq!(resolved.command_matches().positional("target"), Some(&s("prod")));
}

#[test]
fn subcommands_take_the_rest_of_the_arguments() {
    let resolver = app();
    let resolved = parse(&resolver, &["deploy", "prod", "status", "--limit", "3"]).unwrap();
    let sub = resolved.command_matches().subcommand().unwrap();
    assert_eq!(sub.command_name(), "status");
    assert_eq!(
        sub.option("limit"),
        Some(&JsonValue::Number(JsonNumber::PosInt(3)))
    );
}

#[test]
fn command_line_errors_are_reported() {
    let resolver = app();
    match parse(&resolver, &["deploy"]).unwrap_err() {
        LccpError::MissingRequiredPositional {
            command,
            positional,
        } => {
            assert_eq!(command, "deploy");
            assert_eq!(positional, "target");
        }
        other => panic!("unexpected error {other:?}"),
    }
    match parse(&resolver, &["deploy", "prod", "status"]).unwrap_err() {
        LccpError::MissingRequiredCliOption { command, option } => {
            assert_eq!(command, "status");
            assert_eq!(option, "limit");
        }
        other => panic!("unexpected error {other:?}"),
    }
    match parse(&resolver, &["deploy", "prod", "status", "--limit", "1", "more"]).unwrap_err() {
        LccpError::UnexpectedPositional { command, value } => {
            assert_eq!(command, "status");
            assert_eq!(value, "more");
        }
        other => panic!("unexpected error {other:?}"),
    }
    match parse(&resolver, &["deploy", "--nope"]).unwrap_err() {
        LccpError::UnknownFlag(flag) => assert_eq!(flag, "--nope"),
        other => panic!("unexpected error {other:?}"),
    }
    match parse(&resolver, &["deploy", "prod", "x"]).unwrap_err() {
        LccpError::TypeConversion { key, expected, raw } => {
            assert_eq!(key, "extra");
            assert_eq!(expected, "integer");
            assert_eq!(raw, "x");
        }
        other => panic!("unexpected error {other:?}"),
    }
}

#[test]
fn double_dash_ends_options() {
    let resolver = app();
    let resolved = parse(&resolver, &["deploy", "--", "--dry-run"]).unwrap();
    assert_eq!(
        resolved.command_matches().positional("target"),
        Some(&s("--dry-run"))
    );
    assert_eq!(resolved.command_matches().option("dry_run"), None);
}

#[test]
fn help_path_names_the_command_given_help() {
    let resolver = app();
    let resolved = parse(&resolver, &["deploy", "prod", "status", "--help", "--limit", "1"]).unwrap();
    let path = resolved.command_matches().help_command_path().unwrap();
    assert_eq!(path, vec!["deploy".to_string(), "status".to_string()]);
    let help = resolver.render_help_for(&path).unwrap();
    assert!(help.starts_with("Usage: deploy status [OPTIONS]\n"));
}

#[test]
fn root_help_is_exact() {
    let resolver = app();
    let expected = [
        "Usage: deploy [OPTIONS] [SUBCOMMAND] <target> [extra]...\n",
        "\n",
        "Standard Options:\n",
        "  --help                   Show help for this command\n",
        "  --config <PATH>          Load an additional JSON or TOML config file\n",
        "  --set <KEY=VALUE>        Apply a generic configuration override\n",
        "  --print-default-config   Emit default configuration as TOML\n",
        "  --print-config           Emit resolved configuration as TOML\n",
        "  --debug-config           Emit resolved configuration with provenance\n",
        "\n",
        "Configuration Options:\n",
        "  --server-host <HOST>  Host to bind\n",
        "  --verbose  Talk more\n",
        "\n",
        "Options:\n",
        "  --dry-run  Only print what would happen\n",
        "  --label <NAME>\n",
        "\n",
        "Positionals:\n",
        "  target                Where to deploy\n",
        "  extra...\n",
        "\n",
        "Subcommands:\n",
        "  status                Show status\n",
    ]
        .concat();
    assert_eq!(resolver.render_help(), expected);
}

#[test]
fn subcommand_help_is_exact() {
    let resolver = app();
    let expected = [
        "Usage: deploy status [OPTIONS]\n",
        "\n",
        "Show status\n",
        "\n",
        "Standard Options:\n",
        "  --help                   Show help for this command\n",
        "  --config <PATH>          Load an additional JSON or TOML config file\n",
        "  --set <KEY=VALUE>        Apply a generic configuration override\n",
        "  --print-default-config   Emit default configuration as TOML\n",
        "  --print-config           Emit resolved configuration as TOML\n",
        "  --debug-config           Emit resolved configuration with provenance\n",
        "\n",
        "Configuration Options:\n",
        "  --server-host <HOST>  Host to bind\n",
        "  --verbose  Talk more\n",
        "\n",
        "Options:\n",
        "  --limit <INTEGER>\n",
    ]
        .concat();
    assert_eq!(
        resolver.render_help_for(&argv(&["status"])).unwrap(),
        expected
    );
    assert_eq!(
        resolver.render_help_for(&argv(&["deploy", "status"])).unwrap(),
        expected
    );
}

#[test]
fn unknown_help_paths_are_refused() {
    let resolver = app();
    match resolver.render_help_for(&argv(&["deploy", "nope"])).unwrap_err() {
        LccpError::UnknownCommandPath(path) => assert_eq!(path, "deploy nope"),
        other => panic!("unexpected error {other:?}"),
    }
}

#[test]
fn command_declarations_reject_duplicates_and_bad_names() {
    let mut command = CommandSpec::new("tool").unwrap();
    command
        .add_option(CliOptionSpec::new("level", "level", ValueType::Integer).unwrap())
        .unwrap();
    assert!(matches!(
        command.add_option(CliOptionSpec::new("level", "other", ValueType::Integer).unwrap()),
        Err(LccpError::DuplicateCliOption(_))
    ));
    assert!(matches!(
        command.add_option(CliOptionSpec::new("depth", "level", ValueType::Integer).unwrap()),
        Err(LccpError::DuplicateFlag(_))
    ));
    command
        .add_positional(PositionalSpec::new("files", ValueType::String).unwrap().multiple())
        .unwrap();
    assert!(matches!(
        command.add_positional(PositionalSpec::new("files", ValueType::String).unwrap()),
        Err(LccpError::DuplicatePositional(_))
    ));
    assert!(matches!(
        command.add_positional(PositionalSpec::new("more", ValueType::String).unwrap()),
        Err(LccpError::InvalidPositionalLayout(_))
    ));
    command.add_subcommand(CommandSpec::new("sub").unwrap()).unwrap();
    assert!(matches!(
        command.add_subcommand(CommandSpec::new("sub").unwrap()),
        Err(LccpError::DuplicateSubcommand(_))
    ));
    assert!(matches!(CommandSpec::new("Bad"), Err(LccpError::InvalidCommandName(_))));
    assert!(matches!(
        CliOptionSpec::new("bad-name", "flag", ValueType::String),
        Err(LccpError::InvalidArgumentName(_))
    ));
    assert!(matches!(
        CliOptionSpec::new("name", "-flag", ValueType::String),
        Err(LccpError::InvalidLongFlag(_))
    ));
    assert!(matches!(
        CliOptionSpec::new("name", "flag-", ValueType::String),
        Err(LccpError::InvalidLongFlag(_))
    ));
}

#[test]
fn command_tables_stay_consistent() {
    let mut command = CommandSpec::new("tool").unwrap();
    command
        .add_option(CliOptionSpec::new("beta", "beta-flag", ValueType::String).unwrap())
        .unwrap();
    command
        .add_option(CliOptionSpec::new("alpha", "alpha-flag", ValueType::String).unwrap())
        .unwrap();
    match command.add_option(CliOptionSpec::new("gamma", "beta-flag", ValueType::String).unwrap()) {
        Err(LccpError::DuplicateFlag(flag)) => assert_eq!(flag, "beta-flag"),
        other => panic!("unexpected {other:?}"),
    }
    let names: Vec<&str> = command.options().iter().map(|(k, _)| k.as_str()).collect();
    assert_eq!(names, vec!["alpha", "beta"]);
    for (key, option) in command.options() {
        assert_eq!(key, option.name());
    }
    command.add_subcommand(CommandSpec::new("run").unwrap()).unwrap();
    assert!(command.subcommand("run").is_some());
    assert!(command.subcommand("ru").is_none());
    assert!(command.subcommand("RUN").is_none());
    command
        .add_positional(PositionalSpec::new("first", ValueType::String).unwrap())
        .unwrap();
    command
        .add_positional(PositionalSpec::new("rest", ValueType::String).unwrap().multiple())
        .unwrap();
    match command.add_positional(PositionalSpec::new("after", ValueType::String).unwrap()) {
        Err(LccpError::InvalidPositionalLayout(name)) => assert_eq!(name, "tool"),
        other => panic!("unexpected {other:?}"),
    }
    let positionals: Vec<&str> = command.positionals().iter().map(|p| p.name()).collect();
    assert_eq!(positionals, vec!["first", "rest"]);
}
