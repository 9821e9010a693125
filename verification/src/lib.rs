//! Lobster Configuration and Command-Line Parsing (LCCP).
//!
//! The crate resolves an application's configuration across defaults,
//! configuration files, the environment and the command line, and parses the
//! application's own command-line structure (flags, positionals, subcommands).
//! Every module is verified with Verus; reading files, the environment and
//! float readings of raw strings is left to the caller, which hands them in.

pub mod text;
pub mod error;
pub mod names;
pub mod value;
pub mod keyed;
pub mod specs;
pub mod command;
pub mod toml_value;
pub mod convert;
pub mod cli;
pub mod matching;
pub mod render;
pub mod resolved;
pub mod tree;
pub mod paths;
pub mod formats;
pub mod inputs;
pub mod help;
pub mod resolver;
pub mod laws;
