//! The library's error type.

use vstd::prelude::*;

verus! {

/// Every way in which declaring a schema, parsing a command line or
/// resolving a configuration can fail.
#[derive(Debug)]
pub enum LccpError {
    InvalidAppName(String),
    InvalidCanonicalKey(String),
    InvalidCommandName(String),
    InvalidArgumentName(String),
    InvalidLongFlag(String),
    DuplicateOption(String),
    DuplicateCliOption(String),
    DuplicateFlag(String),
    DuplicatePositional(String),
    InvalidPositionalLayout(String),
    DuplicateSubcommand(String),
    MissingArgumentValue(String),
    UnknownFlag(String),
    UnknownCommandPath(String),
    MissingRequiredCliOption { command: String, option: String },
    MissingRequiredPositional { command: String, positional: String },
    UnexpectedPositional { command: String, value: String },
    InvalidSetSyntax(String),
    UnsupportedConfigFormat(String),
    ReadConfigFile { path: String, source: String, read_context: String },
    ParseJsonConfig { path: String, message: String },
    ParseTomlConfig { path: String, message: String },
    InvalidConfigRoot(String),
    TypeConversion { key: String, expected: String, raw: String },
    TypeMismatch { key: String, expected: String, actual: String },
    SerializeToml(String),
}

/// The model of an error: the same variants, with strings as character
/// sequences.
pub enum ErrorView {
    InvalidAppName(Seq<char>),
    InvalidCanonicalKey(Seq<char>),
    InvalidCommandName(Seq<char>),
    InvalidArgumentName(Seq<char>),
    InvalidLongFlag(Seq<char>),
    DuplicateOption(Seq<char>),
    DuplicateCliOption(Seq<char>),
    DuplicateFlag(Seq<char>),
    DuplicatePositional(Seq<char>),
    InvalidPositionalLayout(Seq<char>),
    DuplicateSubcommand(Seq<char>),
    MissingArgumentValue(Seq<char>),
    UnknownFlag(Seq<char>),
    UnknownCommandPath(Seq<char>),
    MissingRequiredCliOption { command: Seq<char>, option: Seq<char> },
    MissingRequiredPositional { command: Seq<char>, positional: Seq<char> },
    UnexpectedPositional { command: Seq<char>, value: Seq<char> },
    InvalidSetSyntax(Seq<char>),
    UnsupportedConfigFormat(Seq<char>),
    ReadConfigFile { path: Seq<char>, source: Seq<char>, read_context: Seq<char> },
    ParseJsonConfig { path: Seq<char>, message: Seq<char> },
    ParseTomlConfig { path: Seq<char>, message: Seq<char> },
    InvalidConfigRoot(Seq<char>),
    TypeConversion { key: Seq<char>, expected: Seq<char>, raw: Seq<char> },
    TypeMismatch { key: Seq<char>, expected: Seq<char>, actual: Seq<char> },
    SerializeToml(Seq<char>),
}

impl View for LccpError {
    type V = ErrorView;

    open spec fn view(&self) -> ErrorView {
        match self {
            LccpError::InvalidAppName(a) => ErrorView::InvalidAppName(a@),
            LccpError::InvalidCanonicalKey(a) => ErrorView::InvalidCanonicalKey(a@),
            LccpError::InvalidCommandName(a) => ErrorView::InvalidCommandName(a@),
            LccpError::InvalidArgumentName(a) => ErrorView::InvalidArgumentName(a@),
            LccpError::InvalidLongFlag(a) => ErrorView::InvalidLongFlag(a@),
            LccpError::DuplicateOption(a) => ErrorView::DuplicateOption(a@),
            LccpError::DuplicateCliOption(a) => ErrorView::DuplicateCliOption(a@),
            LccpError::DuplicateFlag(a) => ErrorView::DuplicateFlag(a@),
            LccpError::DuplicatePositional(a) => ErrorView::DuplicatePositional(a@),
            LccpError::InvalidPositionalLayout(a) => ErrorView::InvalidPositionalLayout(a@),
            LccpError::DuplicateSubcommand(a) => ErrorView::DuplicateSubcommand(a@),
            LccpError::MissingArgumentValue(a) => ErrorView::MissingArgumentValue(a@),
            LccpError::UnknownFlag(a) => ErrorView::UnknownFlag(a@),
            LccpError::UnknownCommandPath(a) => ErrorView::UnknownCommandPath(a@),
            LccpError::MissingRequiredCliOption { command, option } => ErrorView::MissingRequiredCliOption {
                command: command@,
                option: option@,
            },
            LccpError::MissingRequiredPositional { command, positional } => ErrorView::MissingRequiredPositional {
                command: command@,
                positional: positional@,
            },
            LccpError::UnexpectedPositional { command, value } => ErrorView::UnexpectedPositional {
                command: command@,
                value: value@,
            },
            LccpError::InvalidSetSyntax(a) => ErrorView::InvalidSetSyntax(a@),
            LccpError::UnsupportedConfigFormat(a) => ErrorView::UnsupportedConfigFormat(a@),
            LccpError::ReadConfigFile { path, source, read_context } => ErrorView::ReadConfigFile {
                path: path@,
                source: source@,
                read_context: read_context@,
            },
            LccpError::ParseJsonConfig { path, message } => ErrorView::ParseJsonConfig {
                path: path@,
                message: message@,
            },
            LccpError::ParseTomlConfig { path, message } => ErrorView::ParseTomlConfig {
                path: path@,
                message: message@,
            },
            LccpError::InvalidConfigRoot(a) => ErrorView::InvalidConfigRoot(a@),
            LccpError::TypeConversion { key, expected, raw } => ErrorView::TypeConversion {
                key: key@,
                expected: expected@,
                raw: raw@,
            },
            LccpError::TypeMismatch { key, expected, actual } => ErrorView::TypeMismatch {
                key: key@,
                expected: expected@,
                actual: actual@,
            },
            LccpError::SerializeToml(a) => ErrorView::SerializeToml(a@),
        }
    }
}

/// The model of a result whose value has a view.
pub open spec fn result_view<T: View>(r: Result<T, LccpError>) -> Result<T::V, ErrorView> {
    match r {
        Ok(v) => Ok(v@),
        Err(e) => Err(e@),
    }
}

} // verus!
