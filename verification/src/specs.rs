//! Declarations of configuration options, application options and
//! positionals.

use vstd::prelude::*;
use crate::error::LccpError;
use crate::names::{
    canonical_key_to_flag, is_valid_argument_name, is_valid_canonical_key, is_valid_long_flag,
    key_to_flag, validate_argument_name, validate_canonical_key, validate_long_flag,
};
use crate::text::copy_str;
use crate::value::ValueType;

verus! {

/// The model of an optional string.
pub open spec fn opt_view(o: Option<String>) -> Option<Seq<char>> {
    match o {
        Some(s) => Some(s@),
        None => None,
    }
}

/// Borrows the string inside an optional string.
pub fn opt_as_str(o: &Option<String>) -> (r: Option<&str>)
    ensures
        match r {
            Some(s) => opt_view(*o) == Some(s@),
            None => o is None,
        },
{
    match o {
        Some(s) => Some(s.as_str()),
        None => None,
    }
}

/// The model of a configuration option declaration.
pub struct OptionSpecView {
    pub key: Seq<char>,
    pub value_type: ValueType,
    pub repeated_cli: bool,
    pub long_flag: Seq<char>,
    pub help: Option<Seq<char>>,
    pub value_name: Option<Seq<char>>,
}

/// A declared configuration option: its canonical key, value type, the
/// long flag derived from the key, and help text.
#[derive(Debug)]
pub struct OptionSpec {
    key: String,
    value_type: ValueType,
    repeated_cli: bool,
    long_flag: String,
    help: Option<String>,
    value_name: Option<String>,
}

impl View for OptionSpec {
    type V = OptionSpecView;

    closed spec fn view(&self) -> OptionSpecView {
        OptionSpecView {
            key: self.key@,
            value_type: self.value_type,
            repeated_cli: self.repeated_cli,
            long_flag: self.long_flag@,
            help: opt_view(self.help),
            value_name: opt_view(self.value_name),
        }
    }
}

impl OptionSpec {
    /// The declaration is consistent: valid key, flag derived from it, and
    /// an array type for options collected from repeated flags.
    pub open spec fn wf(self) -> bool {
        &&& is_valid_canonical_key(self@.key)
        &&& self@.long_flag == key_to_flag(self@.key)
        &&& self@.repeated_cli ==> self@.value_type is Array
    }

    /// Declares an option with the given canonical key and value type.
    pub fn new(key: &str, value_type: ValueType) -> (r: Result<OptionSpec, LccpError>)
        ensures
            r is Ok <==> is_valid_canonical_key(key@),
            r matches Err(e) ==> e matches LccpError::InvalidCanonicalKey(k) && k@ == key@,
            r matches Ok(s) ==> s.wf() && s@ == (OptionSpecView {
                key: key@,
                value_type: value_type,
                repeated_cli: false,
                long_flag: key_to_flag(key@),
                help: None,
                value_name: None,
            }),
    {
        validate_canonical_key(key)?;
        Ok(OptionSpec {
            long_flag: canonical_key_to_flag(key),
            key: copy_str(key),
            value_type,
            repeated_cli: false,
            help: None,
            value_name: None,
        })
    }

    /// Declares an option whose long flag may be given several times, each
    /// occurrence adding one element of `element_type` to an array.
    pub fn repeated(key: &str, element_type: ValueType) -> (r: Result<OptionSpec, LccpError>)
        ensures
            r is Ok <==> is_valid_canonical_key(key@),
            r matches Err(e) ==> e matches LccpError::InvalidCanonicalKey(k) && k@ == key@,
            r matches Ok(s) ==> s.wf() && s@ == (OptionSpecView {
                key: key@,
                value_type: ValueType::Array(Box::new(element_type)),
                repeated_cli: true,
                long_flag: key_to_flag(key@),
                help: None,
                value_name: None,
            }),
    {
        validate_canonical_key(key)?;
        Ok(OptionSpec {
            long_flag: canonical_key_to_flag(key),
            key: copy_str(key),
            value_type: ValueType::Array(Box::new(element_type)),
            repeated_cli: true,
            help: None,
            value_name: None,
        })
    }

    /// Sets the help text.
    pub fn with_help(self, help: &str) -> (r: OptionSpec)
        ensures
            r@ == (OptionSpecView { help: Some(help@), ..self@ }),
    {
        OptionSpec { help: Some(copy_str(help)), ..self }
    }

    /// Sets the placeholder shown for the value in help text.
    pub fn with_value_name(self, value_name: &str) -> (r: OptionSpec)
        ensures
            r@ == (OptionSpecView { value_name: Some(value_name@), ..self@ }),
    {
        OptionSpec { value_name: Some(copy_str(value_name)), ..self }
    }

    /// The canonical key.
    pub fn key(&self) -> (r: &str)
        ensures
            r@ == self@.key,
    {
        self.key.as_str()
    }

    /// The value type.
    pub fn value_type(&self) -> (r: &ValueType)
        ensures
            *r == self@.value_type,
    {
        &self.value_type
    }

    /// The long flag (without `--`).
    pub fn long_flag(&self) -> (r: &str)
        ensures
            r@ == self@.long_flag,
    {
        self.long_flag.as_str()
    }

    /// Whether the long flag collects repeated occurrences.
    pub fn repeated_cli(&self) -> (r: bool)
        ensures
            r == self@.repeated_cli,
    {
        self.repeated_cli
    }

    /// The help text, if any.
    pub fn help(&self) -> (r: Option<&str>)
        ensures
            r matches Some(s) ==> self@.help == Some(s@),
            r is None ==> self@.help is None,
    {
        opt_as_str(&self.help)
    }

    /// The value placeholder, if any.
    pub fn value_name(&self) -> (r: Option<&str>)
        ensures
            r matches Some(s) ==> self@.value_name == Some(s@),
            r is None ==> self@.value_name is None,
    {
        opt_as_str(&self.value_name)
    }
}

/// The model of an application option declaration.
pub struct CliOptionSpecView {
    pub name: Seq<char>,
    pub long_flag: Seq<char>,
    pub value_type: ValueType,
    pub repeated: bool,
    pub required: bool,
    pub help: Option<Seq<char>>,
    pub value_name: Option<Seq<char>>,
}

/// An application option of a command: its name, long flag, value type,
/// and whether it repeats or is required.
#[derive(Debug)]
pub struct CliOptionSpec {
    name: String,
    long_flag: String,
    value_type: ValueType,
    repeated: bool,
    required: bool,
    help: Option<String>,
    value_name: Option<String>,
}

impl View for CliOptionSpec {
    type V = CliOptionSpecView;

    closed spec fn view(&self) -> CliOptionSpecView {
        CliOptionSpecView {
            name: self.name@,
            long_flag: self.long_flag@,
            value_type: self.value_type,
            repeated: self.repeated,
            required: self.required,
            help: opt_view(self.help),
            value_name: opt_view(self.value_name),
        }
    }
}

impl CliOptionSpec {
    /// The declaration is consistent: valid names, and an array type for
    /// repeated options.
    pub open spec fn wf(self) -> bool {
        &&& is_valid_argument_name(self@.name)
        &&& is_valid_long_flag(self@.long_flag)
        &&& self@.repeated ==> self@.value_type is Array
    }

    /// Declares an application option.
    pub fn new(name: &str, long_flag: &str, value_type: ValueType) -> (r: Result<
        CliOptionSpec,
        LccpError,
    >)
        ensures
            r is Ok <==> is_valid_argument_name(name@) && is_valid_long_flag(long_flag@),
            r matches Err(e) ==> if !is_valid_argument_name(name@) {
                e matches LccpError::InvalidArgumentName(n) && n@ == name@
            } else {
                e matches LccpError::InvalidLongFlag(f) && f@ == long_flag@
            },
            r matches Ok(s) ==> s.wf() && s@ == (CliOptionSpecView {
                name: name@,
                long_flag: long_flag@,
                value_type: value_type,
                repeated: false,
                required: false,
                help: None,
                value_name: None,
            }),
    {
        validate_argument_name(name)?;
        validate_long_flag(long_flag)?;
        Ok(CliOptionSpec {
            name: copy_str(name),
            long_flag: copy_str(long_flag),
            value_type,
            repeated: false,
            required: false,
            help: None,
            value_name: None,
        })
    }

    /// Declares an application option that may be given several times,
    /// each occurrence adding one element of `element_type` to an array.
    pub fn repeated(name: &str, long_flag: &str, element_type: ValueType) -> (r: Result<
        CliOptionSpec,
        LccpError,
    >)
        ensures
            r is Ok <==> is_valid_argument_name(name@) && is_valid_long_flag(long_flag@),
            r matches Err(e) ==> if !is_valid_argument_name(name@) {
                e matches LccpError::InvalidArgumentName(n) && n@ == name@
            } else {
                e matches LccpError::InvalidLongFlag(f) && f@ == long_flag@
            },
            r matches Ok(s) ==> s.wf() && s@ == (CliOptionSpecView {
                name: name@,
                long_flag: long_flag@,
                value_type: ValueType::Array(Box::new(element_type)),
                repeated: true,
                required: false,
                help: None,
                value_name: None,
            }),
    {
        validate_argument_name(name)?;
        validate_long_flag(long_flag)?;
        Ok(CliOptionSpec {
            name: copy_str(name),
            long_flag: copy_str(long_flag),
            value_type: ValueType::Array(Box::new(element_type)),
            repeated: true,
            required: false,
            help: None,
            value_name: None,
        })
    }

    /// Sets the help text.
    pub fn with_help(self, help: &str) -> (r: CliOptionSpec)
        ensures
            r@ == (CliOptionSpecView { help: Some(help@), ..self@ }),
    {
        CliOptionSpec { help: Some(copy_str(help)), ..self }
    }

    /// Sets the placeholder shown for the value in help text.
    pub fn with_value_name(self, value_name: &str) -> (r: CliOptionSpec)
        ensures
            r@ == (CliOptionSpecView { value_name: Some(value_name@), ..self@ }),
    {
        CliOptionSpec { value_name: Some(copy_str(value_name)), ..self }
    }

    /// Sets whether the option must be given.
    pub fn required(self, required: bool) -> (r: CliOptionSpec)
        ensures
            r@ == (CliOptionSpecView { required: required, ..self@ }),
    {
        CliOptionSpec { required, ..self }
    }

    /// The option's name.
    pub fn name(&self) -> (r: &str)
        ensures
            r@ == self@.name,
    {
        self.name.as_str()
    }

    /// The long flag (without `--`).
    pub fn long_flag(&self) -> (r: &str)
        ensures
            r@ == self@.long_flag,
    {
        self.long_flag.as_str()
    }

    /// The value type.
    pub fn value_type(&self) -> (r: &ValueType)
        ensures
            *r == self@.value_type,
    {
        &self.value_type
    }

    /// Whether occurrences are collected into an array.
    pub fn repeated_values(&self) -> (r: bool)
        ensures
            r == self@.repeated,
    {
        self.repeated
    }

    /// Whether the option must be given.
    pub fn required_option(&self) -> (r: bool)
        ensures
            r == self@.required,
    {
        self.required
    }

    /// The help text, if any.
    pub fn help(&self) -> (r: Option<&str>)
        ensures
            r matches Some(s) ==> self@.help == Some(s@),
            r is None ==> self@.help is None,
    {
        opt_as_str(&self.help)
    }

    /// The value placeholder, if any.
    pub fn value_name(&self) -> (r: Option<&str>)
        ensures
            r matches Some(s) ==> self@.value_name == Some(s@),
            r is None ==> self@.value_name is None,
    {
        opt_as_str(&self.value_name)
    }
}

/// The model of a positional declaration.
pub struct PositionalSpecView {
    pub name: Seq<char>,
    pub value_type: ValueType,
    pub required: bool,
    pub multiple: bool,
    pub help: Option<Seq<char>>,
}

/// A positional argument of a command.
#[derive(Debug)]
pub struct PositionalSpec {
    name: String,
    value_type: ValueType,
    required: bool,
    multiple: bool,
    help: Option<String>,
}

impl View for PositionalSpec {
    type V = PositionalSpecView;

    closed spec fn view(&self) -> PositionalSpecView {
        PositionalSpecView {
            name: self.name@,
            value_type: self.value_type,
            required: self.required,
            multiple: self.multiple,
            help: opt_view(self.help),
        }
    }
}

impl PositionalSpec {
    /// Declares a required, single-valued positional.
    pub fn new(name: &str, value_type: ValueType) -> (r: Result<PositionalSpec, LccpError>)
        ensures
            r is Ok <==> is_valid_argument_name(name@),
            r matches Err(e) ==> e matches LccpError::InvalidArgumentName(n) && n@ == name@,
            r matches Ok(s) ==> s@ == (PositionalSpecView {
                name: name@,
                value_type: value_type,
                required: true,
                multiple: false,
                help: None,
            }),
    {
        validate_argument_name(name)?;
        Ok(PositionalSpec { name: copy_str(name), value_type, required: true, multiple: false, help: None })
    }

    /// Makes the positional optional.
    pub fn optional(self) -> (r: PositionalSpec)
        ensures
            r@ == (PositionalSpecView { required: false, ..self@ }),
    {
        PositionalSpec { required: false, ..self }
    }

    /// Makes the positional take every remaining value.
    pub fn multiple(self) -> (r: PositionalSpec)
        ensures
            r@ == (PositionalSpecView { multiple: true, ..self@ }),
    {
        PositionalSpec { multiple: true, ..self }
    }

    /// Sets the help text.
    pub fn with_help(self, help: &str) -> (r: PositionalSpec)
        ensures
            r@ == (PositionalSpecView { help: Some(help@), ..self@ }),
    {
        PositionalSpec { help: Some(copy_str(help)), ..self }
    }

    /// The positional's name.
    pub fn name(&self) -> (r: &str)
        ensures
            r@ == self@.name,
    {
        self.name.as_str()
    }

    /// The value type.
    pub fn value_type(&self) -> (r: &ValueType)
        ensures
            *r == self@.value_type,
    {
        &self.value_type
    }

    /// Whether the positional must be given.
    pub fn required(&self) -> (r: bool)
        ensures
            r == self@.required,
    {
        self.required
    }

    /// Whether the positional takes every remaining value.
    pub fn multiple_values(&self) -> (r: bool)
        ensures
            r == self@.multiple,
    {
        self.multiple
    }

    /// The help text, if any.
    pub fn help(&self) -> (r: Option<&str>)
        ensures
            r matches Some(s) ==> self@.help == Some(s@),
            r is None ==> self@.help is None,
    {
        opt_as_str(&self.help)
    }
}

} // verus!
