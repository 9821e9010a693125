//! What a resolution reads from its surroundings, handed in as values: the
//! working directory, home directory, environment variables and system
//! configuration directory, and what each configuration file path holds.

use vstd::prelude::*;
use crate::keyed::{entries_view, first_lookup, get_first, put, put_entry};
use crate::specs::opt_view;
use crate::text::copy_str;

verus! {

/// The surroundings of a resolution.
#[derive(Debug)]
pub struct ResolveOptions {
    pub cwd: String,
    pub home_dir: Option<String>,
    /// Environment variables by name.
    pub env: Vec<(String, String)>,
    pub system_config_dir: String,
}

/// The model of `ResolveOptions`.
pub struct OptionsView {
    pub cwd: Seq<char>,
    pub home_dir: Option<Seq<char>>,
    pub env: Seq<(Seq<char>, Seq<char>)>,
    pub system_config_dir: Seq<char>,
}

impl View for ResolveOptions {
    type V = OptionsView;

    open spec fn view(&self) -> OptionsView {
        OptionsView {
            cwd: self.cwd@,
            home_dir: opt_view(self.home_dir),
            env: entries_view(self.env@),
            system_config_dir: self.system_config_dir@,
        }
    }
}

/// What is known of a path: whether it is a regular file, and the outcome
/// of reading it: its text, or the message of the error.
#[derive(Debug)]
pub struct FileState {
    pub is_file: bool,
    pub read: Result<String, String>,
}

/// The model of `FileState`.
pub struct FileView {
    pub is_file: bool,
    pub read: Result<Seq<char>, Seq<char>>,
}

impl View for FileState {
    type V = FileView;

    open spec fn view(&self) -> FileView {
        FileView {
            is_file: self.is_file,
            read: match self.read {
                Ok(t) => Ok(t@),
                Err(m) => Err(m@),
            },
        }
    }
}

/// What the configuration file paths hold, by path.
#[derive(Debug)]
pub struct ConfigFiles {
    entries: Vec<(String, FileState)>,
}

impl View for ConfigFiles {
    type V = Seq<(Seq<char>, FileView)>;

    closed spec fn view(&self) -> Seq<(Seq<char>, FileView)> {
        entries_view(self.entries@)
    }
}

/// The message for a path of which nothing is recorded.
pub open spec fn unread_message() -> Seq<char> {
    "the file was not read"@
}

/// What is recorded for `path`: a path without a record is not a file and
/// cannot be read.
pub open spec fn file_of(files: Seq<(Seq<char>, FileView)>, path: Seq<char>) -> FileView {
    match first_lookup(files, path) {
        Some(f) => f,
        None => FileView { is_file: false, read: Err(unread_message()) },
    }
}

impl ConfigFiles {
    /// A table with no paths.
    pub fn new() -> (r: ConfigFiles)
        ensures
            r@ == Seq::<(Seq<char>, FileView)>::empty(),
    {
        let r = ConfigFiles { entries: Vec::new() };
        proof { assert(entries_view(r.entries@) =~= Seq::<(Seq<char>, FileView)>::empty()); }
        r
    }

    /// Records what `path` holds, replacing an earlier record.
    pub fn insert(&mut self, path: &str, state: FileState)
        ensures
            final(self)@ == put(old(self)@, path@, state@),
    {
        put_entry(&mut self.entries, copy_str(path), state);
    }

    /// The record of `path`, if any.
    pub fn get(&self, path: &str) -> (r: Option<&FileState>)
        ensures
            match r {
                Some(f) => first_lookup(self@, path@) == Some(f@),
                None => first_lookup(self@, path@) is None,
            },
    {
        get_first(&self.entries, path)
    }

    /// Whether `path` is a regular file.
    pub fn is_file(&self, path: &str) -> (r: bool)
        ensures
            r == file_of(self@, path@).is_file,
    {
        match self.get(path) {
            Some(f) => f.is_file,
            None => false,
        }
    }
}

} // verus!
