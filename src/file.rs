//! Files as configuration sources: what a file contributes, decided from
//! what reading and parsing it gave.

use vstd::prelude::*;
use vstd::string::StringExecFns;
use crate::error::{ConfigError, Failure};
use crate::source::{entry_views, ConfigEntry};
use crate::value::{Table, Val};

verus! {

/// A file source: the file's path and whether it must exist.
#[derive(Debug, Clone)]
pub struct FileSource {
    pub path: String,
    pub required: bool,
}

/// What reading and parsing a file gave.
#[derive(Debug)]
pub enum FileRead {
    /// The file was read and parsed into a table.
    Parsed(Table),
    /// The file does not exist.
    NotFound,
    /// The file could not be read, with the reason.
    ReadFailed(String),
    /// The file's text could not be parsed, with the reason.
    ParseFailed(String),
}

/// The entries that `src` yields after `read`: the whole table at the root,
/// nothing for a missing optional file, or the failure.
pub open spec fn file_outcome(src: FileSource, read: FileRead) -> Result<
    Seq<(Seq<Seq<char>>, Val)>,
    Failure,
> {
    match read {
        FileRead::Parsed(t) => Ok(seq![(Seq::<Seq<char>>::empty(), Val::Table(t@))]),
        FileRead::NotFound => if src.required {
            Err(Failure::FileNotFound(src.path@))
        } else {
            Ok(Seq::empty())
        },
        FileRead::ReadFailed(m) => Err(Failure::Read(src.path@, m@)),
        FileRead::ParseFailed(m) => Err(Failure::Parse(src.path@, m@)),
    }
}

impl FileSource {
    /// A source for the file at `path`; a build fails where a `required`
    /// file does not exist.
    pub fn new(path: &str, required: bool) -> (r: FileSource)
        ensures
            r.path@ == path@,
            r.required == required,
    {
        FileSource { path: String::from_str(path), required }
    }

    /// The entries that this source yields, given what reading it gave.
    pub fn entries_from(&self, read: FileRead) -> (r: Result<Vec<ConfigEntry>, ConfigError>)
        ensures
            match r {
                Ok(es) => file_outcome(*self, read) == Ok::<
                    Seq<(Seq<Seq<char>>, Val)>,
                    Failure,
                >(entry_views(es@)),
                Err(e) => file_outcome(*self, read) == Err::<Seq<(Seq<Seq<char>>, Val)>, Failure>(
                    e@,
                ),
            },
    {
        match read {
            FileRead::Parsed(t) => {
                let entry = ConfigEntry::root(t);
                let es = vec![entry];
                assert(entry_views(es@) =~= seq![entry@]);
                Ok(es)
            },
            FileRead::NotFound => {
                if self.required {
                    Err(ConfigError::FileNotFound(self.path.clone()))
                } else {
                    let es: Vec<ConfigEntry> = Vec::new();
                    assert(entry_views(es@) =~= Seq::<(Seq<Seq<char>>, Val)>::empty());
                    Ok(es)
                }
            },
            FileRead::ReadFailed(m) => Err(
                ConfigError::ReadError { path: self.path.clone(), message: m },
            ),
            FileRead::ParseFailed(m) => Err(
                ConfigError::ParseError { path: self.path.clone(), message: m },
            ),
        }
    }
}

} // verus!
