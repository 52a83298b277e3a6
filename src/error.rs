//! Errors of configuration loading and of the application context.

use vstd::prelude::*;

verus! {

/// Why building a configuration failed.
#[derive(Debug, Clone, PartialEq)]
pub enum ConfigError {
    /// A required file does not exist.
    FileNotFound(String),
    /// A file could not be read, with the reason.
    ReadError { path: String, message: String },
    /// A file could not be parsed, with the reason.
    ParseError { path: String, message: String },
    /// The resolved tree does not fit the requested type, with the reason.
    DeserializeError(String),
    /// References were still being substituted when the pass limit was reached.
    CircularReference,
    /// A reference names a path that does not exist.
    ReferenceNotFound(String),
    /// A reference path is empty or has an empty segment.
    InvalidReferencePath(String),
    /// A reference names a table or an array.
    NonScalarReference(String),
    /// A `${` without a closing `}`.
    UnclosedReference,
}

/// The model of a `ConfigError`.
pub enum Failure {
    FileNotFound(Seq<char>),
    Read(Seq<char>, Seq<char>),
    Parse(Seq<char>, Seq<char>),
    Deserialize(Seq<char>),
    Circular,
    NotFound(Seq<char>),
    InvalidPath(Seq<char>),
    NonScalar(Seq<char>),
    Unclosed,
}

impl ConfigError {
    pub open spec fn view(&self) -> Failure {
        match self {
            ConfigError::FileNotFound(p) => Failure::FileNotFound(p@),
            ConfigError::ReadError { path, message } => Failure::Read(path@, message@),
            ConfigError::ParseError { path, message } => Failure::Parse(path@, message@),
            ConfigError::DeserializeError(m) => Failure::Deserialize(m@),
            ConfigError::CircularReference => Failure::Circular,
            ConfigError::ReferenceNotFound(p) => Failure::NotFound(p@),
            ConfigError::InvalidReferencePath(p) => Failure::InvalidPath(p@),
            ConfigError::NonScalarReference(p) => Failure::NonScalar(p@),
            ConfigError::UnclosedReference => Failure::Unclosed,
        }
    }
}

/// Why building the application context failed.
#[derive(Debug, Clone, PartialEq)]
pub enum Error {
    Config(ConfigError),
    MissingConfig,
}

} // verus!
