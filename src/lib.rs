//! Layered configuration: a tree of values, a deep merge that folds entries
//! from ranked sources into one tree, and a fixed-point resolver for
//! `${path.to.field}` references inside string values.

pub mod value;
pub mod source;
pub mod error;
pub mod text;
pub mod resolve;
pub mod env;
pub mod file;
pub mod builder;
pub mod context;

pub use builder::{assemble, Config, Loaded, SourceSpec};
pub use context::{AppContext, AppContextBuilder};
pub use env::{coerce_value, insert_at_path, load_env_vars, EnvVar};
pub use error::{ConfigError, Error};
pub use file::{FileRead, FileSource};
pub use resolve::resolve_references;
pub use source::{deep_merge, merge_at_path, merge_entries, ConfigEntry};
pub use value::{Table, Value};
