//! The application context: one fully resolved configuration value.

use vstd::prelude::*;
use crate::error::{ConfigError, Error};

verus! {

/// Holds the application's configuration, decoded once.
#[derive(Debug)]
pub struct AppContext<C> {
    config: C,
}

impl<C> AppContext<C> {
    /// The configuration held.
    pub closed spec fn held(&self) -> C {
        self.config
    }

    /// The configuration.
    pub fn config(&self) -> (r: &C)
        ensures
            *r == self.held(),
    {
        &self.config
    }
}

impl AppContext<()> {
    /// A builder without a configuration.
    pub fn builder() -> (r: AppContextBuilder<()>)
        ensures
            r.pending() is None,
    {
        AppContextBuilder { config: None }
    }
}

/// A builder of an `AppContext`.
#[derive(Debug)]
pub struct AppContextBuilder<C> {
    config: Option<C>,
}

impl<C> AppContextBuilder<C> {
    /// The configuration given so far, if any.
    pub closed spec fn pending(&self) -> Option<C> {
        self.config
    }

    /// The context, or `MissingConfig` where no configuration was given.
    pub fn build(self) -> (r: Result<AppContext<C>, Error>)
        ensures
            match self.pending() {
                Some(c) => r matches Ok(ctx) && ctx.held() == c,
                None => r matches Err(Error::MissingConfig),
            },
    {
        match self.config {
            Some(config) => Ok(AppContext { config }),
            None => Err(Error::MissingConfig),
        }
    }
}

impl AppContextBuilder<()> {
    /// Attaches the configuration.
    pub fn with_config<C>(self, config: C) -> (r: AppContextBuilder<C>)
        ensures
            r.pending() == Some(config),
    {
        AppContextBuilder { config: Some(config) }
    }
}

impl From<ConfigError> for Error {
    fn from(e: ConfigError) -> (r: Error) {
        Error::Config(e)
    }
}

impl vstd::std_specs::convert::FromSpecImpl<ConfigError> for Error {
    open spec fn obeys_from_spec() -> bool {
        true
    }

    open spec fn from_spec(e: ConfigError) -> Error {
        Error::Config(e)
    }
}

} // verus!
