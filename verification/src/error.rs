//! Error values reported by configuration validation and by a
//! synchronization run.

use vstd::prelude::*;

verus! {

/// The failures a caller can see from this library or from the label store
/// around it.  Fatal conditions (bad configuration, missing repository,
/// failed authentication) abort a run before any planning happens;
/// per-operation store failures are instead recorded as strings inside a
/// [`crate::sync::SyncResult`].
#[derive(Debug, PartialEq)]
pub enum Error {
    /// The run configuration is not usable.
    ConfigValidation(String),
    /// A label definition is not usable.
    LabelValidation(String),
    /// The target repository does not exist or is not visible.
    RepositoryNotFound(String),
    /// The access token was rejected.
    AuthenticationFailed,
    /// The remote API refused further requests for now.
    RateLimitExceeded,
    /// A network-level failure outside the library's control.
    Network(String),
    /// The repository identifier is not in `owner/repo` form.
    InvalidRepositoryFormat(String),
    /// A label color is not six hexadecimal digits.
    InvalidLabelColor(String),
    /// Any other failure, carried as text.
    Generic(String),
}

impl Clone for Error {
    /// Cloning keeps the variant and its message.
    fn clone(&self) -> (r: Self)
        ensures
            r == *self,
    {
        match self {
            Error::ConfigValidation(m) => Error::ConfigValidation(m.clone()),
            Error::LabelValidation(m) => Error::LabelValidation(m.clone()),
            Error::RepositoryNotFound(m) => Error::RepositoryNotFound(m.clone()),
            Error::AuthenticationFailed => Error::AuthenticationFailed,
            Error::RateLimitExceeded => Error::RateLimitExceeded,
            Error::Network(m) => Error::Network(m.clone()),
            Error::InvalidRepositoryFormat(m) => Error::InvalidRepositoryFormat(m.clone()),
            Error::InvalidLabelColor(m) => Error::InvalidLabelColor(m.clone()),
            Error::Generic(m) => Error::Generic(m.clone()),
        }
    }
}

impl Error {
    /// Wrap a message as a configuration validation error.
    pub fn config_validation(message: &str) -> (e: Error)
        ensures
            e matches Error::ConfigValidation(m) && m@ == message@,
    {
        Error::ConfigValidation(message.to_owned())
    }

    /// Wrap a message as a label validation error.
    pub fn label_validation(message: &str) -> (e: Error)
        ensures
            e matches Error::LabelValidation(m) && m@ == message@,
    {
        Error::LabelValidation(message.to_owned())
    }

    /// Wrap a message as a network error.
    pub fn network(message: &str) -> (e: Error)
        ensures
            e matches Error::Network(m) && m@ == message@,
    {
        Error::Network(message.to_owned())
    }

    /// Wrap a message as a generic error.
    pub fn generic(message: &str) -> (e: Error)
        ensures
            e matches Error::Generic(m) && m@ == message@,
    {
        Error::Generic(message.to_owned())
    }
}

} // verus!
