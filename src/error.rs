//! The failures that the store and the repository report.
use vstd::prelude::*;

verus! {

/// Every failure of the object store and the repository locator.
#[derive(Clone, Copy, Debug, PartialEq, Eq, Structural)]
pub enum GotError {
    /// A type name that is not `commit`, `tree`, `tag` or `blob`.
    InvalidType,
    /// A stored frame whose header breaks the grammar, or whose declared
    /// length differs from the payload's.
    Malformed,
    /// No object under the digest, or no repository where one was expected.
    NotFound,
    /// The creation target exists and is not a directory.
    NotADirectory,
    /// An existing configuration file that cannot be parsed.
    ConfigError,
    /// A filesystem operation failed.
    IoError,
}

} // verus!
