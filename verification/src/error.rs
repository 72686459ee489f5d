//! The failures that the library itself reports.

use vstd::prelude::*;

verus! {

/// What went wrong, for every failure that originates in this crate.
#[derive(Clone, Copy, Debug, PartialEq, Eq, Structural)]
pub enum Error {
    /// The configuration names no absolute root directory.
    ConfigInvalid,
    /// One of the ignore globs does not compile.
    BadIgnorePattern,
    /// The metadata of a walked entry could not be read.
    NodeUnreadable,
    /// A snapshot does not follow the snapshot grammar.
    SnapshotDecodeError,
    /// A frame or a message body is malformed or too large.
    DeserializationError,
    /// A participant tried to register under a name that is taken.
    DuplicateName,
}

} // verus!
