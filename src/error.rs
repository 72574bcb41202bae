use vstd::prelude::*;

verus! {

/// Everything that the history engine can report instead of a result.
#[derive(Clone, Copy, Debug, PartialEq, Eq, Structural)]
pub enum Error {
    /// The store file does not exist.
    NotFound,
    /// The store's records break the tree's rules or cannot be read.
    MalformedStore,
    /// A stored delta reaches outside the content it is applied to.
    CorruptDifference,
    /// A store already exists where a new one was to be created.
    AlreadyExists,
    /// Reading or writing the store or the working file failed.
    IoError,
    /// No version carries the requested id.
    UnknownVersion,
    /// The root version cannot be removed.
    CannotDeleteRoot,
    /// The working file holds edits that no version records.
    UncommittedChanges,
    /// A version name must hold something other than whitespace.
    EmptyName,
    /// Every id a version can take has been given out.
    IdsExhausted,
}

} // verus!
