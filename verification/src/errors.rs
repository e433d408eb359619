//! The error surface of the core: every operation reports failure through
//! one of these typed variants, none is swallowed.
use vstd::prelude::*;

use crate::hexid::UNamespaceId;

verus! {

/// A failure of one of the core's operations.
///
/// `Iroh`, `Serde` and `IO` carry a collaborator's message unchanged; the
/// remaining variants are decided by this crate's own logic.
#[derive(Debug)]
pub enum SharedError {
    /// Generic failure reported by the document store, blob store or transport.
    Iroh(String),
    /// A persisted snapshot exists but cannot be decoded.
    Serde(String),
    /// A filesystem read or write failed.
    IO(String),
    /// The namespace has never been created or opened locally.
    ReplicaMissing(UNamespaceId),
    /// No entry is stored under this path in the namespace.
    EntryMissing(UNamespaceId, Vec<u8>),
    /// The latest entry under this path is the logical-delete marker.
    EntryTombstoned(UNamespaceId, Vec<u8>),
    /// Text that does not parse as an identifier.
    InvalidIdentifier(Vec<u8>),
    /// The live event feed reported a failed synchronisation.
    SyncFailed(String),
}

/// Holds exactly when `e` is `InvalidIdentifier` carrying the text `t`.
pub open spec fn is_invalid_identifier(e: SharedError, t: Seq<u8>) -> bool {
    match e {
        SharedError::InvalidIdentifier(s) => s@ == t,
        _ => false,
    }
}

/// Holds exactly when `e` is `EntryMissing` for `ns` and `path`.
pub open spec fn is_entry_missing(e: SharedError, ns: Seq<u8>, path: Seq<u8>) -> bool {
    match e {
        SharedError::EntryMissing(n, p) => n@ == ns && p@ == path,
        _ => false,
    }
}

/// Holds exactly when `e` is `EntryTombstoned` for `ns` and `path`.
pub open spec fn is_entry_tombstoned(e: SharedError, ns: Seq<u8>, path: Seq<u8>) -> bool {
    match e {
        SharedError::EntryTombstoned(n, p) => n@ == ns && p@ == path,
        _ => false,
    }
}

impl SharedError {
    /// True on the `EntryTombstoned` variant; lets unverified callers test
    /// the outcome the logical-delete scheme is about.
    pub fn is_tombstoned(&self) -> (r: bool)
        ensures
            r == (self matches SharedError::EntryTombstoned(..)),
    {
        match self {
            SharedError::EntryTombstoned(..) => true,
            _ => false,
        }
    }

    /// True on the `EntryMissing` variant.
    pub fn is_missing(&self) -> (r: bool)
        ensures
            r == (self matches SharedError::EntryMissing(..)),
    {
        match self {
            SharedError::EntryMissing(..) => true,
            _ => false,
        }
    }

    /// True on the `ReplicaMissing` variant.
    pub fn is_replica_missing(&self) -> (r: bool)
        ensures
            r == (self matches SharedError::ReplicaMissing(..)),
    {
        match self {
            SharedError::ReplicaMissing(..) => true,
            _ => false,
        }
    }
}

} // verus!
