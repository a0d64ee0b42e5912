//! The errors of the store.

use vstd::prelude::*;

verus! {

/// Why an operation of the store failed.
#[derive(Debug, Clone, PartialEq, Eq)]
pub enum KvsError {
    /// A failure outside the other kinds, with a message.
    Generic(String),
    /// The key is not in the store.
    NotFound(String),
    /// A record that the index points at does not decode.
    CorruptRecord,
    /// A generation does not decode as a sequence of records.
    CorruptLog,
    /// The command does not fit the record format.
    Serialization,
}

impl KvsError {
    /// Whether this is `Generic` with the given message.
    pub open spec fn is_generic(self, message: Seq<char>) -> bool {
        self matches KvsError::Generic(m) && m@ == message
    }

    /// Whether this is `NotFound` for the given key.
    pub open spec fn is_not_found(self, key: Seq<char>) -> bool {
        self matches KvsError::NotFound(k) && k@ == key
    }
}

} // verus!
