//! Error taxonomy and basic aliases of the engine.

use vstd::prelude::*;

verus! {

/// Offset of a record inside the log: the index, in characters, at which
/// the record's line starts in the log's text.
pub type LogOffset = usize;

/// The kinds of failure the engine can report.
#[derive(Clone, Copy, Debug, PartialEq, Eq, Structural)]
pub enum KvdbError {
    /// The underlying storage medium failed to open, read, write or flush.
    IOFailure,
    /// A record could not be encoded, or decoded bytes were not valid text.
    SerializationFailure,
    /// A log entry could not be parsed as a valid record: the medium read
    /// successfully but the content is structurally invalid.
    CorruptRecord,
    /// Removal of a key that is not present in the store.
    KeyNotFound,
}

impl KvdbError {
    /// A short description of the error, for callers that report it.
    pub fn message(&self) -> (r: &'static str)
        ensures
            self is IOFailure ==> r@ == "IO error"@,
            self is SerializationFailure ==> r@ == "serialization error"@,
            self is CorruptRecord ==> r@ == "corrupt log record"@,
            self is KeyNotFound ==> r@ == "Key not found"@,
    {
        proof {
            reveal_strlit("IO error");
            reveal_strlit("serialization error");
            reveal_strlit("corrupt log record");
            reveal_strlit("Key not found");
        }
        match self {
            KvdbError::IOFailure => "IO error",
            KvdbError::SerializationFailure => "serialization error",
            KvdbError::CorruptRecord => "corrupt log record",
            KvdbError::KeyNotFound => "Key not found",
        }
    }
}

} // verus!
