//! Failures of the durable journal and of the storage underneath it.

use vstd::prelude::*;

verus! {

/// A failure reported by the storage session behind the journal.
#[derive(Clone, Debug, PartialEq, Eq)]
pub enum StableStateError {
    /// Another writer has taken over the session's scope.
    Fenced,
    /// The stored generation is not the one that the caller expected.
    GenerationConflict { expected: u64, actual: u64 },
    /// Any other failure, in the store's own words.
    Other(String),
}

/// A failure of a journal operation.
#[derive(Clone, Debug, PartialEq, Eq)]
pub enum StableJournalError {
    /// The configured limits cannot hold a journal.
    InvalidLimits,
    /// A batch holds no mutation.
    EmptyBatch,
    /// A batch touches a record that only the journal itself may write.
    ReservedRecord,
    /// A configured bound would be passed.
    LimitExceeded(&'static str),
    /// Stored bytes are not a journal image that this version writes.
    Corrupt(&'static str),
    /// The schema version is not the supported one.
    UnsupportedSchema(u32),
    /// The record tag is not assigned.
    UnknownRecordTag(u8),
    /// The session no longer holds the fence.
    Fenced,
    /// The stored generation moved on without this journal.
    CasConflict { expected: u64, actual: u64 },
    /// Migrated state disagrees with what is already durable.
    MigrationConflict,
    /// A migrated record belongs to another export.
    MigrationExportMismatch,
    /// No migration has that transfer identity.
    MigrationNotFound,
    /// The migration can no longer be undone.
    MigrationCommitted,
    /// The migration is not in a phase that allows the request.
    InvalidMigration(&'static str),
    /// The operating system gave no random bytes.
    Entropy(String),
    /// The store failed.
    Storage(StableStateError),
}

/// What the journal reports for a storage failure.
pub open spec fn journal_error(error: StableStateError) -> StableJournalError {
    match error {
        StableStateError::Fenced => StableJournalError::Fenced,
        StableStateError::GenerationConflict { expected, actual } => StableJournalError::CasConflict { expected, actual },
        StableStateError::Other(text) => StableJournalError::Storage(StableStateError::Other(text)),
    }
}

impl From<StableStateError> for StableJournalError {
    fn from(error: StableStateError) -> (mapped: Self) {
        match error {
            StableStateError::Fenced => StableJournalError::Fenced,
            StableStateError::GenerationConflict { expected, actual } => StableJournalError::CasConflict {
                expected,
                actual,
            },
            StableStateError::Other(text) => StableJournalError::Storage(StableStateError::Other(text)),
        }
    }
}

impl vstd::std_specs::convert::FromSpecImpl<StableStateError> for StableJournalError {
    open spec fn obeys_from_spec() -> bool {
        true
    }

    open spec fn from_spec(error: StableStateError) -> Self {
        journal_error(error)
    }
}

} // verus!
