//! Bounds on what a journal may hold.

use vstd::prelude::*;

use crate::error::StableJournalError;

verus! {

/// Bounds on the journal's records, batches, keys and payloads.
#[derive(Clone, Copy, Debug, PartialEq, Eq, Structural)]
pub struct StableJournalLimits {
    pub max_records: usize,
    pub max_batch_mutations: usize,
    pub max_key_bytes: usize,
    pub max_payload_bytes: usize,
}

/// The bounds used where nothing else is configured.
pub open spec fn default_limits() -> StableJournalLimits {
    StableJournalLimits {
        max_records: 262_144,
        max_batch_mutations: 4_096,
        max_key_bytes: 4_096,
        max_payload_bytes: 16_777_216,
    }
}

/// Bounds with which a journal can work: room for a record, and lengths that fit their prefix.
pub open spec fn limits_usable(limits: StableJournalLimits) -> bool {
    &&& limits.max_records != 0
    &&& limits.max_batch_mutations != 0
    &&& 16 <= limits.max_key_bytes <= u32::MAX
    &&& 16 <= limits.max_payload_bytes <= u32::MAX
}

impl StableJournalLimits {
    /// The bounds used where nothing else is configured.
    pub fn production_defaults() -> (limits: Self)
        ensures
            limits == default_limits(),
            limits_usable(limits),
    {
        StableJournalLimits {
            max_records: 262_144,
            max_batch_mutations: 4_096,
            max_key_bytes: 4 * 1024,
            max_payload_bytes: 16 * 1024 * 1024,
        }
    }

    /// The bounds themselves where a journal can work with them.
    pub fn validate(self) -> (checked: Result<Self, StableJournalError>)
        ensures
            checked == if limits_usable(self) {
                Ok::<Self, StableJournalError>(self)
            } else {
                Err(StableJournalError::InvalidLimits)
            },
    {
        if self.max_records == 0 || self.max_batch_mutations == 0 || self.max_key_bytes < 16 || self.max_payload_bytes
            < 16 || self.max_key_bytes > u32::MAX as usize || self.max_payload_bytes > u32::MAX as usize {
            return Err(StableJournalError::InvalidLimits);
        }
        Ok(self)
    }
}

impl Default for StableJournalLimits {
    fn default() -> (limits: Self)
        ensures
            limits == default_limits(),
    {
        StableJournalLimits::production_defaults()
    }
}

} // verus!
