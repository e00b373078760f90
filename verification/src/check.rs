//! What a single record must satisfy, by itself and together with its key.

use vstd::prelude::*;

use crate::bytes::{array_equal, bytes_equal};
use crate::error::StableJournalError;
use crate::record::{
    key_tag, record_tag, BootView, CapsuleView, ClientView, DelegationView, HandleKeyView, JournalKey, JournalRecord,
    KeyView, LockRangeRecord, LockView, OpenContributionRecord, OpenRecord, OpenView, RecordView, ReplayRenewalSource,
    ReplayView, MAX_DELEGATION_OBJECT_ID_BYTES, MAX_OPEN_CONTRIBUTION_VARIANTS, SCHEMA_VERSION,
};

verus! {

/// Every byte is zero.
pub open spec fn all_zero(bytes: Seq<u8>) -> bool {
    forall|i: int| 0 <= i < bytes.len() ==> bytes[i] == 0
}

/// Whether every byte is zero.
pub fn is_all_zero(bytes: &[u8]) -> (zero: bool)
    ensures
        zero == all_zero(bytes@),
{
    let mut i: usize = 0;
    while i < bytes.len()
        invariant
            i <= bytes.len(),
            forall|j: int| 0 <= j < i ==> bytes@[j] == 0,
        decreases bytes.len() - i,
    {
        if bytes[i] != 0 {
            return false;
        }
        i += 1;
    }
    true
}

/// One contribution: an access mode, a deny mode and at least one request.
pub open spec fn contribution_valid(c: OpenContributionRecord) -> bool {
    1 <= c.share_access <= 3 && c.share_deny <= 3 && c.count != 0
}

/// Two contributions of the same access and deny mode.
pub open spec fn same_modes(a: OpenContributionRecord, b: OpenContributionRecord) -> bool {
    a.share_access == b.share_access && a.share_deny == b.share_deny
}

/// The first fault among the first `n` contributions.
pub open spec fn contributions_checked(s: Seq<OpenContributionRecord>, n: nat) -> Result<(), StableJournalError>
    decreases n,
{
    if n == 0 {
        Ok(())
    } else {
        match contributions_checked(s, (n - 1) as nat) {
            Err(e) => Err(e),
            Ok(_) => if !contribution_valid(s[n - 1]) {
                Err(StableJournalError::Corrupt("invalid stable OPEN contribution"))
            } else if exists|j: int| 0 <= j < n - 1 && same_modes(#[trigger] s[j], s[n - 1]) {
                Err(StableJournalError::Corrupt("duplicate stable OPEN contribution"))
            } else {
                Ok(())
            },
        }
    }
}

/// The access modes of the first `n` contributions together.
pub open spec fn access_union(s: Seq<OpenContributionRecord>, n: nat) -> u32
    decreases n,
{
    if n == 0 {
        0
    } else {
        access_union(s, (n - 1) as nat) | s[n - 1].share_access
    }
}

/// The deny modes of the first `n` contributions together.
pub open spec fn deny_union(s: Seq<OpenContributionRecord>, n: nat) -> u32
    decreases n,
{
    if n == 0 {
        0
    } else {
        deny_union(s, (n - 1) as nat) | s[n - 1].share_deny
    }
}

/// What is wrong with an open record, if anything: its shape, a contribution, or their union.
#[verifier::opaque]
pub open spec fn open_checked(record: OpenView) -> Result<(), StableJournalError> {
    let n = record.contributions.len();
    if record.owner.len() == 0 || !(1 <= record.share_access <= 3) || record.share_deny > 3 || n == 0 || n
        > MAX_OPEN_CONTRIBUTION_VARIANTS {
        Err(StableJournalError::Corrupt("invalid stable open record"))
    } else {
        match contributions_checked(record.contributions, n) {
            Err(e) => Err(e),
            Ok(_) => if access_union(record.contributions, n) != record.share_access || deny_union(
                record.contributions,
                n,
            ) != record.share_deny {
                Err(
                    StableJournalError::Corrupt(
                        "stable OPEN contributions do not match the aggregate share reservation",
                    ),
                )
            } else {
                Ok(())
            },
        }
    }
}

/// A fault among the first contributions is a fault of them all.
proof fn lemma_contribution_fault(s: Seq<OpenContributionRecord>, n: nat, m: nat)
    requires
        n <= m,
        contributions_checked(s, n) is Err,
    ensures
        contributions_checked(s, m) == contributions_checked(s, n),
    decreases m - n,
{
    if n < m {
        lemma_contribution_fault(s, n, (m - 1) as nat);
    }
}

/// Checks an open record.
pub fn validate_open_record(record: &OpenRecord) -> (done: Result<(), StableJournalError>)
    ensures
        done == open_checked(record@),
{
    proof {
        reveal(open_checked);
    }
    let contributions = &record.contributions;
    if record.owner.len() == 0 || record.share_access < 1 || record.share_access > 3 || record.share_deny > 3
        || contributions.len() == 0 || contributions.len() > MAX_OPEN_CONTRIBUTION_VARIANTS {
        return Err(StableJournalError::Corrupt("invalid stable open record"));
    }
    let mut union_access: u32 = 0;
    let mut union_deny: u32 = 0;
    let mut i: usize = 0;
    while i < contributions.len()
        invariant
            i <= contributions.len(),
            contributions@ == record@.contributions,
            contributions_checked(contributions@, i as nat) is Ok,
            union_access == access_union(contributions@, i as nat),
            union_deny == deny_union(contributions@, i as nat),
            !(record@.owner.len() == 0 || !(1 <= record@.share_access <= 3) || record@.share_deny > 3
                || contributions@.len() == 0 || contributions@.len() > MAX_OPEN_CONTRIBUTION_VARIANTS),
        decreases contributions.len() - i,
    {
        let current = contributions[i];
        if current.share_access < 1 || current.share_access > 3 || current.share_deny > 3 || current.count == 0 {
            proof {
                reveal(open_checked);
                lemma_contribution_fault(contributions@, (i + 1) as nat, contributions@.len());
            }
            return Err(StableJournalError::Corrupt("invalid stable OPEN contribution"));
        }
        let mut j: usize = 0;
        while j < i
            invariant
                j <= i < contributions.len(),
                current == contributions@[i as int],
                contributions@ == record@.contributions,
                contribution_valid(current),
                contributions_checked(contributions@, i as nat) is Ok,
                forall|k: int| 0 <= k < j ==> !same_modes(#[trigger] contributions@[k], current),
                !(record@.owner.len() == 0 || !(1 <= record@.share_access <= 3) || record@.share_deny > 3
                    || contributions@.len() == 0 || contributions@.len() > MAX_OPEN_CONTRIBUTION_VARIANTS),
            decreases i - j,
        {
            if contributions[j].share_access == current.share_access && contributions[j].share_deny
                == current.share_deny {
                proof {
                    reveal(open_checked);
                    assert(same_modes(contributions@[j as int], contributions@[i as int]));
                    lemma_contribution_fault(contributions@, (i + 1) as nat, contributions@.len());
                }
                return Err(StableJournalError::Corrupt("duplicate stable OPEN contribution"));
            }
            j += 1;
        }
        union_access = union_access | current.share_access;
        union_deny = union_deny | current.share_deny;
        i += 1;
    }
    if union_access != record.share_access || union_deny != record.share_deny {
        return Err(
            StableJournalError::Corrupt("stable OPEN contributions do not match the aggregate share reservation"),
        );
    }
    Ok(())
}

/// A range ends within the 64-bit offset space.
pub open spec fn range_bounded(range: LockRangeRecord) -> bool {
    range.length == 0 || range.offset + range.length <= u64::MAX
}

/// A range ends before the next begins, and two that touch differ in their mode.
pub open spec fn range_before(a: LockRangeRecord, b: LockRangeRecord) -> bool {
    &&& a.length != 0
    &&& a.offset + a.length <= b.offset
    &&& a.offset + a.length == b.offset ==> a.write != b.write
}

/// A lock's ranges: at least one, in order, apart, and merged where they could be.
pub open spec fn ranges_normalized(ranges: Seq<LockRangeRecord>) -> bool {
    &&& ranges.len() > 0
    &&& forall|i: int| 0 <= i < ranges.len() ==> range_bounded(#[trigger] ranges[i])
    &&& forall|i: int| 1 <= i < ranges.len() ==> range_before(ranges[i - 1], #[trigger] ranges[i])
}

/// Whether a lock's ranges are normalized.
pub fn valid_stable_lock_ranges(ranges: &[LockRangeRecord]) -> (valid: bool)
    ensures
        valid == ranges_normalized(ranges@),
{
    if ranges.len() == 0 {
        return false;
    }
    let mut i: usize = 0;
    while i < ranges.len()
        invariant
            i <= ranges.len(),
            ranges.len() > 0,
            forall|j: int| 0 <= j < i ==> range_bounded(#[trigger] ranges@[j]),
            forall|j: int| 1 <= j < i ==> range_before(ranges@[j - 1], #[trigger] ranges@[j]),
        decreases ranges.len() - i,
    {
        let range = ranges[i];
        if range.length != 0 && range.offset.checked_add(range.length).is_none() {
            assert(!range_bounded(ranges@[i as int]));
            return false;
        }
        if i > 0 {
            let previous = ranges[i - 1];
            if previous.length == 0 {
                assert(!range_before(ranges@[i - 1], ranges@[i as int]));
                return false;
            }
            assert(range_bounded(ranges@[i - 1]));
            let end: u64 = previous.offset + previous.length;
            if end > range.offset || (end == range.offset && previous.write == range.write) {
                assert(!range_before(ranges@[i - 1], ranges@[i as int]));
                return false;
            }
        }
        i += 1;
    }
    true
}

/// Boot tags that a run of the server may carry.
pub open spec fn boot_checked(boot: BootView) -> Result<(), StableJournalError> {
    if boot.boot_tag == 0 || boot.boot_tag == u32::MAX {
        Err(StableJournalError::Corrupt("invalid stable boot tag"))
    } else {
        Ok(())
    }
}

/// A client has an owner and a principal.
pub open spec fn client_checked(record: ClientView) -> Result<(), StableJournalError> {
    if record.owner.len() == 0 || record.canonical_principal.len() == 0 {
        Err(StableJournalError::Corrupt("empty stable client identity"))
    } else {
        Ok(())
    }
}

/// A lock has an owner and normalized ranges.
pub open spec fn lock_checked(record: LockView) -> Result<(), StableJournalError> {
    if record.owner.len() == 0 || !ranges_normalized(record.ranges) {
        Err(StableJournalError::Corrupt("invalid stable lock record"))
    } else {
        Ok(())
    }
}

/// A delegation has a sequence, an identity and a bounded object name.
pub open spec fn delegation_checked(record: DelegationView) -> Result<(), StableJournalError> {
    if all_zero(record.state_token.take(4)) || all_zero(record.state_token.skip(4))
        || record.persistent_object_id.len() == 0 || record.persistent_object_id.len()
        > MAX_DELEGATION_OBJECT_ID_BYTES {
        Err(StableJournalError::Corrupt("invalid stable delegation record"))
    } else {
        Ok(())
    }
}

/// A cached reply has an owner, and renews no client but its own.
pub open spec fn replay_checked(record: ReplayView) -> Result<(), StableJournalError> {
    if record.owner.len() == 0 || (record.renewal_source matches ReplayRenewalSource::StateId { client_id }
        && client_id != record.client_id) {
        Err(StableJournalError::Corrupt("invalid stable replay record"))
    } else {
        Ok(())
    }
}

/// The server identity and the handle key are set.
pub open spec fn identities_set(server_identity: Seq<u8>, handle_key: HandleKeyView) -> bool {
    !all_zero(server_identity) && !all_zero(handle_key.instance_id) && !all_zero(handle_key.secret)
}

/// A capsule names its transfer, its server and its handle key.
pub open spec fn capsule_checked(record: CapsuleView) -> Result<(), StableJournalError> {
    if all_zero(record.transfer_id) || !identities_set(record.server_identity, record.handle_key) {
        Err(StableJournalError::Corrupt("invalid migration identity"))
    } else {
        Ok(())
    }
}

/// What is wrong with a record by itself, if anything.
#[verifier::opaque]
pub open spec fn record_checked(record: RecordView) -> Result<(), StableJournalError> {
    match record {
        RecordView::Schema(r) => if r.version != SCHEMA_VERSION {
            Err(StableJournalError::UnsupportedSchema(r.version))
        } else {
            Ok(())
        },
        RecordView::Boot(r) => boot_checked(r),
        RecordView::Client(r) => client_checked(r),
        RecordView::Open(r) => open_checked(r),
        RecordView::Lock(r) => lock_checked(r),
        RecordView::Delegation(r) => delegation_checked(r),
        RecordView::Replay(r) => replay_checked(r),
        RecordView::Migration(r) => capsule_checked(r),
        _ => Ok(()),
    }
}

impl JournalRecord {
    /// Checks this record by itself.
    pub fn validate(&self) -> (done: Result<(), StableJournalError>)
        ensures
            done == record_checked(self@),
    {
        proof {
            reveal(record_checked);
        }
        match self {
            JournalRecord::Schema(r) => {
                if r.version != SCHEMA_VERSION {
                    return Err(StableJournalError::UnsupportedSchema(r.version));
                }
                Ok(())
            },
            JournalRecord::Boot(r) => {
                if r.boot_tag == 0 || r.boot_tag == u32::MAX {
                    return Err(StableJournalError::Corrupt("invalid stable boot tag"));
                }
                Ok(())
            },
            JournalRecord::Client(r) => {
                if r.owner.len() == 0 || r.canonical_principal.len() == 0 {
                    return Err(StableJournalError::Corrupt("empty stable client identity"));
                }
                Ok(())
            },
            JournalRecord::Open(r) => validate_open_record(r),
            JournalRecord::Lock(r) => {
                if r.owner.len() == 0 || !valid_stable_lock_ranges(r.ranges.as_slice()) {
                    return Err(StableJournalError::Corrupt("invalid stable lock record"));
                }
                Ok(())
            },
            JournalRecord::Delegation(r) => {
                let token: &[u8] = r.state_token.as_slice();
                let sequence = vstd::slice::slice_subrange(token, 0, 4);
                let identity = vstd::slice::slice_subrange(token, 4, 16);
                assert(sequence@ =~= r@.state_token.take(4));
                assert(identity@ =~= r@.state_token.skip(4));
                if is_all_zero(sequence) || is_all_zero(identity) || r.persistent_object_id.len() == 0
                    || r.persistent_object_id.len() > MAX_DELEGATION_OBJECT_ID_BYTES {
                    return Err(StableJournalError::Corrupt("invalid stable delegation record"));
                }
                Ok(())
            },
            JournalRecord::Replay(r) => {
                let foreign = match r.renewal_source {
                    ReplayRenewalSource::StateId { client_id } => client_id != r.client_id,
                    ReplayRenewalSource::Unset => false,
                };
                if r.owner.len() == 0 || foreign {
                    return Err(StableJournalError::Corrupt("invalid stable replay record"));
                }
                Ok(())
            },
            JournalRecord::Migration(r) => {
                if is_all_zero(r.transfer_id.as_slice()) || is_all_zero(r.server_identity.identity.as_slice())
                    || is_all_zero(r.handle_key.instance_id.as_slice()) || is_all_zero(r.handle_key.secret.as_slice()) {
                    return Err(StableJournalError::Corrupt("invalid migration identity"));
                }
                Ok(())
            },
            _ => Ok(()),
        }
    }
}

/// The record is of the key's kind and carries the key's fields.
pub open spec fn key_matches(key: KeyView, record: RecordView) -> bool {
    match (key, record) {
        (KeyView::Schema, RecordView::Schema(_)) => true,
        (KeyView::ServerIdentity, RecordView::ServerIdentity(_)) => true,
        (KeyView::Boot, RecordView::Boot(_)) => true,
        (KeyView::HandleKey, RecordView::HandleKey(_)) => true,
        (KeyView::Client { client_id }, RecordView::Client(r)) => client_id == r.client_id,
        (KeyView::Open { state_token }, RecordView::Open(r)) => state_token == r.state_token,
        (KeyView::Lock { state_token }, RecordView::Lock(r)) => state_token == r.state_token,
        (KeyView::Delegation { state_token }, RecordView::Delegation(r)) => state_token == r.state_token,
        (KeyView::Revocation { state_token }, RecordView::Revocation(r)) => state_token == r.state_token,
        (KeyView::Replay { client_id, owner_kind, owner }, RecordView::Replay(r)) => client_id == r.client_id
            && owner_kind == r.owner_kind && owner == r.owner,
        (KeyView::Migration { export_id, transfer_id }, RecordView::Migration(r)) => export_id == r.export_id
            && transfer_id == r.transfer_id,
        _ => false,
    }
}

/// What is wrong with a record under its key, if anything.
#[verifier::opaque]
pub open spec fn pair_checked(key: KeyView, record: RecordView) -> Result<(), StableJournalError> {
    if !key_matches(key, record) {
        Err(StableJournalError::Corrupt("stable record payload does not match its typed key"))
    } else {
        record_checked(record)
    }
}

/// A record that matches its key carries the key's tag.
pub proof fn lemma_matching_tags(key: KeyView, record: RecordView)
    requires
        key_matches(key, record),
    ensures
        key_tag(key) == record_tag(record),
{
}

/// Checks a record under its key.
pub fn validate_key_record(key: &JournalKey, record: &JournalRecord) -> (done: Result<(), StableJournalError>)
    ensures
        done == pair_checked(key@, record@),
{
    proof {
        reveal(pair_checked);
    }
    let matches = match (key, record) {
        (JournalKey::Schema, JournalRecord::Schema(_)) => true,
        (JournalKey::ServerIdentity, JournalRecord::ServerIdentity(_)) => true,
        (JournalKey::Boot, JournalRecord::Boot(_)) => true,
        (JournalKey::HandleKey, JournalRecord::HandleKey(_)) => true,
        (JournalKey::Client { client_id }, JournalRecord::Client(r)) => *client_id == r.client_id,
        (JournalKey::Open { state_token }, JournalRecord::Open(r)) => array_equal(state_token, &r.state_token),
        (JournalKey::Lock { state_token }, JournalRecord::Lock(r)) => array_equal(state_token, &r.state_token),
        (JournalKey::Delegation { state_token }, JournalRecord::Delegation(r)) => array_equal(
            state_token,
            &r.state_token,
        ),
        (JournalKey::Revocation { state_token }, JournalRecord::Revocation(r)) => array_equal(
            state_token,
            &r.state_token,
        ),
        (JournalKey::Replay { client_id, owner_kind, owner }, JournalRecord::Replay(r)) => *client_id == r.client_id
            && *owner_kind == r.owner_kind && bytes_equal(owner.as_slice(), r.owner.as_slice()),
        (JournalKey::Migration { export_id, transfer_id }, JournalRecord::Migration(r)) => *export_id == r.export_id
            && array_equal(transfer_id, &r.transfer_id),
        _ => false,
    };
    if !matches || key.tag() != record.tag() {
        return Err(StableJournalError::Corrupt("stable record payload does not match its typed key"));
    }
    record.validate()
}

} // verus!
