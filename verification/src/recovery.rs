//! What a run takes over from the run before it: the clients, their opens, locks and last replies, checked before
//! any of it is made visible.

use std::sync::Arc;

use vstd::prelude::*;

use crate::bytemap::ByteMap;
use crate::bytes::{array_equal, bytes_equal, copy_bytes};
use crate::codec::{from_be32, opaque_field};
use crate::idlist::IdList;
use crate::journal::{PreviousShutdown, RecoveredStableState, RecoveredView};
use crate::keyset::KeySet;
use crate::locks::{wire_range, LockRange, Piece};
use crate::merge::{files_number, numbers_apart};
use crate::numbermap::NumberMap;
use crate::protocol::{
    append, append_number, file_of, other_of, owner_place, runtime_file, share, state_other, LockAccess, Name,
    Nfs4Limits, OwnerRequestDigest, ReplayEffect, RuntimeFile,
};
use crate::record::{
    JournalKey, JournalRecord, KeyView, LockRangeRecord, OpenContributionRecord, RecordView, ReplayRenewalSource,
};
use crate::share::{
    aggregate_of, count_sum, share_place, wire_access, wire_deny, ShareAccess, ShareContributions, ShareDeny,
};
use crate::snapshot::{owner_key, owner_map_key};
use crate::stateid::{is_uniform, uniform};
use crate::transfer::{confirmed_as, number_key, typed_views, TypedView};

verus! {

/// Why a run cannot be configured.
#[derive(Clone, Copy, Debug, PartialEq, Eq, Structural)]
pub enum RuntimeConfigError {
    Lease,
    Recovery,
    StateId,
}

/// An open of the run before.
pub struct RecoveredOpen {
    pub state_token: [u8; 16],
    pub previous_client_id: u64,
    pub owner: Name,
    pub file: RuntimeFile,
    pub access: ShareAccess,
    pub deny: ShareDeny,
    pub contributions: ShareContributions,
}

/// What an open of the run before stands for.
#[verifier::ext_equal]
pub struct RecoveredOpenView {
    pub state_token: Seq<u8>,
    pub previous_client_id: u64,
    pub owner: Seq<u8>,
    pub file: RuntimeFile,
    pub access: ShareAccess,
    pub deny: ShareDeny,
    pub contributions: Seq<u32>,
}

impl View for RecoveredOpen {
    type V = RecoveredOpenView;

    open spec fn view(&self) -> RecoveredOpenView {
        RecoveredOpenView {
            state_token: self.state_token@,
            previous_client_id: self.previous_client_id,
            owner: self.owner@,
            file: self.file,
            access: self.access,
            deny: self.deny,
            contributions: self.contributions.counts@,
        }
    }
}

impl RecoveredOpen {
    /// The same open again.
    pub fn copy(&self) -> (copy: Self)
        ensures
            copy == *self,
    {
        RecoveredOpen {
            state_token: self.state_token,
            previous_client_id: self.previous_client_id,
            owner: share(&self.owner),
            file: self.file,
            access: self.access,
            deny: self.deny,
            contributions: self.contributions,
        }
    }

    /// Whether two opens are the same.
    pub fn same(&self, with: &RecoveredOpen) -> (same: bool)
        ensures
            same == (self@ == with@),
    {
        let counts = self.contributions.same(&with.contributions);
        proof {
            if self.contributions.counts@ == with.contributions.counts@ {
                assert(self.contributions.counts =~= with.contributions.counts);
            }
        }
        array_equal(&self.state_token, &with.state_token) && self.previous_client_id == with.previous_client_id
            && bytes_equal(self.owner.as_slice(), with.owner.as_slice()) && self.file == with.file && self.access
            == with.access && self.deny == with.deny && counts
    }
}

/// The locks of an owner in the run before.
pub struct RecoveredLock {
    pub state_token: [u8; 16],
    pub previous_open_state_token: [u8; 16],
    pub previous_client_id: u64,
    pub owner: Name,
    pub file: RuntimeFile,
    pub ranges: Arc<Vec<Piece>>,
}

/// What the locks of an owner in the run before stand for.
#[verifier::ext_equal]
pub struct RecoveredLockView {
    pub state_token: Seq<u8>,
    pub previous_open_state_token: Seq<u8>,
    pub previous_client_id: u64,
    pub owner: Seq<u8>,
    pub file: RuntimeFile,
    pub ranges: Seq<Piece>,
}

impl View for RecoveredLock {
    type V = RecoveredLockView;

    open spec fn view(&self) -> RecoveredLockView {
        RecoveredLockView {
            state_token: self.state_token@,
            previous_open_state_token: self.previous_open_state_token@,
            previous_client_id: self.previous_client_id,
            owner: self.owner@,
            file: self.file,
            ranges: self.ranges@,
        }
    }
}

/// Whether two lists of pieces are the same.
fn pieces_equal(a: &Vec<Piece>, b: &Vec<Piece>) -> (same: bool)
    ensures
        same == (a@ == b@),
{
    if a.len() != b.len() {
        return false;
    }
    let mut i: usize = 0;
    while i < a.len()
        invariant
            i <= a@.len(),
            a@.len() == b@.len(),
            forall|j: int| 0 <= j < i ==> a@[j] == b@[j],
        decreases a@.len() - i,
    {
        if a[i] != b[i] {
            return false;
        }
        i += 1;
    }
    assert(a@ =~= b@);
    true
}

impl RecoveredLock {
    /// The same locks again.
    pub fn copy(&self) -> (copy: Self)
        ensures
            copy == *self,
    {
        RecoveredLock {
            state_token: self.state_token,
            previous_open_state_token: self.previous_open_state_token,
            previous_client_id: self.previous_client_id,
            owner: share(&self.owner),
            file: self.file,
            ranges: share(&self.ranges),
        }
    }

    /// Whether two owners' locks are the same.
    pub fn same(&self, with: &RecoveredLock) -> (same: bool)
        ensures
            same == (self@ == with@),
    {
        array_equal(&self.state_token, &with.state_token) && array_equal(
            &self.previous_open_state_token,
            &with.previous_open_state_token,
        ) && self.previous_client_id == with.previous_client_id && bytes_equal(
            self.owner.as_slice(),
            with.owner.as_slice(),
        ) && self.file == with.file && pieces_equal(&self.ranges, &with.ranges)
    }
}

/// An owner's last reply in the run before: the operation that was read from it, in the one form that the reader of
/// replies has for it.
pub struct RecoveredReplay {
    pub sequence_id: u32,
    pub digest: OwnerRequestDigest,
    pub operation: Name,
    pub effect: ReplayEffect,
}

/// What an owner's last reply in the run before stands for.
#[verifier::ext_equal]
pub struct RecoveredReplayView {
    pub sequence_id: u32,
    pub digest: Seq<u8>,
    pub operation: Seq<u8>,
    pub effect: ReplayEffect,
}

impl View for RecoveredReplay {
    type V = RecoveredReplayView;

    open spec fn view(&self) -> RecoveredReplayView {
        RecoveredReplayView {
            sequence_id: self.sequence_id,
            digest: self.digest.0@,
            operation: self.operation@,
            effect: self.effect,
        }
    }
}

impl RecoveredReplay {
    /// The same reply again.
    pub fn copy(&self) -> (copy: Self)
        ensures
            copy == *self,
    {
        RecoveredReplay {
            sequence_id: self.sequence_id,
            digest: self.digest,
            operation: share(&self.operation),
            effect: self.effect,
        }
    }

    /// Whether two replies are the same.
    pub fn same(&self, with: &RecoveredReplay) -> (same: bool)
        ensures
            same == (self@ == with@),
    {
        self.sequence_id == with.sequence_id && array_equal(&self.digest.0, &with.digest.0) && bytes_equal(
            self.operation.as_slice(),
            with.operation.as_slice(),
        ) && self.effect == with.effect
    }
}

/// The bytes under which a client's identity is filed.
pub open spec fn identity_place(owner: Seq<u8>, verifier: Seq<u8>, principal: Seq<u8>) -> Seq<u8> {
    opaque_field(owner) + (verifier + principal)
}

/// Identities are filed apart.
pub proof fn lemma_identity_place(
    owner: Seq<u8>,
    verifier: Seq<u8>,
    principal: Seq<u8>,
    other: Seq<u8>,
    check: Seq<u8>,
    sender: Seq<u8>,
)
    requires
        owner.len() <= u32::MAX,
        other.len() <= u32::MAX,
        verifier.len() == 8,
        check.len() == 8,
    ensures
        (identity_place(owner, verifier, principal) == identity_place(other, check, sender)) == (owner == other
            && verifier == check && principal == sender),
{
    let a = identity_place(owner, verifier, principal);
    let b = identity_place(other, check, sender);
    if a == b {
        crate::codec::lemma_be32(owner.len() as u32, seq![]);
        crate::codec::lemma_be32(other.len() as u32, seq![]);
        let n: int = 4 + owner.len() as int;
        assert(a.take(4) =~= crate::codec::be32(owner.len() as u32));
        assert(b.take(4) =~= crate::codec::be32(other.len() as u32));
        assert(a.subrange(4, n) =~= owner);
        assert(b.subrange(4, n) =~= other);
        assert(a.subrange(n, n + 8) =~= verifier);
        assert(b.subrange(n, n + 8) =~= check);
        assert(a.skip(n + 8) =~= principal);
        assert(b.skip(n + 8) =~= sender);
    }
}

/// The bytes under which a client's identity is filed.
#[verifier::truncate]
pub fn identity_key(owner: &[u8], verifier: &[u8; 8], principal: &[u8]) -> (key: Vec<u8>)
    ensures
        key@ == identity_place(owner@, verifier@, principal@),
{
    let mut key: Vec<u8> = Vec::new();
    append_number(&mut key, owner.len() as u32);
    append(&mut key, owner);
    append(&mut key, verifier.as_slice());
    append(&mut key, principal);
    assert(key@ =~= identity_place(owner@, verifier@, principal@));
    key
}

/// The run in which a client's number was given.
pub open spec fn boot_of(client_id: u64) -> u32 {
    (client_id >> 32) as u32
}

/// A tag that a run can have.
pub open spec fn tag_usable(tag: u32) -> bool {
    tag != 0 && tag != u32::MAX
}

/// A state id that a client of that run can have had.
pub open spec fn token_sound(token: Seq<u8>, tag: u32) -> bool {
    &&& from_be32(token.take(4)) != 0
    &&& !uniform(other_of(token), 0)
    &&& !uniform(other_of(token), 0xff)
    &&& tag_usable(tag)
    &&& from_be32(other_of(token).take(4)) == tag
}

/// Whether a client of that run can have had the state id.
pub fn valid_recovered_state_token(token: [u8; 16], client_boot_tag: u32) -> (valid: bool)
    ensures
        valid == token_sound(token@, client_boot_tag),
{
    let sequence: u32 = ((token[0] as u32) << 24) | ((token[1] as u32) << 16) | ((token[2] as u32) << 8) | (
    token[3] as u32);
    assert(sequence == from_be32(token@.take(4)));
    let boot_tag: u32 = ((token[4] as u32) << 24) | ((token[5] as u32) << 16) | ((token[6] as u32) << 8) | (
    token[7] as u32);
    let other = state_other(token);
    assert(boot_tag == from_be32(other_of(token@).take(4)));
    sequence != 0 && !is_uniform(&other, 0) && !is_uniform(&other, 0xff) && client_boot_tag != 0 && client_boot_tag
        != u32::MAX && boot_tag == client_boot_tag
}

/// The counts that the first `n` contributions add up to, where they are sound and within the limit.
pub open spec fn contributed(contributions: Seq<OpenContributionRecord>, limit: usize, n: nat) -> Option<Seq<u32>>
    decreases n,
{
    if n == 0 {
        Some(Seq::new(12, |i: int| 0u32))
    } else {
        match contributed(contributions, limit, (n - 1) as nat) {
            None => None,
            Some(counts) => {
                let one = contributions[n - 1];
                match (wire_access(one.share_access), wire_deny(one.share_deny)) {
                    (Some(access), Some(deny)) => {
                        let place = share_place(access, deny);
                        if count_sum(counts, 12) + one.count > limit || counts[place] + one.count > u32::MAX {
                            None
                        } else {
                            Some(counts.update(place, (counts[place] + one.count) as u32))
                        }
                    },
                    _ => None,
                }
            },
        }
    }
}

/// A fault among the first contributions is a fault of them all.
proof fn lemma_contributed_fault(contributions: Seq<OpenContributionRecord>, limit: usize, n: nat, m: nat)
    requires
        n <= m,
        contributed(contributions, limit, n) is None,
    ensures
        contributed(contributions, limit, m) is None,
    decreases m - n,
{
    if n < m {
        lemma_contributed_fault(contributions, limit, n, (m - 1) as nat);
    }
}

/// The contributions that stable records add up to.
fn gather_contributions(records: &Vec<OpenContributionRecord>, limit: usize) -> (contributions: Option<
    ShareContributions,
>)
    ensures
        match contributions {
            Some(c) => contributed(records@, limit, records@.len()) == Some(c.counts@),
            None => contributed(records@, limit, records@.len()) is None,
        },
{
    let mut contributions = ShareContributions::new();
    assert(contributions.counts@ =~= Seq::new(12, |i: int| 0u32));
    let mut i: usize = 0;
    while i < records.len()
        invariant
            i <= records@.len(),
            contributed(records@, limit, i as nat) == Some(contributions.counts@),
        decreases records@.len() - i,
    {
        let one = records[i];
        let access = match ShareAccess::from_wire(one.share_access) {
            Some(access) => access,
            None => {
                proof {
                    lemma_contributed_fault(records@, limit, (i + 1) as nat, records@.len());
                }
                return None;
            },
        };
        let deny = match ShareDeny::from_wire(one.share_deny) {
            Some(deny) => deny,
            None => {
                proof {
                    lemma_contributed_fault(records@, limit, (i + 1) as nat, records@.len());
                }
                return None;
            },
        };
        if !contributions.add(access, deny, one.count, limit) {
            proof {
                lemma_contributed_fault(records@, limit, (i + 1) as nat, records@.len());
            }
            return None;
        }
        i += 1;
    }
    Some(contributions)
}

/// The range that a stable range stands for: no length reaches to the end of the file.
pub open spec fn recovered_range(range: LockRangeRecord) -> Option<Piece> {
    let length = if range.length == 0 {
        u64::MAX
    } else {
        range.length
    };
    match wire_range(range.offset, length) {
        Some(r) => Some(
            Piece {
                access: if range.write {
                    LockAccess::Write
                } else {
                    LockAccess::Read
                },
                range: r,
            },
        ),
        None => None,
    }
}

/// All ranges stand for something.
pub open spec fn ranges_sound(ranges: Seq<LockRangeRecord>) -> bool {
    forall|i: int| 0 <= i < ranges.len() ==> recovered_range(#[trigger] ranges[i]) is Some
}

/// The ranges that stable ranges stand for.
pub open spec fn recovered_ranges(ranges: Seq<LockRangeRecord>) -> Seq<Piece> {
    Seq::new(ranges.len(), |i: int| recovered_range(ranges[i])->0)
}

/// The ranges that stable ranges stand for.
fn gather_ranges(ranges: &Vec<LockRangeRecord>) -> (pieces: Option<Vec<Piece>>)
    ensures
        match pieces {
            Some(p) => ranges_sound(ranges@) && p@ == recovered_ranges(ranges@),
            None => !ranges_sound(ranges@),
        },
{
    let mut pieces: Vec<Piece> = Vec::new();
    let mut i: usize = 0;
    while i < ranges.len()
        invariant
            i <= ranges@.len(),
            pieces@ == recovered_ranges(ranges@).take(i as int),
            forall|j: int| 0 <= j < i ==> recovered_range(#[trigger] ranges@[j]) is Some,
        decreases ranges@.len() - i,
    {
        let range = ranges[i];
        let length: u64 = if range.length == 0 {
            u64::MAX
        } else {
            range.length
        };
        match LockRange::from_offset_length(range.offset, length) {
            Some(r) => {
                pieces.push(
                    Piece {
                        access: if range.write {
                            LockAccess::Write
                        } else {
                            LockAccess::Read
                        },
                        range: r,
                    },
                );
                assert(recovered_ranges(ranges@).take(i + 1) =~= recovered_ranges(ranges@).take(i as int).push(
                    recovered_ranges(ranges@)[i as int],
                ));
            },
            None => {
                assert(recovered_range(ranges@[i as int]) is None);
                return None;
            },
        }
        i += 1;
    }
    assert(recovered_ranges(ranges@).take(ranges@.len() as int) =~= recovered_ranges(ranges@));
    Some(pieces)
}

/// A client with that number has a confirmed record.
pub open spec fn has_confirmed(records: Seq<TypedView>, client_id: u64) -> bool {
    exists|i: int| 0 <= i < records.len() && confirmed_as((#[trigger] records[i]).1, client_id)
}

/// A name that an owner can have.
pub open spec fn owner_sound(owner: Seq<u8>, limits: Nfs4Limits) -> bool {
    0 < owner.len() <= limits.max_client_owner_size
}

/// The effect of a reply, where its renewal source is the client's own.
pub open spec fn effect_of(replay: crate::record::ReplayView) -> Option<ReplayEffect> {
    let current_file = match replay.current_object {
        Some(object) => Some(file_of(object)),
        None => None,
    };
    match replay.renewal_source {
        ReplayRenewalSource::Unset => Some(ReplayEffect { current_file, stateid_renewal_client: None }),
        ReplayRenewalSource::StateId { client_id } => if client_id == replay.client_id {
            Some(ReplayEffect { current_file, stateid_renewal_client: Some(client_id) })
        } else {
            None
        },
    }
}

/// The operations that were read from replies.
pub open spec fn reply_views(replies: Seq<Option<Vec<u8>>>) -> Seq<Option<Seq<u8>>> {
    Seq::new(
        replies.len(),
        |i: int|
            match replies[i] {
                Some(operation) => Some(operation@),
                None => None::<Seq<u8>>,
            },
    )
}

/// The open record at that place has that identity, client and file.
pub open spec fn open_behind(records: Seq<TypedView>, i: int, other: Seq<u8>, client_id: u64, file: RuntimeFile) -> bool {
    records[i].1 matches RecordView::Open(open) && other_of(open.state_token) == other && open.client_id == client_id
        && file_of(open.object) == file
}

/// A record is sound by itself and among the others; a reply could be read. Records of other kinds are not looked at.
pub open spec fn record_sound(records: Seq<TypedView>, replies: Seq<Option<Seq<u8>>>, i: int, limits: Nfs4Limits) -> bool {
    let key = records[i].0;
    match records[i].1 {
        RecordView::Client(client) => {
            &&& key == (KeyView::Client { client_id: client.client_id })
            &&& owner_sound(client.owner, limits)
            &&& client.canonical_principal.len() > 0
            &&& tag_usable(boot_of(client.client_id))
        },
        RecordView::Open(open) => {
            &&& key == (KeyView::Open { state_token: open.state_token })
            &&& token_sound(open.state_token, boot_of(open.client_id))
            &&& has_confirmed(records, open.client_id)
            &&& owner_sound(open.owner, limits)
            &&& wire_access(open.share_access) is Some
            &&& wire_deny(open.share_deny) is Some
            &&& contributed(
                open.contributions,
                limits.max_open_contributions_per_state,
                open.contributions.len(),
            ) matches Some(counts) && aggregate_of(counts) == Some(
                (wire_access(open.share_access)->0, wire_deny(open.share_deny)->0),
            )
        },
        RecordView::Replay(replay) => {
            &&& key == (KeyView::Replay {
                client_id: replay.client_id,
                owner_kind: replay.owner_kind,
                owner: replay.owner,
            })
            &&& has_confirmed(records, replay.client_id)
            &&& owner_sound(replay.owner, limits)
            &&& i < replies.len() && replies[i] is Some
            &&& effect_of(replay) is Some
        },
        RecordView::Lock(lock) => {
            &&& key == (KeyView::Lock { state_token: lock.state_token })
            &&& token_sound(lock.state_token, boot_of(lock.client_id))
            &&& has_confirmed(records, lock.client_id)
            &&& exists|j: int|
                0 <= j < records.len() && #[trigger] open_behind(
                    records,
                    j,
                    other_of(lock.open_state_token),
                    lock.client_id,
                    file_of(lock.object),
                )
            &&& owner_sound(lock.owner, limits)
            &&& lock.ranges.len() <= limits.max_lock_ranges_per_state
            &&& ranges_sound(lock.ranges)
        },
        _ => true,
    }
}

/// The number of a client record.
pub open spec fn client_number(record: RecordView) -> Option<u64> {
    match record {
        RecordView::Client(client) => Some(client.client_id),
        _ => None,
    }
}

/// The identity of a state record.
pub open spec fn state_identity_of(record: RecordView) -> Option<Seq<u8>> {
    match record {
        RecordView::Open(open) => Some(other_of(open.state_token)),
        RecordView::Lock(lock) => Some(other_of(lock.state_token)),
        _ => None,
    }
}

/// The owner of a reply record.
pub open spec fn replay_owner(record: RecordView) -> Option<Seq<u8>> {
    match record {
        RecordView::Replay(replay) => Some(owner_key(replay.client_id, replay.owner_kind, replay.owner)),
        _ => None,
    }
}

/// Two records are of different clients, states and replies.
pub open spec fn records_apart(a: RecordView, b: RecordView) -> bool {
    &&& client_number(a) is Some && client_number(b) is Some ==> client_number(a) != client_number(b)
    &&& state_identity_of(a) is Some && state_identity_of(b) is Some ==> state_identity_of(a) != state_identity_of(b)
    &&& replay_owner(a) is Some && replay_owner(b) is Some ==> replay_owner(a) != replay_owner(b)
}

/// How many of the first `n` records are confirmed clients.
pub open spec fn confirmed_count(records: Seq<TypedView>, n: nat) -> nat
    decreases n,
{
    if n == 0 {
        0
    } else {
        confirmed_count(records, (n - 1) as nat) + if records[n - 1].1 matches RecordView::Client(client)
            && client.confirmed {
            1nat
        } else {
            0nat
        }
    }
}

/// How many of the first `n` records are states.
pub open spec fn state_count(records: Seq<TypedView>, n: nat) -> nat
    decreases n,
{
    if n == 0 {
        0
    } else {
        state_count(records, (n - 1) as nat) + if state_identity_of(records[n - 1].1) is Some {
            1nat
        } else {
            0nat
        }
    }
}

/// The client and the owner of a state record: of an open, or of a lock.
pub open spec fn state_owner(record: RecordView, opens: bool) -> Option<(u64, Seq<u8>)> {
    match record {
        RecordView::Open(open) => if opens {
            Some((open.client_id, open.owner))
        } else {
            None
        },
        RecordView::Lock(lock) => if opens {
            None
        } else {
            Some((lock.client_id, lock.owner))
        },
        _ => None,
    }
}

/// The owners of a client's opens, or locks, among the first `n` records.
pub open spec fn owner_names(records: Seq<TypedView>, opens: bool, client_id: u64, n: nat) -> Set<Seq<u8>>
    decreases n,
{
    if n == 0 {
        Set::empty()
    } else {
        let before = owner_names(records, opens, client_id, (n - 1) as nat);
        match state_owner(records[n - 1].1, opens) {
            Some((client, owner)) => if client == client_id {
                before.insert(owner)
            } else {
                before
            },
            None => before,
        }
    }
}

/// The records of a run are such that the next one can take them over.
pub open spec fn records_recoverable(records: Seq<TypedView>, replies: Seq<Option<Seq<u8>>>, limits: Nfs4Limits) -> bool {
    &&& forall|i: int| 0 <= i < records.len() ==> #[trigger] record_sound(records, replies, i, limits)
    &&& forall|i: int, j: int|
        0 <= i < j < records.len() ==> records_apart((#[trigger] records[i]).1, (#[trigger] records[j]).1)
    &&& confirmed_count(records, records.len()) <= limits.max_clients
    &&& forall|client_id: u64|
        (#[trigger] owner_names(records, true, client_id, records.len())).len() <= limits.max_open_owners_per_client
    &&& forall|client_id: u64|
        (#[trigger] owner_names(records, false, client_id, records.len())).len() <= limits.max_lock_owners_per_client
    &&& state_count(records, records.len()) <= limits.max_state_objects
}

/// What a run found can be taken over.
pub open spec fn recoverable(
    recovered: RecoveredView,
    replies: Seq<Option<Seq<u8>>>,
    limits: Nfs4Limits,
    minimum_grace_duration: u64,
) -> bool {
    &&& minimum_grace_duration != 0
    &&& if recovered.previous_shutdown == PreviousShutdown::FirstBoot {
        recovered.previous_boot is None && recovered.records.len() == 0
    } else {
        recovered.previous_boot is Some && records_recoverable(recovered.records, replies, limits)
    }
}

/// State of the run before that waits to be reclaimed.
pub struct RecoveredRuntimeState {
    pub clients: ByteMap<IdList>,
    pub opens: ByteMap<RecoveredOpen>,
    pub locks: ByteMap<RecoveredLock>,
    pub replays: ByteMap<RecoveredReplay>,
    pub cleanup_keys: KeySet,
}

/// What state of the run before stands for: the previous numbers of each client identity, the opens and the locks
/// by their state ids, the last replies by their owners, and the keys of all these records.
#[verifier::ext_equal]
pub struct RecoveredStateView {
    pub clients: Map<Seq<u8>, Set<u64>>,
    pub opens: Map<Seq<u8>, RecoveredOpenView>,
    pub locks: Map<Seq<u8>, RecoveredLockView>,
    pub replays: Map<Seq<u8>, RecoveredReplayView>,
    pub cleanup_keys: Set<KeyView>,
}

/// What lists of numbers stand for.
pub open spec fn id_views(map: Map<Seq<u8>, IdList>) -> Map<Seq<u8>, Set<u64>> {
    map.map_values(|list: IdList| list@)
}

/// What opens of the run before stand for.
pub open spec fn open_views(map: Map<Seq<u8>, RecoveredOpen>) -> Map<Seq<u8>, RecoveredOpenView> {
    map.map_values(|open: RecoveredOpen| open@)
}

/// What locks of the run before stand for.
pub open spec fn lock_views(map: Map<Seq<u8>, RecoveredLock>) -> Map<Seq<u8>, RecoveredLockView> {
    map.map_values(|lock: RecoveredLock| lock@)
}

/// What replies of the run before stand for.
pub open spec fn replay_views(map: Map<Seq<u8>, RecoveredReplay>) -> Map<Seq<u8>, RecoveredReplayView> {
    map.map_values(|replay: RecoveredReplay| replay@)
}

impl View for RecoveredRuntimeState {
    type V = RecoveredStateView;

    open spec fn view(&self) -> RecoveredStateView {
        RecoveredStateView {
            clients: id_views(self.clients@),
            opens: open_views(self.opens@),
            locks: lock_views(self.locks@),
            replays: replay_views(self.replays@),
            cleanup_keys: self.cleanup_keys@,
        }
    }
}

impl RecoveredRuntimeState {
    /// Nothing of the run before.
    pub fn new() -> (state: RecoveredRuntimeState)
        ensures
            state@ == nothing_recovered(),
    {
        let state = RecoveredRuntimeState {
            clients: ByteMap::new(),
            opens: ByteMap::new(),
            locks: ByteMap::new(),
            replays: ByteMap::new(),
            cleanup_keys: KeySet::new(),
        };
        assert(state@ =~= nothing_recovered());
        state
    }
}

/// Nothing of the run before.
pub open spec fn nothing_recovered() -> RecoveredStateView {
    RecoveredStateView {
        clients: Map::empty(),
        opens: Map::empty(),
        locks: Map::empty(),
        replays: Map::empty(),
        cleanup_keys: Set::empty(),
    }
}

/// The record is a confirmed client of that identity and number.
pub open spec fn client_filed(record: RecordView, place: Seq<u8>, client_id: u64) -> bool {
    record matches RecordView::Client(client) && client.confirmed && client.client_id == client_id && identity_place(
        client.owner,
        client.verifier,
        client.canonical_principal,
    ) == place
}

/// The open that a record stands for.
pub open spec fn hydrated_open(open: crate::record::OpenView, limits: Nfs4Limits) -> RecoveredOpenView {
    RecoveredOpenView {
        state_token: open.state_token,
        previous_client_id: open.client_id,
        owner: open.owner,
        file: file_of(open.object),
        access: wire_access(open.share_access)->0,
        deny: wire_deny(open.share_deny)->0,
        contributions: contributed(
            open.contributions,
            limits.max_open_contributions_per_state,
            open.contributions.len(),
        )->0,
    }
}

/// The locks that a record stands for, through the open with that state id.
pub open spec fn hydrated_lock(lock: crate::record::LockView, open_token: Seq<u8>) -> RecoveredLockView {
    RecoveredLockView {
        state_token: lock.state_token,
        previous_open_state_token: open_token,
        previous_client_id: lock.client_id,
        owner: lock.owner,
        file: file_of(lock.object),
        ranges: recovered_ranges(lock.ranges),
    }
}

/// The reply that a record stands for, with the operation that was read from it.
pub open spec fn hydrated_replay(replay: crate::record::ReplayView, operation: Seq<u8>) -> RecoveredReplayView {
    RecoveredReplayView {
        sequence_id: replay.sequence_id,
        digest: replay.request_digest,
        operation,
        effect: effect_of(replay)->0,
    }
}

/// The record is an open with that state id.
pub open spec fn is_open_as(record: RecordView, token: Seq<u8>) -> bool {
    record matches RecordView::Open(open) && open.state_token == token
}

/// The record is a lock state with that state id.
pub open spec fn is_lock_as(record: RecordView, token: Seq<u8>) -> bool {
    record matches RecordView::Lock(lock) && lock.state_token == token
}

/// The record is one of those that are taken over.
pub open spec fn taken_over(record: RecordView) -> bool {
    record is Client || record is Open || record is Lock || record is Replay
}

/// The identities of the confirmed clients, among the first `n` records.
pub open spec fn clients_hydrated(clients: Map<Seq<u8>, Set<u64>>, records: Seq<TypedView>, n: nat) -> bool {
    &&& forall|place: Seq<u8>, id: u64|
        clients.contains_key(place) && #[trigger] clients[place].contains(id) ==> exists|i: int|
            0 <= i < n && client_filed((#[trigger] records[i]).1, place, id)
    &&& forall|i: int, place: Seq<u8>, id: u64|
        0 <= i < n && #[trigger] client_filed(records[i].1, place, id) ==> clients.contains_key(place)
            && clients[place].contains(id)
    &&& forall|place: Seq<u8>| #[trigger] clients.contains_key(place) ==> exists|id: u64| #[trigger] clients[place].contains(id)
}

/// The opens, among the first `n` records.
pub open spec fn opens_hydrated(
    opens: Map<Seq<u8>, RecoveredOpenView>,
    records: Seq<TypedView>,
    limits: Nfs4Limits,
    n: nat,
) -> bool {
    &&& forall|token: Seq<u8>| #[trigger]
        opens.contains_key(token) ==> exists|i: int| 0 <= i < n && is_open_as((#[trigger] records[i]).1, token)
    &&& forall|i: int|
        0 <= i < n ==> ((#[trigger] records[i]).1 matches RecordView::Open(open) ==> opens.contains_key(
            open.state_token,
        ) && opens[open.state_token] == hydrated_open(open, limits))
}

/// The last replies, among the first `n` records.
pub open spec fn replays_hydrated(
    replays: Map<Seq<u8>, RecoveredReplayView>,
    records: Seq<TypedView>,
    replies: Seq<Option<Seq<u8>>>,
    n: nat,
) -> bool {
    &&& forall|place: Seq<u8>| #[trigger]
        replays.contains_key(place) ==> exists|i: int|
            0 <= i < n && replay_owner((#[trigger] records[i]).1) == Some(place)
    &&& forall|i: int|
        0 <= i < n ==> ((#[trigger] records[i]).1 matches RecordView::Replay(replay) ==> replays.contains_key(
            owner_key(replay.client_id, replay.owner_kind, replay.owner),
        ) && replays[owner_key(replay.client_id, replay.owner_kind, replay.owner)] == hydrated_replay(
            replay,
            replies[i]->0,
        ))
}

/// The locks, among the first `n` records.
pub open spec fn locks_hydrated(locks: Map<Seq<u8>, RecoveredLockView>, records: Seq<TypedView>, n: nat) -> bool {
    &&& forall|token: Seq<u8>| #[trigger]
        locks.contains_key(token) ==> exists|i: int| 0 <= i < n && is_lock_as((#[trigger] records[i]).1, token)
    &&& forall|i: int, j: int|
        0 <= i < n && 0 <= j < records.len() ==> ((#[trigger] records[i]).1 matches RecordView::Lock(lock) ==> ((
        #[trigger] records[j]).1 matches RecordView::Open(open) ==> other_of(open.state_token) == other_of(
            lock.open_state_token,
        ) ==> locks.contains_key(lock.state_token) && locks[lock.state_token] == hydrated_lock(
            lock,
            open.state_token,
        )))
}

/// The keys of the records that are taken over.
pub open spec fn keys_hydrated(keys: Set<KeyView>, records: Seq<TypedView>, n: nat) -> bool {
    &&& forall|key: KeyView| #[trigger]
        keys.contains(key) ==> exists|i: int|
            0 <= i < n && (#[trigger] records[i]).0 == key && taken_over(records[i].1)
    &&& forall|i: int| 0 <= i < n && taken_over((#[trigger] records[i]).1) ==> keys.contains(records[i].0)
}

/// The state is what the records hold.
pub open spec fn hydrates(
    state: RecoveredStateView,
    records: Seq<TypedView>,
    replies: Seq<Option<Seq<u8>>>,
    limits: Nfs4Limits,
) -> bool {
    &&& clients_hydrated(state.clients, records, records.len())
    &&& opens_hydrated(state.opens, records, limits, records.len())
    &&& replays_hydrated(state.replays, records, replies, records.len())
    &&& locks_hydrated(state.locks, records, records.len())
    &&& keys_hydrated(state.cleanup_keys, records, records.len())
}

/// State of the run before, checked and ready to be made visible.
pub struct PreparedRuntimeRecovery {
    pub previous_shutdown: PreviousShutdown,
    pub minimum_grace_duration: u64,
    pub state: RecoveredRuntimeState,
}

/// The clients of a list of records: whether each is confirmed.
fn gather_clients(records: &Vec<(JournalKey, JournalRecord)>, limits: Nfs4Limits) -> (clients: Option<NumberMap<bool>>)
    ensures
        ({
            let views = typed_views(records@);
            let sound = (forall|i: int|
                0 <= i < views.len() && (#[trigger] views[i]).1 is Client ==> record_sound(views, seq![], i, limits))
                && (forall|i: int, j: int|
                0 <= i < j < views.len() && client_number((#[trigger] views[i]).1) is Some && client_number(
                    (#[trigger] views[j]).1,
                ) is Some ==> client_number(views[i].1) != client_number(views[j].1)) && confirmed_count(
                views,
                views.len(),
            ) <= limits.max_clients;
            match clients {
                Some(map) => {
                    &&& sound
                    &&& tells_confirmed(map@, views)
                },
                None => !sound,
            }
        }),
{
    let ghost views = typed_views(records@);
    let mut map: NumberMap<bool> = NumberMap::new();
    let mut confirmed: usize = 0;
    let mut i: usize = 0;
    while i < records.len()
        invariant
            i <= records@.len(),
            views == typed_views(records@),
            confirmed == confirmed_count(views, i as nat),
            confirmed <= limits.max_clients,
            forall|j: int|
                0 <= j < i && (#[trigger] views[j]).1 is Client ==> record_sound(views, seq![], j, limits),
            forall|j: int|
                0 <= j < i ==> (client_number((#[trigger] views[j]).1) matches Some(id) ==> map@.contains_key(id)),
            forall|j: int|
                0 <= j < i ==> ((#[trigger] views[j]).1 matches RecordView::Client(client) ==> map@[client.client_id]
                    == client.confirmed),
            forall|id: u64| #[trigger]
                map@.contains_key(id) ==> exists|j: int|
                    0 <= j < i && client_number((#[trigger] views[j]).1) == Some(id),
            forall|j: int, k: int|
                0 <= j < k < i && client_number((#[trigger] views[j]).1) is Some && client_number(
                    (#[trigger] views[k]).1,
                ) is Some ==> client_number(views[j].1) != client_number(views[k].1),
        decreases records@.len() - i,
    {
        assert(views[i as int] == (records@[i as int].0@, records@[i as int].1@));
        if let JournalRecord::Client(client) = &records[i].1 {
            let tag: u32 = (client.client_id >> 32) as u32;
            let expected = JournalKey::Client { client_id: client.client_id };
            if !records[i].0.same(&expected) || client.owner.len() == 0 || client.owner.len()
                > limits.max_client_owner_size || client.canonical_principal.len() == 0 || tag == 0 || tag == u32::MAX {
                assert(!record_sound(views, seq![], i as int, limits));
                return None;
            }
            assert(record_sound(views, seq![], i as int, limits));
            if map.contains(client.client_id) {
                proof {
                    let j = choose|j: int|
                        0 <= j < i && client_number((#[trigger] views[j]).1) == Some(client.client_id);
                    assert(client_number(views[j].1) == client_number(views[i as int].1));
                }
                return None;
            }
            let ghost before = map@;
            let _ = map.insert(client.client_id, client.confirmed);
            if client.confirmed {
                if confirmed >= limits.max_clients {
                    proof {
                        lemma_confirmed_grows(views, (i + 1) as nat, views.len());
                    }
                    return None;
                }
                confirmed += 1;
            }
        }
        i += 1;
    }
    proof {
        assert forall|id: u64| (map@.contains_key(id) && #[trigger] map@[id]) == has_confirmed(views, id) by {
            if map@.contains_key(id) {
                let j = choose|j: int| 0 <= j < i && client_number((#[trigger] views[j]).1) == Some(id);
                if map@[id] {
                    assert(confirmed_as(views[j].1, id));
                }
                if has_confirmed(views, id) {
                    let k = choose|k: int| 0 <= k < views.len() && confirmed_as((#[trigger] views[k]).1, id);
                    assert(client_number(views[k].1) == Some(id));
                }
            } else if has_confirmed(views, id) {
                let k = choose|k: int| 0 <= k < views.len() && confirmed_as((#[trigger] views[k]).1, id);
                assert(client_number(views[k].1) == Some(id));
            }
        }
    }
    Some(map)
}

/// More records have no fewer confirmed clients.
proof fn lemma_confirmed_grows(records: Seq<TypedView>, n: nat, m: nat)
    requires
        n <= m,
    ensures
        confirmed_count(records, n) <= confirmed_count(records, m),
    decreases m - n,
{
    if n < m {
        lemma_confirmed_grows(records, n, (m - 1) as nat);
    }
}

/// More records have no fewer states.
proof fn lemma_states_grow(records: Seq<TypedView>, n: nat, m: nat)
    requires
        n <= m,
    ensures
        state_count(records, n) <= state_count(records, m),
        state_count(records, n) <= n,
    decreases m,
{
    if n > 0 {
        lemma_states_grow(records, (n - 1) as nat, (n - 1) as nat);
    }
    if n < m {
        lemma_states_grow(records, n, (m - 1) as nat);
    }
}

/// More records have no fewer owners, of which there are finitely many.
proof fn lemma_owners_grow(records: Seq<TypedView>, opens: bool, client_id: u64, n: nat, m: nat)
    requires
        n <= m,
    ensures
        owner_names(records, opens, client_id, n).finite(),
        owner_names(records, opens, client_id, m).finite(),
        owner_names(records, opens, client_id, n).subset_of(owner_names(records, opens, client_id, m)),
        owner_names(records, opens, client_id, n).len() <= owner_names(records, opens, client_id, m).len(),
    decreases m,
{
    if n < m {
        lemma_owners_grow(records, opens, client_id, n, (m - 1) as nat);
        vstd::set_lib::lemma_len_subset(
            owner_names(records, opens, client_id, (m - 1) as nat),
            owner_names(records, opens, client_id, m),
        );
    } else if n > 0 {
        lemma_owners_grow(records, opens, client_id, (n - 1) as nat, (n - 1) as nat);
    }
}

/// Whether no client has more owners of opens, or of locks, than allowed.
fn owners_bounded(records: &Vec<(JournalKey, JournalRecord)>, opens: bool, maximum: usize) -> (bounded: bool)
    ensures
        bounded == forall|client_id: u64|
            (#[trigger] owner_names(typed_views(records@), opens, client_id, records@.len())).len() <= maximum,
{
    let ghost views = typed_views(records@);
    let mut pairs: ByteMap<()> = ByteMap::new();
    let mut counts: NumberMap<usize> = NumberMap::new();
    let mut i: usize = 0;
    while i < records.len()
        invariant
            i <= records@.len(),
            views == typed_views(records@),
            forall|c: u64, o: Seq<u8>| #[trigger]
                pairs@.contains_key(owner_place(c, o)) == owner_names(views, opens, c, i as nat).contains(o),
            forall|c: u64|
                (#[trigger] owner_names(views, opens, c, i as nat)).len() == if counts@.contains_key(c) {
                    counts@[c] as nat
                } else {
                    0
                },
            forall|c: u64| #[trigger] counts@.contains_key(c) ==> counts@[c] <= maximum,
        decreases records@.len() - i,
    {
        assert(views[i as int] == (records@[i as int].0@, records@[i as int].1@));
        let found: Option<(u64, &Vec<u8>)> = match &records[i].1 {
            JournalRecord::Open(open) => if opens {
                Some((open.client_id, &open.owner))
            } else {
                None
            },
            JournalRecord::Lock(lock) => if opens {
                None
            } else {
                Some((lock.client_id, &lock.owner))
            },
            _ => None,
        };
        let ghost n = i as nat;
        if let Some((client_id, owner)) = found {
            assert(state_owner(views[i as int].1, opens) == Some((client_id, owner@)));
            let mut place = number_key(client_id);
            append(&mut place, owner.as_slice());
            assert(place@ == owner_place(client_id, owner@));
            let ghost before_pairs = pairs@;
            let ghost before_counts = counts@;
            if !pairs.contains(place.as_slice()) {
                let count: usize = match counts.get(client_id) {
                    Some(count) => *count,
                    None => 0,
                };
                proof {
                    lemma_owners_grow(views, opens, client_id, n, n);
                }
                if count >= maximum {
                    proof {
                        lemma_owners_grow(views, opens, client_id, n + 1, views.len());
                        assert(owner_names(views, opens, client_id, n + 1).len() == count + 1);
                        assert(owner_names(views, opens, client_id, views.len()).len() > maximum);
                    }
                    return false;
                }
                let _ = pairs.insert(place, ());
                let _ = counts.insert(client_id, count + 1);
            }
            proof {
                assert forall|c: u64, o: Seq<u8>| #[trigger] pairs@.contains_key(owner_place(c, o)) == owner_names(
                    views,
                    opens,
                    c,
                    n + 1,
                ).contains(o) by {
                    crate::protocol::lemma_owner_place((c, o), (client_id, owner@));
                    assert(before_pairs.contains_key(owner_place(c, o)) == owner_names(views, opens, c, n).contains(o));
                }
                assert forall|c: u64| (#[trigger] owner_names(views, opens, c, n + 1)).len() == if counts@.contains_key(
                    c,
                ) {
                    counts@[c] as nat
                } else {
                    0
                } by {
                    lemma_owners_grow(views, opens, c, n, n);
                    assert(owner_names(views, opens, c, n).len() == if before_counts.contains_key(c) {
                        before_counts[c] as nat
                    } else {
                        0
                    });
                    if c == client_id {
                        if before_pairs.contains_key(owner_place(client_id, owner@)) {
                            assert(owner_names(views, opens, c, n).insert(owner@) =~= owner_names(views, opens, c, n));
                        }
                    }
                }
            }
        } else {
            assert(state_owner(views[i as int].1, opens) is None);
            assert forall|c: u64| (#[trigger] owner_names(views, opens, c, n + 1)).len() == if counts@.contains_key(c) {
                counts@[c] as nat
            } else {
                0
            } by {
                assert(owner_names(views, opens, c, n + 1) == owner_names(views, opens, c, n));
            }
        }
        i += 1;
    }
    true
}

/// The map says which clients are confirmed.
spec fn tells_confirmed(map: Map<u64, bool>, records: Seq<TypedView>) -> bool {
    forall|id: u64| (map.contains_key(id) && #[trigger] map[id]) == has_confirmed(records, id)
}

/// Whether the client has a confirmed record.
fn is_confirmed(map: &NumberMap<bool>, client_id: u64, Ghost(records): Ghost<Seq<TypedView>>) -> (confirmed: bool)
    requires
        tells_confirmed(map@, records),
    ensures
        confirmed == has_confirmed(records, client_id),
{
    assert((map@.contains_key(client_id) && map@[client_id]) == has_confirmed(records, client_id));
    match map.get(client_id) {
        Some(confirmed) => *confirmed,
        None => false,
    }
}

/// The opens among the records are sound, and no two have the same identity.
spec fn opens_sound(records: Seq<TypedView>, limits: Nfs4Limits) -> bool {
    &&& forall|i: int|
        0 <= i < records.len() && (#[trigger] records[i]).1 is Open ==> record_sound(records, seq![], i, limits)
    &&& forall|i: int, j: int|
        0 <= i < j < records.len() && (#[trigger] records[i]).1 is Open && (#[trigger] records[j]).1 is Open
            ==> state_identity_of(records[i].1) != state_identity_of(records[j].1)
}

/// The map leads from the identity of an open to its state id, among the first `n` records.
spec fn tokens_known(map: Map<Seq<u8>, [u8; 16]>, records: Seq<TypedView>, n: nat) -> bool {
    &&& forall|other: Seq<u8>| #[trigger]
        map.contains_key(other) ==> exists|i: int|
            0 <= i < n && (#[trigger] records[i]).1 is Open && state_identity_of(records[i].1) == Some(other)
    &&& forall|i: int|
        0 <= i < n ==> ((#[trigger] records[i]).1 matches RecordView::Open(open) ==> map.contains_key(
            other_of(open.state_token),
        ) && map[other_of(open.state_token)]@ == open.state_token)
}

/// The open that a record stands for, where it is sound.
fn hydrate_open(
    key: &JournalKey,
    open: &crate::record::OpenRecord,
    confirmed: &NumberMap<bool>,
    limits: Nfs4Limits,
    Ghost(records): Ghost<Seq<TypedView>>,
    Ghost(at): Ghost<int>,
) -> (found: Option<RecoveredOpen>)
    requires
        tells_confirmed(confirmed@, records),
        0 <= at < records.len(),
        records[at] == (key@, RecordView::Open(open@)),
    ensures
        match found {
            Some(o) => record_sound(records, seq![], at, limits) && o@ == hydrated_open(open@, limits),
            None => !record_sound(records, seq![], at, limits),
        },
{
    let expected = JournalKey::Open { state_token: open.state_token };
    if !key.same(&expected) || !valid_recovered_state_token(open.state_token, (open.client_id >> 32) as u32)
        || !is_confirmed(confirmed, open.client_id, Ghost(records)) || open.owner.len() == 0 || open.owner.len()
        > limits.max_client_owner_size {
        return None;
    }
    let access = match ShareAccess::from_wire(open.share_access) {
        Some(access) => access,
        None => {
            return None;
        },
    };
    let deny = match ShareDeny::from_wire(open.share_deny) {
        Some(deny) => deny,
        None => {
            return None;
        },
    };
    let contributions = match gather_contributions(&open.contributions, limits.max_open_contributions_per_state) {
        Some(contributions) => contributions,
        None => {
            return None;
        },
    };
    match contributions.aggregate() {
        Some((a, d)) => {
            if a != access || d != deny {
                return None;
            }
        },
        None => {
            return None;
        },
    }
    let found = RecoveredOpen {
        state_token: open.state_token,
        previous_client_id: open.client_id,
        owner: Arc::new(copy_bytes(open.owner.as_slice())),
        file: runtime_file(open.object),
        access,
        deny,
        contributions,
    };
    assert(found@ =~= hydrated_open(open@, limits));
    Some(found)
}

/// The opens of a list of records, and the way from their identities to their state ids.
fn hydrate_opens(records: &Vec<(JournalKey, JournalRecord)>, confirmed: &NumberMap<bool>, limits: Nfs4Limits) -> (found:
    Option<(ByteMap<RecoveredOpen>, ByteMap<[u8; 16]>)>)
    requires
        tells_confirmed(confirmed@, typed_views(records@)),
    ensures
        match found {
            Some((opens, tokens)) => {
                &&& opens_sound(typed_views(records@), limits)
                &&& opens_hydrated(open_views(opens@), typed_views(records@), limits, records@.len())
                &&& tokens_known(tokens@, typed_views(records@), records@.len())
            },
            None => !opens_sound(typed_views(records@), limits),
        },
{
    let ghost views = typed_views(records@);
    let mut opens: ByteMap<RecoveredOpen> = ByteMap::new();
    let mut tokens: ByteMap<[u8; 16]> = ByteMap::new();
    let mut i: usize = 0;
    while i < records.len()
        invariant
            i <= records@.len(),
            views == typed_views(records@),
            tells_confirmed(confirmed@, views),
            opens_hydrated(open_views(opens@), views, limits, i as nat),
            tokens_known(tokens@, views, i as nat),
            forall|j: int|
                0 <= j < i && (#[trigger] views[j]).1 is Open ==> record_sound(views, seq![], j, limits),
            forall|j: int, k: int|
                0 <= j < k < i && (#[trigger] views[j]).1 is Open && (#[trigger] views[k]).1 is Open
                    ==> state_identity_of(views[j].1) != state_identity_of(views[k].1),
        decreases records@.len() - i,
    {
        assert(views[i as int] == (records@[i as int].0@, records@[i as int].1@));
        if let JournalRecord::Open(open) = &records[i].1 {
            let ghost token = open.state_token@;
            let one = match hydrate_open(&records[i].0, open, confirmed, limits, Ghost(views), Ghost(i as int)) {
                Some(one) => one,
                None => {
                    assert(!opens_sound(views, limits));
                    return None;
                },
            };
            let other = state_other(open.state_token);
            if tokens.contains(other.as_slice()) {
                proof {
                    let j = choose|j: int|
                        0 <= j < i && (#[trigger] views[j]).1 is Open && state_identity_of(views[j].1) == Some(other@);
                    assert(state_identity_of(views[i as int].1) == Some(other@));
                    assert(!opens_sound(views, limits));
                }
                return None;
            }
            let ghost had_opens = opens@;
            let ghost had_tokens = tokens@;
            let _ = tokens.insert(copy_bytes(other.as_slice()), open.state_token);
            let _ = opens.insert(copy_bytes(open.state_token.as_slice()), one);
            proof {
                assert(open_views(opens@) =~= open_views(had_opens).insert(token, one@));
                assert forall|t: Seq<u8>| #[trigger] open_views(opens@).contains_key(t) implies exists|j: int|
                    0 <= j < i + 1 && is_open_as((#[trigger] views[j]).1, t) by {
                    if t == token {
                        assert(is_open_as(views[i as int].1, t));
                    } else {
                        assert(open_views(had_opens).contains_key(t));
                        let j = choose|j: int| 0 <= j < i && is_open_as((#[trigger] views[j]).1, t);
                        assert(is_open_as(views[j].1, t));
                    }
                }
                assert forall|j: int| 0 <= j < i + 1 implies ((#[trigger] views[j]).1 matches RecordView::Open(o)
                    ==> open_views(opens@).contains_key(o.state_token) && open_views(opens@)[o.state_token]
                    == hydrated_open(o, limits)) by {
                    if j < i {
                        if let RecordView::Open(o) = views[j].1 {
                            assert(had_tokens.contains_key(other_of(o.state_token)));
                            assert(o.state_token != token);
                            assert(open_views(had_opens).contains_key(o.state_token));
                        }
                    }
                }
                assert forall|x: Seq<u8>| #[trigger] tokens@.contains_key(x) implies exists|j: int|
                    0 <= j < i + 1 && (#[trigger] views[j]).1 is Open && state_identity_of(views[j].1) == Some(x) by {
                    if x == other@ {
                        assert(views[i as int].1 is Open);
                    } else {
                        assert(had_tokens.contains_key(x));
                        let j = choose|j: int|
                            0 <= j < i && (#[trigger] views[j]).1 is Open && state_identity_of(views[j].1) == Some(x);
                        assert(views[j].1 is Open);
                    }
                }
                assert forall|j: int| 0 <= j < i + 1 implies ((#[trigger] views[j]).1 matches RecordView::Open(o)
                    ==> tokens@.contains_key(other_of(o.state_token)) && tokens@[other_of(o.state_token)]@
                    == o.state_token) by {
                    if j < i {
                        if let RecordView::Open(o) = views[j].1 {
                            assert(had_tokens.contains_key(other_of(o.state_token)));
                        }
                    }
                }
            }
        }
        i += 1;
    }
    Some((opens, tokens))
}

/// The replies among the records are sound, and no two are of the same owner.
spec fn replays_sound(records: Seq<TypedView>, replies: Seq<Option<Seq<u8>>>, limits: Nfs4Limits) -> bool {
    &&& forall|i: int|
        0 <= i < records.len() && (#[trigger] records[i]).1 is Replay ==> record_sound(records, replies, i, limits)
    &&& forall|i: int, j: int|
        0 <= i < j < records.len() && replay_owner((#[trigger] records[i]).1) is Some && replay_owner(
            (#[trigger] records[j]).1,
        ) is Some ==> replay_owner(records[i].1) != replay_owner(records[j].1)
}

/// The reply that a record stands for, where it is sound.
fn hydrate_replay(
    key: &JournalKey,
    replay: &crate::record::ReplayRecord,
    operation: Option<&Vec<u8>>,
    confirmed: &NumberMap<bool>,
    limits: Nfs4Limits,
    Ghost(records): Ghost<Seq<TypedView>>,
    Ghost(replies): Ghost<Seq<Option<Seq<u8>>>>,
    Ghost(at): Ghost<int>,
) -> (found: Option<RecoveredReplay>)
    requires
        tells_confirmed(confirmed@, records),
        0 <= at < records.len(),
        records[at] == (key@, RecordView::Replay(replay@)),
        match operation {
            Some(o) => at < replies.len() && replies[at] == Some(o@),
            None => at >= replies.len() || replies[at] is None,
        },
    ensures
        match found {
            Some(r) => record_sound(records, replies, at, limits) && r@ == hydrated_replay(replay@, replies[at]->0),
            None => !record_sound(records, replies, at, limits),
        },
{
    let expected = JournalKey::Replay {
        client_id: replay.client_id,
        owner_kind: replay.owner_kind,
        owner: copy_bytes(replay.owner.as_slice()),
    };
    if !key.same(&expected) || !is_confirmed(confirmed, replay.client_id, Ghost(records)) || replay.owner.len() == 0
        || replay.owner.len() > limits.max_client_owner_size {
        return None;
    }
    let operation = match operation {
        Some(operation) => copy_bytes(operation.as_slice()),
        None => {
            return None;
        },
    };
    let current_file = match replay.current_object {
        Some(object) => Some(runtime_file(object)),
        None => None,
    };
    let stateid_renewal_client = match replay.renewal_source {
        ReplayRenewalSource::Unset => None,
        ReplayRenewalSource::StateId { client_id } => {
            if client_id != replay.client_id {
                return None;
            }
            Some(client_id)
        },
    };
    let found = RecoveredReplay {
        sequence_id: replay.sequence_id,
        digest: OwnerRequestDigest(replay.request_digest),
        operation: Arc::new(operation),
        effect: ReplayEffect { current_file, stateid_renewal_client },
    };
    assert(found@ =~= hydrated_replay(replay@, replies[at]->0));
    Some(found)
}

/// The last replies of a list of records.
fn hydrate_replays(
    records: &Vec<(JournalKey, JournalRecord)>,
    replies: &Vec<Option<Vec<u8>>>,
    confirmed: &NumberMap<bool>,
    limits: Nfs4Limits,
) -> (found: Option<ByteMap<RecoveredReplay>>)
    requires
        tells_confirmed(confirmed@, typed_views(records@)),
    ensures
        match found {
            Some(replays) => {
                &&& replays_sound(typed_views(records@), reply_views(replies@), limits)
                &&& replays_hydrated(
                    replay_views(replays@),
                    typed_views(records@),
                    reply_views(replies@),
                    records@.len(),
                )
            },
            None => !replays_sound(typed_views(records@), reply_views(replies@), limits),
        },
{
    let ghost views = typed_views(records@);
    let mut replays: ByteMap<RecoveredReplay> = ByteMap::new();
    let mut i: usize = 0;
    while i < records.len()
        invariant
            i <= records@.len(),
            views == typed_views(records@),
            tells_confirmed(confirmed@, views),
            replays_hydrated(replay_views(replays@), views, reply_views(replies@), i as nat),
            forall|j: int|
                0 <= j < i && (#[trigger] views[j]).1 is Replay ==> record_sound(views, reply_views(replies@), j, limits),
            forall|j: int, k: int|
                0 <= j < k < i && replay_owner((#[trigger] views[j]).1) is Some && replay_owner(
                    (#[trigger] views[k]).1,
                ) is Some ==> replay_owner(views[j].1) != replay_owner(views[k].1),
        decreases records@.len() - i,
    {
        assert(views[i as int] == (records@[i as int].0@, records@[i as int].1@));
        if let JournalRecord::Replay(replay) = &records[i].1 {
            let operation = if i < replies.len() {
                replies[i].as_ref()
            } else {
                None
            };
            let one = match hydrate_replay(
                &records[i].0,
                replay,
                operation,
                confirmed,
                limits,
                Ghost(views),
                Ghost(reply_views(replies@)),
                Ghost(i as int),
            ) {
                Some(one) => one,
                None => {
                    assert(!replays_sound(views, reply_views(replies@), limits));
                    return None;
                },
            };
            let place = owner_map_key(replay.client_id, replay.owner_kind, replay.owner.as_slice());
            let ghost key = place@;
            assert(replay_owner(views[i as int].1) == Some(key));
            if replays.contains(place.as_slice()) {
                proof {
                    assert(replay_views(replays@).contains_key(key));
                    let j = choose|j: int| 0 <= j < i && replay_owner((#[trigger] views[j]).1) == Some(key);
                    assert(replay_owner(views[j].1) == replay_owner(views[i as int].1));
                    assert(!replays_sound(views, reply_views(replies@), limits));
                }
                return None;
            }
            let ghost had = replays@;
            let _ = replays.insert(place, one);
            proof {
                assert(replay_views(replays@) =~= replay_views(had).insert(key, one@));
                assert forall|p: Seq<u8>| #[trigger] replay_views(replays@).contains_key(p) implies exists|j: int|
                    0 <= j < i + 1 && replay_owner((#[trigger] views[j]).1) == Some(p) by {
                    if p == key {
                        assert(replay_owner(views[i as int].1) == Some(p));
                    } else {
                        assert(replay_views(had).contains_key(p));
                        let j = choose|j: int| 0 <= j < i && replay_owner((#[trigger] views[j]).1) == Some(p);
                        assert(replay_owner(views[j].1) == Some(p));
                    }
                }
                assert forall|j: int| 0 <= j < i + 1 implies ((#[trigger] views[j]).1 matches RecordView::Replay(r)
                    ==> replay_views(replays@).contains_key(owner_key(r.client_id, r.owner_kind, r.owner))
                    && replay_views(replays@)[owner_key(r.client_id, r.owner_kind, r.owner)] == hydrated_replay(
                    r,
                    reply_views(replies@)[j]->0,
                )) by {
                    if j < i {
                        if let RecordView::Replay(r) = views[j].1 {
                            assert(replay_views(had).contains_key(owner_key(r.client_id, r.owner_kind, r.owner)));
                        }
                    }
                }
            }
        }
        i += 1;
    }
    Some(replays)
}

/// The locks among the records are sound, and have identities that no open and no other lock has.
spec fn locks_sound(records: Seq<TypedView>, limits: Nfs4Limits) -> bool {
    &&& forall|i: int|
        0 <= i < records.len() && (#[trigger] records[i]).1 is Lock ==> record_sound(records, seq![], i, limits)
    &&& forall|i: int, j: int|
        0 <= i < records.len() && 0 <= j < records.len() && i != j && (#[trigger] records[i]).1 is Lock
            && state_identity_of((#[trigger] records[j]).1) is Some ==> state_identity_of(records[i].1)
            != state_identity_of(records[j].1)
}

/// The locks that a record stands for, where it is sound.
fn hydrate_lock(
    key: &JournalKey,
    lock: &crate::record::LockRecord,
    confirmed: &NumberMap<bool>,
    opens: &ByteMap<RecoveredOpen>,
    tokens: &ByteMap<[u8; 16]>,
    limits: Nfs4Limits,
    Ghost(records): Ghost<Seq<TypedView>>,
    Ghost(at): Ghost<int>,
) -> (found: Option<RecoveredLock>)
    requires
        tells_confirmed(confirmed@, records),
        0 <= at < records.len(),
        records[at] == (key@, RecordView::Lock(lock@)),
        opens_sound(records, limits),
        opens_hydrated(open_views(opens@), records, limits, records.len()),
        tokens_known(tokens@, records, records.len()),
    ensures
        match found {
            Some(l) => {
                &&& record_sound(records, seq![], at, limits)
                &&& tokens@.contains_key(other_of(lock@.open_state_token))
                &&& l@ == hydrated_lock(lock@, tokens@[other_of(lock@.open_state_token)]@)
            },
            None => !record_sound(records, seq![], at, limits),
        },
{
    let expected = JournalKey::Lock { state_token: lock.state_token };
    if !key.same(&expected) || !valid_recovered_state_token(lock.state_token, (lock.client_id >> 32) as u32)
        || !is_confirmed(confirmed, lock.client_id, Ghost(records)) || lock.owner.len() == 0 || lock.owner.len()
        > limits.max_client_owner_size || lock.ranges.len() > limits.max_lock_ranges_per_state {
        return None;
    }
    let open_other = state_other(lock.open_state_token);
    let token = match tokens.get(open_other.as_slice()) {
        Some(token) => *token,
        None => {
            proof {
                if record_sound(records, seq![], at, limits) {
                    let j = choose|j: int|
                        0 <= j < records.len() && #[trigger] open_behind(
                            records,
                            j,
                            other_of(lock@.open_state_token),
                            lock@.client_id,
                            file_of(lock@.object),
                        );
                    assert(records[j].1 is Open);
                }
            }
            return None;
        },
    };
    let ghost j = choose|j: int|
        0 <= j < records.len() && (#[trigger] records[j]).1 is Open && state_identity_of(records[j].1) == Some(
            open_other@,
        );
    let (client, file) = match opens.get(token.as_slice()) {
        Some(open) => (open.previous_client_id, open.file),
        None => {
            proof {
                assert(records[j].1 is Open);
                assert(open_views(opens@).contains_key(token@));
            }
            return None;
        },
    };
    proof {
        assert(records[j].1 is Open);
        assert(open_views(opens@).contains_key(token@));
        assert(open_views(opens@)[token@] == hydrated_open(records[j].1->Open_0, limits));
    }
    if client != lock.client_id || file != runtime_file(lock.object) {
        proof {
            if record_sound(records, seq![], at, limits) {
                let k = choose|k: int|
                    0 <= k < records.len() && #[trigger] open_behind(
                        records,
                        k,
                        other_of(lock@.open_state_token),
                        lock@.client_id,
                        file_of(lock@.object),
                    );
                assert(records[k].1 is Open);
                if k < j {
                    assert(state_identity_of(records[k].1) != state_identity_of(records[j].1));
                } else if j < k {
                    assert(state_identity_of(records[j].1) != state_identity_of(records[k].1));
                }
            }
        }
        return None;
    }
    let ranges = match gather_ranges(&lock.ranges) {
        Some(ranges) => ranges,
        None => {
            return None;
        },
    };
    assert(open_behind(records, j, other_of(lock@.open_state_token), lock@.client_id, file_of(lock@.object)));
    let found = RecoveredLock {
        state_token: lock.state_token,
        previous_open_state_token: token,
        previous_client_id: lock.client_id,
        owner: Arc::new(copy_bytes(lock.owner.as_slice())),
        file: runtime_file(lock.object),
        ranges: Arc::new(ranges),
    };
    assert(found@ =~= hydrated_lock(lock@, token@));
    Some(found)
}

/// The locks have identities that no open and no other lock has.
spec fn locks_apart(records: Seq<TypedView>) -> bool {
    forall|i: int, j: int|
        0 <= i < records.len() && 0 <= j < records.len() && i != j && (#[trigger] records[i]).1 is Lock
            && state_identity_of((#[trigger] records[j]).1) is Some ==> state_identity_of(records[i].1)
            != state_identity_of(records[j].1)
}

/// Whether the locks have identities that no open and no other lock has.
fn check_locks_apart(
    records: &Vec<(JournalKey, JournalRecord)>,
    tokens: &ByteMap<[u8; 16]>,
) -> (apart: bool)
    requires
        tokens_known(tokens@, typed_views(records@), records@.len()),
    ensures
        apart == locks_apart(typed_views(records@)),
{
    let ghost views = typed_views(records@);
    let mut others: ByteMap<()> = ByteMap::new();
    let mut i: usize = 0;
    while i < records.len()
        invariant
            i <= records@.len(),
            views == typed_views(records@),
            tokens_known(tokens@, views, views.len()),
            forall|x: Seq<u8>| #[trigger]
                others@.contains_key(x) ==> exists|j: int|
                    0 <= j < i && (#[trigger] views[j]).1 is Lock && state_identity_of(views[j].1) == Some(x),
            forall|j: int|
                0 <= j < i && (#[trigger] views[j]).1 is Lock ==> others@.contains_key(state_identity_of(views[j].1)->0)
                    && !tokens@.contains_key(state_identity_of(views[j].1)->0),
            forall|j: int, k: int|
                0 <= j < k < i && (#[trigger] views[j]).1 is Lock && (#[trigger] views[k]).1 is Lock
                    ==> state_identity_of(views[j].1) != state_identity_of(views[k].1),
        decreases records@.len() - i,
    {
        assert(views[i as int] == (records@[i as int].0@, records@[i as int].1@));
        if let JournalRecord::Lock(lock) = &records[i].1 {
            let other = state_other(lock.state_token);
            assert(state_identity_of(views[i as int].1) == Some(other@));
            if tokens.contains(other.as_slice()) {
                proof {
                    let j = choose|j: int|
                        0 <= j < views.len() && (#[trigger] views[j]).1 is Open && state_identity_of(views[j].1)
                            == Some(other@);
                    assert(views[j].1 is Open);
                }
                return false;
            }
            if others.contains(other.as_slice()) {
                proof {
                    let j = choose|j: int|
                        0 <= j < i && (#[trigger] views[j]).1 is Lock && state_identity_of(views[j].1) == Some(other@);
                    assert(views[j].1 is Lock);
                }
                return false;
            }
            let ghost had_others = others@;
            let _ = others.insert(copy_bytes(other.as_slice()), ());
            proof {
                assert forall|x: Seq<u8>| #[trigger] others@.contains_key(x) implies exists|j: int|
                    0 <= j < i + 1 && (#[trigger] views[j]).1 is Lock && state_identity_of(views[j].1) == Some(x) by {
                    if x == other@ {
                        assert(views[i as int].1 is Lock);
                    } else {
                        assert(had_others.contains_key(x));
                        let j = choose|j: int|
                            0 <= j < i && (#[trigger] views[j]).1 is Lock && state_identity_of(views[j].1) == Some(x);
                        assert(views[j].1 is Lock);
                    }
                }
            }
        }
        i += 1;
    }
    proof {
        assert forall|a: int, b: int|
            0 <= a < views.len() && 0 <= b < views.len() && a != b && (#[trigger] views[a]).1 is Lock
                && state_identity_of((#[trigger] views[b]).1) is Some implies state_identity_of(views[a].1)
            != state_identity_of(views[b].1) by {
            if views[b].1 is Lock {
                if a < b {
                    assert(state_identity_of(views[a].1) != state_identity_of(views[b].1));
                } else {
                    assert(state_identity_of(views[b].1) != state_identity_of(views[a].1));
                }
            } else {
                assert(views[b].1 is Open);
                assert(tokens@.contains_key(state_identity_of(views[b].1)->0));
            }
        }
    }
    true
}

/// One more lock is taken over.
proof fn lemma_lock_taken(
    had: Map<Seq<u8>, RecoveredLockView>,
    records: Seq<TypedView>,
    tokens: Map<Seq<u8>, [u8; 16]>,
    n: nat,
    lock: crate::record::LockView,
)
    requires
        n < records.len(),
        records[n as int].1 == RecordView::Lock(lock),
        locks_apart(records),
        tokens_known(tokens, records, records.len()),
        locks_hydrated(had, records, n),
        tokens.contains_key(other_of(lock.open_state_token)),
    ensures
        locks_hydrated(
            had.insert(lock.state_token, hydrated_lock(lock, tokens[other_of(lock.open_state_token)]@)),
            records,
            n + 1,
        ),
{
    let one = hydrated_lock(lock, tokens[other_of(lock.open_state_token)]@);
    let locks = had.insert(lock.state_token, one);
    assert forall|t: Seq<u8>| #[trigger] locks.contains_key(t) implies exists|j: int|
        0 <= j < n + 1 && is_lock_as((#[trigger] records[j]).1, t) by {
        if t == lock.state_token {
            assert(is_lock_as(records[n as int].1, t));
        } else {
            assert(had.contains_key(t));
            let j = choose|j: int| 0 <= j < n && is_lock_as((#[trigger] records[j]).1, t);
            assert(is_lock_as(records[j].1, t));
        }
    }
    assert forall|i: int, j: int| 0 <= i < n + 1 && 0 <= j < records.len() implies ((
    #[trigger] records[i]).1 matches RecordView::Lock(l) ==> ((#[trigger] records[j]).1 matches RecordView::Open(o)
        ==> other_of(o.state_token) == other_of(l.open_state_token) ==> locks.contains_key(l.state_token)
        && locks[l.state_token] == hydrated_lock(l, o.state_token))) by {
        if records[i].1 is Lock && records[j].1 is Open {
            let l = records[i].1->Lock_0;
            let o = records[j].1->Open_0;
            if other_of(o.state_token) == other_of(l.open_state_token) {
                if i < n {
                    assert(state_identity_of(records[i].1) != state_identity_of(records[n as int].1));
                    assert(l.state_token != lock.state_token);
                    assert(had.contains_key(l.state_token));
                } else {
                    assert(tokens[other_of(o.state_token)]@ == o.state_token);
                }
            }
        }
    }
}

/// The locks of a list of records.
fn hydrate_locks(
    records: &Vec<(JournalKey, JournalRecord)>,
    confirmed: &NumberMap<bool>,
    opens: &ByteMap<RecoveredOpen>,
    tokens: &ByteMap<[u8; 16]>,
    limits: Nfs4Limits,
) -> (found: Option<ByteMap<RecoveredLock>>)
    requires
        tells_confirmed(confirmed@, typed_views(records@)),
        opens_sound(typed_views(records@), limits),
        opens_hydrated(open_views(opens@), typed_views(records@), limits, records@.len()),
        tokens_known(tokens@, typed_views(records@), records@.len()),
    ensures
        match found {
            Some(locks) => {
                &&& locks_sound(typed_views(records@), limits)
                &&& locks_hydrated(lock_views(locks@), typed_views(records@), records@.len())
            },
            None => !locks_sound(typed_views(records@), limits),
        },
{
    let ghost views = typed_views(records@);
    if !check_locks_apart(records, tokens) {
        return None;
    }
    let mut locks: ByteMap<RecoveredLock> = ByteMap::new();
    let mut i: usize = 0;
    proof {
        assert(lock_views(locks@) =~= Map::empty());
    }
    while i < records.len()
        invariant
            i <= records@.len(),
            views == typed_views(records@),
            tells_confirmed(confirmed@, views),
            opens_sound(views, limits),
            opens_hydrated(open_views(opens@), views, limits, views.len()),
            tokens_known(tokens@, views, views.len()),
            locks_apart(views),
            locks_hydrated(lock_views(locks@), views, i as nat),
            forall|j: int|
                0 <= j < i && (#[trigger] views[j]).1 is Lock ==> record_sound(views, seq![], j, limits),
        decreases records@.len() - i,
    {
        assert(views[i as int] == (records@[i as int].0@, records@[i as int].1@));
        let ghost had = lock_views(locks@);
        if let JournalRecord::Lock(lock) = &records[i].1 {
            let ghost view = lock@;
            let one = match hydrate_lock(
                &records[i].0,
                lock,
                confirmed,
                opens,
                tokens,
                limits,
                Ghost(views),
                Ghost(i as int),
            ) {
                Some(one) => one,
                None => {
                    assert(!locks_sound(views, limits));
                    return None;
                },
            };
            let _ = locks.insert(copy_bytes(lock.state_token.as_slice()), one);
            proof {
                lemma_lock_taken(had, views, tokens@, i as nat, view);
                assert(lock_views(locks@) =~= had.insert(view.state_token, one@));
            }
        } else {
            proof {
                lemma_no_lock_taken(had, views, i as nat);
            }
        }
        i += 1;
    }
    Some(locks)
}

/// A record that is no lock adds none.
proof fn lemma_no_lock_taken(had: Map<Seq<u8>, RecoveredLockView>, records: Seq<TypedView>, n: nat)
    requires
        n < records.len(),
        !(records[n as int].1 is Lock),
        locks_hydrated(had, records, n),
    ensures
        locks_hydrated(had, records, n + 1),
{
    assert forall|t: Seq<u8>| #[trigger] had.contains_key(t) implies exists|j: int|
        0 <= j < n + 1 && is_lock_as((#[trigger] records[j]).1, t) by {
        let j = choose|j: int| 0 <= j < n && is_lock_as((#[trigger] records[j]).1, t);
        assert(is_lock_as(records[j].1, t));
    }
}

/// The identities of the confirmed clients of a list of records.
fn hydrate_clients(records: &Vec<(JournalKey, JournalRecord)>) -> (clients: ByteMap<IdList>)
    ensures
        clients_hydrated(id_views(clients@), typed_views(records@), records@.len()),
{
    let ghost views = typed_views(records@);
    let mut clients: ByteMap<IdList> = ByteMap::new();
    let mut i: usize = 0;
    while i < records.len()
        invariant
            i <= records@.len(),
            views == typed_views(records@),
            clients_hydrated(id_views(clients@), views, i as nat),
        decreases records@.len() - i,
    {
        assert(views[i as int] == (records@[i as int].0@, records@[i as int].1@));
        if let JournalRecord::Client(client) = &records[i].1 {
            if client.confirmed {
                let key = identity_key(
                    client.owner.as_slice(),
                    &client.verifier,
                    client.canonical_principal.as_slice(),
                );
                let ghost place = key@;
                let ghost had = id_views(clients@);
                let ghost number = client.client_id;
                let list = match clients.get(key.as_slice()) {
                    Some(list) => list.with(client.client_id),
                    None => IdList::new().with(client.client_id),
                };
                let ghost set = list@;
                let _ = clients.insert(key, list);
                proof {
                    assert(id_views(clients@) =~= had.insert(place, set));
                    assert(client_filed(views[i as int].1, place, number));
                    assert forall|p: Seq<u8>, id: u64|
                        id_views(clients@).contains_key(p) && #[trigger] id_views(clients@)[p].contains(
                            id,
                        ) implies exists|j: int|
                        0 <= j < i + 1 && client_filed((#[trigger] views[j]).1, p, id) by {
                        if p == place && id == number {
                            assert(client_filed(views[i as int].1, p, id));
                        } else {
                            assert(had.contains_key(p) && had[p].contains(id));
                            let j = choose|j: int| 0 <= j < i && client_filed((#[trigger] views[j]).1, p, id);
                            assert(client_filed(views[j].1, p, id));
                        }
                    }
                    assert forall|j: int, p: Seq<u8>, id: u64|
                        0 <= j < i + 1 && #[trigger] client_filed(views[j].1, p, id) implies id_views(
                        clients@,
                    ).contains_key(p) && id_views(clients@)[p].contains(id) by {
                        if j < i {
                            assert(had.contains_key(p) && had[p].contains(id));
                        }
                    }
                    assert forall|p: Seq<u8>| #[trigger] id_views(clients@).contains_key(p) implies exists|id: u64| #[trigger]
                        id_views(clients@)[p].contains(id) by {
                        if p == place {
                            assert(id_views(clients@)[p].contains(number));
                        } else {
                            assert(had.contains_key(p));
                            let id = choose|id: u64| #[trigger] had[p].contains(id);
                            assert(id_views(clients@)[p].contains(id));
                        }
                    }
                }
            }
        }
        i += 1;
    }
    clients
}

/// The keys of the records that are taken over.
fn hydrate_keys(records: &Vec<(JournalKey, JournalRecord)>) -> (keys: KeySet)
    ensures
        keys_hydrated(keys@, typed_views(records@), records@.len()),
{
    let ghost views = typed_views(records@);
    let mut keys = KeySet::new();
    let mut i: usize = 0;
    while i < records.len()
        invariant
            i <= records@.len(),
            views == typed_views(records@),
            keys_hydrated(keys@, views, i as nat),
        decreases records@.len() - i,
    {
        assert(views[i as int] == (records@[i as int].0@, records@[i as int].1@));
        let taken = match &records[i].1 {
            JournalRecord::Client(_) => true,
            JournalRecord::Open(_) => true,
            JournalRecord::Lock(_) => true,
            JournalRecord::Replay(_) => true,
            _ => false,
        };
        if taken {
            let ghost had = keys@;
            keys.insert(&records[i].0);
            proof {
                assert forall|key: KeyView| #[trigger] keys@.contains(key) implies exists|j: int|
                    0 <= j < i + 1 && (#[trigger] views[j]).0 == key && taken_over(views[j].1) by {
                    if had.contains(key) {
                        let j = choose|j: int| 0 <= j < i && (#[trigger] views[j]).0 == key && taken_over(views[j].1);
                        assert(views[j].0 == key);
                    } else {
                        assert(views[i as int].0 == key);
                    }
                }
            }
        }
        i += 1;
    }
    keys
}

/// How many of the records are states.
fn count_states(records: &Vec<(JournalKey, JournalRecord)>) -> (count: usize)
    ensures
        count == state_count(typed_views(records@), records@.len()),
{
    let ghost views = typed_views(records@);
    let mut count: usize = 0;
    let mut i: usize = 0;
    while i < records.len()
        invariant
            i <= records@.len(),
            views == typed_views(records@),
            count == state_count(views, i as nat),
            count <= i,
        decreases records@.len() - i,
    {
        assert(views[i as int] == (records@[i as int].0@, records@[i as int].1@));
        match &records[i].1 {
            JournalRecord::Open(_) => {
                count += 1;
            },
            JournalRecord::Lock(_) => {
                count += 1;
            },
            _ => {},
        }
        i += 1;
    }
    count
}

/// The numbers of clients whose records are sound are each filed at one place.
proof fn lemma_numbers_hydrated(clients: Map<Seq<u8>, Set<u64>>, records: Seq<TypedView>)
    requires
        clients_hydrated(clients, records, records.len()),
        forall|i: int, j: int|
            0 <= i < j < records.len() ==> records_apart((#[trigger] records[i]).1, (#[trigger] records[j]).1),
    ensures
        numbers_apart(clients),
{
    assert forall|a: Seq<u8>, b: Seq<u8>, id: u64| #[trigger]
        files_number(clients, a, id) && #[trigger] files_number(clients, b, id) implies a == b by {
        assert(clients[a].contains(id) && clients[b].contains(id));
        let i = choose|i: int| 0 <= i < records.len() && client_filed((#[trigger] records[i]).1, a, id);
        let j = choose|j: int| 0 <= j < records.len() && client_filed((#[trigger] records[j]).1, b, id);
        if i < j {
            assert(records_apart(records[i].1, records[j].1));
        } else if j < i {
            assert(records_apart(records[j].1, records[i].1));
        }
    }
}

/// Checks what a run found and gathers what can be reclaimed. `replies` holds for each record that is
/// a reply the operation that was read from its bytes, in the one form that the reader of replies has for it, or none
/// where the bytes could not be read.
pub fn prepare_runtime_recovery(
    recovered: &RecoveredStableState,
    replies: &Vec<Option<Vec<u8>>>,
    limits: Nfs4Limits,
    minimum_grace_duration: u64,
) -> (prepared: Result<PreparedRuntimeRecovery, RuntimeConfigError>)
    ensures
        match prepared {
            Ok(p) => {
                &&& recoverable(recovered@, reply_views(replies@), limits, minimum_grace_duration)
                &&& p.previous_shutdown == recovered@.previous_shutdown
                &&& p.minimum_grace_duration == minimum_grace_duration
                &&& numbers_apart(p.state@.clients)
                &&& if recovered@.previous_shutdown == PreviousShutdown::FirstBoot {
                    p.state@ == nothing_recovered()
                } else {
                    hydrates(p.state@, recovered@.records, reply_views(replies@), limits)
                }
            },
            Err(e) => e == RuntimeConfigError::Recovery && !recoverable(
                recovered@,
                reply_views(replies@),
                limits,
                minimum_grace_duration,
            ),
        },
{
    if minimum_grace_duration == 0 {
        return Err(RuntimeConfigError::Recovery);
    }
    if recovered.previous_shutdown == PreviousShutdown::FirstBoot {
        if recovered.previous_boot.is_some() || recovered.records.len() != 0 {
            return Err(RuntimeConfigError::Recovery);
        }
        return Ok(
            PreparedRuntimeRecovery {
                previous_shutdown: PreviousShutdown::FirstBoot,
                minimum_grace_duration,
                state: RecoveredRuntimeState::new(),
            },
        );
    }
    if recovered.previous_boot.is_none() {
        return Err(RuntimeConfigError::Recovery);
    }
    let records = &recovered.records;
    let ghost views = typed_views(records@);
    let confirmed = match gather_clients(records, limits) {
        Some(confirmed) => confirmed,
        None => {
            proof {
                if records_recoverable(views, reply_views(replies@), limits) {
                    assert forall|i: int| 0 <= i < views.len() && (#[trigger] views[i]).1 is Client implies record_sound(
                        views,
                        seq![],
                        i,
                        limits,
                    ) by {
                        assert(record_sound(views, reply_views(replies@), i, limits));
                    }
                    assert forall|i: int, j: int|
                        0 <= i < j < views.len() && client_number((#[trigger] views[i]).1) is Some && client_number(
                            (#[trigger] views[j]).1,
                        ) is Some implies client_number(views[i].1) != client_number(views[j].1) by {
                        assert(records_apart(views[i].1, views[j].1));
                    }
                }
            }
            return Err(RuntimeConfigError::Recovery);
        },
    };
    let (opens, tokens) = match hydrate_opens(records, &confirmed, limits) {
        Some(found) => found,
        None => {
            proof {
                if records_recoverable(views, reply_views(replies@), limits) {
                    lemma_parts_sound(views, reply_views(replies@), limits);
                }
            }
            return Err(RuntimeConfigError::Recovery);
        },
    };
    let replays = match hydrate_replays(records, replies, &confirmed, limits) {
        Some(found) => found,
        None => {
            proof {
                if records_recoverable(views, reply_views(replies@), limits) {
                    lemma_parts_sound(views, reply_views(replies@), limits);
                }
            }
            return Err(RuntimeConfigError::Recovery);
        },
    };
    if !owners_bounded(records, true, limits.max_open_owners_per_client) {
        return Err(RuntimeConfigError::Recovery);
    }
    let locks = match hydrate_locks(records, &confirmed, &opens, &tokens, limits) {
        Some(found) => found,
        None => {
            proof {
                if records_recoverable(views, reply_views(replies@), limits) {
                    lemma_parts_sound(views, reply_views(replies@), limits);
                }
            }
            return Err(RuntimeConfigError::Recovery);
        },
    };
    if !owners_bounded(records, false, limits.max_lock_owners_per_client) {
        return Err(RuntimeConfigError::Recovery);
    }
    if count_states(records) > limits.max_state_objects {
        return Err(RuntimeConfigError::Recovery);
    }
    let clients = hydrate_clients(records);
    let cleanup_keys = hydrate_keys(records);
    proof {
        lemma_sound_together(views, reply_views(replies@), limits);
        lemma_numbers_hydrated(id_views(clients@), views);
    }
    Ok(
        PreparedRuntimeRecovery {
            previous_shutdown: recovered.previous_shutdown,
            minimum_grace_duration,
            state: RecoveredRuntimeState { clients, opens, locks, replays, cleanup_keys },
        },
    )
}

/// What is sound together is sound in its parts.
proof fn lemma_parts_sound(records: Seq<TypedView>, replies: Seq<Option<Seq<u8>>>, limits: Nfs4Limits)
    requires
        records_recoverable(records, replies, limits),
    ensures
        opens_sound(records, limits),
        replays_sound(records, replies, limits),
        locks_sound(records, limits),
{
    assert forall|i: int| 0 <= i < records.len() && (#[trigger] records[i]).1 is Open implies record_sound(
        records,
        seq![],
        i,
        limits,
    ) by {
        assert(record_sound(records, replies, i, limits));
    }
    assert forall|i: int| 0 <= i < records.len() && (#[trigger] records[i]).1 is Lock implies record_sound(
        records,
        seq![],
        i,
        limits,
    ) by {
        assert(record_sound(records, replies, i, limits));
    }
    assert forall|i: int| 0 <= i < records.len() && (#[trigger] records[i]).1 is Replay implies record_sound(
        records,
        replies,
        i,
        limits,
    ) by {
        assert(record_sound(records, replies, i, limits));
    }
    assert forall|i: int, j: int|
        0 <= i < j < records.len() && (#[trigger] records[i]).1 is Open && (
        #[trigger] records[j]).1 is Open implies state_identity_of(records[i].1) != state_identity_of(records[j].1) by {
        assert(records_apart(records[i].1, records[j].1));
    }
    assert forall|i: int, j: int|
        0 <= i < j < records.len() && replay_owner((#[trigger] records[i]).1) is Some && replay_owner(
            (#[trigger] records[j]).1,
        ) is Some implies replay_owner(records[i].1) != replay_owner(records[j].1) by {
        assert(records_apart(records[i].1, records[j].1));
    }
    assert forall|i: int, j: int|
        0 <= i < records.len() && 0 <= j < records.len() && i != j && (#[trigger] records[i]).1 is Lock
            && state_identity_of((#[trigger] records[j]).1) is Some implies state_identity_of(records[i].1)
        != state_identity_of(records[j].1) by {
        if i < j {
            assert(records_apart(records[i].1, records[j].1));
        } else {
            assert(records_apart(records[j].1, records[i].1));
        }
    }
}

/// What is sound in its parts is sound together.
proof fn lemma_sound_together(records: Seq<TypedView>, replies: Seq<Option<Seq<u8>>>, limits: Nfs4Limits)
    requires
        forall|i: int|
            0 <= i < records.len() && (#[trigger] records[i]).1 is Client ==> record_sound(records, seq![], i, limits),
        forall|i: int, j: int|
            0 <= i < j < records.len() && client_number((#[trigger] records[i]).1) is Some && client_number(
                (#[trigger] records[j]).1,
            ) is Some ==> client_number(records[i].1) != client_number(records[j].1),
        opens_sound(records, limits),
        replays_sound(records, replies, limits),
        locks_sound(records, limits),
    ensures
        forall|i: int| 0 <= i < records.len() ==> #[trigger] record_sound(records, replies, i, limits),
        forall|i: int, j: int|
            0 <= i < j < records.len() ==> records_apart((#[trigger] records[i]).1, (#[trigger] records[j]).1),
{
    assert forall|i: int| 0 <= i < records.len() implies #[trigger] record_sound(records, replies, i, limits) by {
        let record = records[i].1;
        if record is Client || record is Open || record is Lock {
            assert(record_sound(records, seq![], i, limits));
        }
    }
    assert forall|i: int, j: int| 0 <= i < j < records.len() implies records_apart(
        (#[trigger] records[i]).1,
        (#[trigger] records[j]).1,
    ) by {
        if state_identity_of(records[i].1) is Some && state_identity_of(records[j].1) is Some {
            if records[i].1 is Lock {
                assert(state_identity_of(records[i].1) != state_identity_of(records[j].1));
            } else if records[j].1 is Lock {
                assert(state_identity_of(records[j].1) != state_identity_of(records[i].1));
            }
        }
    }
}

} // verus!
