//! Opens of files.

use std::sync::Arc;

use vstd::prelude::*;

use crate::bytes::{bytes_equal, copy_bytes};
use crate::files::{file_at, FileView, PendingOpen};
use crate::identity::{open_pin, pin_label, sha256, Principal, PrincipalView};
use crate::codec::{be32, be64};
use crate::idlist::IdList;
use crate::owner::{OwnerSequence, SequenceDecision};
use crate::protocol::{
    delegation_kinds_conflict, file_place, kinds_conflict, owner_file_key, owner_file_place, share, state_token,
    DelegationKind, Nfs4Limits, NfsStatus, OwnerKey, OwnerRequestDigest, ReplayEffect, ResOp, RuntimeFile, StateId,
};
use crate::recovery::RecoveredOpen;
use crate::registry::{
    count_client, of_client, one_less, place_of_owner, Owner, OwnerReservation, ReservedOwnerKind, StateRegistry,
    StateView,
};
use crate::runtime::openstate::{counted, lemma_counted};
use crate::runtime::{next_number, number_after, Nfs4Runtime, RuntimeView};
use crate::share::{
    access_denied, contributions_of, count_sum, denied_by, install_share, open_share, share_installed, share_place,
    share_refused, wire_access, wire_deny, ShareAccess, ShareContributions, ShareDeny, ShareOpenError, ShareReservation,
};
use crate::stateid::StatePayload;

verus! {

/// The open has to be confirmed.
pub const OPEN4_RESULT_CONFIRM: u32 = 2;

/// Locks are byte-range locks in the manner of POSIX.
pub const OPEN4_RESULT_LOCKTYPE_POSIX: u32 = 4;

/// A request to open a file.
pub struct OpenRequest {
    pub owner: OwnerKey,
    pub sequence_id: u32,
    pub share_access: u32,
    pub share_deny: u32,
    pub reclaim: bool,
    /// The request renews the lease of the client that it names.
    pub authenticate_clientid: bool,
    pub digest: OwnerRequestDigest,
}

/// An open whose target is not known yet.
pub struct OpenReservation {
    pub owner: OwnerReservation,
    pub access: ShareAccess,
    pub deny: ShareDeny,
    pub confirmation_required: bool,
    pub reservation: u64,
    /// What the file is held by, where the open is a new one.
    pub provisional_pin: [u8; 16],
    pub reclaim_previous_ids: IdList,
    pub replay_effect: ReplayEffect,
}

impl OpenReservation {
    /// The number of the open, known before its target is.
    pub fn operation_id(&self) -> (id: u64)
        ensures
            id == self.reservation,
    {
        self.reservation
    }

    /// What the file is held by, where the open is a new one.
    pub fn provisional_pin(&self) -> (pin: [u8; 16])
        ensures
            pin == self.provisional_pin,
    {
        self.provisional_pin
    }

    /// Takes note of the delegation by which the open was asked for; a reply that is sent again renews the lease of its
    /// client.
    pub fn set_stateid_renewal_client(&mut self, client_id: u64)
        ensures
            *final(self) == (OpenReservation {
                replay_effect: ReplayEffect {
                    stateid_renewal_client: Some(client_id),
                    ..old(self).replay_effect
                },
                ..*old(self)
            }),
    {
        self.replay_effect.stateid_renewal_client = Some(client_id);
    }
}

/// What is to be done with a request to open a file.
#[allow(inconsistent_fields)]
pub enum OpenDecision {
    Execute(OpenReservation),
    Replay { result: Arc<ResOp>, effect: ReplayEffect, client_id: Option<u64> },
    Error { status: NfsStatus, client_id: Option<u64> },
}

/// Why a client may not open files, or the numbers under which it may reclaim.
pub open spec fn open_gated(view: RuntimeView, request: OpenRequest, principal: PrincipalView, now: u64) -> Result<
    Set<u64>,
    (NfsStatus, Option<u64>),
> {
    let client = request.owner.client_id;
    match view.clients.gated(client, principal, request.reclaim, now) {
        Err(error) => Err((error.status, error.client_id)),
        Ok(previous) => if request.authenticate_clientid {
            match view.clients.touched(client, principal, NfsStatus::StaleClientId, now).touch_refused(
                client,
                principal,
                NfsStatus::StaleClientId,
                now,
            ) {
                Some(error) => Err((error.status, error.client_id)),
                None => Ok(previous),
            }
        } else {
            Ok(previous)
        },
    }
}

/// The server once a client has asked to open a file.
pub open spec fn open_asked(view: RuntimeView, request: OpenRequest, principal: PrincipalView, now: u64) -> RuntimeView {
    let client = request.owner.client_id;
    let touched = view.clients.touched(client, principal, NfsStatus::StaleClientId, now);
    RuntimeView {
        clients: if request.authenticate_clientid && view.clients.gated(client, principal, request.reclaim, now) is Ok {
            touched.touched(client, principal, NfsStatus::StaleClientId, now)
        } else {
            touched
        },
        ..view
    }
}

/// The owner of a request, known or new.
pub open spec fn open_owner_of(state: StateView, request: OpenRequest) -> Owner {
    let place = place_of_owner(request.owner);
    if state.open_owners.contains_key(place) {
        state.open_owners[place]
    } else {
        Owner {
            key: request.owner,
            sequence: OwnerSequence { first: request.sequence_id, last: None, pending: None },
            confirmed: request.reclaim,
            active_states: 0,
        }
    }
}

/// The answer to a request that is not executed; a request that is has none.
pub open spec fn open_told(view: RuntimeView, request: OpenRequest, principal: PrincipalView, now: u64) -> Option<
    OpenDecision,
> {
    let client = if request.authenticate_clientid {
        Some(request.owner.client_id)
    } else {
        None
    };
    let state = view.state;
    if wire_access(request.share_access) is None || wire_deny(request.share_deny) is None {
        Some(OpenDecision::Error { status: NfsStatus::Invalid, client_id: None })
    } else if request.owner.owner@.len() > view.limits.max_client_owner_size {
        Some(OpenDecision::Error { status: NfsStatus::Resource, client_id: None })
    } else {
        match open_gated(view, request, principal, now) {
            Err((status, client_id)) => Some(OpenDecision::Error { status, client_id }),
            Ok(_) => if !state.open_owners.contains_key(place_of_owner(request.owner)) && of_client(
                state.open_owners,
                request.owner.client_id,
            ).len() >= view.limits.max_open_owners_per_client {
                Some(OpenDecision::Error { status: NfsStatus::Resource, client_id: client })
            } else {
                match open_owner_of(state, request).sequence.decided(request.sequence_id, request.digest) {
                    SequenceDecision::Replay { result, context_effect } => Some(
                        OpenDecision::Replay { result, effect: context_effect, client_id: client },
                    ),
                    SequenceDecision::InProgress => Some(
                        OpenDecision::Error { status: NfsStatus::Delay, client_id: client },
                    ),
                    SequenceDecision::BadSequence => Some(
                        OpenDecision::Error { status: NfsStatus::BadSequenceId, client_id: client },
                    ),
                    SequenceDecision::Execute => if state.full() {
                        Some(OpenDecision::Error { status: NfsStatus::Resource, client_id: client })
                    } else {
                        None
                    },
                }
            },
        }
    }
}

/// The registry once an open is begun.
pub open spec fn open_begun(state: StateView, request: OpenRequest) -> StateView {
    let owner = open_owner_of(state, request);
    StateView {
        open_owners: state.open_owners.insert(
            place_of_owner(request.owner),
            Owner { sequence: owner.sequence.reserved(request.sequence_id, request.digest), ..owner },
        ),
        reserved_states: (state.reserved_states + 1) as usize,
        next_reservation: number_after(state.next_reservation),
        ..state
    }
}

/// The open that is begun for a request.
pub open spec fn open_reserved(view: RuntimeView, request: OpenRequest, previous: Set<u64>, r: OpenReservation) -> bool {
    let state = view.state;
    &&& r.owner == (OwnerReservation {
        kind: ReservedOwnerKind::Open,
        owner: request.owner,
        sequence_id: request.sequence_id,
        digest: request.digest,
        reserved_state: true,
        created_owner: !state.open_owners.contains_key(place_of_owner(request.owner)),
    })
    &&& Some(r.access) == wire_access(request.share_access)
    &&& Some(r.deny) == wire_deny(request.share_deny)
    &&& r.confirmation_required == (!open_owner_of(state, request).confirmed && !request.reclaim)
    &&& r.reservation == state.next_reservation
    &&& r.provisional_pin@ == sha256(
        pin_label() + be32(state.stateids.boot_tag) + be64(state.next_reservation),
    ).take(16)
    &&& r.reclaim_previous_ids@ == previous
    &&& r.replay_effect == crate::protocol::no_effect()
}

impl Nfs4Runtime {
    /// Begins an open.
    pub fn begin_open(&mut self, request: &OpenRequest, principal: &Principal, now: u64) -> (decision: OpenDecision)
        ensures
            match open_told(old(self)@, *request, principal@, now) {
                Some(told) => decision == told,
                None => {
                    &&& decision is Execute
                    &&& open_reserved(
                        old(self)@,
                        *request,
                        open_gated(old(self)@, *request, principal@, now)->Ok_0,
                        decision->Execute_0,
                    )
                    &&& final(self)@.state.awaits(decision->Execute_0.owner)
                },
            },
            final(self)@ == if wire_access(request.share_access) is None || wire_deny(request.share_deny) is None
                || request.owner.owner@.len() > old(self)@.limits.max_client_owner_size {
                old(self)@
            } else {
                RuntimeView {
                    state: if open_told(old(self)@, *request, principal@, now) is None {
                        open_begun(old(self)@.state, *request)
                    } else {
                        old(self)@.state
                    },
                    ..open_asked(old(self)@, *request, principal@, now)
                }
            },
    {
        let ghost before = self@;
        let access = match ShareAccess::from_wire(request.share_access) {
            Some(access) => access,
            None => {
                return OpenDecision::Error { status: NfsStatus::Invalid, client_id: None };
            },
        };
        let deny = match ShareDeny::from_wire(request.share_deny) {
            Some(deny) => deny,
            None => {
                return OpenDecision::Error { status: NfsStatus::Invalid, client_id: None };
            },
        };
        if request.owner.owner.len() > self.limits.max_client_owner_size {
            return OpenDecision::Error { status: NfsStatus::Resource, client_id: None };
        }
        let client_id = request.owner.client_id;
        let previous = match self.clients.gate(client_id, principal, request.reclaim, now) {
            Ok(previous) => previous,
            Err(error) => {
                return OpenDecision::Error { status: error.status, client_id: error.client_id };
            },
        };
        let client = if request.authenticate_clientid {
            if let Err(error) = self.clients.touch(client_id, principal, NfsStatus::StaleClientId, now) {
                return OpenDecision::Error { status: error.status, client_id: error.client_id };
            }
            Some(client_id)
        } else {
            None
        };
        assert(self@ =~= open_asked(before, *request, principal@, now));
        let place = request.owner.place();
        let known = match self.state.open_owners.get(place.as_slice()) {
            Some(owner) => Some(owner.copy()),
            None => None,
        };
        let created = known.is_none();
        let mut owner = match known {
            Some(owner) => owner,
            None => {
                if count_client(&self.state.open_owners, client_id) >= self.limits.max_open_owners_per_client {
                    return OpenDecision::Error { status: NfsStatus::Resource, client_id: client };
                }
                Owner {
                    key: request.owner.copy(),
                    sequence: OwnerSequence::new(request.sequence_id),
                    confirmed: request.reclaim,
                    active_states: 0,
                }
            },
        };
        assert(owner == open_owner_of(before.state, *request));
        match owner.sequence.reserve(request.sequence_id, request.digest) {
            SequenceDecision::Replay { result, context_effect } => {
                return OpenDecision::Replay { result, effect: context_effect, client_id: client };
            },
            SequenceDecision::InProgress => {
                return OpenDecision::Error { status: NfsStatus::Delay, client_id: client };
            },
            SequenceDecision::BadSequence => {
                return OpenDecision::Error { status: NfsStatus::BadSequenceId, client_id: client };
            },
            SequenceDecision::Execute => {},
        }
        if self.state.is_full() {
            return OpenDecision::Error { status: NfsStatus::Resource, client_id: client };
        }
        self.state.reserved_states = self.state.reserved_states + 1;
        let reservation = self.state.next_reservation;
        self.state.next_reservation = next_number(reservation);
        let provisional_pin = open_pin(self.state.stateids.boot_tag, reservation);
        let confirmation_required = !owner.confirmed && !request.reclaim;
        let _ = self.state.open_owners.insert(place, owner);
        assert(self@.state =~= open_begun(before.state, *request));
        OpenDecision::Execute(
            OpenReservation {
                owner: OwnerReservation {
                    kind: ReservedOwnerKind::Open,
                    owner: request.owner.copy(),
                    sequence_id: request.sequence_id,
                    digest: request.digest,
                    reserved_state: true,
                    created_owner: created,
                },
                access,
                deny,
                confirmation_required,
                reservation,
                provisional_pin,
                reclaim_previous_ids: previous,
                replay_effect: ReplayEffect::default(),
            },
        )
    }
}

/// An open whose target is known.
pub struct OpenTargetReservation {
    pub owner: OwnerReservation,
    pub file: RuntimeFile,
    pub access: ShareAccess,
    pub deny: ShareDeny,
    pub contributions: ShareContributions,
    pub confirmation_required: bool,
    pub reservation: u64,
    pub existing_state: Option<StateId>,
    pub recovered_open_token: Option<[u8; 16]>,
    pub pin: [u8; 16],
    pub delegation_eligibility: Option<u64>,
    pub replay_effect: ReplayEffect,
}

impl OpenTargetReservation {
    /// What the file is held by.
    pub fn pin(&self) -> (pin: [u8; 16])
        ensures
            pin == self.pin,
    {
        self.pin
    }

    /// Whether the file has to be held for the open.
    pub fn needs_retain(&self) -> (needed: bool)
        ensures
            needed == (self.existing_state is None),
    {
        self.existing_state.is_none()
    }
}

/// The share of an owner once it has opened a file, with what it has open already.
pub open spec fn opened_share(
    shares: Seq<ShareReservation>,
    owner: OwnerKey,
    access: ShareAccess,
    deny: ShareDeny,
    limit: usize,
) -> Result<ShareReservation, ShareOpenError> {
    let counts = contributions_of(shares, owner@);
    let place = share_place(access, deny);
    if share_refused(shares, owner@, access, deny) {
        Err(ShareOpenError::Conflict)
    } else if count_sum(counts, 12) + 1 > limit || counts[place] == u32::MAX {
        Err(ShareOpenError::ContributionLimit)
    } else {
        let contributions = counted(counts.update(place, (counts[place] + 1) as u32));
        let (all, none) = contributions.aggregated()->0;
        Ok(ShareReservation { owner, access: all, deny: none, contributions })
    }
}

/// The open of the run before can be reclaimed.
pub open spec fn open_reclaims(state: StateView, recovered: RecoveredOpen, r: OpenReservation, file: RuntimeFile) -> bool {
    &&& r.reclaim_previous_ids@.contains(recovered.previous_client_id)
    &&& recovered.owner@ == r.owner.owner.owner@
    &&& recovered.file == file
    &&& recovered.access == r.access
    &&& recovered.deny == r.deny
    &&& !state.reserved_recovered_opens.contains(recovered.state_token@)
}

/// Some open of the run before can be reclaimed.
pub open spec fn open_reclaimable(state: StateView, r: OpenReservation, file: RuntimeFile) -> bool {
    exists|token: Seq<u8>| #[trigger]
        state.recovered_opens.contains_key(token) && open_reclaims(state, state.recovered_opens[token], r, file)
}

/// A pending open of another owner stands against the share.
pub open spec fn pending_against(pending: Seq<PendingOpen>, share: ShareReservation) -> bool {
    exists|i: int|
        0 <= i < pending.len() && (#[trigger] pending[i]).owner@ != share.owner@ && (denied_by(
            share.access,
            pending[i].deny,
        ) || denied_by(pending[i].access, share.deny))
}

/// A delegation that may be granted to another client stands against the open.
pub open spec fn open_blocked(state: StateView, r: OpenReservation, file: RuntimeFile) -> bool {
    exists|id: u64| #[trigger]
        state.delegation_eligibility.contains_key(id) && state.delegation_eligibility[id].file == file
            && state.delegation_eligibility[id].client_id != r.owner.owner.client_id && kinds_conflict(
            state.delegation_eligibility[id].kind,
            if r.access.write {
                DelegationKind::Write
            } else {
                DelegationKind::Read
            },
        )
}

/// The share of the open, with the open of the run before that is reclaimed.
pub open spec fn target_share(
    file: FileView,
    r: OpenReservation,
    recovered: Option<RecoveredOpen>,
    limits: Nfs4Limits,
) -> Result<ShareReservation, NfsStatus> {
    let limit = limits.max_open_contributions_per_state;
    match match recovered {
        Some(found) => share_installed(file.shares, r.owner.owner, found.contributions, limit),
        None => opened_share(file.shares, r.owner.owner, r.access, r.deny, limit),
    } {
        Err(ShareOpenError::Conflict) => Err(NfsStatus::ShareDenied),
        Err(ShareOpenError::ContributionLimit) => Err(NfsStatus::Resource),
        Ok(combined) => if pending_against(file.pending_opens, combined) {
            Err(NfsStatus::ShareDenied)
        } else {
            Ok(combined)
        },
    }
}

/// The open of the run before is one that can be reclaimed, where one is to be.
pub open spec fn target_recovered(state: StateView, r: OpenReservation, file: RuntimeFile, found: Option<RecoveredOpen>) -> bool {
    match found {
        Some(recovered) => {
            &&& r.reclaim_previous_ids@ != Set::<u64>::empty()
            &&& exists|token: Seq<u8>| #[trigger]
                state.recovered_opens.contains_key(token) && state.recovered_opens[token] == recovered
            &&& open_reclaims(state, recovered, r, file)
        },
        None => r.reclaim_previous_ids@ == Set::<u64>::empty() || !open_reclaimable(state, r, file),
    }
}

/// The state id of the owner's open of the file, where it has one.
pub open spec fn existing_open(state: StateView, owner: OwnerKey, file: RuntimeFile) -> Option<StateId> {
    let link = owner_file_place(owner@, file);
    if state.open_by_owner_file.contains_key(link) {
        Some(state.open_by_owner_file[link].state_id)
    } else {
        None
    }
}

/// What the file of an open is held by.
pub open spec fn target_pin(state: StateView, existing: Option<StateId>, provisional: [u8; 16]) -> [u8; 16] {
    match existing {
        None => provisional,
        Some(state_id) => match state.stateids.identified(state_id.other@) {
            Err(_) => provisional,
            Ok(record) => match record.payload {
                StatePayload::Open(open) => open.pin,
                StatePayload::Lock(_) => provisional,
            },
        },
    }
}

/// The target of an open.
pub open spec fn target_of(
    state: StateView,
    r: OpenReservation,
    file: RuntimeFile,
    recovered: Option<RecoveredOpen>,
    combined: ShareReservation,
) -> OpenTargetReservation {
    let existing = existing_open(state, r.owner.owner, file);
    OpenTargetReservation {
        owner: OwnerReservation { reserved_state: r.owner.reserved_state && existing is None, ..r.owner },
        file,
        access: combined.access,
        deny: combined.deny,
        contributions: combined.contributions,
        confirmation_required: r.confirmation_required,
        reservation: r.reservation,
        existing_state: existing,
        recovered_open_token: match recovered {
            Some(found) => Some(found.state_token),
            None => None,
        },
        pin: target_pin(state, existing, r.provisional_pin),
        delegation_eligibility: None,
        replay_effect: r.replay_effect,
    }
}

/// The server once the target of an open is known.
pub open spec fn target_reserved(
    view: RuntimeView,
    r: OpenReservation,
    file: RuntimeFile,
    recovered: Option<RecoveredOpen>,
    combined: ShareReservation,
) -> RuntimeView {
    let place = file_place(file);
    let before = file_at(view.files, file);
    RuntimeView {
        state: StateView {
            reserved_recovered_opens: match recovered {
                Some(found) => view.state.reserved_recovered_opens.insert(found.state_token@),
                None => view.state.reserved_recovered_opens,
            },
            reserved_states: if existing_open(view.state, r.owner.owner, file) is Some {
                one_less(view.state.reserved_states)
            } else {
                view.state.reserved_states
            },
            ..view.state
        },
        files: view.files.insert(
            place,
            FileView {
                pending_opens: before.pending_opens.push(
                    PendingOpen {
                        reservation: r.reservation,
                        owner: r.owner.owner,
                        access: combined.access,
                        deny: combined.deny,
                    },
                ),
                ..before
            },
        ),
        ..view
    }
}

impl StateRegistry {
    /// Whether a delegation that may be granted to another client stands against the open.
    fn blocks_open(&self, r: &OpenReservation, file: RuntimeFile) -> (blocked: bool)
        ensures
            blocked == open_blocked(self@, *r, file),
    {
        let requested = if r.access.write {
            DelegationKind::Write
        } else {
            DelegationKind::Read
        };
        let list = &self.delegation_eligibility;
        list.order_known();
        let ghost keys = list.keys();
        let total = list.len();
        let mut i: usize = 0;
        while i < total
            invariant
                i <= total,
                total == keys.len(),
                keys == list.keys(),
                list@ == self@.delegation_eligibility,
                keys.len() == list.values().len(),
                requested == if r.access.write {
                    DelegationKind::Write
                } else {
                    DelegationKind::Read
                },
                forall|j: int| 0 <= j < keys.len() ==> list@.contains_key(#[trigger] keys[j]),
                forall|j: int| 0 <= j < keys.len() ==> list@[#[trigger] keys[j]] == list.values()[j],
                forall|j: int|
                    0 <= j < i ==> !(list@[#[trigger] keys[j]].file == file && list@[keys[j]].client_id
                        != r.owner.owner.client_id && kinds_conflict(list@[keys[j]].kind, requested)),
            decreases total - i,
        {
            let candidate = *list.value_at(i);
            assert(list@[keys[i as int]] == candidate);
            if candidate.file == file && candidate.client_id != r.owner.owner.client_id && delegation_kinds_conflict(
                candidate.kind,
                requested,
            ) {
                assert(self@.delegation_eligibility.contains_key(keys[i as int]));
                return true;
            }
            i += 1;
        }
        proof {
            assert forall|id: u64| #[trigger] self@.delegation_eligibility.contains_key(id) implies !(
            self@.delegation_eligibility[id].file == file && self@.delegation_eligibility[id].client_id
                != r.owner.owner.client_id && kinds_conflict(self@.delegation_eligibility[id].kind, requested)) by {
                assert(keys.contains(id));
            }
        }
        false
    }

    /// Looks for an open of the run before that can be reclaimed.
    fn find_reclaimable_open(&self, r: &OpenReservation, file: RuntimeFile) -> (found: Option<RecoveredOpen>)
        ensures
            target_recovered(self@, *r, file, found),
    {
        if r.reclaim_previous_ids.is_empty() {
            return None;
        }
        let opens = &self.recovered_opens;
        opens.order_known();
        let ghost keys = opens.keys();
        let total = opens.len();
        let mut i: usize = 0;
        while i < total
            invariant
                i <= total,
                total == keys.len(),
                keys == opens.keys(),
                opens@ == self@.recovered_opens,
                keys.len() == opens.values().len(),
                r.reclaim_previous_ids@ != Set::<u64>::empty(),
                forall|j: int| 0 <= j < keys.len() ==> opens@.contains_key(#[trigger] keys[j]),
                forall|j: int| 0 <= j < keys.len() ==> opens@[#[trigger] keys[j]] == opens.values()[j],
                forall|j: int| 0 <= j < i ==> !open_reclaims(self@, opens@[#[trigger] keys[j]], *r, file),
            decreases total - i,
        {
            let candidate = opens.value_at(i);
            assert(opens@[keys[i as int]] == *candidate);
            if r.reclaim_previous_ids.contains(candidate.previous_client_id) && bytes_equal(
                candidate.owner.as_slice(),
                r.owner.owner.owner.as_slice(),
            ) && candidate.file == file && candidate.access == r.access && candidate.deny == r.deny
                && !self.reserved_recovered_opens.contains(candidate.state_token.as_slice()) {
                assert(self@.recovered_opens.contains_key(keys[i as int]));
                return Some(candidate.copy());
            }
            i += 1;
        }
        proof {
            assert forall|token: Seq<u8>| #[trigger] self@.recovered_opens.contains_key(token) implies !open_reclaims(
                self@,
                self@.recovered_opens[token],
                *r,
                file,
            ) by {
                assert(keys.contains(token));
            }
        }
        None
    }
}

/// Whether a pending open of another owner stands against the share.
fn check_pending(pending: &Vec<PendingOpen>, combined: &ShareReservation) -> (against: bool)
    ensures
        against == pending_against(pending@, *combined),
{
    let mut i: usize = 0;
    while i < pending.len()
        invariant
            i <= pending@.len(),
            forall|j: int|
                0 <= j < i ==> !((#[trigger] pending@[j]).owner@ != combined.owner@ && (denied_by(
                    combined.access,
                    pending@[j].deny,
                ) || denied_by(pending@[j].access, combined.deny))),
        decreases pending@.len() - i,
    {
        if !pending[i].owner.same(&combined.owner) && (access_denied(combined.access, pending[i].deny) || access_denied(
            pending[i].access,
            combined.deny,
        )) {
            return true;
        }
        i += 1;
    }
    false
}

impl Nfs4Runtime {
    /// Ties an open to its target.
    pub fn reserve_open_target(&mut self, reservation: OpenReservation, file: RuntimeFile) -> (target: Result<
        OpenTargetReservation,
        (OpenReservation, NfsStatus),
    >)
        requires
            reservation.access.usable(),
        ensures
            ({
                let state = old(self)@.state;
                let known = RuntimeView {
                    files: old(self)@.files.insert(file_place(file), file_at(old(self)@.files, file)),
                    ..old(self)@
                };
                if open_blocked(state, reservation, file) {
                    &&& target == Err::<OpenTargetReservation, (OpenReservation, NfsStatus)>(
                        (reservation, NfsStatus::Delay),
                    )
                    &&& final(self)@ == old(self)@
                } else if reservation.reclaim_previous_ids@ != Set::<u64>::empty() && !open_reclaimable(
                    state,
                    reservation,
                    file,
                ) {
                    &&& target == Err::<OpenTargetReservation, (OpenReservation, NfsStatus)>(
                        (reservation, NfsStatus::ReclaimBad),
                    )
                    &&& final(self)@ == known
                } else {
                    exists|recovered: Option<RecoveredOpen>| #[trigger]
                        target_recovered(state, reservation, file, recovered) && match target_share(
                            file_at(old(self)@.files, file),
                            reservation,
                            recovered,
                            old(self)@.limits,
                        ) {
                            Err(status) => target == Err::<OpenTargetReservation, (OpenReservation, NfsStatus)>(
                                (reservation, status),
                            ) && final(self)@ == known,
                            Ok(combined) => target == Ok::<OpenTargetReservation, (OpenReservation, NfsStatus)>(
                                target_of(state, reservation, file, recovered, combined),
                            ) && final(self)@ == target_reserved(
                                old(self)@,
                                reservation,
                                file,
                                recovered,
                                combined,
                            ),
                        }
                }
            }),
    {
        let ghost before = self@;
        if self.state.blocks_open(&reservation, file) {
            return Err((reservation, NfsStatus::Delay));
        }
        let link = owner_file_key(&reservation.owner.owner, file);
        let existing_state = match self.state.open_by_owner_file.get(link.as_slice()) {
            Some(found) => Some(found.state_id),
            None => None,
        };
        let mut file_state = self.files.take(file);
        let recovered = self.state.find_reclaimable_open(&reservation, file);
        if !reservation.reclaim_previous_ids.is_empty() && recovered.is_none() {
            self.files.put(file, file_state);
            assert(self@.files =~= before.files.insert(file_place(file), file_at(before.files, file)));
            return Err((reservation, NfsStatus::ReclaimBad));
        }
        assert(target_recovered(before.state, reservation, file, recovered));
        let limit = self.limits.max_open_contributions_per_state;
        let combined = match &recovered {
            Some(found) => install_share(
                &file_state.shares,
                &reservation.owner.owner,
                found.contributions,
                limit,
            ),
            None => {
                let opened = open_share(
                    &file_state.shares,
                    &reservation.owner.owner,
                    reservation.access,
                    reservation.deny,
                    limit,
                );
                proof {
                    if opened is Ok {
                        lemma_counted(opened->Ok_0.contributions);
                    }
                    assert(opened == opened_share(
                        file_state.shares@,
                        reservation.owner.owner,
                        reservation.access,
                        reservation.deny,
                        limit,
                    ));
                }
                opened
            },
        };
        let combined = match combined {
            Ok(combined) => combined,
            Err(error) => {
                self.files.put(file, file_state);
                assert(self@.files =~= before.files.insert(file_place(file), file_at(before.files, file)));
                return match error {
                    ShareOpenError::Conflict => Err((reservation, NfsStatus::ShareDenied)),
                    ShareOpenError::ContributionLimit => Err((reservation, NfsStatus::Resource)),
                };
            },
        };
        if check_pending(&file_state.pending_opens, &combined) {
            self.files.put(file, file_state);
            assert(self@.files =~= before.files.insert(file_place(file), file_at(before.files, file)));
            return Err((reservation, NfsStatus::ShareDenied));
        }
        let recovered_open_token = match &recovered {
            Some(found) => {
                let _ = self.state.reserved_recovered_opens.insert(copy_bytes(found.state_token.as_slice()), ());
                Some(found.state_token)
            },
            None => None,
        };
        let mut owner = reservation.owner;
        if existing_state.is_some() {
            if self.state.reserved_states > 0 {
                self.state.reserved_states = self.state.reserved_states - 1;
            }
            owner.reserved_state = false;
        }
        file_state.pending_opens.push(
            PendingOpen {
                reservation: reservation.reservation,
                owner: owner.owner.copy(),
                access: combined.access,
                deny: combined.deny,
            },
        );
        self.files.put(file, file_state);
        let pin = match existing_state {
            None => reservation.provisional_pin,
            Some(state_id) => match self.state.stateids.identify(state_id) {
                Err(_) => reservation.provisional_pin,
                Ok(record) => match record.payload {
                    StatePayload::Open(open) => open.pin,
                    StatePayload::Lock(_) => reservation.provisional_pin,
                },
            },
        };
        assert(self@ =~= target_reserved(before, reservation, file, recovered, combined));
        Ok(
            OpenTargetReservation {
                owner,
                file,
                access: combined.access,
                deny: combined.deny,
                contributions: combined.contributions,
                confirmation_required: reservation.confirmation_required,
                reservation: reservation.reservation,
                existing_state,
                recovered_open_token,
                pin,
                delegation_eligibility: None,
                replay_effect: reservation.replay_effect,
            },
        )
    }
}

} // verus!
