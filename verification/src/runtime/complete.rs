//! Opens that are completed, or come to nothing.

use std::sync::Arc;

use vstd::prelude::*;

use crate::bytes::copy_bytes;
use crate::files::{pending_dropped, pending_without, FileView, PendingOpen};
use crate::journal::{ChangeView, PersistBatch};
use crate::owner::SequenceDecision;
use crate::protocol::{
    file_place, granted_kind, owner_file_key, owner_file_place, share, stable_of, state_other, state_token, token_of,
    other_of, ChangeInfo, DelegationKind, NfsStatus, OpenDelegation, OpenOk, OwnerKey, ReplayEffect, ResOp, RuntimeFile,
    StateId,
};
use crate::record::{JournalKey, JournalRecord, KeyView, OpenRecord, OpenView, RecordView, ReplayOwnerKind};
use crate::recovery::RecoveredOpen;
use crate::registry::{
    one_less, place_of_owner, replay_key_of, replay_record_of, OpenLink, Owner, OwnerReservation, ReservedOwnerKind,
    StateRegistry, StateView,
};
use crate::runtime::lock::one_more;
use crate::runtime::open::{OpenReservation, OpenTargetReservation, OPEN4_RESULT_CONFIRM, OPEN4_RESULT_LOCKTYPE_POSIX};
use crate::runtime::openstate::{owner_error_begun, owner_error_state, OwnerErrorStep};
use crate::runtime::{Nfs4Runtime, RuntimeView};
use crate::share::{
    contribution_records, install_share, put_share, share_bits, share_installed, share_put, stable_open_contributions,
    ShareOpenError, ShareReservation,
};
use crate::snapshot::{owner_key, owner_map_key};
use crate::stateid::{
    map_stateid_error, stateid_status, OpenState, StateDisposition, StateIdValidationError, StatePayload, StateRecord,
};

verus! {

/// The server once the target of an open is let go.
pub open spec fn target_freed(view: RuntimeView, target: OpenTargetReservation) -> RuntimeView {
    RuntimeView {
        state: match target.recovered_open_token {
            Some(token) => StateView {
                reserved_recovered_opens: view.state.reserved_recovered_opens.remove(token@),
                ..view.state
            },
            None => view.state,
        },
        files: pending_dropped(view.files, target.file, target.reservation),
        ..view
    }
}

/// The server once an open with a target is given up.
pub open spec fn target_dropped(view: RuntimeView, target: OpenTargetReservation) -> RuntimeView {
    let freed = target_freed(view, target);
    RuntimeView { state: freed.state.dropped(target.owner), ..freed }
}

impl Nfs4Runtime {
    /// Lets the target of an open go.
    fn free_target(&mut self, target: &OpenTargetReservation)
        ensures
            final(self)@ == target_freed(old(self)@, *target),
    {
        if let Some(token) = target.recovered_open_token {
            let _ = self.state.reserved_recovered_opens.remove(token.as_slice());
        }
        self.files.remove_pending(target.file, target.reservation);
        assert(self@ =~= target_freed(old(self)@, *target));
    }

    /// Gives an open up.
    pub fn drop_open_target(&mut self, target: OpenTargetReservation)
        ensures
            final(self)@ == target_dropped(old(self)@, target),
    {
        self.free_target(&target);
        self.state.drop_reservation(target.owner);
    }

    /// Refuses an open whose target is not known.
    pub fn complete_open_error(&mut self, reservation: OpenReservation, status: NfsStatus) -> (step: OwnerErrorStep)
        ensures
            owner_error_begun(
                step,
                reservation.owner,
                status,
                ResOp::Open(Err(status)),
                reservation.replay_effect,
            ),
            final(self)@ == (RuntimeView {
                state: owner_error_state(old(self)@.state, reservation.owner, status),
                ..old(self)@
            }),
    {
        let response = Arc::new(ResOp::Open(Err(status)));
        self.complete_owner_error(reservation.owner, status, response, reservation.replay_effect)
    }

    /// Refuses an open whose target is known.
    pub fn complete_open_target_error(&mut self, target: OpenTargetReservation, status: NfsStatus) -> (step: OwnerErrorStep)
        ensures
            owner_error_begun(step, target.owner, status, ResOp::Open(Err(status)), target.replay_effect),
            final(self)@ == (RuntimeView {
                state: owner_error_state(target_freed(old(self)@, target).state, target.owner, status),
                ..target_freed(old(self)@, target)
            }),
    {
        self.free_target(&target);
        let response = Arc::new(ResOp::Open(Err(status)));
        self.complete_owner_error(target.owner, status, response, target.replay_effect)
    }
}

/// The delegation that is granted with the open is the one that was agreed on.
pub open spec fn eligible(state: StateView, target: OpenTargetReservation, granted: Option<DelegationKind>) -> bool {
    match target.delegation_eligibility {
        None => granted is None,
        Some(id) => {
            &&& state.delegation_eligibility.contains_key(id)
            &&& state.delegation_eligibility[id].file == target.file
            &&& state.delegation_eligibility[id].client_id == target.owner.owner.client_id
            &&& state.delegation_eligibility[id].open_reservation == target.reservation
            &&& granted matches Some(kind) ==> kind == state.delegation_eligibility[id].kind
        },
    }
}

/// The owner waits for the open.
pub open spec fn open_awaited(state: StateView, owner: OwnerReservation) -> bool {
    let place = place_of_owner(owner.owner);
    state.open_owners.contains_key(place) && state.open_owners[place].sequence.decided(
        owner.sequence_id,
        owner.digest,
    ) is InProgress
}

/// The owner's open of the file has that state id.
pub open spec fn linked_as(state: StateView, owner: OwnerKey, file: RuntimeFile, state_id: StateId) -> bool {
    let link = owner_file_place(owner@, file);
    state.open_by_owner_file.contains_key(link) && state.open_by_owner_file[link].state_id == state_id
}

/// Why an open is not completed.
pub open spec fn complete_refused(state: StateView, target: OpenTargetReservation, granted: Option<DelegationKind>) -> Option<
    NfsStatus,
> {
    if !eligible(state, target, granted) || !open_awaited(state, target.owner) {
        Some(NfsStatus::ServerFault)
    } else if target.recovered_open_token matches Some(token) && (!state.reserved_recovered_opens.contains(token@)
        || !state.recovered_opens.contains_key(token@)) {
        Some(NfsStatus::ReclaimBad)
    } else {
        match target.existing_state {
            Some(previous) => if target.owner.reserved_state || !linked_as(
                state,
                target.owner.owner,
                target.file,
                previous,
            ) {
                Some(NfsStatus::ServerFault)
            } else {
                match state.stateids.previewed(previous) {
                    Err(error) => Some(stateid_status(error)),
                    Ok(_) => None,
                }
            },
            None => if !target.owner.reserved_state || state.open_owners[place_of_owner(
                target.owner.owner,
            )].active_states == usize::MAX {
                Some(NfsStatus::ServerFault)
            } else if state.stateids.room() is None {
                Some(NfsStatus::Resource)
            } else {
                None
            },
        }
    }
}

/// An open that can be completed and is not complete yet.
pub struct OpenPlan {
    pub target: OpenTargetReservation,
    pub state_id: StateId,
    pub confirmation_required: bool,
    pub response: Arc<ResOp>,
    pub effect: ReplayEffect,
    pub granted: Option<DelegationKind>,
    pub recovered: Option<RecoveredOpen>,
}

/// An open that is complete.
pub struct OpenCompletion {
    pub result: Arc<ResOp>,
    pub effect: ReplayEffect,
    /// The file is held by the pin of the open from now on.
    pub newly_retained: bool,
}

/// The payload of a new open.
pub open spec fn new_open(target: OpenTargetReservation, confirmation_required: bool) -> StatePayload {
    StatePayload::Open(
        OpenState {
            owner: target.owner.owner,
            access: target.access,
            deny: target.deny,
            contributions: target.contributions,
            confirmed: !confirmation_required,
            pin: target.pin,
        },
    )
}

/// The registry once an open is planned.
pub open spec fn open_planned(state: StateView, target: OpenTargetReservation, confirmation_required: bool) -> StateView {
    match target.existing_state {
        Some(_) => state,
        None => StateView {
            stateids: state.stateids.allocated(
                target.owner.owner.client_id,
                target.file,
                new_open(target, confirmation_required),
            ),
            reserved_states: one_less(state.reserved_states),
            ..state
        },
    }
}

/// The plan is the one for the open.
pub open spec fn open_plan_of(
    state: StateView,
    plan: OpenPlan,
    target: OpenTargetReservation,
    change_info: ChangeInfo,
    attributes_set: Arc<Vec<u32>>,
    delegation: OpenDelegation,
) -> bool {
    let confirm = target.confirmation_required && delegation is Absent;
    &&& plan.target == (OpenTargetReservation {
        owner: OwnerReservation { reserved_state: false, ..target.owner },
        ..target
    })
    &&& match target.existing_state {
        Some(previous) => state.stateids.previewed(previous) == Ok::<StateId, StateIdValidationError>(plan.state_id),
        None => state.stateids.allocated_id(plan.state_id),
    }
    &&& plan.confirmation_required == confirm
    &&& *plan.response == ResOp::Open(
        Ok(
            OpenOk {
                state_id: plan.state_id,
                change_info,
                result_flags: if confirm {
                    6
                } else {
                    4
                },
                attributes_set,
                delegation,
            },
        ),
    )
    &&& plan.effect == (ReplayEffect { current_file: Some(target.file), ..target.replay_effect })
    &&& plan.granted == granted_kind(delegation)
    &&& plan.recovered == match target.recovered_open_token {
        Some(token) => Some(state.recovered_opens[token@]),
        None => None,
    }
}

impl StateRegistry {
    /// Whether the delegation that is granted with the open is the one that was agreed on.
    fn validate_delegation_eligibility(&self, target: &OpenTargetReservation, granted: Option<DelegationKind>) -> (valid: bool)
        ensures
            valid == eligible(self@, *target, granted),
    {
        match target.delegation_eligibility {
            None => granted.is_none(),
            Some(id) => match self.delegation_eligibility.get(id) {
                None => false,
                Some(pending) => {
                    let agreed = match granted {
                        Some(kind) => kind == pending.kind,
                        None => true,
                    };
                    pending.file == target.file && pending.client_id == target.owner.owner.client_id
                        && pending.open_reservation == target.reservation && agreed
                },
            },
        }
    }

    /// Whether the owner waits for the open.
    fn awaits_open(&self, owner: &OwnerReservation) -> (awaited: bool)
        ensures
            awaited == open_awaited(self@, *owner),
    {
        let place = owner.owner.place();
        match self.open_owners.get(place.as_slice()) {
            Some(found) => {
                let decision = found.sequence.decide(owner.sequence_id, owner.digest);
                matches!(decision, SequenceDecision::InProgress)
            },
            None => false,
        }
    }

    /// Whether the owner's open of the file has that state id.
    fn is_linked(&self, owner: &OwnerKey, file: RuntimeFile, state_id: StateId) -> (linked: bool)
        ensures
            linked == linked_as(self@, *owner, file, state_id),
    {
        let link = owner_file_key(owner, file);
        match self.open_by_owner_file.get(link.as_slice()) {
            Some(found) => found.state_id.same(&state_id),
            None => false,
        }
    }

    /// Whether the owner has as many states as can be counted.
    fn owner_saturated(&self, owner: &OwnerKey) -> (saturated: bool)
        ensures
            saturated == (self@.open_owners.contains_key(place_of_owner(*owner))
                && self@.open_owners[place_of_owner(*owner)].active_states == usize::MAX),
    {
        let place = owner.place();
        match self.open_owners.get(place.as_slice()) {
            Some(found) => found.active_states == usize::MAX,
            None => false,
        }
    }
}

impl Nfs4Runtime {
    /// Whether an open can be planned: it is refused, or finds the room that was promised to it.
    pub fn can_complete_open(&self, target: &OpenTargetReservation, delegation: &OpenDelegation) -> (ready: bool)
        ensures
            ready == (complete_refused(self@.state, *target, granted_kind(*delegation)) is None
                && target.existing_state is None ==> self@.state.reserved_states > 0),
    {
        if target.existing_state.is_some() || self.state.reserved_states > 0 {
            return true;
        }
        if !self.state.validate_delegation_eligibility(target, delegation.kind()) || !self.state.awaits_open(
            &target.owner,
        ) {
            return true;
        }
        if let Some(token) = target.recovered_open_token {
            if !self.state.reserved_recovered_opens.contains(token.as_slice()) || !self.state.recovered_opens.contains(
                token.as_slice(),
            ) {
                return true;
            }
        }
        !target.owner.reserved_state || self.state.owner_saturated(&target.owner.owner)
            || !self.state.stateids.has_room()
    }

    /// Plans to complete an open; where it cannot be, it is given up.
    pub fn complete_open(
        &mut self,
        target: OpenTargetReservation,
        change_info: ChangeInfo,
        attributes_set: Arc<Vec<u32>>,
        delegation: OpenDelegation,
    ) -> (plan: Result<OpenPlan, NfsStatus>)
        requires
            complete_refused(old(self)@.state, target, granted_kind(delegation)) is None && target.existing_state is None
                ==> old(self)@.state.reserved_states > 0,
        ensures
            match complete_refused(old(self)@.state, target, granted_kind(delegation)) {
                Some(status) => plan == Err::<OpenPlan, NfsStatus>(status) && final(self)@ == target_dropped(
                    old(self)@,
                    target,
                ),
                None => {
                    &&& plan is Ok
                    &&& open_plan_of(
                        old(self)@.state,
                        plan->Ok_0,
                        target,
                        change_info,
                        attributes_set,
                        delegation,
                    )
                    &&& final(self)@ == (RuntimeView {
                        state: open_planned(
                            old(self)@.state,
                            target,
                            target.confirmation_required && delegation is Absent,
                        ),
                        ..old(self)@
                    })
                },
            },
    {
        let ghost before = self@;
        let granted = delegation.kind();
        let confirmation_required = target.confirmation_required && granted.is_none();
        if !self.state.validate_delegation_eligibility(&target, granted) || !self.state.awaits_open(&target.owner) {
            self.drop_open_target(target);
            return Err(NfsStatus::ServerFault);
        }
        let recovered = match target.recovered_open_token {
            None => None,
            Some(token) => {
                let reserved = self.state.reserved_recovered_opens.contains(token.as_slice());
                let found = match self.state.recovered_opens.get(token.as_slice()) {
                    Some(found) => Some(found.copy()),
                    None => None,
                };
                if !reserved || found.is_none() {
                    self.drop_open_target(target);
                    return Err(NfsStatus::ReclaimBad);
                }
                found
            },
        };
        let state_id = match target.existing_state {
            Some(previous) => {
                if target.owner.reserved_state || !self.state.is_linked(&target.owner.owner, target.file, previous) {
                    self.drop_open_target(target);
                    return Err(NfsStatus::ServerFault);
                }
                match self.state.stateids.preview_transition(previous) {
                    Ok(next) => next,
                    Err(error) => {
                        self.drop_open_target(target);
                        return Err(map_stateid_error(error));
                    },
                }
            },
            None => {
                if !target.owner.reserved_state || self.state.owner_saturated(&target.owner.owner) {
                    self.drop_open_target(target);
                    return Err(NfsStatus::ServerFault);
                }
                let payload = StatePayload::Open(
                    OpenState {
                        owner: target.owner.owner.copy(),
                        access: target.access,
                        deny: target.deny,
                        contributions: target.contributions,
                        confirmed: !confirmation_required,
                        pin: target.pin,
                    },
                );
                match self.state.stateids.allocate_pending(target.owner.owner.client_id, target.file, payload) {
                    Some(state_id) => {
                        if self.state.reserved_states > 0 {
                            self.state.reserved_states = self.state.reserved_states - 1;
                        }
                        state_id
                    },
                    None => {
                        self.drop_open_target(target);
                        return Err(NfsStatus::Resource);
                    },
                }
            },
        };
        let mut target = target;
        target.owner.reserved_state = false;
        let effect = ReplayEffect {
            current_file: Some(target.file),
            stateid_renewal_client: target.replay_effect.stateid_renewal_client,
        };
        let result_flags = if confirmation_required {
            assert(OPEN4_RESULT_LOCKTYPE_POSIX | OPEN4_RESULT_CONFIRM == 6u32) by (bit_vector);
            OPEN4_RESULT_LOCKTYPE_POSIX | OPEN4_RESULT_CONFIRM
        } else {
            OPEN4_RESULT_LOCKTYPE_POSIX
        };
        let response = Arc::new(
            ResOp::Open(Ok(OpenOk { state_id, change_info, result_flags, attributes_set, delegation })),
        );
        Ok(OpenPlan { target, state_id, confirmation_required, response, effect, granted, recovered })
    }
}

/// What an open that is reclaimed changes in the journal.
pub open spec fn recovered_open_changes(recovered: Option<RecoveredOpen>) -> Seq<ChangeView> {
    match recovered {
        None => seq![],
        Some(found) => seq![
            ChangeView::Delete { key: KeyView::Open { state_token: found.state_token@ } },
            ChangeView::Delete {
                key: KeyView::Replay {
                    client_id: found.previous_client_id,
                    owner_kind: ReplayOwnerKind::Open,
                    owner: found.owner@,
                },
            },
        ],
    }
}

/// The record of an open that is completed.
pub open spec fn opened_record(plan: OpenPlan) -> RecordView {
    RecordView::Open(
        OpenView {
            state_token: token_of(plan.state_id),
            client_id: plan.target.owner.owner.client_id,
            owner: plan.target.owner.owner.owner@,
            object: stable_of(plan.target.file),
            share_access: share_bits(plan.target.access.read, plan.target.access.write),
            share_deny: share_bits(plan.target.deny.read, plan.target.deny.write),
            contributions: contribution_records(plan.target.contributions.counts@, 12),
        },
    )
}

/// What an open that is completed changes in the journal.
pub open spec fn open_changes(plan: OpenPlan, reply: Seq<u8>) -> Seq<ChangeView> {
    let gone = match plan.target.existing_state {
        Some(previous) => seq![ChangeView::Delete { key: KeyView::Open { state_token: token_of(previous) } }],
        None => seq![],
    };
    gone + recovered_open_changes(plan.recovered) + seq![
        ChangeView::Put { key: KeyView::Open { state_token: token_of(plan.state_id) }, record: opened_record(plan) },
        ChangeView::Put {
            key: replay_key_of(plan.target.owner),
            record: replay_record_of(plan.target.owner, plan.effect, reply),
        },
    ]
}

impl OpenPlan {
    /// What the open changes in the journal, with the encoded reply.
    pub fn batch(&self, reply: &Vec<u8>) -> (batch: PersistBatch)
        ensures
            batch@ == open_changes(*self, reply@),
    {
        let batch = PersistBatch::default();
        let batch = match self.target.existing_state {
            Some(previous) => batch.delete(JournalKey::Open { state_token: state_token(previous) }),
            None => batch,
        };
        let batch = match &self.recovered {
            Some(found) => batch.delete(JournalKey::Open { state_token: found.state_token }).delete(
                JournalKey::Replay {
                    client_id: found.previous_client_id,
                    owner_kind: ReplayOwnerKind::Open,
                    owner: copy_bytes(found.owner.as_slice()),
                },
            ),
            None => batch,
        };
        let record = JournalRecord::Open(
            OpenRecord {
                state_token: state_token(self.state_id),
                client_id: self.target.owner.owner.client_id,
                owner: copy_bytes(self.target.owner.owner.owner.as_slice()),
                object: self.target.file.stable(),
                share_access: self.target.access.bits(),
                share_deny: self.target.deny.bits(),
                contributions: stable_open_contributions(&self.target.contributions),
            },
        );
        assert(record@ =~= opened_record(*self));
        let batch = batch.put(JournalKey::Open { state_token: state_token(self.state_id) }, record).put(
            self.target.owner.replay_key(),
            self.target.owner.replay_record(self.effect, reply),
        );
        assert(batch@ =~= open_changes(*self, reply@));
        batch
    }
}

/// The open waits for its completion at the file.
pub open spec fn pending_as(file: FileView, target: OpenTargetReservation) -> bool {
    exists|i: int|
        0 <= i < file.pending_opens.len() && (#[trigger] file.pending_opens[i]).reservation == target.reservation
            && file.pending_opens[i].owner@ == target.owner.owner@ && file.pending_opens[i].access == target.access
            && file.pending_opens[i].deny == target.deny
}

/// Why an open that is planned cannot be written to the journal any more.
pub open spec fn ready_refused(view: RuntimeView, plan: OpenPlan) -> Option<NfsStatus> {
    let state = view.state;
    let target = plan.target;
    let place = place_of_owner(target.owner.owner);
    if !eligible(state, target, plan.granted) || !open_awaited(state, target.owner) {
        Some(NfsStatus::ServerFault)
    } else {
        let moved = match target.existing_state {
            Some(previous) => if !linked_as(state, target.owner.owner, target.file, previous) {
                Some(NfsStatus::ServerFault)
            } else {
                match state.stateids.previewed(previous) {
                    Err(error) => Some(stateid_status(error)),
                    Ok(next) => if next != plan.state_id {
                        Some(NfsStatus::ServerFault)
                    } else {
                        None
                    },
                }
            },
            None => if target.owner.reserved_state || state.open_owners[place].active_states == usize::MAX {
                Some(NfsStatus::ServerFault)
            } else {
                None
            },
        };
        if moved is Some {
            moved
        } else if plan.recovered matches Some(found) && (!state.reserved_recovered_opens.contains(found.state_token@)
            || !state.recovered_opens.contains_key(found.state_token@) || state.recovered_opens[found.state_token@]@
            != found@) {
            Some(NfsStatus::ReclaimBad)
        } else if !view.files.contains_key(file_place(target.file)) {
            Some(NfsStatus::ServerFault)
        } else {
            let file = view.files[file_place(target.file)];
            if !pending_as(file, target) || share_installed(
                file.shares,
                target.owner.owner,
                target.contributions,
                view.limits.max_open_contributions_per_state,
            ) != Ok::<ShareReservation, ShareOpenError>(
                ShareReservation {
                    owner: target.owner.owner,
                    access: target.access,
                    deny: target.deny,
                    contributions: target.contributions,
                },
            ) {
                Some(NfsStatus::ServerFault)
            } else {
                None
            }
        }
    }
}

/// The server once an open that is planned is given up.
pub open spec fn open_abandoned(view: RuntimeView, plan: OpenPlan) -> RuntimeView {
    let state = match plan.target.existing_state {
        Some(_) => view.state,
        None => StateView {
            stateids: view.state.stateids.retired(plan.state_id.other@, StateDisposition::Closed),
            ..view.state
        },
    };
    target_dropped(RuntimeView { state, ..view }, plan.target)
}

/// Whether the open waits for its completion at the file.
fn check_waiting(pending: &Vec<PendingOpen>, target: &OpenTargetReservation, Ghost(file): Ghost<FileView>) -> (waits: bool)
    requires
        file.pending_opens == pending@,
    ensures
        waits == pending_as(file, *target),
{
    let mut i: usize = 0;
    while i < pending.len()
        invariant
            i <= pending@.len(),
            file.pending_opens == pending@,
            forall|j: int|
                0 <= j < i ==> !((#[trigger] file.pending_opens[j]).reservation == target.reservation
                    && file.pending_opens[j].owner@ == target.owner.owner@ && file.pending_opens[j].access
                    == target.access && file.pending_opens[j].deny == target.deny),
        decreases pending@.len() - i,
    {
        assert(file.pending_opens[i as int] == pending@[i as int]);
        if pending[i].reservation == target.reservation && pending[i].owner.same(&target.owner.owner)
            && pending[i].access == target.access && pending[i].deny == target.deny {
            return true;
        }
        i += 1;
    }
    false
}

impl Nfs4Runtime {
    /// Gives an open up that was planned.
    pub fn abandon_open(&mut self, plan: OpenPlan)
        ensures
            final(self)@ == open_abandoned(old(self)@, plan),
    {
        if plan.target.existing_state.is_none() {
            let _ = self.state.stateids.set_disposition(plan.state_id, StateDisposition::Closed);
        }
        self.drop_open_target(plan.target);
    }

    /// Why an open that is planned cannot be written to the journal any more.
    pub(crate) fn refuse_ready(&self, plan: &OpenPlan) -> (refused: Option<NfsStatus>)
        ensures
            refused == ready_refused(self@, *plan),
    {
        let target = &plan.target;
        if !self.state.validate_delegation_eligibility(target, plan.granted) || !self.state.awaits_open(&target.owner) {
            return Some(NfsStatus::ServerFault);
        }
        match target.existing_state {
            Some(previous) => {
                if !self.state.is_linked(&target.owner.owner, target.file, previous) {
                    return Some(NfsStatus::ServerFault);
                }
                match self.state.stateids.preview_transition(previous) {
                    Err(error) => {
                        return Some(map_stateid_error(error));
                    },
                    Ok(next) => {
                        if !next.same(&plan.state_id) {
                            return Some(NfsStatus::ServerFault);
                        }
                    },
                }
            },
            None => {
                if target.owner.reserved_state || self.state.owner_saturated(&target.owner.owner) {
                    return Some(NfsStatus::ServerFault);
                }
            },
        }
        if let Some(found) = &plan.recovered {
            let reserved = self.state.reserved_recovered_opens.contains(found.state_token.as_slice());
            let same = match self.state.recovered_opens.get(found.state_token.as_slice()) {
                Some(there) => there.same(found),
                None => false,
            };
            if !reserved || !same {
                return Some(NfsStatus::ReclaimBad);
            }
        }
        match self.files.get(target.file) {
            None => Some(NfsStatus::ServerFault),
            Some(file) => {
                if !check_waiting(&file.pending_opens, target, Ghost(file@)) {
                    return Some(NfsStatus::ServerFault);
                }
                match install_share(
                    &file.shares,
                    &target.owner.owner,
                    target.contributions,
                    self.limits.max_open_contributions_per_state,
                ) {
                    Err(_) => Some(NfsStatus::ServerFault),
                    Ok(combined) => {
                        if combined.access != target.access || combined.deny != target.deny {
                            Some(NfsStatus::ServerFault)
                        } else {
                            None
                        }
                    },
                }
            },
        }
    }

    /// The batch of an open that can still be completed; one that cannot be is given up.
    pub fn ready_open(&mut self, plan: OpenPlan, reply: &Vec<u8>) -> (ready: Result<(OpenPlan, PersistBatch), NfsStatus>)
        ensures
            match ready_refused(old(self)@, plan) {
                Some(status) => {
                    &&& ready == Err::<(OpenPlan, PersistBatch), NfsStatus>(status)
                    &&& final(self)@ == open_abandoned(old(self)@, plan)
                },
                None => {
                    &&& ready is Ok
                    &&& ready->Ok_0.0 == plan
                    &&& ready->Ok_0.1@ == open_changes(plan, reply@)
                    &&& final(self)@ == old(self)@
                },
            },
    {
        if let Some(status) = self.refuse_ready(&plan) {
            self.abandon_open(plan);
            return Err(status);
        }
        let batch = plan.batch(reply);
        Ok((plan, batch))
    }
}

/// The open can be completed as planned.
pub open spec fn open_ready(view: RuntimeView, plan: OpenPlan) -> bool {
    let state = view.state;
    let target = plan.target;
    &&& ready_refused(view, plan) is None
    &&& target.owner.kind == ReservedOwnerKind::Open
    &&& match target.existing_state {
        Some(previous) => state.stateids.transitioned(previous).identified(
            plan.state_id.other@,
        ) matches Ok(record) && record.payload is Open,
        None => state.stateids.waits(plan.state_id.other@) && !state.open_by_owner_file.contains_key(
            owner_file_place(target.owner.owner@, target.file),
        ),
    }
}

/// The state objects once an open is completed.
pub open spec fn opened_stateids(state: StateView, plan: OpenPlan) -> crate::stateid::TableView {
    match plan.target.existing_state {
        Some(previous) => {
            let moved = state.stateids.transitioned(previous);
            let record = moved.identified(plan.state_id.other@)->Ok_0;
            moved.replaced(
                plan.state_id.other@,
                StateRecord {
                    payload: StatePayload::Open(
                        OpenState {
                            access: plan.target.access,
                            deny: plan.target.deny,
                            contributions: plan.target.contributions,
                            ..record.payload->Open_0
                        },
                    ),
                    ..record
                },
            )
        },
        None => state.stateids.activated(plan.state_id.other@),
    }
}

/// The registry once an open of the run before is reclaimed.
pub open spec fn open_reclaimed(state: StateView, plan: OpenPlan) -> StateView {
    match plan.recovered {
        None => state,
        Some(found) => StateView {
            recovered_opens: state.recovered_opens.remove(found.state_token@),
            reserved_recovered_opens: state.reserved_recovered_opens.remove(found.state_token@),
            recovered_cleanup_keys: state.recovered_cleanup_keys.remove(
                KeyView::Open { state_token: found.state_token@ },
            ).remove(
                KeyView::Replay {
                    client_id: found.previous_client_id,
                    owner_kind: ReplayOwnerKind::Open,
                    owner: found.owner@,
                },
            ),
            recovered_replays: state.recovered_replays.remove(
                owner_key(found.previous_client_id, ReplayOwnerKind::Open, found.owner@),
            ),
            reclaimed_open_ancestry: state.reclaimed_open_ancestry.insert(
                plan.state_id.other@,
                ancestor(found.state_token),
            ),
            ..state
        },
    }
}

/// The identity in a state id.
pub open spec fn ancestor(token: [u8; 16]) -> [u8; 12] {
    choose|other: [u8; 12]| other@ == other_of(token@)
}

/// An identity is known by its bytes.
pub proof fn lemma_ancestor(token: [u8; 16], other: [u8; 12])
    requires
        other@ == other_of(token@),
    ensures
        ancestor(token) == other,
{
    assert(ancestor(token)@ == other@);
    assert(ancestor(token) =~= other);
}

/// The registry once an open is completed.
pub open spec fn opened_state(state: StateView, plan: OpenPlan) -> StateView {
    let key = plan.target.owner.owner;
    let place = place_of_owner(key);
    let owner = state.open_owners[place];
    let linked = StateView {
        stateids: opened_stateids(state, plan),
        open_owners: state.open_owners.insert(
            place,
            Owner {
                active_states: if plan.target.existing_state is None {
                    one_more(owner.active_states)
                } else {
                    owner.active_states
                },
                confirmed: owner.confirmed || !plan.confirmation_required,
                ..owner
            },
        ),
        ..state
    }.open_linked(key, plan.target.file, plan.state_id);
    open_reclaimed(linked.settled(plan.target.owner, plan.response, plan.effect), plan)
}

/// The server once an open is completed, or could not be.
pub open spec fn open_finished(view: RuntimeView, plan: OpenPlan, persisted: bool) -> RuntimeView {
    let place = file_place(plan.target.file);
    if !persisted {
        open_abandoned(view, plan)
    } else {
        RuntimeView {
            state: opened_state(view.state, plan),
            files: view.files.insert(
                place,
                FileView {
                    shares: share_put(
                        view.files[place].shares,
                        ShareReservation {
                            owner: plan.target.owner.owner,
                            access: plan.target.access,
                            deny: plan.target.deny,
                            contributions: plan.target.contributions,
                        },
                    ),
                    pending_opens: pending_without(
                        view.files[place].pending_opens,
                        plan.target.reservation,
                        view.files[place].pending_opens.len(),
                    ),
                    ..view.files[place]
                },
            ),
            ..view
        }
    }
}

impl StateRegistry {
    /// Takes note that an open of the run before is reclaimed.
    fn finish_open_reclaim(&mut self, found: RecoveredOpen, state_id: StateId, Ghost(plan): Ghost<OpenPlan>)
        requires
            plan.recovered == Some(found),
            plan.state_id == state_id,
        ensures
            final(self)@ == open_reclaimed(old(self)@, plan),
    {
        let ghost before = self@;
        let _ = self.recovered_opens.remove(found.state_token.as_slice());
        let _ = self.reserved_recovered_opens.remove(found.state_token.as_slice());
        self.recovered_cleanup_keys.remove(&JournalKey::Open { state_token: found.state_token });
        let key = owner_map_key(found.previous_client_id, ReplayOwnerKind::Open, found.owner.as_slice());
        let _ = self.recovered_replays.remove(key.as_slice());
        self.recovered_cleanup_keys.remove(
            &JournalKey::Replay {
                client_id: found.previous_client_id,
                owner_kind: ReplayOwnerKind::Open,
                owner: copy_bytes(found.owner.as_slice()),
            },
        );
        let other = state_other(found.state_token);
        proof {
            lemma_ancestor(found.state_token, other);
        }
        let _ = self.reclaimed_open_ancestry.insert(copy_bytes(state_id.other.as_slice()), other);
        assert(self@ =~= open_reclaimed(before, plan));
    }
}

impl Nfs4Runtime {
    /// Finishes an open once it was written to the journal, or could not be.
    #[verifier::rlimit(50)]
    pub fn finish_open(&mut self, plan: OpenPlan, persisted: bool) -> (result: Result<OpenCompletion, NfsStatus>)
        requires
            persisted ==> open_ready(old(self)@, plan),
        ensures
            if persisted {
                &&& result is Ok
                &&& result->Ok_0.result == plan.response
                &&& result->Ok_0.effect == plan.effect
                &&& result->Ok_0.newly_retained == (plan.target.existing_state is None)
            } else {
                result == Err::<OpenCompletion, NfsStatus>(NfsStatus::Resource)
            },
            final(self)@ == open_finished(old(self)@, plan, persisted),
    {
        let ghost before = self@;
        let ghost whole = plan;
        if !persisted {
            self.abandon_open(plan);
            return Err(NfsStatus::Resource);
        }
        let key = plan.target.owner.owner.copy();
        let mut file = self.files.take(plan.target.file);
        put_share(
            &mut file.shares,
            ShareReservation {
                owner: key.copy(),
                access: plan.target.access,
                deny: plan.target.deny,
                contributions: plan.target.contributions,
            },
        );
        file.remove_pending(plan.target.reservation);
        self.files.put(plan.target.file, file);
        assert(self@.files =~= open_finished(before, plan, persisted).files);
        match plan.target.existing_state {
            Some(previous) => {
                let _ = self.state.stateids.transition(previous);
                if let Ok(record) = self.state.stateids.identify(plan.state_id) {
                    if let StatePayload::Open(open) = record.payload {
                        let changed = OpenState {
                            owner: open.owner,
                            access: plan.target.access,
                            deny: plan.target.deny,
                            contributions: plan.target.contributions,
                            confirmed: open.confirmed,
                            pin: open.pin,
                        };
                        self.state.stateids.replace(
                            plan.state_id,
                            StateRecord {
                                sequence_id: record.sequence_id,
                                client: record.client,
                                file: record.file,
                                payload: StatePayload::Open(changed),
                            },
                        );
                    }
                }
            },
            None => {
                let _ = self.state.stateids.activate(plan.state_id);
            },
        }
        assert(self@.state.stateids == opened_stateids(before.state, plan));
        let link = owner_file_key(&key, plan.target.file);
        let _ = self.state.open_by_owner_file.insert(
            link,
            OpenLink { owner: key.copy(), file: plan.target.file, state_id: plan.state_id },
        );
        let place = key.place();
        let found = match self.state.open_owners.get(place.as_slice()) {
            Some(owner) => Some(owner.copy()),
            None => None,
        };
        if let Some(owner) = found {
            let mut owner = owner;
            if plan.target.existing_state.is_none() && owner.active_states < usize::MAX {
                owner.active_states = owner.active_states + 1;
            }
            if !plan.confirmation_required {
                owner.confirmed = true;
            }
            let _ = self.state.open_owners.insert(place, owner);
        }
        let newly_retained = plan.target.existing_state.is_none();
        let _ = self.state.settle_reservation(plan.target.owner, share(&plan.response), plan.effect);
        if let Some(found) = plan.recovered {
            self.state.finish_open_reclaim(found, plan.state_id, Ghost(whole));
        }
        assert(self@.state =~= opened_state(before.state, plan));
        Ok(OpenCompletion { result: plan.response, effect: plan.effect, newly_retained })
    }
}

} // verus!
