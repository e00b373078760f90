//! What is done to an open: it is confirmed, narrowed or closed.

use std::sync::Arc;

use vstd::prelude::*;

use crate::bytes::copy_bytes;
use crate::files::FileView;
use crate::identity::{Principal, PrincipalView};
use crate::journal::{ChangeView, PersistBatch};
use crate::locks::{open_needs, open_requires};
use crate::owner::SequenceDecision;
use crate::protocol::{
    consumes_sequence, file_place, no_effect, owner_file_key, owner_file_place, sequence_status_consumed, share,
    stable_of, state_token, token_of, LockAccess, NfsStatus, OwnerKey, OwnerRequestDigest, ReplayEffect, ResOp,
    RuntimeFile, StateId,
};
use crate::record::{JournalKey, JournalRecord, KeyView, OpenRecord, OpenView, RecordView};
use crate::registry::{
    place_of_owner, replay_key_of, replay_record_of, OpenLink, Owner, OwnerReservation, ReservedOwnerKind,
    StateRegistry, StateView,
};
use crate::runtime::{Nfs4Runtime, OwnerErrorPlan, RuntimeView};
use crate::share::{
    aggregate_of, contribution_records, downgrade_share, narrowed_counts, put_share, share_at, share_bits, share_put,
    stable_open_contributions, wire_access, wire_deny, ShareAccess, ShareContributions, ShareDeny, ShareReservation,
};
use crate::stateid::{
    map_stateid_error, stateid_status, OpenState, StateIdValidation, StateIdValidationError, StatePayload, StateRecord,
};

verus! {

/// An open to which something is done.
pub struct OpenStateReservation {
    pub owner: OwnerReservation,
    pub file: RuntimeFile,
    pub state_id: StateId,
    pub access: ShareAccess,
    pub deny: ShareDeny,
    pub contributions: ShareContributions,
    pub pin: [u8; 16],
}

/// What is to be done with a request about an open.
#[allow(inconsistent_fields)]
pub enum OpenStateDecision {
    Execute(OpenStateReservation),
    Replay { result: Arc<ResOp>, effect: ReplayEffect, client_id: u64 },
    Error { status: NfsStatus, client_id: Option<u64> },
}

/// The place is that of an owner that has had the request already.
pub open spec fn repeated_at(state: StateView, place: Seq<u8>, sequence_id: u32, digest: OwnerRequestDigest) -> bool {
    state.open_owners.contains_key(place) && state.open_owners[place].sequence.repeats(sequence_id, digest)
}

/// The open of a request.
pub open spec fn open_record(state: StateView, state_id: StateId) -> Result<StateRecord, NfsStatus> {
    match state.stateids.identified(state_id.other@) {
        Err(error) => Err(stateid_status(error)),
        Ok(record) => if record.payload is Open {
            Ok(record)
        } else {
            Err(NfsStatus::BadStateId)
        },
    }
}

/// A refusal, with the client where its state id is valid.
pub open spec fn refused_after_touch(
    view: RuntimeView,
    client_id: u64,
    principal: PrincipalView,
    now: u64,
    status: NfsStatus,
) -> OpenStateDecision {
    match view.clients.touch_refused(client_id, principal, NfsStatus::StaleClientId, now) {
        Some(error) => OpenStateDecision::Error { status: error.status, client_id: error.client_id },
        None => OpenStateDecision::Error { status, client_id: Some(client_id) },
    }
}

/// The open behind a valid state id.
pub open spec fn valid_open(state: StateView, state_id: StateId, file: RuntimeFile) -> Result<OpenState, NfsStatus> {
    match state.stateids.validated(state_id, file, true, false) {
        Err(error) => Err(stateid_status(error)),
        Ok(StateIdValidation::Active(record)) => if record.payload is Open {
            Ok(record.payload->Open_0)
        } else {
            Err(NfsStatus::BadStateId)
        },
        Ok(_) => Err(NfsStatus::BadStateId),
    }
}

/// What is to be done with a request that no owner has had.
pub open spec fn open_state_told(
    view: RuntimeView,
    state_id: StateId,
    file: RuntimeFile,
    sequence_id: u32,
    digest: OwnerRequestDigest,
    principal: PrincipalView,
    require_unconfirmed: bool,
    now: u64,
) -> OpenStateDecision {
    let state = view.state;
    match open_record(state, state_id) {
        Err(status) => OpenStateDecision::Error { status, client_id: None },
        Ok(record) => {
            let key = record.payload->Open_0.owner;
            if !state.open_owners.contains_key(place_of_owner(key)) {
                OpenStateDecision::Error { status: NfsStatus::BadStateId, client_id: None }
            } else {
                let decision = state.open_owners[place_of_owner(key)].sequence.decided(sequence_id, digest);
                let early = if decision is InProgress {
                    Some(NfsStatus::Delay)
                } else if decision is Execute {
                    None
                } else {
                    Some(NfsStatus::BadSequenceId)
                };
                match valid_open(state, state_id, file) {
                    Err(status) => OpenStateDecision::Error {
                        status: match early {
                            Some(first) => first,
                            None => status,
                        },
                        client_id: None,
                    },
                    Ok(open) => match early {
                        Some(status) => refused_after_touch(view, record.client, principal, now, status),
                        None => if open.confirmed == require_unconfirmed || view.clients.touch_refused(
                            record.client,
                            principal,
                            NfsStatus::StaleClientId,
                            now,
                        ) is Some {
                            refused_after_touch(view, record.client, principal, now, NfsStatus::BadStateId)
                        } else {
                            OpenStateDecision::Execute(
                                OpenStateReservation {
                                    owner: OwnerReservation {
                                        kind: ReservedOwnerKind::Open,
                                        owner: key,
                                        sequence_id,
                                        digest,
                                        reserved_state: false,
                                        created_owner: false,
                                    },
                                    file,
                                    state_id,
                                    access: open.access,
                                    deny: open.deny,
                                    contributions: open.contributions,
                                    pin: open.pin,
                                },
                            )
                        },
                    },
                }
            }
        },
    }
}

/// The client whose lease such a request renews.
pub open spec fn open_state_client(state: StateView, state_id: StateId, file: RuntimeFile) -> Option<u64> {
    match open_record(state, state_id) {
        Err(_) => None,
        Ok(record) => if state.open_owners.contains_key(place_of_owner(record.payload->Open_0.owner)) && valid_open(
            state,
            state_id,
            file,
        ) is Ok {
            Some(record.client)
        } else {
            None
        },
    }
}

/// The server once a client has its lease renewed.
pub open spec fn renewed(view: RuntimeView, client_id: u64, principal: PrincipalView, now: u64) -> RuntimeView {
    RuntimeView { clients: view.clients.touched(client_id, principal, NfsStatus::StaleClientId, now), ..view }
}

impl StateView {
    /// The registry once a request has its place in the sequence of the owner of an open.
    pub open spec fn open_turn_taken(self, owner: OwnerKey, sequence_id: u32, digest: OwnerRequestDigest) -> StateView {
        let place = place_of_owner(owner);
        if self.open_owners.contains_key(place) {
            StateView {
                open_owners: self.open_owners.insert(
                    place,
                    Owner {
                        sequence: self.open_owners[place].sequence.reserved(sequence_id, digest),
                        ..self.open_owners[place]
                    },
                ),
                ..self
            }
        } else {
            self
        }
    }
}

/// The server once it is known what is to be done with a request that no owner has had.
pub open spec fn open_state_begun(
    view: RuntimeView,
    state_id: StateId,
    file: RuntimeFile,
    sequence_id: u32,
    digest: OwnerRequestDigest,
    principal: PrincipalView,
    require_unconfirmed: bool,
    now: u64,
) -> RuntimeView {
    match open_state_client(view.state, state_id, file) {
        None => view,
        Some(client_id) => {
            let touched = renewed(view, client_id, principal, now);
            match open_state_told(view, state_id, file, sequence_id, digest, principal, require_unconfirmed, now) {
                OpenStateDecision::Execute(reservation) => RuntimeView {
                    state: view.state.open_turn_taken(reservation.owner.owner, sequence_id, digest),
                    ..touched
                },
                _ => touched,
            }
        },
    }
}

impl StateRegistry {
    /// Looks for an owner of opens that has had the request already.
    fn find_repeated(&self, sequence_id: u32, digest: OwnerRequestDigest) -> (found: Option<Owner>)
        ensures
            match found {
                Some(owner) => exists|place: Seq<u8>| #[trigger]
                    repeated_at(self@, place, sequence_id, digest) && self@.open_owners[place] == owner,
                None => forall|place: Seq<u8>| !#[trigger] repeated_at(self@, place, sequence_id, digest),
            },
    {
        let owners = &self.open_owners;
        owners.order_known();
        let ghost keys = owners.keys();
        let total = owners.len();
        let mut i: usize = 0;
        while i < total
            invariant
                i <= total,
                total == keys.len(),
                keys == owners.keys(),
                owners@ == self@.open_owners,
                keys.len() == owners.values().len(),
                forall|j: int| 0 <= j < keys.len() ==> owners@.contains_key(#[trigger] keys[j]),
                forall|j: int| 0 <= j < keys.len() ==> owners@[#[trigger] keys[j]] == owners.values()[j],
                forall|j: int| 0 <= j < i ==> !owners@[#[trigger] keys[j]].sequence.repeats(sequence_id, digest),
            decreases total - i,
        {
            let owner = owners.value_at(i);
            assert(owners@[keys[i as int]] == *owner);
            let decision = owner.sequence.decide(sequence_id, digest);
            if matches!(decision, SequenceDecision::Replay { result: _, context_effect: _ }) {
                assert(repeated_at(self@, keys[i as int], sequence_id, digest));
                return Some(owner.copy());
            }
            i += 1;
        }
        proof {
            assert forall|place: Seq<u8>| !#[trigger] repeated_at(self@, place, sequence_id, digest) by {
                if owners@.contains_key(place) {
                    assert(keys.contains(place));
                }
            }
        }
        None
    }

    /// The open behind a valid state id.
    pub fn find_valid_open(&self, state_id: StateId, file: RuntimeFile) -> (open: Result<OpenState, NfsStatus>)
        ensures
            open == valid_open(self@, state_id, file),
    {
        match self.stateids.validate(state_id, file, true, false) {
            Err(error) => Err(map_stateid_error(error)),
            Ok(StateIdValidation::Active(record)) => match record.payload {
                StatePayload::Open(open) => Ok(open),
                StatePayload::Lock(_) => Err(NfsStatus::BadStateId),
            },
            Ok(_) => Err(NfsStatus::BadStateId),
        }
    }
}

impl Nfs4Runtime {
    /// Begins a request about an open.
    pub fn begin_open_state_operation(
        &mut self,
        state_id: StateId,
        file: RuntimeFile,
        sequence_id: u32,
        digest: OwnerRequestDigest,
        principal: &Principal,
        require_unconfirmed: bool,
        now: u64,
    ) -> (told: OpenStateDecision)
        ensures
            if exists|place: Seq<u8>| repeated_at(old(self)@.state, place, sequence_id, digest) {
                exists|place: Seq<u8>| #[trigger]
                    repeated_at(old(self)@.state, place, sequence_id, digest) && ({
                        let owner = old(self)@.state.open_owners[place];
                        let client_id = owner.key.client_id;
                        &&& final(self)@ == renewed(old(self)@, client_id, principal@, now)
                        &&& told == match old(self)@.clients.touch_refused(
                            client_id,
                            principal@,
                            NfsStatus::StaleClientId,
                            now,
                        ) {
                            Some(error) => OpenStateDecision::Error { status: error.status, client_id: error.client_id },
                            None => OpenStateDecision::Replay {
                                result: owner.sequence.last->0.reply,
                                effect: owner.sequence.last->0.effect,
                                client_id,
                            },
                        }
                    })
            } else {
                &&& told == open_state_told(
                    old(self)@,
                    state_id,
                    file,
                    sequence_id,
                    digest,
                    principal@,
                    require_unconfirmed,
                    now,
                )
                &&& final(self)@ == open_state_begun(
                    old(self)@,
                    state_id,
                    file,
                    sequence_id,
                    digest,
                    principal@,
                    require_unconfirmed,
                    now,
                )
                &&& told matches OpenStateDecision::Execute(reservation) ==> final(self)@.state.awaits(
                    reservation.owner,
                )
            },
    {
        let ghost before = self@;
        if let Some(owner) = self.state.find_repeated(sequence_id, digest) {
            let ghost place = choose|place: Seq<u8>| #[trigger]
                repeated_at(before.state, place, sequence_id, digest) && before.state.open_owners[place] == owner;
            assert(repeated_at(before.state, place, sequence_id, digest));
            let client_id = owner.key.client_id;
            if let Err(error) = self.clients.touch(client_id, principal, NfsStatus::StaleClientId, now) {
                return OpenStateDecision::Error { status: error.status, client_id: error.client_id };
            }
            let last = match owner.sequence.last {
                Some(last) => last,
                None => {
                    return OpenStateDecision::Error { status: NfsStatus::ServerFault, client_id: None };
                },
            };
            return OpenStateDecision::Replay { result: last.reply, effect: last.effect, client_id };
        }
        let record = match self.state.stateids.identify(state_id) {
            Ok(record) => record,
            Err(error) => {
                return OpenStateDecision::Error { status: map_stateid_error(error), client_id: None };
            },
        };
        let client_id = record.client;
        let key = match record.payload {
            StatePayload::Open(open) => open.owner,
            StatePayload::Lock(_) => {
                return OpenStateDecision::Error { status: NfsStatus::BadStateId, client_id: None };
            },
        };
        let place = key.place();
        let mut owner = match self.state.open_owners.get(place.as_slice()) {
            Some(owner) => owner.copy(),
            None => {
                return OpenStateDecision::Error { status: NfsStatus::BadStateId, client_id: None };
            },
        };
        assert(!repeated_at(before.state, place@, sequence_id, digest));
        let early = match owner.sequence.reserve(sequence_id, digest) {
            SequenceDecision::InProgress => Some(NfsStatus::Delay),
            SequenceDecision::Execute => None,
            _ => Some(NfsStatus::BadSequenceId),
        };
        let open = match self.state.find_valid_open(state_id, file) {
            Ok(open) => open,
            Err(status) => {
                let first = match early {
                    Some(first) => first,
                    None => status,
                };
                return OpenStateDecision::Error { status: first, client_id: None };
            },
        };
        if let Err(error) = self.clients.touch(client_id, principal, NfsStatus::StaleClientId, now) {
            return OpenStateDecision::Error { status: error.status, client_id: error.client_id };
        }
        if let Some(status) = early {
            return OpenStateDecision::Error { status, client_id: Some(client_id) };
        }
        if open.confirmed == require_unconfirmed {
            return OpenStateDecision::Error { status: NfsStatus::BadStateId, client_id: Some(client_id) };
        }
        let _ = self.state.open_owners.insert(place, owner);
        assert(self@.state =~= before.state.open_turn_taken(key, sequence_id, digest));
        OpenStateDecision::Execute(
            OpenStateReservation {
                owner: OwnerReservation {
                    kind: ReservedOwnerKind::Open,
                    owner: key,
                    sequence_id,
                    digest,
                    reserved_state: false,
                    created_owner: false,
                },
                file,
                state_id,
                access: open.access,
                deny: open.deny,
                contributions: open.contributions,
                pin: open.pin,
            },
        )
    }
}

/// A refusal that the owner keeps, or an answer that it does not.
pub enum OwnerErrorStep {
    Done(Arc<ResOp>),
    Record(OwnerErrorPlan),
}

/// The refusal is kept where its status is one that an owner keeps.
pub open spec fn owner_error_begun(
    step: OwnerErrorStep,
    reservation: OwnerReservation,
    status: NfsStatus,
    result: ResOp,
    effect: ReplayEffect,
) -> bool {
    match step {
        OwnerErrorStep::Done(told) => !consumes_sequence(status) && *told == result,
        OwnerErrorStep::Record(plan) => {
            &&& consumes_sequence(status)
            &&& plan.reservation == reservation
            &&& *plan.response == result
            &&& plan.effect == effect
        },
    }
}

/// The registry once an owner is refused.
pub open spec fn owner_error_state(state: StateView, reservation: OwnerReservation, status: NfsStatus) -> StateView {
    if consumes_sequence(status) {
        state
    } else {
        state.dropped(reservation)
    }
}

impl Nfs4Runtime {
    /// Begins a refusal.
    pub fn complete_owner_error(
        &mut self,
        reservation: OwnerReservation,
        status: NfsStatus,
        result: Arc<ResOp>,
        effect: ReplayEffect,
    ) -> (step: OwnerErrorStep)
        ensures
            owner_error_begun(step, reservation, status, *result, effect),
            final(self)@ == (RuntimeView {
                state: owner_error_state(old(self)@.state, reservation, status),
                ..old(self)@
            }),
    {
        if sequence_status_consumed(status) {
            OwnerErrorStep::Record(OwnerErrorPlan { reservation, response: result, effect })
        } else {
            self.state.drop_reservation(reservation);
            OwnerErrorStep::Done(result)
        }
    }
}

/// The contributions with these counts.
pub open spec fn counted(counts: Seq<u32>) -> ShareContributions {
    choose|contributions: ShareContributions| contributions.counts@ == counts
}

/// Contributions are known by their counts.
pub proof fn lemma_counted(contributions: ShareContributions)
    ensures
        counted(contributions.counts@) == contributions,
{
    let found = counted(contributions.counts@);
    assert(found.counts@ == contributions.counts@);
    assert(found.counts =~= contributions.counts);
}

/// A change of an open that can be made and is not made yet.
pub struct OpenChangePlan {
    pub reservation: OpenStateReservation,
    pub next: StateId,
    pub response: Arc<ResOp>,
    pub access: ShareAccess,
    pub deny: ShareDeny,
    pub contributions: ShareContributions,
    /// The open is narrowed; otherwise it is confirmed.
    pub narrows: bool,
}

/// The record of an open after a change.
pub open spec fn changed_record(plan: OpenChangePlan) -> RecordView {
    RecordView::Open(
        OpenView {
            state_token: token_of(plan.next),
            client_id: plan.reservation.owner.owner.client_id,
            owner: plan.reservation.owner.owner.owner@,
            object: stable_of(plan.reservation.file),
            share_access: share_bits(plan.access.read, plan.access.write),
            share_deny: share_bits(plan.deny.read, plan.deny.write),
            contributions: contribution_records(plan.contributions.counts@, 12),
        },
    )
}

/// What a change of an open changes in the journal.
pub open spec fn open_change_changes(plan: OpenChangePlan, reply: Seq<u8>) -> Seq<ChangeView> {
    seq![
        ChangeView::Delete { key: KeyView::Open { state_token: token_of(plan.reservation.state_id) } },
        ChangeView::Put { key: KeyView::Open { state_token: token_of(plan.next) }, record: changed_record(plan) },
        ChangeView::Put {
            key: replay_key_of(plan.reservation.owner),
            record: replay_record_of(plan.reservation.owner, no_effect(), reply),
        },
    ]
}

impl OpenChangePlan {
    /// What the change of the open changes in the journal, with the encoded reply.
    pub fn batch(&self, reply: &Vec<u8>) -> (batch: PersistBatch)
        ensures
            batch@ == open_change_changes(*self, reply@),
    {
        let record = JournalRecord::Open(
            OpenRecord {
                state_token: state_token(self.next),
                client_id: self.reservation.owner.owner.client_id,
                owner: copy_bytes(self.reservation.owner.owner.owner.as_slice()),
                object: self.reservation.file.stable(),
                share_access: self.access.bits(),
                share_deny: self.deny.bits(),
                contributions: stable_open_contributions(&self.contributions),
            },
        );
        assert(record@ =~= changed_record(*self));
        let batch = PersistBatch::default().delete(
            JournalKey::Open { state_token: state_token(self.reservation.state_id) },
        ).put(JournalKey::Open { state_token: state_token(self.next) }, record).put(
            self.reservation.owner.replay_key(),
            self.reservation.owner.replay_record(ReplayEffect::default(), reply),
        );
        assert(batch@ =~= open_change_changes(*self, reply@));
        batch
    }
}

impl Nfs4Runtime {
    /// Plans to confirm an open.
    pub fn confirm_open(&mut self, reservation: OpenStateReservation) -> (plan: Result<OpenChangePlan, NfsStatus>)
        ensures
            match old(self)@.state.stateids.previewed(reservation.state_id) {
                Err(error) => {
                    &&& plan == Err::<OpenChangePlan, NfsStatus>(stateid_status(error))
                    &&& final(self)@ == (RuntimeView {
                        state: old(self)@.state.dropped(reservation.owner),
                        ..old(self)@
                    })
                },
                Ok(next) => {
                    &&& plan is Ok
                    &&& plan->Ok_0.reservation == reservation
                    &&& plan->Ok_0.next == next
                    &&& *plan->Ok_0.response == ResOp::OpenConfirm(Ok(next))
                    &&& plan->Ok_0.access == reservation.access
                    &&& plan->Ok_0.deny == reservation.deny
                    &&& plan->Ok_0.contributions == reservation.contributions
                    &&& !plan->Ok_0.narrows
                    &&& final(self)@ == old(self)@
                },
            },
    {
        match self.state.stateids.preview_transition(reservation.state_id) {
            Err(error) => {
                self.state.drop_reservation(reservation.owner);
                Err(map_stateid_error(error))
            },
            Ok(next) => {
                let access = reservation.access;
                let deny = reservation.deny;
                let contributions = reservation.contributions;
                Ok(
                    OpenChangePlan {
                        reservation,
                        next,
                        response: Arc::new(ResOp::OpenConfirm(Ok(next))),
                        access,
                        deny,
                        contributions,
                        narrows: false,
                    },
                )
            },
        }
    }
}

/// What is to be done for a request to narrow an open.
pub enum DowngradeStep {
    Failed(NfsStatus),
    Refused(OwnerErrorStep),
    Change(OpenChangePlan),
}

/// Why an open is not narrowed; the first part is told without its owner keeping it.
pub open spec fn downgrade_refused(
    view: RuntimeView,
    reservation: OpenStateReservation,
    access: Option<ShareAccess>,
    deny: Option<ShareDeny>,
) -> Option<(bool, NfsStatus)> {
    let place = file_place(reservation.file);
    let open = reservation.state_id.other@;
    if access is None || deny is None {
        Some((true, NfsStatus::Invalid))
    } else if !view.files.contains_key(place) {
        Some((false, NfsStatus::ServerFault))
    } else {
        let file = view.files[place];
        match share_at(file.shares, reservation.owner.owner@, file.shares.len()) {
            None => Some((true, NfsStatus::Invalid)),
            Some(i) => if aggregate_of(
                narrowed_counts(file.shares[i].contributions.counts@, access->0, deny->0),
            ) != Some((access->0, deny->0)) {
                Some((true, NfsStatus::Invalid))
            } else if !access->0.read && open_needs(file.locks, open, LockAccess::Read) || !access->0.write && open_needs(
                file.locks,
                open,
                LockAccess::Write,
            ) {
                Some((true, NfsStatus::LocksHeld))
            } else {
                match view.state.stateids.previewed(reservation.state_id) {
                    Err(error) => Some((false, stateid_status(error))),
                    Ok(_) => None,
                }
            },
        }
    }
}

/// The contributions that an owner has left once its open is narrowed.
pub open spec fn narrowed(file: FileView, owner: OwnerKey, access: ShareAccess, deny: ShareDeny) -> ShareContributions {
    counted(
        narrowed_counts(
            file.shares[share_at(file.shares, owner@, file.shares.len())->0].contributions.counts@,
            access,
            deny,
        ),
    )
}

impl Nfs4Runtime {
    /// Plans to narrow an open.
    pub fn downgrade_open(&mut self, reservation: OpenStateReservation, share_access: u32, share_deny: u32) -> (step:
        DowngradeStep)
        ensures
            ({
                let access = wire_access(share_access);
                let deny = wire_deny(share_deny);
                match downgrade_refused(old(self)@, reservation, access, deny) {
                    Some((true, status)) => {
                        &&& step is Refused
                        &&& owner_error_begun(
                            step->Refused_0,
                            reservation.owner,
                            status,
                            ResOp::OpenDowngrade(Err(status)),
                            no_effect(),
                        )
                        &&& final(self)@ == (RuntimeView {
                            state: owner_error_state(old(self)@.state, reservation.owner, status),
                            ..old(self)@
                        })
                    },
                    Some((false, status)) => step == DowngradeStep::Failed(status) && final(self)@ == (RuntimeView {
                        state: old(self)@.state.dropped(reservation.owner),
                        ..old(self)@
                    }),
                    None => {
                        &&& step is Change
                        &&& step->Change_0.reservation == reservation
                        &&& old(self)@.state.stateids.previewed(reservation.state_id) == Ok::<
                            StateId,
                            StateIdValidationError,
                        >(step->Change_0.next)
                        &&& *step->Change_0.response == ResOp::OpenDowngrade(Ok(step->Change_0.next))
                        &&& Some(step->Change_0.access) == access
                        &&& Some(step->Change_0.deny) == deny
                        &&& step->Change_0.contributions == narrowed(
                            old(self)@.files[file_place(reservation.file)],
                            reservation.owner.owner,
                            access->0,
                            deny->0,
                        )
                        &&& step->Change_0.narrows
                        &&& final(self)@ == old(self)@
                    },
                }
            }),
    {
        let invalid = Arc::new(ResOp::OpenDowngrade(Err(NfsStatus::Invalid)));
        let access = match ShareAccess::from_wire(share_access) {
            Some(access) => access,
            None => {
                return DowngradeStep::Refused(
                    self.complete_owner_error(
                        reservation.owner,
                        NfsStatus::Invalid,
                        invalid,
                        ReplayEffect::default(),
                    ),
                );
            },
        };
        let deny = match ShareDeny::from_wire(share_deny) {
            Some(deny) => deny,
            None => {
                return DowngradeStep::Refused(
                    self.complete_owner_error(
                        reservation.owner,
                        NfsStatus::Invalid,
                        invalid,
                        ReplayEffect::default(),
                    ),
                );
            },
        };
        let open = reservation.state_id.other;
        let (narrowed_to, held) = match self.files.get(reservation.file) {
            None => {
                self.state.drop_reservation(reservation.owner);
                return DowngradeStep::Failed(NfsStatus::ServerFault);
            },
            Some(file) => (
                downgrade_share(&file.shares, &reservation.owner.owner, access, deny),
                (!access.read && open_requires(&file.locks, &open, LockAccess::Read)) || (!access.write
                    && open_requires(&file.locks, &open, LockAccess::Write)),
            ),
        };
        let contributions = match narrowed_to {
            Some(contributions) => contributions,
            None => {
                return DowngradeStep::Refused(
                    self.complete_owner_error(
                        reservation.owner,
                        NfsStatus::Invalid,
                        invalid,
                        ReplayEffect::default(),
                    ),
                );
            },
        };
        proof {
            lemma_counted(contributions);
        }
        if held {
            let response = Arc::new(ResOp::OpenDowngrade(Err(NfsStatus::LocksHeld)));
            return DowngradeStep::Refused(
                self.complete_owner_error(reservation.owner, NfsStatus::LocksHeld, response, ReplayEffect::default()),
            );
        }
        match self.state.stateids.preview_transition(reservation.state_id) {
            Err(error) => {
                self.state.drop_reservation(reservation.owner);
                DowngradeStep::Failed(map_stateid_error(error))
            },
            Ok(next) => DowngradeStep::Change(
                OpenChangePlan {
                    reservation,
                    next,
                    response: Arc::new(ResOp::OpenDowngrade(Ok(next))),
                    access,
                    deny,
                    contributions,
                    narrows: true,
                },
            ),
        }
    }
}

/// The shares of the file once an open is narrowed, where its owner has one that can be.
pub open spec fn shares_narrowed(view: RuntimeView, plan: OpenChangePlan) -> Option<Seq<ShareReservation>> {
    let place = file_place(plan.reservation.file);
    let owner = plan.reservation.owner.owner;
    if !view.files.contains_key(place) {
        None
    } else {
        let file = view.files[place];
        match share_at(file.shares, owner@, file.shares.len()) {
            None => None,
            Some(i) => {
                let counts = narrowed_counts(file.shares[i].contributions.counts@, plan.access, plan.deny);
                if aggregate_of(counts) == Some((plan.access, plan.deny)) {
                    Some(
                        share_put(
                            file.shares,
                            ShareReservation {
                                owner,
                                access: plan.access,
                                deny: plan.deny,
                                contributions: counted(counts),
                            },
                        ),
                    )
                } else {
                    None
                }
            },
        }
    }
}

/// The shares are narrowed as planned.
pub open spec fn narrows_as_planned(view: RuntimeView, plan: OpenChangePlan) -> bool {
    shares_narrowed(view, plan) is Some && narrowed(
        view.files[file_place(plan.reservation.file)],
        plan.reservation.owner.owner,
        plan.access,
        plan.deny,
    ) == plan.contributions
}

/// The open after a change.
pub open spec fn changed_open(open: OpenState, plan: OpenChangePlan) -> OpenState {
    if plan.narrows {
        OpenState { access: plan.access, deny: plan.deny, contributions: plan.contributions, ..open }
    } else {
        OpenState { confirmed: true, ..open }
    }
}

/// The record behind the next state id, where it is one of an open.
pub open spec fn change_target(state: StateView, plan: OpenChangePlan) -> Result<StateRecord, NfsStatus> {
    match state.stateids.previewed(plan.reservation.state_id) {
        Err(error) => Err(stateid_status(error)),
        Ok(next) => if next != plan.next {
            Err(NfsStatus::ServerFault)
        } else {
            match state.stateids.transitioned(plan.reservation.state_id).identified(plan.next.other@) {
                Err(error) => Err(stateid_status(error)),
                Ok(record) => if record.payload is Open {
                    Ok(record)
                } else {
                    Err(NfsStatus::ServerFault)
                },
            }
        },
    }
}

/// The answer to a change of an open.
pub open spec fn change_finish_result(view: RuntimeView, plan: OpenChangePlan, persisted: bool) -> Result<
    ResOp,
    NfsStatus,
> {
    let place = place_of_owner(plan.reservation.owner.owner);
    if !persisted {
        Err(NfsStatus::Resource)
    } else if plan.narrows && !narrows_as_planned(view, plan) {
        Err(NfsStatus::ServerFault)
    } else {
        match change_target(view.state, plan) {
            Err(status) => Err(status),
            Ok(_) => if view.state.awaits(plan.reservation.owner) {
                Ok(*plan.response)
            } else {
                Err(NfsStatus::ServerFault)
            },
        }
    }
}

/// The registry once the state object of an open is changed.
pub open spec fn change_applied(state: StateView, plan: OpenChangePlan) -> StateView {
    let moved = StateView { stateids: state.stateids.transitioned(plan.reservation.state_id), ..state };
    match change_target(state, plan) {
        Err(_) => if state.stateids.previewed(plan.reservation.state_id) is Err {
            state
        } else {
            moved
        },
        Ok(record) => {
            let changed = StateView {
                stateids: moved.stateids.replaced(
                    plan.next.other@,
                    StateRecord { payload: StatePayload::Open(changed_open(record.payload->Open_0, plan)), ..record },
                ),
                ..moved
            };
            let linked = changed.open_linked(plan.reservation.owner.owner, plan.reservation.file, plan.next);
            let place = place_of_owner(plan.reservation.owner.owner);
            if plan.narrows {
                linked
            } else if state.open_owners.contains_key(place) {
                StateView {
                    open_owners: state.open_owners.insert(
                        place,
                        Owner { confirmed: true, ..state.open_owners[place] },
                    ),
                    ..if state.awaits(plan.reservation.owner) {
                        linked
                    } else {
                        changed
                    }
                }
            } else {
                changed
            }
        },
    }
}

impl StateView {
    /// The registry with the state id by which an owner's open of a file is found.
    pub open spec fn open_linked(self, owner: OwnerKey, file: RuntimeFile, state_id: StateId) -> StateView {
        StateView {
            open_by_owner_file: self.open_by_owner_file.insert(
                owner_file_place(owner@, file),
                OpenLink { owner, file, state_id },
            ),
            ..self
        }
    }
}

/// The server once an open is changed.
pub open spec fn change_finished(view: RuntimeView, plan: OpenChangePlan, persisted: bool) -> RuntimeView {
    let owner = plan.reservation.owner;
    let place = file_place(plan.reservation.file);
    if !persisted {
        RuntimeView { state: view.state.dropped(owner), ..view }
    } else {
        RuntimeView {
            state: if plan.narrows && !narrows_as_planned(view, plan) {
                view.state.dropped(owner)
            } else {
                match change_target(view.state, plan) {
                    Err(_) => change_applied(view.state, plan).dropped(owner),
                    Ok(_) => change_applied(view.state, plan).settled(owner, plan.response, no_effect()),
                }
            },
            files: if plan.narrows {
                match shares_narrowed(view, plan) {
                    Some(shares) => view.files.insert(place, FileView { shares, ..view.files[place] }),
                    None => view.files,
                }
            } else {
                view.files
            },
            ..view
        }
    }
}

impl Nfs4Runtime {
    /// Narrows the share of an open; says whether it is as planned.
    fn narrow_share(&mut self, plan: &OpenChangePlan) -> (done: bool)
        ensures
            done == narrows_as_planned(old(self)@, *plan),
            final(self)@ == (RuntimeView {
                files: match shares_narrowed(old(self)@, *plan) {
                    Some(shares) => old(self)@.files.insert(
                        file_place(plan.reservation.file),
                        FileView { shares, ..old(self)@.files[file_place(plan.reservation.file)] },
                    ),
                    None => old(self)@.files,
                },
                ..old(self)@
            }),
    {
        let ghost before = self@;
        let owner = &plan.reservation.owner.owner;
        let narrowed_to = match self.files.get(plan.reservation.file) {
            None => None,
            Some(file) => downgrade_share(&file.shares, owner, plan.access, plan.deny),
        };
        let contributions = match narrowed_to {
            None => {
                return false;
            },
            Some(contributions) => contributions,
        };
        proof {
            lemma_counted(contributions);
        }
        let mut file = self.files.take(plan.reservation.file);
        put_share(
            &mut file.shares,
            ShareReservation { owner: owner.copy(), access: plan.access, deny: plan.deny, contributions },
        );
        self.files.put(plan.reservation.file, file);
        assert(self@.files =~= before.files.insert(
            file_place(plan.reservation.file),
            FileView {
                shares: shares_narrowed(before, *plan)->0,
                ..before.files[file_place(plan.reservation.file)]
            },
        ));
        contributions.same(&plan.contributions)
    }

    /// Finishes to change an open once the change was written to the journal, or could not be.
    #[verifier::rlimit(30)]
    pub fn finish_open_change(&mut self, plan: OpenChangePlan, persisted: bool) -> (result: Result<Arc<ResOp>, NfsStatus>)
        requires
            plan.reservation.owner.kind == ReservedOwnerKind::Open,
        ensures
            match change_finish_result(old(self)@, plan, persisted) {
                Ok(told) => result is Ok && *result->Ok_0 == told,
                Err(status) => result == Err::<Arc<ResOp>, NfsStatus>(status),
            },
            final(self)@ == change_finished(old(self)@, plan, persisted),
    {
        let ghost before = self@;
        if !persisted {
            self.state.drop_reservation(plan.reservation.owner);
            return Err(NfsStatus::Resource);
        }
        if plan.narrows {
            if !self.narrow_share(&plan) {
                self.state.drop_reservation(plan.reservation.owner);
                return Err(NfsStatus::ServerFault);
            }
        }
        match self.state.stateids.transition(plan.reservation.state_id) {
            Err(error) => {
                self.state.drop_reservation(plan.reservation.owner);
                return Err(map_stateid_error(error));
            },
            Ok(next) => {
                if !next.same(&plan.next) {
                    self.state.drop_reservation(plan.reservation.owner);
                    return Err(NfsStatus::ServerFault);
                }
            },
        }
        let record = match self.state.stateids.identify(plan.next) {
            Ok(record) => record,
            Err(error) => {
                self.state.drop_reservation(plan.reservation.owner);
                return Err(map_stateid_error(error));
            },
        };
        let open = match record.payload {
            StatePayload::Open(open) => open,
            StatePayload::Lock(_) => {
                self.state.drop_reservation(plan.reservation.owner);
                return Err(NfsStatus::ServerFault);
            },
        };
        let changed = if plan.narrows {
            OpenState {
                owner: open.owner,
                access: plan.access,
                deny: plan.deny,
                contributions: plan.contributions,
                confirmed: open.confirmed,
                pin: open.pin,
            }
        } else {
            OpenState {
                owner: open.owner,
                access: open.access,
                deny: open.deny,
                contributions: open.contributions,
                confirmed: true,
                pin: open.pin,
            }
        };
        let record = StateRecord {
            sequence_id: record.sequence_id,
            client: record.client,
            file: record.file,
            payload: StatePayload::Open(changed),
        };
        self.state.stateids.replace(plan.next, record);
        let key = plan.reservation.owner.owner.copy();
        let place = key.place();
        let link = owner_file_key(&key, plan.reservation.file);
        let entry = OpenLink { owner: key, file: plan.reservation.file, state_id: plan.next };
        if plan.narrows {
            let _ = self.state.open_by_owner_file.insert(link, entry);
        } else {
            let found = match self.state.open_owners.get(place.as_slice()) {
                Some(owner) => Some(owner.copy()),
                None => None,
            };
            if let Some(owner) = found {
                let mut owner = owner;
                owner.confirmed = true;
                let mut sequence = owner.sequence.copy();
                let awaited = sequence.commit(
                    plan.reservation.owner.sequence_id,
                    plan.reservation.owner.digest,
                    share(&plan.response),
                    ReplayEffect::default(),
                );
                let _ = self.state.open_owners.insert(place, owner);
                if awaited {
                    let _ = self.state.open_by_owner_file.insert(link, entry);
                }
            }
        }
        assert(self@.state =~= change_applied(before.state, plan));
        if self.state.settle_reservation(plan.reservation.owner, share(&plan.response), ReplayEffect::default()) {
            Ok(plan.response)
        } else {
            Err(NfsStatus::ServerFault)
        }
    }

    /// Gives a change of an open up whose reply could not be encoded.
    pub fn abandon_open_change(&mut self, plan: OpenChangePlan) -> (status: NfsStatus)
        ensures
            status == NfsStatus::ServerFault,
            final(self)@ == change_finished(old(self)@, plan, false),
    {
        self.state.drop_reservation(plan.reservation.owner);
        NfsStatus::ServerFault
    }
}

} // verus!
