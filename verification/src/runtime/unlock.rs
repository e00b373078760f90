//! Locks that are given back, asked about, or whose owner goes.

use std::sync::Arc;

use vstd::prelude::*;

use crate::bytes::copy_bytes;
use crate::files::{file_at, FileView};
use crate::identity::{Principal, PrincipalView};
use crate::journal::{ChangeView, PersistBatch};
use crate::locks::{
    conflict_excluding, conflict_of_others, denial, denied, holds_in, locks_without, owned, stable_lock_ranges,
    stable_ranges, unlock, wire_range, HeldLock, LockRange,
};
use crate::owner::SequenceDecision;
use crate::protocol::{
    access_of, consumes_sequence, file_place, lock_access, lock_key, lock_place, no_effect, sequence_status_consumed,
    share, stable_of, state_token, token_of, LockDenied, LockStateOwner, NfsStatus, OwnerKey, OwnerRequestDigest,
    ReplayEffect, ResOp, RuntimeFile, StateId,
};
use crate::record::{JournalKey, JournalRecord, KeyView, LockRecord, LockRangeRecord, LockView, RecordView};
use crate::registry::{replay_key_of, replay_record_of, LockLink, OwnerReservation, ReservedOwnerKind, StateView};
use crate::runtime::lock::{held_owner, lock_turn, next_lock_record, LockTestArgs, LockUnlockArgs};
use crate::runtime::{Nfs4Runtime, OwnerErrorPlan, RuntimeView};
use crate::stateid::{map_stateid_error, stateid_status, StateIdValidationError, StatePayload};

verus! {

/// Locks that can be given back and are not yet.
pub struct UnlockPlan {
    pub reservation: OwnerReservation,
    pub requested: StateId,
    pub state_id: StateId,
    pub owner: LockStateOwner,
    pub open_state_id: StateId,
    pub file: RuntimeFile,
    /// The locks of the file once they are given back.
    pub locks: Vec<HeldLock>,
    pub response: Arc<ResOp>,
}

/// What is to be done for a request to give locks back.
pub enum UnlockStep {
    Done(Arc<ResOp>),
    Record(OwnerErrorPlan),
    Release(UnlockPlan),
}

/// What becomes of a request to give locks back.
pub enum UnlockVerdict {
    /// The request is answered; its place in the sequence, where it has one, is given back.
    Answered(ResOp, bool),
    /// The request is refused, and its owner keeps the answer.
    Recorded(NfsStatus),
    /// The locks can be given back.
    Planned,
}

/// A refusal of a request that has its place in the sequence.
pub open spec fn unlock_refused(status: NfsStatus) -> UnlockVerdict {
    if consumes_sequence(status) {
        UnlockVerdict::Recorded(status)
    } else {
        UnlockVerdict::Answered(ResOp::LockUnlock(Err(status)), true)
    }
}

/// The answer to a request that is not executed.
pub open spec fn unlock_answered(status: NfsStatus) -> UnlockVerdict {
    UnlockVerdict::Answered(ResOp::LockUnlock(Err(status)), false)
}

/// What becomes of a request that has its place in the sequence.
pub open spec fn unlock_verdict(
    view: RuntimeView,
    state_id: StateId,
    owner: LockStateOwner,
    file: RuntimeFile,
    range: LockRange,
) -> UnlockVerdict {
    let locks = file_at(view.files, file).locks;
    match view.state.stateids.validated(state_id, file, false, true) {
        Err(error) => unlock_refused(stateid_status(error)),
        Ok(_) => if !holds_in(owned(locks, owner@, locks.len()), range) {
            unlock_refused(NfsStatus::LockRange)
        } else {
            let after = locks_without(locks, owner, range);
            if owned(after, owner@, after.len()).len() > view.limits.max_lock_ranges_per_state {
                unlock_refused(NfsStatus::Resource)
            } else {
                match view.state.stateids.previewed(state_id) {
                    Err(error) => unlock_refused(stateid_status(error)),
                    Ok(_) => UnlockVerdict::Planned,
                }
            }
        },
    }
}

/// The server once the client of a request has its lease renewed.
pub open spec fn unlock_asked(view: RuntimeView, client_id: u64, principal: PrincipalView, now: u64) -> RuntimeView {
    RuntimeView { clients: view.clients.touched(client_id, principal, NfsStatus::StaleClientId, now), ..view }
}

/// The server once a request has its place in the sequence.
pub open spec fn unlock_running(view: RuntimeView, owner: OwnerKey, sequence_id: u32, digest: OwnerRequestDigest) -> RuntimeView {
    RuntimeView { state: view.state.lock_turn_taken(owner, sequence_id, digest), ..view }
}

/// What becomes of a request to give locks back.
pub open spec fn unlock_outcome(
    view: RuntimeView,
    arguments: LockUnlockArgs,
    file: RuntimeFile,
    digest: OwnerRequestDigest,
    principal: PrincipalView,
    now: u64,
) -> UnlockVerdict {
    match wire_range(arguments.offset, arguments.length) {
        None => unlock_answered(NfsStatus::Invalid),
        Some(range) => match next_lock_record(view.state, arguments.lock_state_id) {
            Err(status) => unlock_answered(status),
            Ok(record) => {
                let lock = record.payload->Lock_0;
                match view.clients.touch_refused(record.client, principal, NfsStatus::StaleClientId, now) {
                    Some(error) => unlock_answered(error.status),
                    None => match view.state.lock_turn_told(lock.owner, arguments.sequence_id, digest) {
                        None => unlock_answered(NfsStatus::BadStateId),
                        Some(SequenceDecision::Replay { result, .. }) => UnlockVerdict::Answered(*result, false),
                        Some(SequenceDecision::InProgress) => unlock_answered(NfsStatus::Delay),
                        Some(SequenceDecision::BadSequence) => unlock_answered(NfsStatus::BadSequenceId),
                        Some(SequenceDecision::Execute) => unlock_verdict(
                            unlock_running(
                                unlock_asked(view, record.client, principal, now),
                                lock.owner,
                                arguments.sequence_id,
                                digest,
                            ),
                            arguments.lock_state_id,
                            held_owner(lock),
                            file,
                            range,
                        ),
                    },
                }
            },
        },
    }
}

/// The server once a client has asked to give locks back.
pub open spec fn unlock_after(
    view: RuntimeView,
    arguments: LockUnlockArgs,
    file: RuntimeFile,
    digest: OwnerRequestDigest,
    principal: PrincipalView,
    now: u64,
) -> RuntimeView {
    if wire_range(arguments.offset, arguments.length) is None {
        view
    } else {
        match next_lock_record(view.state, arguments.lock_state_id) {
            Err(_) => view,
            Ok(record) => {
                let lock = record.payload->Lock_0;
                let asked = unlock_asked(view, record.client, principal, now);
                if view.clients.touch_refused(record.client, principal, NfsStatus::StaleClientId, now) is Some {
                    asked
                } else {
                    let running = unlock_running(asked, lock.owner, arguments.sequence_id, digest);
                    match unlock_outcome(view, arguments, file, digest, principal, now) {
                        UnlockVerdict::Answered(_, true) => RuntimeView {
                            state: running.state.dropped(
                                lock_turn(lock.owner, arguments.sequence_id, digest, false, false),
                            ),
                            ..running
                        },
                        _ => running,
                    }
                }
            },
        }
    }
}

/// The plan is the one for the request.
pub open spec fn unlock_planned(
    view: RuntimeView,
    plan: UnlockPlan,
    arguments: LockUnlockArgs,
    file: RuntimeFile,
    digest: OwnerRequestDigest,
) -> bool {
    let lock = next_lock_record(view.state, arguments.lock_state_id)->Ok_0.payload->Lock_0;
    let range = wire_range(arguments.offset, arguments.length)->0;
    &&& plan.reservation == lock_turn(lock.owner, arguments.sequence_id, digest, false, false)
    &&& plan.requested == arguments.lock_state_id
    &&& view.state.stateids.previewed(arguments.lock_state_id) == Ok::<StateId, StateIdValidationError>(plan.state_id)
    &&& plan.owner == held_owner(lock)
    &&& plan.open_state_id == lock.open_state_id
    &&& plan.file == file
    &&& plan.locks@ == locks_without(file_at(view.files, file).locks, plan.owner, range)
    &&& *plan.response == ResOp::LockUnlock(Ok(plan.state_id))
}

impl Nfs4Runtime {
    /// The refusal of a request that has its place in the sequence.
    fn refuse_unlock(&mut self, reservation: OwnerReservation, status: NfsStatus) -> (step: UnlockStep)
        ensures
            match unlock_refused(status) {
                UnlockVerdict::Answered(result, _) => step is Done && *step->Done_0 == result && final(self)@ == (
                RuntimeView { state: old(self)@.state.dropped(reservation), ..old(self)@ }),
                _ => {
                    &&& step is Record
                    &&& step->Record_0.reservation == reservation
                    &&& *step->Record_0.response == ResOp::LockUnlock(Err(status))
                    &&& step->Record_0.effect == no_effect()
                    &&& final(self)@ == old(self)@
                },
            },
    {
        let response = Arc::new(ResOp::LockUnlock(Err(status)));
        if sequence_status_consumed(status) {
            UnlockStep::Record(OwnerErrorPlan { reservation, response, effect: ReplayEffect::default() })
        } else {
            self.state.drop_reservation(reservation);
            UnlockStep::Done(response)
        }
    }

    /// Asks to give locks back.
    pub fn unlock(
        &mut self,
        arguments: LockUnlockArgs,
        file: RuntimeFile,
        digest: OwnerRequestDigest,
        principal: &Principal,
        now: u64,
    ) -> (step: UnlockStep)
        ensures
            match step {
                UnlockStep::Done(result) => unlock_outcome(
                    old(self)@,
                    arguments,
                    file,
                    digest,
                    principal@,
                    now,
                ) matches UnlockVerdict::Answered(told, _) && *result == told,
                UnlockStep::Record(plan) => {
                    let lock = next_lock_record(old(self)@.state, arguments.lock_state_id)->Ok_0.payload->Lock_0;
                    &&& unlock_outcome(
                        old(self)@,
                        arguments,
                        file,
                        digest,
                        principal@,
                        now,
                    ) matches UnlockVerdict::Recorded(status) && *plan.response == ResOp::LockUnlock(Err(status))
                    &&& plan.reservation == lock_turn(lock.owner, arguments.sequence_id, digest, false, false)
                    &&& plan.effect == no_effect()
                },
                UnlockStep::Release(plan) => {
                    &&& unlock_outcome(old(self)@, arguments, file, digest, principal@, now) == UnlockVerdict::Planned
                    &&& unlock_planned(old(self)@, plan, arguments, file, digest)
                    &&& final(self)@.state.awaits(plan.reservation)
                },
            },
            final(self)@ == unlock_after(old(self)@, arguments, file, digest, principal@, now),
    {
        let ghost before = self@;
        let range = match LockRange::from_offset_length(arguments.offset, arguments.length) {
            Some(range) => range,
            None => {
                return UnlockStep::Done(Arc::new(ResOp::LockUnlock(Err(NfsStatus::Invalid))));
            },
        };
        let record = match self.state.stateids.identify(arguments.lock_state_id) {
            Ok(record) => record,
            Err(error) => {
                return UnlockStep::Done(Arc::new(ResOp::LockUnlock(Err(map_stateid_error(error)))));
            },
        };
        let client_id = record.client;
        let held = match record.payload {
            StatePayload::Lock(held) => held,
            StatePayload::Open(_) => {
                return UnlockStep::Done(Arc::new(ResOp::LockUnlock(Err(NfsStatus::BadStateId))));
            },
        };
        match self.clients.touch(client_id, principal, NfsStatus::StaleClientId, now) {
            Ok(()) => {},
            Err(error) => {
                return UnlockStep::Done(Arc::new(ResOp::LockUnlock(Err(error.status))));
            },
        }
        let decision = match self.state.take_lock_turn(&held.owner, arguments.sequence_id, digest) {
            Some(decision) => decision,
            None => {
                return UnlockStep::Done(Arc::new(ResOp::LockUnlock(Err(NfsStatus::BadStateId))));
            },
        };
        match decision {
            SequenceDecision::Replay { result, context_effect: _ } => {
                return UnlockStep::Done(result);
            },
            SequenceDecision::InProgress => {
                return UnlockStep::Done(Arc::new(ResOp::LockUnlock(Err(NfsStatus::Delay))));
            },
            SequenceDecision::BadSequence => {
                return UnlockStep::Done(Arc::new(ResOp::LockUnlock(Err(NfsStatus::BadSequenceId))));
            },
            SequenceDecision::Execute => {},
        }
        let ghost running = self@;
        assert(running == unlock_running(
            unlock_asked(before, client_id, principal@, now),
            held.owner,
            arguments.sequence_id,
            digest,
        ));
        let owner = LockStateOwner { owner: held.owner.copy(), open: held.open_state_id.other };
        let reservation = OwnerReservation {
            kind: ReservedOwnerKind::Lock,
            owner: held.owner.copy(),
            sequence_id: arguments.sequence_id,
            digest,
            reserved_state: false,
            created_owner: false,
        };
        if let Err(error) = self.state.stateids.validate(arguments.lock_state_id, file, false, true) {
            return self.refuse_unlock(reservation, map_stateid_error(error));
        }
        let none: Vec<HeldLock> = Vec::new();
        let locks = match self.files.get(file) {
            Some(state) => &state.locks,
            None => &none,
        };
        assert(locks@ =~= file_at(running.files, file).locks);
        let planned = match unlock(locks, &owner, range) {
            Some(planned) => planned,
            None => {
                return self.refuse_unlock(reservation, NfsStatus::LockRange);
            },
        };
        if stable_lock_ranges(&planned, &owner).len() > self.limits.max_lock_ranges_per_state {
            return self.refuse_unlock(reservation, NfsStatus::Resource);
        }
        let next = match self.state.stateids.preview_transition(arguments.lock_state_id) {
            Ok(next) => next,
            Err(error) => {
                return self.refuse_unlock(reservation, map_stateid_error(error));
            },
        };
        UnlockStep::Release(
            UnlockPlan {
                reservation,
                requested: arguments.lock_state_id,
                state_id: next,
                owner,
                open_state_id: held.open_state_id,
                file,
                locks: planned,
                response: Arc::new(ResOp::LockUnlock(Ok(next))),
            },
        )
    }
}

/// The ranges that an owner has left.
pub open spec fn ranges_left(plan: UnlockPlan) -> Seq<LockRangeRecord> {
    stable_ranges(owned(plan.locks@, plan.owner@, plan.locks@.len()))
}

/// What locks that are given back change in the journal.
pub open spec fn unlock_changes(plan: UnlockPlan, reply: Seq<u8>) -> Seq<ChangeView> {
    let gone = seq![ChangeView::Delete { key: KeyView::Lock { state_token: token_of(plan.requested) } }];
    let kept = if ranges_left(plan).len() == 0 {
        gone
    } else {
        gone.push(
            ChangeView::Put {
                key: KeyView::Lock { state_token: token_of(plan.state_id) },
                record: RecordView::Lock(
                    LockView {
                        state_token: token_of(plan.state_id),
                        open_state_token: token_of(plan.open_state_id),
                        client_id: plan.owner.owner.client_id,
                        owner: plan.owner.owner.owner@,
                        object: stable_of(plan.file),
                        ranges: ranges_left(plan),
                    },
                ),
            },
        )
    };
    kept.push(
        ChangeView::Put {
            key: replay_key_of(plan.reservation),
            record: replay_record_of(plan.reservation, no_effect(), reply),
        },
    )
}

impl UnlockPlan {
    /// What the locks that are given back change in the journal, with the encoded reply.
    pub fn batch(&self, reply: &Vec<u8>) -> (batch: PersistBatch)
        ensures
            batch@ == unlock_changes(*self, reply@),
    {
        let batch = PersistBatch::default().delete(JournalKey::Lock { state_token: state_token(self.requested) });
        let ranges = stable_lock_ranges(&self.locks, &self.owner);
        assert(ranges@ == ranges_left(*self));
        let batch = if ranges.len() == 0 {
            batch
        } else {
            let record = JournalRecord::Lock(
                LockRecord {
                    state_token: state_token(self.state_id),
                    open_state_token: state_token(self.open_state_id),
                    client_id: self.owner.owner.client_id,
                    owner: copy_bytes(self.owner.owner.owner.as_slice()),
                    object: self.file.stable(),
                    ranges,
                },
            );
            assert(record@ =~= RecordView::Lock(
                LockView {
                    state_token: token_of(self.state_id),
                    open_state_token: token_of(self.open_state_id),
                    client_id: self.owner.owner.client_id,
                    owner: self.owner.owner.owner@,
                    object: stable_of(self.file),
                    ranges: ranges_left(*self),
                },
            ));
            batch.put(JournalKey::Lock { state_token: state_token(self.state_id) }, record)
        };
        let batch = batch.put(
            self.reservation.replay_key(),
            self.reservation.replay_record(ReplayEffect::default(), reply),
        );
        assert(batch@ =~= unlock_changes(*self, reply@));
        batch
    }
}

/// The answer to locks that are given back.
pub open spec fn unlock_finish_result(state: StateView, plan: UnlockPlan, persisted: bool) -> ResOp {
    if !persisted {
        ResOp::LockUnlock(Err(NfsStatus::Resource))
    } else {
        match state.stateids.previewed(plan.requested) {
            Err(error) => ResOp::LockUnlock(Err(stateid_status(error))),
            Ok(next) => if next != plan.state_id || !state.awaits(plan.reservation) {
                ResOp::LockUnlock(Err(NfsStatus::ServerFault))
            } else {
                *plan.response
            },
        }
    }
}

/// The registry once locks are given back.
pub open spec fn unlock_finish_state(state: StateView, plan: UnlockPlan, persisted: bool) -> StateView {
    if !persisted {
        state.dropped(plan.reservation)
    } else {
        match state.stateids.previewed(plan.requested) {
            Err(_) => state.dropped(plan.reservation),
            Ok(next) => {
                let moved = StateView { stateids: state.stateids.transitioned(plan.requested), ..state };
                if next != plan.state_id {
                    moved.dropped(plan.reservation)
                } else {
                    StateView {
                        lock_by_state: moved.lock_by_state.insert(
                            lock_place(plan.owner@, plan.file),
                            LockLink { owner: plan.owner, file: plan.file, state_id: plan.state_id },
                        ),
                        ..moved
                    }.settled(plan.reservation, plan.response, no_effect())
                }
            },
        }
    }
}

/// The server once locks are given back.
pub open spec fn unlock_finished(view: RuntimeView, plan: UnlockPlan, persisted: bool) -> RuntimeView {
    let place = file_place(plan.file);
    RuntimeView {
        state: unlock_finish_state(view.state, plan, persisted),
        files: if persisted && view.files.contains_key(place) {
            view.files.insert(place, FileView { locks: plan.locks@, ..view.files[place] })
        } else {
            view.files
        },
        ..view
    }
}

impl Nfs4Runtime {
    /// Finishes to give locks back once it was written to the journal, or could not be.
    pub fn finish_unlock(&mut self, plan: UnlockPlan, persisted: bool) -> (result: Arc<ResOp>)
        ensures
            *result == unlock_finish_result(old(self)@.state, plan, persisted),
            final(self)@ == unlock_finished(old(self)@, plan, persisted),
    {
        let ghost before = self@;
        if !persisted {
            self.state.drop_reservation(plan.reservation);
            return Arc::new(ResOp::LockUnlock(Err(NfsStatus::Resource)));
        }
        if self.files.get(plan.file).is_some() {
            let mut file = self.files.take(plan.file);
            file.locks = plan.locks;
            self.files.put(plan.file, file);
        }
        assert(self@.files =~= unlock_finished(before, plan, persisted).files);
        match self.state.stateids.transition(plan.requested) {
            Err(error) => {
                self.state.drop_reservation(plan.reservation);
                Arc::new(ResOp::LockUnlock(Err(map_stateid_error(error))))
            },
            Ok(next) => {
                if !next.same(&plan.state_id) {
                    self.state.drop_reservation(plan.reservation);
                    return Arc::new(ResOp::LockUnlock(Err(NfsStatus::ServerFault)));
                }
                let place = lock_key(&plan.owner, plan.file);
                let _ = self.state.lock_by_state.insert(
                    place,
                    LockLink { owner: plan.owner, file: plan.file, state_id: plan.state_id },
                );
                if self.state.settle_reservation(plan.reservation, share(&plan.response), ReplayEffect::default()) {
                    plan.response
                } else {
                    Arc::new(ResOp::LockUnlock(Err(NfsStatus::ServerFault)))
                }
            },
        }
    }

    /// Gives up to give locks back, where the reply could not be encoded.
    pub fn abandon_unlock(&mut self, plan: UnlockPlan) -> (result: Arc<ResOp>)
        ensures
            *result == ResOp::LockUnlock(Err(NfsStatus::ServerFault)),
            final(self)@ == unlock_finished(old(self)@, plan, false),
    {
        self.state.drop_reservation(plan.reservation);
        Arc::new(ResOp::LockUnlock(Err(NfsStatus::ServerFault)))
    }
}

/// The answer to a question for a lock.
#[derive(Clone, Debug, PartialEq, Eq)]
pub enum LockTestResult {
    Free,
    Denied(LockDenied),
    Failed(NfsStatus),
}

/// The answer to a question for a lock, with the client where it is known who asks.
#[derive(Clone, Debug, PartialEq, Eq)]
pub struct LockTestDecision {
    pub result: LockTestResult,
    pub client_id: Option<u64>,
}

/// The answer to a question for a lock.
pub open spec fn lock_tested(
    view: RuntimeView,
    arguments: LockTestArgs,
    file: RuntimeFile,
    principal: PrincipalView,
    now: u64,
) -> LockTestDecision {
    if arguments.owner.owner@.len() > view.limits.max_client_owner_size {
        LockTestDecision { result: LockTestResult::Failed(NfsStatus::Resource), client_id: None }
    } else {
        match wire_range(arguments.offset, arguments.length) {
            None => LockTestDecision { result: LockTestResult::Failed(NfsStatus::Invalid), client_id: None },
            Some(range) => match view.clients.gated(arguments.owner.client_id, principal, false, now) {
                Err(error) => LockTestDecision {
                    result: LockTestResult::Failed(error.status),
                    client_id: error.client_id,
                },
                Ok(_) => {
                    let locks = file_at(view.files, file).locks;
                    LockTestDecision {
                        result: match conflict_of_others(
                            locks,
                            arguments.owner@,
                            access_of(arguments.lock_type),
                            range,
                            locks.len(),
                        ) {
                            Some(i) => LockTestResult::Denied(denial(locks[i])),
                            None => LockTestResult::Free,
                        },
                        client_id: Some(arguments.owner.client_id),
                    }
                },
            },
        }
    }
}

impl Nfs4Runtime {
    /// Says whether an owner could have a lock.
    pub fn lock_test(&mut self, arguments: &LockTestArgs, file: RuntimeFile, principal: &Principal, now: u64) -> (decision:
        LockTestDecision)
        ensures
            decision == lock_tested(old(self)@, *arguments, file, principal@, now),
            final(self)@ == if arguments.owner.owner@.len() > old(self)@.limits.max_client_owner_size || wire_range(
                arguments.offset,
                arguments.length,
            ) is None {
                old(self)@
            } else {
                unlock_asked(old(self)@, arguments.owner.client_id, principal@, now)
            },
    {
        let ghost before = self@;
        if arguments.owner.owner.len() > self.limits.max_client_owner_size {
            return LockTestDecision { result: LockTestResult::Failed(NfsStatus::Resource), client_id: None };
        }
        let range = match LockRange::from_offset_length(arguments.offset, arguments.length) {
            Some(range) => range,
            None => {
                return LockTestDecision { result: LockTestResult::Failed(NfsStatus::Invalid), client_id: None };
            },
        };
        match self.clients.gate(arguments.owner.client_id, principal, false, now) {
            Ok(_) => {},
            Err(error) => {
                return LockTestDecision {
                    result: LockTestResult::Failed(error.status),
                    client_id: error.client_id,
                };
            },
        }
        let none: Vec<HeldLock> = Vec::new();
        let locks = match self.files.get(file) {
            Some(state) => &state.locks,
            None => &none,
        };
        assert(locks@ =~= file_at(before.files, file).locks);
        let result = match conflict_excluding(locks, &arguments.owner, lock_access(arguments.lock_type), range) {
            Some(i) => LockTestResult::Denied(denied(&locks[i])),
            None => LockTestResult::Free,
        };
        LockTestDecision { result, client_id: Some(arguments.owner.client_id) }
    }
}

} // verus!
