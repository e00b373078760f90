//! What an owner's sequence says of a request for a lock, before its state id is looked at.

use std::sync::Arc;

use vstd::prelude::*;

use crate::identity::{Principal, PrincipalView};
use crate::locks::{wire_range, LockRange};
use crate::owner::SequenceDecision;
use crate::protocol::{share, Nfs4Limits, NfsStatus, OwnerRequestDigest, ResOp, RuntimeFile, StateId};
use crate::registry::{place_of_owner, StateRegistry, StateView};
use crate::runtime::lock::{next_lock_record, new_lock_open, LockArgs, LockUnlockArgs, Locker, OpenToLockOwner};
use crate::runtime::{Nfs4Runtime, RuntimeView};
use crate::stateid::{map_stateid_error, stateid_status, StateIdValidation, StatePayload};

verus! {

/// What is to be done with a request, as far as its owner's sequence says.
#[allow(inconsistent_fields)]
pub enum LockPreflight {
    Execute { client_id: u64 },
    Replay { client_id: u64, result: Arc<ResOp> },
    Error { status: NfsStatus, client_id: Option<u64> },
}

/// What a sequence says: the reply where there is one already, or that the request is not in its turn.
pub type Standing = Result<Option<Arc<ResOp>>, NfsStatus>;

/// What is known of a request before its state id is looked at.
pub struct Subject {
    pub client_id: u64,
    pub standing: Standing,
    pub state_id: StateId,
    /// The state id is one of an open; otherwise it is one of locks.
    pub opens: bool,
}

/// The reply to a request for a lock that is cached.
pub open spec fn cached_lock(decision: SequenceDecision) -> Option<Arc<ResOp>> {
    match decision {
        SequenceDecision::Replay { result, .. } => if *result is Lock {
            Some(result)
        } else {
            None
        },
        _ => None,
    }
}

/// What a sequence says of a request.
pub open spec fn standing_of(decision: SequenceDecision) -> Standing {
    match decision {
        SequenceDecision::Replay { result, .. } => Ok(Some(result)),
        SequenceDecision::InProgress => Err(NfsStatus::Delay),
        SequenceDecision::BadSequence => Err(NfsStatus::BadSequenceId),
        SequenceDecision::Execute => Ok(None),
    }
}

/// What two sequences say of a request; that of a new lock owner is silent.
pub open spec fn standing_of_both(open: SequenceDecision, lock: Option<SequenceDecision>) -> Standing {
    if open is BadSequence || (lock matches Some(d) && d is BadSequence) {
        Err(NfsStatus::BadSequenceId)
    } else if open is InProgress || (lock matches Some(d) && d is InProgress) {
        Err(NfsStatus::Delay)
    } else if cached_lock(open) is Some {
        Ok(cached_lock(open))
    } else {
        match lock {
            Some(d) => Ok(cached_lock(d)),
            None => Ok(None),
        }
    }
}

/// What is known of the request of a new lock owner.
pub open spec fn new_lock_subject(
    state: StateView,
    locker: OpenToLockOwner,
    digest: OwnerRequestDigest,
    limits: Nfs4Limits,
) -> Result<Subject, NfsStatus> {
    match new_lock_open(state, locker, limits) {
        Err(status) => Err(status),
        Ok(record) => {
            let open = record.payload->Open_0;
            if locker.lock_owner.client_id != record.client || open.owner.client_id != record.client {
                Err(NfsStatus::BadStateId)
            } else if !state.open_owners.contains_key(place_of_owner(open.owner)) {
                Err(NfsStatus::BadStateId)
            } else {
                Ok(
                    Subject {
                        client_id: record.client,
                        standing: standing_of_both(
                            state.open_owners[place_of_owner(open.owner)].sequence.decided(
                                locker.open_sequence_id,
                                digest,
                            ),
                            state.lock_turn_told(locker.lock_owner, locker.lock_sequence_id, digest),
                        ),
                        state_id: locker.open_state_id,
                        opens: true,
                    },
                )
            }
        },
    }
}

/// What is known of the request of an owner with locks.
pub open spec fn next_lock_subject(
    state: StateView,
    state_id: StateId,
    sequence_id: u32,
    digest: OwnerRequestDigest,
) -> Result<Subject, NfsStatus> {
    match next_lock_record(state, state_id) {
        Err(status) => Err(status),
        Ok(record) => match state.lock_turn_told(record.payload->Lock_0.owner, sequence_id, digest) {
            None => Err(NfsStatus::BadStateId),
            Some(decision) => Ok(
                Subject { client_id: record.client, standing: standing_of(decision), state_id, opens: false },
            ),
        },
    }
}

/// The client of a state id that is valid and no special one.
pub open spec fn validated_client(state: StateView, state_id: StateId, file: RuntimeFile, opens: bool) -> Result<
    u64,
    NfsStatus,
> {
    match state.stateids.validated(state_id, file, opens, !opens) {
        Ok(StateIdValidation::Active(record)) => Ok(record.client),
        Ok(_) => Err(NfsStatus::BadStateId),
        Err(error) => Err(stateid_status(error)),
    }
}

/// The client whose lease a request renews: that of a reply that is sent again, or that of a valid state id.
pub open spec fn renewing_client(state: StateView, subject: Subject, file: RuntimeFile) -> Result<u64, NfsStatus> {
    if subject.standing matches Ok(Some(_)) {
        Ok(subject.client_id)
    } else {
        match validated_client(state, subject.state_id, file, subject.opens) {
            Ok(client_id) => if client_id == subject.client_id {
                Ok(client_id)
            } else {
                Err(NfsStatus::BadStateId)
            },
            Err(status) => Err(status),
        }
    }
}

/// What is to be done with a request. What the sequence says of it comes before what is wrong with its state id.
pub open spec fn preflight_told(
    view: RuntimeView,
    subject: Subject,
    file: RuntimeFile,
    principal: PrincipalView,
    now: u64,
) -> LockPreflight {
    match renewing_client(view.state, subject, file) {
        Err(status) => LockPreflight::Error {
            status: match subject.standing {
                Err(first) => first,
                Ok(_) => status,
            },
            client_id: None,
        },
        Ok(client_id) => match view.clients.touch_refused(client_id, principal, NfsStatus::StaleClientId, now) {
            Some(error) => LockPreflight::Error { status: error.status, client_id: error.client_id },
            None => match subject.standing {
                Ok(Some(result)) => LockPreflight::Replay { client_id, result },
                Ok(None) => LockPreflight::Execute { client_id },
                Err(status) => LockPreflight::Error { status, client_id: Some(client_id) },
            },
        },
    }
}

/// The server once it is known what is to be done with a request.
pub open spec fn preflight_after(
    view: RuntimeView,
    subject: Subject,
    file: RuntimeFile,
    principal: PrincipalView,
    now: u64,
) -> RuntimeView {
    match renewing_client(view.state, subject, file) {
        Err(_) => view,
        Ok(client_id) => RuntimeView {
            clients: view.clients.touched(client_id, principal, NfsStatus::StaleClientId, now),
            ..view
        },
    }
}

/// What is known of a request for a lock.
pub open spec fn lock_subject(state: StateView, arguments: LockArgs, digest: OwnerRequestDigest, limits: Nfs4Limits) -> Result<
    Subject,
    NfsStatus,
> {
    if wire_range(arguments.offset, arguments.length) is None {
        Err(NfsStatus::Invalid)
    } else {
        match arguments.locker {
            Locker::New(locker) => new_lock_subject(state, locker, digest, limits),
            Locker::Existing(locker) => next_lock_subject(
                state,
                locker.lock_state_id,
                locker.lock_sequence_id,
                digest,
            ),
        }
    }
}

/// What is known of a request to give a lock back.
pub open spec fn unlock_subject(state: StateView, arguments: LockUnlockArgs, digest: OwnerRequestDigest) -> Result<
    Subject,
    NfsStatus,
> {
    if wire_range(arguments.offset, arguments.length) is None {
        Err(NfsStatus::Invalid)
    } else {
        next_lock_subject(state, arguments.lock_state_id, arguments.sequence_id, digest)
    }
}

/// The reply to a request for a lock that is cached.
fn find_cached_lock(decision: &SequenceDecision) -> (cached: Option<Arc<ResOp>>)
    ensures
        cached == cached_lock(*decision),
{
    match decision {
        SequenceDecision::Replay { result, context_effect: _ } => match &**result {
            ResOp::Lock(_) => Some(share(result)),
            _ => None,
        },
        _ => None,
    }
}

/// What a sequence says of a request.
fn stand(decision: &SequenceDecision) -> (standing: Standing)
    ensures
        standing == standing_of(*decision),
{
    match decision {
        SequenceDecision::Replay { result, context_effect: _ } => Ok(Some(share(result))),
        SequenceDecision::InProgress => Err(NfsStatus::Delay),
        SequenceDecision::BadSequence => Err(NfsStatus::BadSequenceId),
        SequenceDecision::Execute => Ok(None),
    }
}

/// What two sequences say of a request.
fn stand_both(open: &SequenceDecision, lock: &Option<SequenceDecision>) -> (standing: Standing)
    ensures
        standing == standing_of_both(*open, *lock),
{
    let lock_bad = match lock {
        Some(SequenceDecision::BadSequence) => true,
        _ => false,
    };
    let lock_running = match lock {
        Some(SequenceDecision::InProgress) => true,
        _ => false,
    };
    let open_bad = matches!(open, SequenceDecision::BadSequence);
    let open_running = matches!(open, SequenceDecision::InProgress);
    if open_bad || lock_bad {
        return Err(NfsStatus::BadSequenceId);
    }
    if open_running || lock_running {
        return Err(NfsStatus::Delay);
    }
    if let Some(result) = find_cached_lock(open) {
        return Ok(Some(result));
    }
    match lock {
        Some(decision) => Ok(find_cached_lock(decision)),
        None => Ok(None),
    }
}

impl StateRegistry {
    /// What is known of the request of a new lock owner.
    fn subject_of_new(&self, locker: &OpenToLockOwner, digest: OwnerRequestDigest, limits: Nfs4Limits) -> (subject: Result<
        Subject,
        NfsStatus,
    >)
        ensures
            subject == new_lock_subject(self@, *locker, digest, limits),
    {
        if locker.lock_owner.owner.len() > limits.max_client_owner_size {
            return Err(NfsStatus::Resource);
        }
        let record = match self.stateids.identify(locker.open_state_id) {
            Ok(record) => record,
            Err(error) => {
                return Err(map_stateid_error(error));
            },
        };
        let client_id = record.client;
        let open = match record.payload {
            StatePayload::Open(open) => open,
            StatePayload::Lock(_) => {
                return Err(NfsStatus::BadStateId);
            },
        };
        if locker.lock_owner.client_id != client_id || open.owner.client_id != client_id {
            return Err(NfsStatus::BadStateId);
        }
        let open_place = open.owner.place();
        let open_decision = match self.open_owners.get(open_place.as_slice()) {
            Some(owner) => owner.sequence.decide(locker.open_sequence_id, digest),
            None => {
                return Err(NfsStatus::BadStateId);
            },
        };
        let lock_place = locker.lock_owner.place();
        let lock_decision = match self.lock_owners.get(lock_place.as_slice()) {
            Some(owner) => Some(owner.sequence.decide(locker.lock_sequence_id, digest)),
            None => None,
        };
        Ok(
            Subject {
                client_id,
                standing: stand_both(&open_decision, &lock_decision),
                state_id: locker.open_state_id,
                opens: true,
            },
        )
    }

    /// What is known of the request of an owner with locks.
    fn subject_of_next(&self, state_id: StateId, sequence_id: u32, digest: OwnerRequestDigest) -> (subject: Result<
        Subject,
        NfsStatus,
    >)
        ensures
            subject == next_lock_subject(self@, state_id, sequence_id, digest),
    {
        let record = match self.stateids.identify(state_id) {
            Ok(record) => record,
            Err(error) => {
                return Err(map_stateid_error(error));
            },
        };
        let client_id = record.client;
        let held = match record.payload {
            StatePayload::Lock(held) => held,
            StatePayload::Open(_) => {
                return Err(NfsStatus::BadStateId);
            },
        };
        let place = held.owner.place();
        let decision = match self.lock_owners.get(place.as_slice()) {
            Some(owner) => owner.sequence.decide(sequence_id, digest),
            None => {
                return Err(NfsStatus::BadStateId);
            },
        };
        Ok(Subject { client_id, standing: stand(&decision), state_id, opens: false })
    }

    /// The client of a state id that is valid and no special one.
    pub fn validate_stateid_client(&self, state_id: StateId, file: RuntimeFile, opens: bool) -> (client: Result<
        u64,
        NfsStatus,
    >)
        ensures
            client == validated_client(self@, state_id, file, opens),
    {
        match self.stateids.validate(state_id, file, opens, !opens) {
            Ok(StateIdValidation::Active(record)) => Ok(record.client),
            Ok(_) => Err(NfsStatus::BadStateId),
            Err(error) => Err(map_stateid_error(error)),
        }
    }
}

impl Nfs4Runtime {
    /// Says what is to be done with a request, and renews the lease of its client.
    fn preflight(&mut self, subject: Subject, file: RuntimeFile, principal: &Principal, now: u64) -> (told: LockPreflight)
        ensures
            told == preflight_told(old(self)@, subject, file, principal@, now),
            final(self)@ == preflight_after(old(self)@, subject, file, principal@, now),
    {
        let replayed = match &subject.standing {
            Ok(Some(_)) => true,
            _ => false,
        };
        let client_id = if replayed {
            subject.client_id
        } else {
            let found = match self.state.validate_stateid_client(subject.state_id, file, subject.opens) {
                Ok(client_id) => if client_id == subject.client_id {
                    Ok(client_id)
                } else {
                    Err(NfsStatus::BadStateId)
                },
                Err(status) => Err(status),
            };
            match found {
                Ok(client_id) => client_id,
                Err(status) => {
                    let first = match subject.standing {
                        Err(first) => first,
                        Ok(_) => status,
                    };
                    return LockPreflight::Error { status: first, client_id: None };
                },
            }
        };
        match self.clients.touch(client_id, principal, NfsStatus::StaleClientId, now) {
            Err(error) => LockPreflight::Error { status: error.status, client_id: error.client_id },
            Ok(()) => match subject.standing {
                Ok(Some(result)) => LockPreflight::Replay { client_id, result },
                Ok(None) => LockPreflight::Execute { client_id },
                Err(status) => LockPreflight::Error { status, client_id: Some(client_id) },
            },
        }
    }

    /// Says what is to be done with a request for a lock.
    pub fn preflight_lock(
        &mut self,
        arguments: &LockArgs,
        file: RuntimeFile,
        digest: OwnerRequestDigest,
        principal: &Principal,
        now: u64,
    ) -> (told: LockPreflight)
        ensures
            match lock_subject(old(self)@.state, *arguments, digest, old(self)@.limits) {
                Err(status) => told == (LockPreflight::Error { status, client_id: None }) && final(self)@ == old(self)@,
                Ok(subject) => told == preflight_told(old(self)@, subject, file, principal@, now) && final(self)@
                    == preflight_after(old(self)@, subject, file, principal@, now),
            },
    {
        if LockRange::from_offset_length(arguments.offset, arguments.length).is_none() {
            return LockPreflight::Error { status: NfsStatus::Invalid, client_id: None };
        }
        let subject = match &arguments.locker {
            Locker::New(locker) => self.state.subject_of_new(locker, digest, self.limits),
            Locker::Existing(locker) => self.state.subject_of_next(
                locker.lock_state_id,
                locker.lock_sequence_id,
                digest,
            ),
        };
        match subject {
            Err(status) => LockPreflight::Error { status, client_id: None },
            Ok(subject) => self.preflight(subject, file, principal, now),
        }
    }

    /// Says what is to be done with a request to give a lock back.
    pub fn preflight_unlock(
        &mut self,
        arguments: LockUnlockArgs,
        file: RuntimeFile,
        digest: OwnerRequestDigest,
        principal: &Principal,
        now: u64,
    ) -> (told: LockPreflight)
        ensures
            match unlock_subject(old(self)@.state, arguments, digest) {
                Err(status) => told == (LockPreflight::Error { status, client_id: None }) && final(self)@ == old(self)@,
                Ok(subject) => told == preflight_told(old(self)@, subject, file, principal@, now) && final(self)@
                    == preflight_after(old(self)@, subject, file, principal@, now),
            },
    {
        if LockRange::from_offset_length(arguments.offset, arguments.length).is_none() {
            return LockPreflight::Error { status: NfsStatus::Invalid, client_id: None };
        }
        match self.state.subject_of_next(arguments.lock_state_id, arguments.sequence_id, digest) {
            Err(status) => LockPreflight::Error { status, client_id: None },
            Ok(subject) => self.preflight(subject, file, principal, now),
        }
    }
}

} // verus!
