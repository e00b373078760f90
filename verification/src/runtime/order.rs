//! What order means: a request is carried out once and in its turn, a state id is good until the next one, and what was
//! refused for nothing that its owner did may be asked again.

use vstd::prelude::*;

use crate::codec::{be32, lemma_be32};
use crate::identity::PrincipalView;
use crate::owner::{OwnerSequence, SequenceDecision};
use crate::protocol::{no_effect, NfsStatus, OwnerRequestDigest, ResOp, RuntimeFile, StateId};
use crate::registry::{place_of_owner, OwnerReservation, StateView};
use crate::runtime::lock::{LockUnlockArgs, OpenToLockOwner};
use crate::runtime::openstate::{owner_error_begun, owner_error_state, OwnerErrorStep};
use crate::runtime::preflight::{new_lock_subject, preflight_told, unlock_subject, LockPreflight, Subject};
use crate::runtime::unlock::{unlock_outcome, UnlockVerdict};
use crate::runtime::{owner_error_kept, RuntimeView};
use crate::stateid::{
    stateid_after, uniform, SlotState, StateDisposition, StateIdValidation, StateIdValidationError, StateRecord, TableView,
};

verus! {

/// A request is the last one of its owner again where its number and its digest are.
pub open spec fn is_last(sequence: OwnerSequence, sequence_id: u32, digest: OwnerRequestDigest) -> bool {
    sequence.last matches Some(last) && last.sequence_id == sequence_id && last.digest == digest
}

/// A request is the one under way where its number and its digest are.
pub open spec fn is_under_way(sequence: OwnerSequence, sequence_id: u32, digest: OwnerRequestDigest) -> bool {
    sequence.pending matches Some(pending) && pending.sequence_id == sequence_id && pending.digest == digest
}

/// A request is carried out where nothing of its owner is under way and its number is one more than the last, or the first
/// one; numbers start again at zero. The last request again gets the last reply; the one under way is under way; any other
/// one is out of turn, also one that has the last number and is not the last request.
pub proof fn lemma_turns(sequence: OwnerSequence, sequence_id: u32, digest: OwnerRequestDigest)
    ensures
        sequence.decided(sequence_id, digest) is Execute <==> {
            &&& sequence.pending is None
            &&& !is_last(sequence, sequence_id, digest)
            &&& match sequence.last {
                Some(last) => sequence_id as int == (last.sequence_id + 1) % 0x1_0000_0000,
                None => sequence_id == sequence.first,
            }
        },
        is_last(sequence, sequence_id, digest) ==> sequence.decided(sequence_id, digest) == (SequenceDecision::Replay {
            result: (sequence.last->0).reply,
            context_effect: (sequence.last->0).effect,
        }),
        sequence.decided(sequence_id, digest) is InProgress <==> !is_last(sequence, sequence_id, digest) && is_under_way(
            sequence,
            sequence_id,
            digest,
        ),
        sequence.decided(sequence_id, digest) is Replay ==> is_last(sequence, sequence_id, digest),
        sequence.last is Some && (sequence.last->0).sequence_id == sequence_id && (sequence.last->0).digest != digest
            && sequence.pending is None ==> sequence.decided(sequence_id, digest) is BadSequence,
{
}

/// State ids count on from one; none is ever zero.
pub proof fn lemma_state_ids_count(sequence_id: u32)
    ensures
        stateid_after(sequence_id) != 0,
        sequence_id < u32::MAX ==> stateid_after(sequence_id) == sequence_id + 1,
        sequence_id == u32::MAX ==> stateid_after(sequence_id) == 1,
{
}

/// A state id of a client is good where it names a living state of that file, of a kind that is asked for, by the number
/// that it has now.
pub proof fn lemma_state_id_judged(table: TableView, state_id: StateId, file: RuntimeFile, opens: bool, locks: bool)
    requires
        !uniform(state_id.other@, 0),
        !uniform(state_id.other@, 0xff),
    ensures
        table.validated(state_id, file, opens, locks) matches Ok(found) ==> {
            &&& found matches StateIdValidation::Active(record)
            &&& table.identified(state_id.other@) == Ok::<StateRecord, StateIdValidationError>(record)
            &&& record.file == file
            &&& record.sequence_id == state_id.sequence_id
            &&& record.payload is Open ==> opens
            &&& record.payload is Lock ==> locks
        },
        table.identified(state_id.other@) matches Ok(record) ==> {
            let told = table.validated(state_id, file, opens, locks);
            let fits = record.file == file && (record.payload is Open && opens || record.payload is Lock && locks);
            &&& fits && record.sequence_id == state_id.sequence_id ==> told is Ok
            &&& fits && record.sequence_id > state_id.sequence_id ==> told == Err::<StateIdValidation, StateIdValidationError>(
                StateIdValidationError::OldStateId,
            )
            &&& !fits || record.sequence_id < state_id.sequence_id ==> told == Err::<
                StateIdValidation,
                StateIdValidationError,
            >(StateIdValidationError::BadStateId)
        },
        table.identified(state_id.other@) matches Err(error) ==> table.validated(state_id, file, opens, locks) == Err::<
            StateIdValidation,
            StateIdValidationError,
        >(error),
{
}

/// A state id begins with the tag of the run that gave it: one of another run is stale. How a state ended is how its state
/// ids are answered, and one that is not there yet is as bad as one that never was.
pub proof fn lemma_state_id_named(table: TableView, other: Seq<u8>, tag: u32)
    requires
        other.len() == 12,
        !uniform(other, 0),
        !uniform(other, 0xff),
        other.take(4) == be32(tag),
    ensures
        tag != table.boot_tag ==> table.identified(other) == Err::<StateRecord, StateIdValidationError>(
            StateIdValidationError::StaleStateId,
        ),
        table.slot_of(other) matches Ok(i) ==> match table.slots[i].state {
            SlotState::Active(record) => table.identified(other) == Ok::<
                StateRecord,
                StateIdValidationError,
            >(record),
            SlotState::Pending(_) => table.identified(other) == Err::<StateRecord, StateIdValidationError>(
                StateIdValidationError::BadStateId,
            ),
            SlotState::Retired(disposition) => table.identified(other) == Err::<
                StateRecord,
                StateIdValidationError,
            >(
                match disposition {
                    StateDisposition::Closed => StateIdValidationError::BadStateId,
                    StateDisposition::LeaseExpired => StateIdValidationError::Expired,
                    StateDisposition::AdminRevoked => StateIdValidationError::AdminRevoked,
                },
            ),
        },
{
    lemma_be32(tag, seq![]);
}

/// A refusal is the owner's to keep, and a repetition of the request gets it again, unless it says that the request did not
/// reach its owner: that the client or the state id is not known, that the request is out of turn or cannot be read, that
/// there is no room, or that there is no file here. Then the owner is where it was before the request.
pub proof fn lemma_refusal_kept(
    state: StateView,
    reservation: OwnerReservation,
    status: NfsStatus,
    response: ResOp,
    step: OwnerErrorStep,
)
    requires
        owner_error_begun(step, reservation, status, response, no_effect()),
    ensures
        ({
            let unheard = status == NfsStatus::StaleClientId || status == NfsStatus::StaleStateId || status
                == NfsStatus::BadStateId || status == NfsStatus::BadSequenceId || status == NfsStatus::BadXdr || status
                == NfsStatus::Resource || status == NfsStatus::NoFileHandle || status == NfsStatus::Moved;
            &&& step is Done <==> unheard
            &&& step matches OwnerErrorStep::Done(told) ==> *told == response && owner_error_state(
                state,
                reservation,
                status,
            ) == state.dropped(reservation)
            &&& step matches OwnerErrorStep::Record(plan) ==> {
                let kept = owner_error_kept(owner_error_state(state, reservation, status), plan, true);
                let owners = kept.owners(reservation.kind);
                let place = place_of_owner(reservation.owner);
                &&& owner_error_state(state, reservation, status) == state
                &&& state.awaits(reservation) ==> owners.contains_key(place) && (owners[place].sequence.decided(
                    reservation.sequence_id,
                    reservation.digest,
                ) matches SequenceDecision::Replay { result, .. } && *result == response)
            }
        }),
{
}

/// What is foretold of a request to give locks back comes true: a reply is foretold where the request is the last one of
/// the owner again, and it is the reply that the owner got, which the request is then answered with. That the request can
/// be carried out is foretold only where its turn has come and its state id is good.
pub proof fn lemma_unlock_foretold(
    view: RuntimeView,
    arguments: LockUnlockArgs,
    file: RuntimeFile,
    digest: OwnerRequestDigest,
    principal: PrincipalView,
    now: u64,
    subject: Subject,
    record: StateRecord,
)
    requires
        unlock_subject(view.state, arguments, digest) == Ok::<Subject, NfsStatus>(subject),
        view.state.stateids.identified(arguments.lock_state_id.other@) == Ok::<StateRecord, StateIdValidationError>(record),
        record.payload is Lock,
    ensures
        ({
            let told = preflight_told(view, subject, file, principal, now);
            let place = place_of_owner(record.payload->Lock_0.owner);
            let sequence = view.state.lock_owners[place].sequence;
            let outcome = unlock_outcome(view, arguments, file, digest, principal, now);
            &&& view.state.lock_owners.contains_key(place)
            &&& told matches LockPreflight::Replay { client_id, result } ==> {
                &&& client_id == record.client
                &&& is_last(sequence, arguments.sequence_id, digest)
                &&& result == (sequence.last->0).reply
                &&& outcome == UnlockVerdict::Answered(*result, false)
            }
            &&& is_last(sequence, arguments.sequence_id, digest) && view.clients.touch_refused(
                record.client,
                principal,
                NfsStatus::StaleClientId,
                now,
            ) is None ==> told == (LockPreflight::Replay { client_id: record.client, result: (sequence.last->0).reply })
            &&& told matches LockPreflight::Execute { client_id } ==> {
                &&& client_id == record.client
                &&& sequence.decided(arguments.sequence_id, digest) is Execute
                &&& record.file == file
                &&& record.sequence_id == arguments.lock_state_id.sequence_id
            }
        }),
{
    lemma_turns(view.state.lock_owners[place_of_owner(record.payload->Lock_0.owner)].sequence, arguments.sequence_id, digest);
    if !uniform(arguments.lock_state_id.other@, 0) && !uniform(arguments.lock_state_id.other@, 0xff) {
        lemma_state_id_judged(view.state.stateids, arguments.lock_state_id, file, false, true);
    }
}

/// What is foretold of a new owner's request for a lock: a reply only where the request is the last one of the open's owner
/// or of the lock's owner again, and then the reply that one of them got; that it can be carried out only where it is out
/// of turn with neither.
pub proof fn lemma_new_lock_foretold(
    view: RuntimeView,
    locker: OpenToLockOwner,
    file: RuntimeFile,
    digest: OwnerRequestDigest,
    principal: PrincipalView,
    now: u64,
    subject: Subject,
    record: StateRecord,
)
    requires
        new_lock_subject(view.state, locker, digest, view.limits) == Ok::<Subject, NfsStatus>(subject),
        view.state.stateids.identified(locker.open_state_id.other@) == Ok::<StateRecord, StateIdValidationError>(record),
        record.payload is Open,
    ensures
        ({
            let told = preflight_told(view, subject, file, principal, now);
            let opener = view.state.open_owners[place_of_owner(record.payload->Open_0.owner)].sequence;
            let lock_place = place_of_owner(locker.lock_owner);
            let known = view.state.lock_owners.contains_key(lock_place);
            let holder = view.state.lock_owners[lock_place].sequence;
            &&& locker.lock_owner.client_id == record.client
            &&& locker.lock_owner.owner@.len() <= view.limits.max_client_owner_size
            &&& told matches LockPreflight::Replay { client_id, result } ==> {
                &&& client_id == record.client
                &&& *result is Lock
                &&& {
                    ||| is_last(opener, locker.open_sequence_id, digest) && result == (opener.last->0).reply
                    ||| known && is_last(holder, locker.lock_sequence_id, digest) && result == (holder.last->0).reply
                }
            }
            &&& is_last(opener, locker.open_sequence_id, digest) && *(opener.last->0).reply is Lock && !(known
                && !is_last(holder, locker.lock_sequence_id, digest)) && view.clients.touch_refused(
                record.client,
                principal,
                NfsStatus::StaleClientId,
                now,
            ) is None ==> told == (LockPreflight::Replay { client_id: record.client, result: (opener.last->0).reply })
            &&& told is Execute ==> {
                &&& !(opener.decided(locker.open_sequence_id, digest) is BadSequence)
                &&& !(opener.decided(locker.open_sequence_id, digest) is InProgress)
                &&& known ==> !(holder.decided(locker.lock_sequence_id, digest) is BadSequence)
                &&& known ==> !(holder.decided(locker.lock_sequence_id, digest) is InProgress)
                &&& record.file == file
                &&& record.sequence_id == locker.open_state_id.sequence_id
            }
        }),
{
    let opener = view.state.open_owners[place_of_owner(record.payload->Open_0.owner)].sequence;
    let holder = view.state.lock_owners[place_of_owner(locker.lock_owner)].sequence;
    lemma_turns(opener, locker.open_sequence_id, digest);
    lemma_turns(holder, locker.lock_sequence_id, digest);
    if !uniform(locker.open_state_id.other@, 0) && !uniform(locker.open_state_id.other@, 0xff) {
        lemma_state_id_judged(view.state.stateids, locker.open_state_id, file, true, false);
    }
}

} // verus!
