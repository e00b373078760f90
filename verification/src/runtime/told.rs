//! What clients and the backend are told: of state ids, of pins, of delegations, of leases and of time.

use std::sync::Arc;

use vstd::prelude::*;

use crate::clients::ClientsView;
use crate::codec::ExportId;
use crate::identity::PrincipalView;
use crate::lease::{lemma_moved_place, moved_place, MovedView};
use crate::protocol::{
    granted_kind, lock_status, owner_file_place, ChangeInfo, DelegationKind, LockResult, Nfs4Limits, NfsStatus, OpenDelegation, OwnerKey,
    ResOp, RuntimeFile, StateId,
};
use crate::registry::{place_of_owner, StateView};
use crate::runtime::agreement::files_agree;
use crate::runtime::close::{close_finished, close_ready, ClosePlan};
use crate::runtime::complete::{complete_refused, open_plan_of, OpenPlan};
use crate::runtime::confirm::probed;
use crate::runtime::ending::lemma_close_leaves_nothing;
use crate::runtime::expiry::{cleanup_due, grace_ended};
use crate::runtime::io::{pin_held, stateid_client};
use crate::runtime::open::OpenTargetReservation;
use crate::runtime::release::{lock_states_ended, owned_at, owned_places, owner_released};
use crate::runtime::{access_matches, free_number, number_after, RuntimeView};
use crate::stateid::{uniform, StateDisposition, StateIdValidationError, StatePayload, TableView};

verus! {

/// A state id stands for nobody where it is one of the two special ones: all zero, or all one, the number in front of it
/// too. Any other one stands for the client that it was given to, where it names a living state of the file; where it does
/// not, the answer says why.
pub proof fn lemma_state_id_told(view: RuntimeView, state_id: StateId, file: RuntimeFile, principal: PrincipalView)
    ensures
        stateid_client(view, state_id, file, principal) matches Ok(None) <==> {
            ||| state_id.sequence_id == 0 && forall|i: int| 0 <= i < 12 ==> (#[trigger] state_id.other@[i]) == 0
            ||| state_id.sequence_id == u32::MAX && forall|i: int| 0 <= i < 12 ==> (#[trigger] state_id.other@[i]) == 0xff
        },
        stateid_client(view, state_id, file, principal) matches Ok(Some(client)) ==> {
            &&& view.state.stateids.identified(state_id.other@) matches Ok(record)
            &&& record.client == client
            &&& record.file == file
            &&& view.clients.confirmed(client, principal, NfsStatus::StaleClientId) is Ok
        },
        view.state.stateids.identified(state_id.other@) matches Ok(record) && record.file == file
            && view.clients.confirmed(record.client, principal, NfsStatus::StaleClientId) is Ok && !(stateid_client(
            view,
            state_id,
            file,
            principal,
        ) matches Ok(None)) && (exists|i: int| 0 <= i < 12 && (#[trigger] state_id.other@[i]) != 0) && (exists|i: int|
            0 <= i < 12 && (#[trigger] state_id.other@[i]) != 0xff) ==> stateid_client(view, state_id, file, principal)
            is Ok,
        (exists|i: int| 0 <= i < 12 && (#[trigger] state_id.other@[i]) != 0) && (exists|i: int|
            0 <= i < 12 && (#[trigger] state_id.other@[i]) != 0xff) ==> (view.state.stateids.identified(
            state_id.other@,
        ) matches Err(error) ==> stateid_client(view, state_id, file, principal) == Err::<Option<u64>, NfsStatus>(
            match error {
                StateIdValidationError::BadStateId => NfsStatus::BadStateId,
                StateIdValidationError::StaleStateId => NfsStatus::StaleStateId,
                StateIdValidationError::OldStateId => NfsStatus::OldStateId,
                StateIdValidationError::Expired => NfsStatus::Expired,
                StateIdValidationError::AdminRevoked => NfsStatus::AdminRevoked,
            },
        )),
{
    let other = state_id.other@;
    let zeros = Seq::new(12, |i: int| 0u8);
    let ones = Seq::new(12, |i: int| 0xffu8);
    assert(zeros[0] == 0 && ones[0] == 0xff);
    if forall|i: int| 0 <= i < 12 ==> (#[trigger] other[i]) == 0 {
        assert(other =~= zeros);
    }
    if forall|i: int| 0 <= i < 12 ==> (#[trigger] other[i]) == 0xff {
        assert(other =~= ones);
    }
    if uniform(other, 0) {
        assert(other == zeros);
    }
    if uniform(other, 0xff) {
        assert(other == ones);
    }
}

/// The backend holds a file by a pin while a living open of that file has it, and no longer: once the open is closed its
/// owner holds the file by no pin.
pub proof fn lemma_pin_held(view: RuntimeView, plan: ClosePlan, place: Seq<u8>, file: RuntimeFile, pin: Seq<u8>)
    requires
        files_agree(view.files),
        close_ready(view, plan),
    ensures
        pin_held(view.state, place, file, pin) ==> {
            &&& view.state.open_by_owner_file.contains_key(place)
            &&& view.state.open_by_owner_file[place].file == file
            &&& view.state.stateids.identified(view.state.open_by_owner_file[place].state_id.other@) matches Ok(record)
            &&& record.payload matches StatePayload::Open(open)
            &&& open.pin@ == pin
        },
        forall|other: Seq<u8>| #[trigger]
            pin_held(view.state, place, file, pin) && pin_held(view.state, place, file, other) ==> other == pin,
        !pin_held(
            close_finished(view, plan, true).state,
            owner_file_place(plan.reservation.owner.owner@, plan.reservation.file),
            file,
            pin,
        ),
{
    lemma_close_leaves_nothing(view, plan, file);
}

/// An open is completed with a delegation only where that one was agreed on before, with this client, for this file and
/// with this very open, and of that kind.
pub proof fn lemma_delegation_agreed(
    state: StateView,
    target: OpenTargetReservation,
    delegation: OpenDelegation,
)
    requires
        complete_refused(state, target, granted_kind(delegation)) is None,
        !(delegation is Absent),
    ensures
        target.delegation_eligibility is Some,
        state.delegation_eligibility.contains_key(target.delegation_eligibility->0),
        ({
            let agreed = state.delegation_eligibility[target.delegation_eligibility->0];
            &&& agreed.file == target.file
            &&& agreed.client_id == target.owner.owner.client_id
            &&& agreed.open_reservation == target.reservation
            &&& delegation is Read ==> agreed.kind == DelegationKind::Read
            &&& delegation is Write ==> agreed.kind == DelegationKind::Write
        }),
{
}

/// The answer to an open asks for a confirmation where the owner is not confirmed yet and is granted no delegation, and
/// only there. It tells the state id of the open and the delegation that is granted.
pub proof fn lemma_open_answered(
    state: StateView,
    plan: OpenPlan,
    target: OpenTargetReservation,
    change_info: ChangeInfo,
    attributes_set: Arc<Vec<u32>>,
    delegation: OpenDelegation,
)
    requires
        open_plan_of(state, plan, target, change_info, attributes_set, delegation),
    ensures
        plan.confirmation_required == (target.confirmation_required && delegation is Absent),
        *plan.response matches ResOp::Open(Ok(told)) && told.state_id == plan.state_id && told.delegation == delegation
            && told.change_info == change_info && (told.result_flags & 2 != 0) == plan.confirmation_required
            && told.result_flags & 4 != 0,
        plan.granted is None <==> delegation is Absent,
        plan.target.file == target.file,
        plan.target.access == target.access,
        plan.target.deny == target.deny,
        plan.effect.current_file == Some(target.file),
{
    assert(6u32 & 2 != 0 && 4u32 & 2 == 0 && 6u32 & 4 != 0 && 4u32 & 4 != 0) by (bit_vector);
}

/// A lock outcome is a success where the lock is granted, and a denial where another lock is in the way.
pub proof fn lemma_lock_status_told(result: LockResult)
    ensures
        result is Granted ==> lock_status(result) == NfsStatus::Success,
        result is Denied ==> lock_status(result) == NfsStatus::Denied,
        result matches LockResult::Failed(status) ==> lock_status(result) == status,
{
}

/// A client that has looked for file systems owes a look for none of them any more; what it owes for others, and what
/// other clients owe, is as it was.
pub proof fn lemma_looked(moved: MovedView, client_id: u64, export_ids: Seq<ExportId>, n: nat, client: u64, export_id: ExportId)
    requires
        n <= export_ids.len(),
    ensures
        client == client_id && export_ids.take(n as int).contains(export_id) ==> !probed(
            moved,
            client_id,
            export_ids,
            n,
        ).obligations.contains_key(moved_place(client, export_id)),
        !(client == client_id && export_ids.take(n as int).contains(export_id)) ==> {
            let after = probed(moved, client_id, export_ids, n).obligations;
            let place = moved_place(client, export_id);
            &&& after.contains_key(place) == moved.obligations.contains_key(place)
            &&& after.contains_key(place) ==> after[place] == moved.obligations[place]
        },
    decreases n,
{
    if n > 0 {
        let m = (n - 1) as nat;
        lemma_looked(moved, client_id, export_ids, m, client, export_id);
        lemma_moved_place(client_id, export_ids[m as int], client, export_id);
        let before = export_ids.take(m as int);
        let after = export_ids.take(n as int);
        assert(after =~= before.push(export_ids[m as int]));
        assert(after.contains(export_id) == (before.contains(export_id) || export_ids[m as int] == export_id)) by {
            if before.contains(export_id) {
                let k = before.index_of(export_id);
                assert(after[k] == export_id);
            }
            if export_ids[m as int] == export_id {
                assert(after[m as int] == export_id);
            }
            if after.contains(export_id) && export_ids[m as int] != export_id {
                let k = after.index_of(export_id);
                assert(before[k] == export_id);
            }
        }
    }
}

/// Where clients had time to reclaim, it either lasts or is over with a clean-up due; once that is done nothing is due any
/// more, and the time is not begun again by itself.
pub proof fn lemma_time_over(view: RuntimeView, now: u64, later: u64)
    ensures
        cleanup_due(view.clients, now) ==> !view.clients.recovery.in_grace(now),
        view.clients.recovery_had_grace && !view.clients.grace_cleanup_complete && view.clients.recovery.grace_until is Some
            ==> view.clients.recovery.in_grace(now) != cleanup_due(view.clients, now),
        now <= later && cleanup_due(view.clients, now) ==> cleanup_due(view.clients, later),
        !cleanup_due(grace_ended(view).clients, later),
        !grace_ended(view).clients.recovery.in_grace(later),
        forall|place: Seq<u8>| !#[trigger] grace_ended(view).state.recovered_replays.contains_key(place),
        forall|place: Seq<u8>| !#[trigger] grace_ended(view).state.recovered_opens.contains_key(place),
        forall|place: Seq<u8>| !#[trigger] grace_ended(view).state.recovered_locks.contains_key(place),
        forall|place: Seq<u8>| !#[trigger] grace_ended(view).state.reserved_recovered_opens.contains(place),
        grace_ended(view).files == view.files,
        grace_ended(view).state.stateids == view.state.stateids,
        grace_ended(view).clients.slots == view.clients.slots,
{
}

/// Numbers that are found free are free.
proof fn lemma_free(taken: Set<u64>, next: u64, tries: nat)
    ensures
        free_number(taken, next, tries).0 matches Some(id) ==> !taken.contains(id),
    decreases tries,
{
    if tries > 0 && taken.contains(next) {
        lemma_free(taken, number_after(next), (tries - 1) as nat);
    }
}

/// An access that is let in goes on under a number of its own, as what was asked for; once it is over it leaves nothing
/// behind, and all along the other accesses go on as they are.
pub proof fn lemma_access_returned(
    state: StateView,
    file: RuntimeFile,
    client: Option<u64>,
    access: DelegationKind,
    truncate: bool,
    limits: Nfs4Limits,
    id: u64,
)
    requires
        state.access_number(file, client, access, truncate, limits) == Ok::<u64, NfsStatus>(id),
    ensures
        !state.delegation_access.contains_key(id),
        access_matches(
            state.access_begun(file, client, access, truncate, limits),
            id,
            file,
            client,
            access,
            truncate,
        ),
        forall|other: u64|
            other != id ==> (#[trigger] state.access_begun(
                file,
                client,
                access,
                truncate,
                limits,
            ).delegation_access.contains_key(other) == state.delegation_access.contains_key(other)),
        state.access_begun(file, client, access, truncate, limits).access_ended(Some(id)).delegation_access
            == state.delegation_access,
        state.access_begun(file, client, access, truncate, limits).stateids == state.stateids,
{
    lemma_free(state.delegation_access.dom(), state.next_delegation_access, (limits.max_state_objects + 1) as nat);
    let begun = state.access_begun(file, client, access, truncate, limits);
    assert(begun.access_ended(Some(id)).delegation_access =~= state.delegation_access);
}

/// A registration that is not confirmed within the time of a lease is forgotten, and one that is younger is not. What is
/// confirmed stays, and so does every other name.
pub proof fn lemma_unconfirmed_forgotten(clients: ClientsView, now: u64, name: Seq<u8>)
    requires
        clients.slots.contains_key(name),
    ensures
        ({
            let slot = clients.slots[name];
            let after = clients.purged(now).slots;
            let age = if slot.unconfirmed matches Some(record) && now >= record.created_at {
                now - slot.unconfirmed->0.created_at
            } else {
                0
            };
            &&& slot.confirmed is Some ==> after.contains_key(name) && after[name].confirmed == slot.confirmed
            &&& slot.unconfirmed is Some && age < clients.lease_duration ==> after.contains_key(name)
                && after[name].unconfirmed == slot.unconfirmed
            &&& slot.unconfirmed is Some && age >= clients.lease_duration ==> after.contains_key(name) == (slot.confirmed
                is Some) && (after.contains_key(name) ==> after[name].unconfirmed is None)
        }),
        forall|client: u64| #[trigger]
            clients.purged(now).client_owners.contains_key(client) ==> clients.client_owners.contains_key(client)
                && clients.purged(now).client_owners[client] == clients.client_owners[client],
        clients.purged(now).leases == clients.leases,
{
}

/// Once a lock owner is forgotten it has no locks and no sequence; no state id of its locks names a living state. The locks
/// of other owners, and all opens, stay.
pub proof fn lemma_owner_forgotten(state: StateView, owner: OwnerKey, places: Seq<Seq<u8>>, place: Seq<u8>)
    requires
        owned_places(state, places, owner@),
        lock_states_ended(state, places, places.len()).1,
    ensures
        ({
            let after = owner_released(state, owner, places);
            &&& !owned_at(after, place, owner@)
            &&& !after.lock_owners.contains_key(place_of_owner(owner))
            &&& state.lock_by_state.contains_key(place) && state.lock_by_state[place].owner.owner@ != owner@
                ==> after.lock_by_state.contains_key(place) && after.lock_by_state[place] == state.lock_by_state[place]
            &&& state.lock_by_state.contains_key(place) && state.lock_by_state[place].owner.owner@ == owner@
                ==> !after.stateids.lives(state.lock_by_state[place].state_id.other@)
            &&& after.open_owners == state.open_owners
            &&& after.open_by_owner_file == state.open_by_owner_file
            &&& place != place_of_owner(owner) && state.lock_owners.contains_key(place) ==> after.lock_owners.contains_key(
                place,
            ) && after.lock_owners[place] == state.lock_owners[place]
        }),
{
    assert forall|i: int| 0 <= i < places.len() implies state.lock_by_state.contains_key(#[trigger] places[i]) by {
        assert(places.contains(places[i]));
    }
    lemma_locks_ended(state, places, places.len(), place);
    if owned_at(state, place, owner@) {
        assert(places.contains(place));
        assert(places.take(places.len() as int) =~= places);
    } else if state.lock_by_state.contains_key(place) {
        assert(!places.contains(place));
        assert(places.take(places.len() as int) =~= places);
    }
}

/// Lock states that ended are gone, and nothing else is.
proof fn lemma_locks_ended(state: StateView, places: Seq<Seq<u8>>, n: nat, place: Seq<u8>)
    requires
        places.no_duplicates(),
        n <= places.len(),
        forall|i: int| 0 <= i < places.len() ==> state.lock_by_state.contains_key(#[trigger] places[i]),
        lock_states_ended(state, places, n).1,
    ensures
        ({
            let after = lock_states_ended(state, places, n).0;
            let gone = places.take(n as int).contains(place);
            &&& gone ==> !after.lock_by_state.contains_key(place)
            &&& gone ==> !after.stateids.lives(state.lock_by_state[place].state_id.other@)
            &&& !gone ==> after.lock_by_state.contains_key(place) == state.lock_by_state.contains_key(place)
            &&& !gone && state.lock_by_state.contains_key(place) ==> after.lock_by_state[place]
                == state.lock_by_state[place]
            &&& after.lock_by_state.dom().subset_of(state.lock_by_state.dom())
            &&& after.open_owners == state.open_owners
            &&& after.lock_owners == state.lock_owners
            &&& after.open_by_owner_file == state.open_by_owner_file
        }),
        n < places.len() ==> lock_states_ended(state, places, n).0.lock_by_state.contains_key(places[n as int])
            == state.lock_by_state.contains_key(places[n as int]) && (state.lock_by_state.contains_key(places[n as int])
            ==> lock_states_ended(state, places, n).0.lock_by_state[places[n as int]]
            == state.lock_by_state[places[n as int]]),
    decreases n,
{
    if n > 0 {
        let m = (n - 1) as nat;
        lemma_locks_ended(state, places, m, place);
        if n < places.len() {
            lemma_locks_ended(state, places, m, places[n as int]);
            assert(!places.take(m as int).contains(places[n as int]));
        }
        let before = lock_states_ended(state, places, m).0;
        let after = lock_states_ended(state, places, n).0;
        let link = before.lock_by_state[places[m as int]];
        assert(places.take(n as int) =~= places.take(m as int).push(places[m as int]));
        assert(places.take(n as int).contains(place) == (places.take(m as int).contains(place) || places[m as int]
            == place)) by {
            let a = places.take(m as int);
            let b = places.take(n as int);
            if a.contains(place) {
                assert(b[a.index_of(place)] == place);
            }
            if places[m as int] == place {
                assert(b[m as int] == place);
            }
            if b.contains(place) && places[m as int] != place {
                let k = b.index_of(place);
                assert(a[k] == place);
            }
        }
        lemma_stays_ended(before.stateids, link.state_id.other@, state.lock_by_state[place].state_id.other@);
        if place == places[m as int] {
            assert(!places.take(m as int).contains(place)) by {
                if places.take(m as int).contains(place) {
                    let k = places.take(m as int).index_of(place);
                    assert(places[k] == places[m as int]);
                }
            }
        }
    }
}

/// What has ended stays so when something else ends, and what ends has ended.
proof fn lemma_stays_ended(table: TableView, ended: Seq<u8>, other: Seq<u8>)
    ensures
        !table.lives(other) ==> !table.retired(ended, StateDisposition::Closed).lives(other),
        !table.retired(ended, StateDisposition::Closed).lives(ended),
{
    let after = table.retired(ended, StateDisposition::Closed);
    assert(after.slot_of(other) == table.slot_of(other));
    assert(after.slot_of(ended) == table.slot_of(ended));
}

} // verus!
