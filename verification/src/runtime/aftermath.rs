//! What is left when something is over: a registration that waits, a client that was replaced or ended, an open that was
//! given up, a lock that was had.

use std::sync::Arc;

use vstd::prelude::*;

use crate::clients::ClientsView;
use crate::codec::ExportId;
use crate::files::{file_at, pending_without, pending_without_client, PendingOpen};
use crate::identity::{Principal, PrincipalView};
use crate::lease::{moved_place, MovedEntry, MovedLeaseObligation, MovedView};
use crate::protocol::{file_place, lemma_file_place, lock_place, owner_file_place, NfsStatus, ResOp, RuntimeFile, StateId};
use crate::recovery::{RecoveredOpen, RecoveredRuntimeState};
use crate::registry::{place_of_owner, place_views, OwnerReservation, ReservedOwnerKind, StateView};
use crate::runtime::close::{close_finished, close_ready, lemma_links_closed, ClosePlan};
use crate::runtime::complete::{open_finished, open_ready, OpenPlan};
use crate::runtime::confirm::{confirmed_clients, recovered_numbers, ConfirmPlan};
use crate::runtime::import::{first_clients, first_state, RuntimeConfig};
use crate::runtime::laws::lemma_number_fresh;
use crate::runtime::lock::{
    lock_asked, lock_error_settled, lock_finish_result, lock_finished, LockErrorPlan, LockPlan, LockWish,
};
use crate::runtime::open::{open_asked, target_reserved, OpenRequest, OpenReservation};
use crate::runtime::openstate::{change_finish_result, change_finished, renewed, OpenChangePlan};
use crate::runtime::register::{register_asked, register_planned, register_told, registered, RegisterPlan, SetClientIdArgs};
use crate::runtime::revoke::{ancestry_left, revoked, revoked_state, states_of};
use crate::runtime::unlock::{unlock_asked, unlock_finished, unlock_refused, UnlockPlan, UnlockVerdict};
use crate::runtime::{number_after, RuntimeView};
use crate::share::ShareReservation;
use crate::stateid::{
    client_retired, client_states, identity_bytes, slot_client, ActiveView, Slot, SlotState, StateDisposition,
    StateIdValidationError,
};

verus! {

/// A registration waits to be confirmed: until it is, what was confirmed under the name before stays so, unless the request
/// ends it. The client is known by its new number; the one that it takes the place of is not, and other names stay.
pub proof fn lemma_registration_waits(clients: ClientsView, plan: RegisterPlan, name: Seq<u8>)
    ensures
        ({
            let after = registered(clients, plan);
            let own = plan.record.owner@;
            &&& after.slots.contains_key(own)
            &&& after.slots[own].unconfirmed == Some(plan.record)
            &&& after.client_owners.contains_key(plan.record.client_id)
            &&& after.client_owners[plan.record.client_id] == plan.record.owner
            &&& plan.releasing is None && clients.slots.contains_key(own) ==> after.slots[own].confirmed
                == clients.slots[own].confirmed
            &&& !clients.slots.contains_key(own) ==> after.slots[own].confirmed is None
            &&& plan.releasing is None && name != own ==> after.slots.contains_key(name) == clients.slots.contains_key(name)
                && (clients.slots.contains_key(name) ==> after.slots[name] == clients.slots[name])
            &&& (plan.replacing matches Some(old) && old != plan.record.client_id && plan.replacing != plan.releasing)
                ==> !after.client_owners.contains_key(plan.replacing->0)
            &&& plan.releasing is None ==> after.leases == clients.leases
        }),
{
}

/// A client that is replaced is over once the new registration is confirmed: it is not known, has nothing to reclaim and no
/// duty, and is told that its lease is over. The new one is confirmed, and nothing waits under the name.
pub proof fn lemma_replaced_over(clients: ClientsView, plan: ConfirmPlan, old: u64, other: u64)
    requires
        plan.replaced == Some(old),
        plan.record.client_id != old,
    ensures
        ({
            let after = confirmed_clients(clients, plan);
            &&& !after.client_owners.contains_key(old)
            &&& after.expired.contains(old)
            &&& !after.current_to_previous.contains_key(old)
            &&& forall|place: Seq<u8>| #[trigger]
                after.moved_leases.obligations.contains_key(place) ==> after.moved_leases.obligations[place].client_id
                    != old
            &&& after.slots.contains_key(plan.name@)
            &&& after.slots[plan.name@].confirmed == Some(plan.record)
            &&& after.slots[plan.name@].unconfirmed is None
            &&& other != old ==> after.client_owners.contains_key(other) == clients.client_owners.contains_key(other)
            &&& other != old ==> after.expired.contains(other) == clients.expired.contains(other)
        }),
{
}

/// An open in a slot is among the states of its client.
proof fn lemma_open_listed(boot_tag: u32, slots: Seq<Slot>, client: u64, n: nat, i: int) -> (k: int)
    requires
        0 <= i < n <= slots.len(),
        slots[i].state is Active,
        (slots[i].state->Active_0).client == client,
    ensures
        0 <= k < client_states(boot_tag, slots, client, n).len(),
        client_states(boot_tag, slots, client, n)[k].other == identity_bytes(boot_tag, i as u32, slots[i].generation),
        client_states(boot_tag, slots, client, n)[k].payload == (slots[i].state->Active_0).payload,
    decreases n,
{
    let m = (n - 1) as nat;
    let before = client_states(boot_tag, slots, client, m);
    let after = client_states(boot_tag, slots, client, n);
    if i == m {
        assert(after == before.push(after.last()));
        before.len() as int
    } else {
        let k = lemma_open_listed(boot_tag, slots, client, m, i);
        assert(after[k] == before[k]);
        k
    }
}

/// Opens that have ended have no ancestor.
proof fn lemma_ancestry_gone(map: Map<Seq<u8>, [u8; 12]>, states: Seq<ActiveView>, n: nat, k: int)
    requires
        n <= states.len(),
        0 <= k < n,
        states[k].payload is Open,
    ensures
        !ancestry_left(map, states, n).contains_key(states[k].other),
    decreases n,
{
    if k < n - 1 {
        lemma_ancestry_gone(map, states, (n - 1) as nat, k);
    }
}

/// Once the state of a client has ended, nothing can be reclaimed through an open that it had reclaimed.
pub proof fn lemma_ended_reclaims_nothing(state: StateView, client: u64, disposition: StateDisposition, i: int)
    requires
        0 <= i < state.stateids.slots.len(),
        state.stateids.slots[i].state is Active,
        (state.stateids.slots[i].state->Active_0).client == client,
        (state.stateids.slots[i].state->Active_0).payload is Open,
    ensures
        !revoked_state(state, client, disposition).reclaimed_open_ancestry.contains_key(
            identity_bytes(state.stateids.boot_tag, i as u32, state.stateids.slots[i].generation),
        ),
{
    let table = state.stateids;
    let states = states_of(state, client);
    let k = lemma_open_listed(table.boot_tag, table.slots, client, table.slots.len(), i);
    lemma_ancestry_gone(state.reclaimed_open_ancestry, states, states.len(), k);
}

/// A server starts with nobody registered and nobody ended. Clients can reclaim for as long as the server gives them, and
/// only where there is something to reclaim; whoever does not look for a file system that has moved is left alone after
/// two leases.
pub proof fn lemma_start(config: RuntimeConfig, grace: bool, recovered: Map<Seq<u8>, Set<u64>>, now: u64, later: u64, client: u64)
    requires
        now <= later,
        now + config.grace_duration <= u64::MAX,
        2 * config.lease_duration <= u64::MAX,
    ensures
        ({
            let clients = first_clients(config, grace, recovered, now);
            &&& !clients.client_owners.contains_key(client)
            &&& !clients.expired.contains(client)
            &&& !clients.pending_expiry.contains(client)
            &&& !clients.recovery.reclaimable.contains(client)
            &&& !clients.leases.renewed.contains_key(client)
            &&& clients.recovery.in_grace(later) <==> grace && later < now + config.grace_duration
            &&& clients.moved_leases.legacy_timeout == 2 * config.lease_duration
            &&& clients.leases.duration == config.lease_duration
            &&& clients.recovered_clients == recovered
            &&& clients.boot_tag == config.boot_tag
        }),
{
}

/// Numbers go on by one and are never zero.
pub proof fn lemma_numbers_go_on(number: u64)
    ensures
        number_after(number) != 0,
        number < u64::MAX ==> number_after(number) == number + 1,
{
}

/// The access that a request for a lock began is over when the request is, whether the lock is had or not.
pub proof fn lemma_lock_access_over(view: RuntimeView, plan: LockPlan, persisted: bool, id: u64)
    requires
        plan.access == Some(id),
    ensures
        !lock_finished(view, plan, persisted).state.delegation_access.contains_key(id),
{
}

/// The pending opens of a file without one.
proof fn lemma_not_pending(list: Seq<PendingOpen>, reservation: u64, n: nat)
    requires
        n <= list.len(),
    ensures
        forall|i: int|
            0 <= i < pending_without(list, reservation, n).len() ==> (#[trigger] pending_without(list, reservation, n)[i]).reservation
                != reservation,
    decreases n,
{
    if n > 0 {
        let m = (n - 1) as nat;
        lemma_not_pending(list, reservation, m);
        let before = pending_without(list, reservation, m);
        let after = pending_without(list, reservation, n);
        assert forall|i: int| 0 <= i < after.len() implies (#[trigger] after[i]).reservation != reservation by {
            if i < before.len() {
                assert(after[i] == before[i]);
            }
        }
    }
}

/// An open that could not be written to the journal leaves nothing behind: the state id that it was to have names nothing,
/// it is not pending at its file, and what it was to reclaim can be reclaimed by another request.
pub proof fn lemma_open_given_up(view: RuntimeView, plan: OpenPlan)
    ensures
        ({
            let after = open_finished(view, plan, false);
            let file = file_at(after.files, plan.target.file);
            &&& plan.target.existing_state is None ==> !after.state.stateids.lives(plan.state_id.other@)
            &&& forall|i: int|
                0 <= i < file.pending_opens.len() ==> (#[trigger] file.pending_opens[i]).reservation
                    != plan.target.reservation
            &&& plan.target.recovered_open_token matches Some(token) ==> !after.state.reserved_recovered_opens.contains(
                token@,
            )
            &&& after.state.recovered_opens == view.state.recovered_opens
            &&& after.state.open_by_owner_file == view.state.open_by_owner_file
        }),
{
    let place = file_place(plan.target.file);
    if view.files.contains_key(place) {
        lemma_not_pending(view.files[place].pending_opens, plan.target.reservation, view.files[place].pending_opens.len());
    }
    let table = view.state.stateids;
    let ended = table.retired(plan.state_id.other@, StateDisposition::Closed);
    assert(ended.slot_of(plan.state_id.other@) == table.slot_of(plan.state_id.other@));
}

/// There are never more clients than the server takes: a registration that is taken up finds room, or takes the place of
/// another one.
pub proof fn lemma_clients_bounded(
    view: RuntimeView,
    args: SetClientIdArgs,
    principal: Arc<Principal>,
    now: u64,
    plan: RegisterPlan,
)
    requires
        register_told(view, args, principal@, now) is None,
        register_planned(view, args, principal, now, plan),
        !plan.known,
        view.clients.purged(now).client_owners.dom().finite(),
        plan.replacing matches Some(old) ==> view.clients.purged(now).client_owners.contains_key(old),
        plan.releasing matches Some(old) ==> view.clients.purged(now).client_owners.contains_key(old),
    ensures
        registered(view.clients.purged(now), plan).client_owners.dom().len() <= view.limits.max_clients,
{
    let clients = view.clients.purged(now);
    let owners = clients.client_owners;
    lemma_number_fresh(clients, args, principal@);
    let released = match plan.releasing {
        Some(client) => owners.remove(client),
        None => owners,
    };
    let replaced = if plan.replacing is Some && plan.replacing != plan.releasing {
        released.remove(plan.replacing->0)
    } else {
        released
    };
    let after = registered(clients, plan).client_owners;
    assert(after == replaced.insert(plan.record.client_id, plan.record.owner));
    assert(released.dom() =~= match plan.releasing {
        Some(client) => owners.dom().remove(client),
        None => owners.dom(),
    });
    assert(replaced.dom() =~= if plan.replacing is Some && plan.replacing != plan.releasing {
        released.dom().remove(plan.replacing->0)
    } else {
        released.dom()
    });
    assert(after.dom() =~= replaced.dom().insert(plan.record.client_id));
}

/// A client that is told of a file system that has moved owes a look for it, from the first time that it is told; where it
/// cannot be noted the client is told to come again. What else is owed stays.
pub proof fn lemma_noted(tracker: MovedView, client_id: u64, export_id: ExportId, now: u64, place: Seq<u8>)
    ensures
        ({
            let (after, done) = tracker.noted(client_id, export_id, now);
            let own = moved_place(client_id, export_id);
            &&& done is Ok <==> after.obligations.contains_key(own)
            &&& done matches Err(status) ==> status == NfsStatus::Resource
            &&& done is Ok && !tracker.obligations.contains_key(own) ==> after.obligations[own] == (MovedEntry {
                client_id,
                export_id,
                obligation: MovedLeaseObligation::Pending { first_notified: now },
            })
            &&& done is Ok && !tracker.obligations.contains_key(own) && tracker.legacy_timeout > 0 ==> after.live(
                client_id,
                now,
            )
            &&& place != own ==> after.obligations.contains_key(place) == tracker.obligations.contains_key(place)
            &&& place != own && tracker.obligations.contains_key(place) ==> after.obligations[place].client_id
                == tracker.obligations[place].client_id && after.obligations[place].export_id
                == tracker.obligations[place].export_id
        }),
{
    let (after, done) = tracker.noted(client_id, export_id, now);
    let own = moved_place(client_id, export_id);
    if done is Ok {
        assert(after.obligations.contains_key(own));
    }
}

/// The slots of a client that has ended say how it ended.
proof fn lemma_slots_ended(slots: Seq<Slot>, client: u64, disposition: StateDisposition, n: nat, i: int)
    requires
        0 <= i < n <= slots.len(),
    ensures
        client_retired(slots, client, disposition, n).len() == n,
        slot_client(slots[i]) == Some(client) ==> client_retired(slots, client, disposition, n)[i] == (Slot {
            generation: slots[i].generation,
            state: SlotState::Retired(disposition),
        }),
    decreases n,
{
    let m = (n - 1) as nat;
    let before = client_retired(slots, client, disposition, m);
    if m == 0 {
        assert(before.len() == 0);
    } else if i < m {
        lemma_slots_ended(slots, client, disposition, m, i);
    } else {
        lemma_slots_ended(slots, client, disposition, m, 0);
    }
    let after = client_retired(slots, client, disposition, n);
    assert(after == before.push(after.last()));
}

/// The pending opens of a file without those of a client.
proof fn lemma_none_of_client(list: Seq<PendingOpen>, client: u64, n: nat)
    requires
        n <= list.len(),
    ensures
        forall|i: int|
            0 <= i < pending_without_client(list, client, n).len() ==> (#[trigger] pending_without_client(
                list,
                client,
                n,
            )[i]).owner.client_id != client,
    decreases n,
{
    if n > 0 {
        let m = (n - 1) as nat;
        lemma_none_of_client(list, client, m);
        let before = pending_without_client(list, client, m);
        let after = pending_without_client(list, client, n);
        assert forall|i: int| 0 <= i < after.len() implies (#[trigger] after[i]).owner.client_id != client by {
            if i < before.len() {
                assert(after[i] == before[i]);
            }
        }
    }
}

/// The state ids of a client whose state has ended are answered by how it ended, and nothing of it is pending at any file.
pub proof fn lemma_ended_answered(view: RuntimeView, client: u64, disposition: StateDisposition, i: int, file: RuntimeFile)
    requires
        0 <= i < view.state.stateids.slots.len(),
    ensures
        ({
            let after = revoked(view, client, disposition);
            let slot = after.state.stateids.slots[i];
            &&& view.state.stateids.slots[i].state matches SlotState::Active(record) ==> (record.client == client
                ==> slot.state == SlotState::Retired(disposition) && slot.generation
                == view.state.stateids.slots[i].generation)
            &&& forall|k: int|
                0 <= k < file_at(after.files, file).pending_opens.len() ==> (#[trigger] file_at(
                    after.files,
                    file,
                ).pending_opens[k]).owner.client_id != client
        }),
{
    lemma_slots_ended(view.state.stateids.slots, client, disposition, view.state.stateids.slots.len(), i);
    let place = file_place(file);
    if view.files.contains_key(place) {
        lemma_none_of_client(view.files[place].pending_opens, client, view.files[place].pending_opens.len());
    }
}

/// An owner that has been confirmed stays so; one that has not is confirmed by an open that asks for no confirmation, and
/// by nothing less.
pub proof fn lemma_owner_confirmed(view: RuntimeView, plan: OpenPlan)
    requires
        open_ready(view, plan),
    ensures
        ({
            let place = place_of_owner(plan.target.owner.owner);
            let after = open_finished(view, plan, true).state;
            &&& after.open_owners.contains_key(place)
            &&& after.open_owners[place].confirmed == (view.state.open_owners[place].confirmed
                || !plan.confirmation_required)
        }),
{
}

/// An open that is confirmed confirms its owner, and the owner's open of the file is then found by the state id that is
/// answered.
pub proof fn lemma_confirmation_taken(view: RuntimeView, plan: OpenChangePlan)
    requires
        change_finish_result(view, plan, true) is Ok,
        plan.reservation.owner.kind == ReservedOwnerKind::Open,
    ensures
        ({
            let owner = plan.reservation.owner.owner;
            let place = place_of_owner(owner);
            let link = owner_file_place(owner@, plan.reservation.file);
            let after = change_finished(view, plan, true).state;
            &&& after.open_owners.contains_key(place)
            &&& !plan.narrows ==> after.open_owners[place].confirmed
            &&& plan.narrows ==> after.open_owners[place].confirmed == view.state.open_owners[place].confirmed
            &&& after.open_by_owner_file.contains_key(link)
            &&& after.open_by_owner_file[link].state_id == plan.next
            &&& after.open_by_owner_file[link].file == plan.reservation.file
        }),
{
}

/// A client that is confirmed may reclaim where it was there before: then it is linked with the numbers that it had.
pub proof fn lemma_confirmed_reclaims(clients: ClientsView, plan: ConfirmPlan)
    requires
        !clients.recovery.reclaimable.contains(plan.record.client_id),
        !clients.current_to_previous.contains_key(plan.record.client_id),
        plan.replaced != Some(plan.record.client_id),
    ensures
        ({
            let after = confirmed_clients(clients, plan);
            let client = plan.record.client_id;
            let had = recovered_numbers(clients, plan.record);
            &&& after.recovery.reclaimable.contains(client) <==> plan.record.reclaimable && exists|number: u64| #[trigger]
                had.contains(number)
            &&& after.recovery.reclaimable.contains(client) ==> after.current_to_previous.contains_key(client)
                && after.current_to_previous[client] == had
            &&& !after.recovery.reclaimable.contains(client) ==> !after.current_to_previous.contains_key(client)
            &&& after.recovery.grace_until == clients.recovery.grace_until
        }),
{
    let had = recovered_numbers(clients, plan.record);
    if forall|number: u64| !had.contains(number) {
        assert(had =~= Set::<u64>::empty());
    }
}

/// Locks that are had are found by the state id that is answered, and a first lock counts as one more of its owner's; more
/// of the same do not.
pub proof fn lemma_lock_counted(view: RuntimeView, plan: LockPlan)
    requires
        lock_finish_result(view, plan, true) is Granted,
        plan.reservation.kind == ReservedOwnerKind::Lock,
        plan.reservation.owner == plan.owner.owner,
        plan.open_reservation matches Some(open) ==> open.kind == ReservedOwnerKind::Open,
        view.state.lock_owners.contains_key(place_of_owner(plan.owner.owner)),
        view.state.lock_owners[place_of_owner(plan.owner.owner)].active_states < usize::MAX,
    ensures
        ({
            let after = lock_finished(view, plan, true).state;
            let link = lock_place(plan.owner@, plan.file);
            let place = place_of_owner(plan.owner.owner);
            &&& after.lock_by_state.contains_key(link)
            &&& after.lock_by_state[link].state_id == plan.state_id
            &&& after.lock_by_state[link].owner == plan.owner
            &&& after.lock_by_state[link].file == plan.file
            &&& after.lock_owners.contains_key(place)
            &&& after.lock_owners[place].active_states == view.state.lock_owners[place].active_states + if plan.open_reservation
                is Some {
                1int
            } else {
                0int
            }
        }),
{
}

/// Locks that are given back are still found by the state id that is answered, and count as before.
pub proof fn lemma_unlock_counted(view: RuntimeView, plan: UnlockPlan)
    requires
        view.state.stateids.previewed(plan.requested) == Ok::<StateId, StateIdValidationError>(plan.state_id),
        view.state.awaits(plan.reservation),
        plan.reservation.kind == ReservedOwnerKind::Lock,
    ensures
        ({
            let after = unlock_finished(view, plan, true).state;
            let link = lock_place(plan.owner@, plan.file);
            let place = place_of_owner(plan.reservation.owner);
            &&& after.lock_by_state.contains_key(link)
            &&& after.lock_by_state[link].state_id == plan.state_id
            &&& after.lock_by_state[link].owner == plan.owner
            &&& after.lock_owners[place].active_states == view.state.lock_owners[place].active_states
        }),
{
}

/// A lock state that ends with its open is found no more, its state id is a bad one, and its owner has one less.
pub proof fn lemma_link_ended(state: StateView, place: Seq<u8>)
    requires
        state.lock_by_state.contains_key(place),
        state.lock_owners.contains_key(place_of_owner(state.lock_by_state[place].owner.owner)),
        state.lock_owners[place_of_owner(state.lock_by_state[place].owner.owner)].active_states > 0,
    ensures
        ({
            let link = state.lock_by_state[place];
            let owner = place_of_owner(link.owner.owner);
            let after = state.link_closed(place);
            &&& !after.lock_by_state.contains_key(place)
            &&& !after.stateids.lives(link.state_id.other@)
            &&& after.lock_owners.contains_key(owner)
            &&& after.lock_owners[owner].active_states == state.lock_owners[owner].active_states - 1
            &&& after.lock_owners[owner].sequence == state.lock_owners[owner].sequence
        }),
{
    let link = state.lock_by_state[place];
    let ended = state.stateids.retired(link.state_id.other@, StateDisposition::Closed);
    assert(ended.slot_of(link.state_id.other@) == state.stateids.slot_of(link.state_id.other@));
}

/// Through an open that is closed nothing can be reclaimed, and its owner has one open less.
pub proof fn lemma_closed_reclaims_nothing(view: RuntimeView, plan: ClosePlan)
    requires
        close_ready(view, plan),
    ensures
        !close_finished(view, plan, true).state.reclaimed_open_ancestry.contains_key(plan.reservation.state_id.other@),
        ({
            let place = place_of_owner(plan.reservation.owner.owner);
            let after = close_finished(view, plan, true).state;
            &&& after.open_owners.contains_key(place)
            &&& after.open_owners[place].active_states == view.state.open_owners[place].active_states - 1
        }),
{
    let state = view.state;
    let r = plan.reservation;
    let ended = StateView {
        stateids: state.stateids.transitioned(r.state_id).retired(plan.next.other@, StateDisposition::Closed),
        open_by_owner_file: state.open_by_owner_file.remove(owner_file_place(r.owner.owner@, r.file)),
        ..state
    };
    lemma_links_closed(ended, place_views(plan.derived@), plan.derived@.len());
}

/// An open that is new counts as one more of its owner's; one that is opened again does not.
pub proof fn lemma_open_counted(view: RuntimeView, plan: OpenPlan)
    requires
        open_ready(view, plan),
        view.state.open_owners[place_of_owner(plan.target.owner.owner)].active_states < usize::MAX,
    ensures
        ({
            let place = place_of_owner(plan.target.owner.owner);
            let after = open_finished(view, plan, true).state;
            after.open_owners[place].active_states == view.state.open_owners[place].active_states + if plan.target.existing_state
                is None {
                1int
            } else {
                0int
            }
        }),
{
}

/// A server starts with what it found of the run before, all of it to be reclaimed and none of it being reclaimed, and with
/// no state of its own but room for as much as it takes.
pub proof fn lemma_first_state(config: RuntimeConfig, state: StateView, recovered: RecoveredRuntimeState, place: Seq<u8>)
    requires
        first_state(config, state, recovered),
    ensures
        state.recovered_opens == recovered.opens@,
        state.recovered_locks == recovered.locks@,
        state.recovered_replays == recovered.replays@,
        state.recovered_cleanup_keys == recovered.cleanup_keys@,
        !state.reserved_recovered_opens.contains(place),
        !state.open_owners.contains_key(place),
        !state.lock_owners.contains_key(place),
        !state.open_by_owner_file.contains_key(place),
        !state.lock_by_state.contains_key(place),
        !state.reclaimed_open_ancestry.contains_key(place),
        state.stateids.slots.len() == 0,
        state.stateids.capacity == config.limits.max_state_objects,
        state.stateids.boot_tag == config.boot_tag,
        state.reserved_states == 0,
        state.pending_pin_releases.len() == 0,
        state.next_reservation != 0,
        state.next_pin_release_id != 0,
{
}

/// Where the answer to a refused lock finds that the open's owner does not wait for it, neither owner has the request under
/// way afterwards.
pub proof fn lemma_refusal_given_up(state: StateView, plan: LockErrorPlan, open: OwnerReservation)
    requires
        plan.open_reservation == Some(open),
        open.kind == ReservedOwnerKind::Open,
        plan.reservation.kind == ReservedOwnerKind::Lock,
        !state.awaits(open),
    ensures
        !lock_error_settled(state, plan).1,
        !lock_error_settled(state, plan).0.awaits(open),
        !lock_error_settled(state, plan).0.awaits(plan.reservation),
{
}

/// A request to give locks back that is refused leaves its owner's sequence as it was where it did not reach the owner, and
/// is the owner's to keep where it did.
pub proof fn lemma_unlock_refusal(status: NfsStatus)
    ensures
        ({
            let apart = status == NfsStatus::StaleClientId || status == NfsStatus::StaleStateId || status
                == NfsStatus::BadStateId || status == NfsStatus::BadSequenceId || status == NfsStatus::BadXdr || status
                == NfsStatus::Resource || status == NfsStatus::NoFileHandle || status == NfsStatus::Moved;
            &&& apart ==> unlock_refused(status) == UnlockVerdict::Answered(ResOp::LockUnlock(Err(status)), true)
            &&& !apart ==> unlock_refused(status) == UnlockVerdict::Recorded(status)
        }),
{
}

/// A client in good standing: registered by the sender, not ended, and with a lease that lasts.
pub open spec fn in_standing(clients: ClientsView, client: u64, principal: PrincipalView, now: u64) -> bool {
    &&& !clients.expired.contains(client)
    &&& clients.confirmed(client, principal, NfsStatus::StaleClientId) is Ok
    &&& clients.leases.renewed.contains_key(client) ==> clients.leases.duration > 0 && now
        < clients.leases.renewed[client] + clients.leases.duration
}

/// The lease of a client is renewed at that time, and no other one is.
pub open spec fn renewed_now(before: ClientsView, after: ClientsView, client: u64, now: u64) -> bool {
    &&& after.leases.renewed.contains_key(client)
    &&& after.leases.renewed[client] == now
    &&& forall|other: u64|
        other != client ==> (#[trigger] after.leases.renewed.contains_key(other) == before.leases.renewed.contains_key(other))
    &&& forall|other: u64| #[trigger]
        before.leases.renewed.contains_key(other) && other != client ==> after.leases.renewed[other]
            == before.leases.renewed[other]
}

/// Whatever a client in good standing asks for renews its lease: an open, a lock, locks given back, or that a lock owner be
/// forgotten. The lease of no other client changes.
pub proof fn lemma_requests_renew(
    view: RuntimeView,
    request: OpenRequest,
    wish: LockWish,
    access: Option<u64>,
    client: u64,
    principal: PrincipalView,
    now: u64,
)
    requires
        in_standing(view.clients, client, principal, now),
    ensures
        request.owner.client_id == client ==> renewed_now(
            view.clients,
            open_asked(view, request, principal, now).clients,
            client,
            now,
        ),
        renewed_now(view.clients, lock_asked(view, client, principal, wish, access, now).clients, client, now),
        renewed_now(view.clients, unlock_asked(view, client, principal, now).clients, client, now),
        renewed_now(view.clients, renewed(view, client, principal, now).clients, client, now),
        open_asked(view, request, principal, now).files == view.files,
        lock_asked(view, client, principal, wish, access, now).files == view.files,
        unlock_asked(view, client, principal, now).state == view.state,
        renewed(view, client, principal, now).state == view.state,
{
    assert(!view.clients.leases.lapsed(client, now));
}

/// Each registration has a confirmation of its own: what it is made of is not used again.
pub proof fn lemma_confirmations_go_on(view: RuntimeView, args: SetClientIdArgs, principal: PrincipalView, now: u64)
    requires
        register_told(view, args, principal, now) is None,
    ensures
        register_asked(view, args, principal, now).next_confirmation == number_after(view.clients.next_confirmation),
        register_asked(view, args, principal, now).next_confirmation != view.clients.next_confirmation,
        register_asked(view, args, principal, now).leases == view.clients.leases,
{
}

/// An open that has found its target waits at the file, with what it will allow and deny; what else is at the file stays.
pub proof fn lemma_target_waits(
    view: RuntimeView,
    r: OpenReservation,
    file: RuntimeFile,
    recovered: Option<RecoveredOpen>,
    combined: ShareReservation,
    other: RuntimeFile,
)
    ensures
        ({
            let before = file_at(view.files, file);
            let after = file_at(target_reserved(view, r, file, recovered, combined).files, file);
            &&& after.pending_opens.len() == before.pending_opens.len() + 1
            &&& after.pending_opens.last() == (PendingOpen {
                reservation: r.reservation,
                owner: r.owner.owner,
                access: combined.access,
                deny: combined.deny,
            })
            &&& forall|i: int|
                0 <= i < before.pending_opens.len() ==> #[trigger] after.pending_opens[i] == before.pending_opens[i]
            &&& after.shares == before.shares
            &&& after.locks == before.locks
            &&& other != file ==> file_at(target_reserved(view, r, file, recovered, combined).files, other) == file_at(
                view.files,
                other,
            )
        }),
{
    lemma_file_place(other, file);
}

} // verus!
