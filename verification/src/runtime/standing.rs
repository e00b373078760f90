//! What it takes to be a client: to be registered and confirmed by the same sender, and to renew the lease in time.

use std::sync::Arc;

use vstd::prelude::*;

use crate::clients::{authenticated, unauthenticated, ClientsView};
use crate::identity::{same_identity, Principal, PrincipalView};
use crate::lease::{MovedEntry, MovedLeaseObligation};
use crate::protocol::NfsStatus;
use crate::registry::{Owner, StateView};
use crate::runtime::confirm::{confirm_told, confirmed_clients, ConfirmPlan, ConfirmStep};
use crate::runtime::expiry::expiry_begun;
use crate::runtime::register::{
    confirmed_under, has_running, has_state, owner_busy, owners_busy, register_planned, register_told,
    RegisterPlan, SetClientIdArgs, SetClientIdResult,
};
use crate::runtime::RuntimeView;
use crate::stateid::{client_states, Slot, SlotState};

verus! {

/// Two senders are one client: both nobody; both with the same user, groups and machine; or both with the same name under
/// the same mechanism, whatever the version and the protection of the request.
pub proof fn lemma_same_sender(a: PrincipalView, b: PrincipalView)
    ensures
        same_identity(a, b) == match a {
            PrincipalView::Anonymous => b is Anonymous,
            PrincipalView::AuthSys { uid, gid, supplementary_gids, machine_name } => {
                &&& b is AuthSys
                &&& b->uid == uid
                &&& b->gid == gid
                &&& b->supplementary_gids == supplementary_gids
                &&& b->machine_name == machine_name
            },
            PrincipalView::Gss { canonical_name, mechanism, .. } => {
                &&& b is Gss
                &&& b->canonical_name == canonical_name
                &&& b->mechanism == mechanism
            },
        },
        same_identity(a, a),
        same_identity(a, b) == same_identity(b, a),
{
}

/// The client is registered and confirmed, by that sender.
pub open spec fn registered_by(clients: ClientsView, client: u64, principal: PrincipalView) -> bool {
    &&& clients.client_owners.contains_key(client)
    &&& clients.slots.contains_key(clients.client_owners[client]@)
    &&& clients.slots[clients.client_owners[client]@].confirmed matches Some(record)
    &&& record.client_id == client
    &&& same_identity(record.principal@, principal)
}

/// The client has renewed its lease in time, or has none to renew yet.
pub open spec fn in_time(clients: ClientsView, client: u64, now: u64) -> bool {
    clients.leases.renewed.contains_key(client) ==> now < clients.leases.renewed[client] + clients.leases.duration
}

/// The client was told that a file system has moved, has not looked for it since, and still has time to.
pub open spec fn owes_a_look(entry: MovedEntry, client: u64, timeout: u64, now: u64) -> bool {
    entry.client_id == client && (entry.obligation matches MovedLeaseObligation::Pending { first_notified } && now
        < first_notified + timeout)
}

/// A client that asks goes on exactly where it has not been ended, is registered by the sender, has renewed its lease in
/// time, and owes no look at a file system that has moved. Otherwise it is told which of these is missing, in that order,
/// and only the last kind of refusal names the client.
pub proof fn lemma_standing(clients: ClientsView, client: u64, principal: PrincipalView, identity_error: NfsStatus, now: u64)
    requires
        clients.leases.duration > 0,
        clients.moved_leases.legacy_timeout > 0,
    ensures
        ({
            let refused = clients.touch_refused(client, principal, identity_error, now);
            let owing = exists|place: Seq<u8>| #[trigger]
                clients.moved_leases.obligations.contains_key(place) && owes_a_look(
                    clients.moved_leases.obligations[place],
                    client,
                    clients.moved_leases.legacy_timeout,
                    now,
                );
            &&& refused is None <==> !clients.expired.contains(client) && registered_by(clients, client, principal)
                && in_time(clients, client, now) && !owing
            &&& clients.expired.contains(client) ==> refused == Some(unauthenticated(NfsStatus::Expired))
            &&& !clients.expired.contains(client) && registered_by(clients, client, principal) && !in_time(
                clients,
                client,
                now,
            ) ==> refused == Some(unauthenticated(NfsStatus::Expired))
            &&& !clients.expired.contains(client) && registered_by(clients, client, principal) && in_time(
                clients,
                client,
                now,
            ) && owing ==> refused == Some(authenticated(NfsStatus::LeaseMoved, client))
            &&& !clients.expired.contains(client) && !clients.client_owners.contains_key(client) ==> refused == Some(
                unauthenticated(NfsStatus::StaleClientId),
            )
        }),
{
    let moved = clients.moved_leases;
    if moved.live(client, now) {
        let place = choose|place: Seq<u8>| #[trigger]
            moved.obligations.contains_key(place) && moved.obligations[place].client_id == client && crate::lease::aged(
                moved.obligations[place],
                now,
                moved.legacy_timeout,
            ).obligation is Pending;
        assert(owes_a_look(moved.obligations[place], client, moved.legacy_timeout, now));
    }
    if exists|place: Seq<u8>| #[trigger]
        moved.obligations.contains_key(place) && owes_a_look(
            moved.obligations[place],
            client,
            moved.legacy_timeout,
            now,
        ) {
        let place = choose|place: Seq<u8>| #[trigger]
            moved.obligations.contains_key(place) && owes_a_look(
                moved.obligations[place],
                client,
                moved.legacy_timeout,
                now,
            );
        assert(crate::lease::aged(moved.obligations[place], now, moved.legacy_timeout).obligation is Pending);
    }
}

/// A client that asks has its lease renewed, and with it the time until which it may ask again; no other client's lease
/// changes. One that is late is told so, and stays late.
pub proof fn lemma_renewal_lasts(
    clients: ClientsView,
    client: u64,
    principal: PrincipalView,
    identity_error: NfsStatus,
    now: u64,
    later: u64,
    other: u64,
)
    requires
        clients.leases.duration > 0,
        !clients.expired.contains(client),
        registered_by(clients, client, principal),
        now <= later,
    ensures
        ({
            let after = clients.touched(client, principal, identity_error, now);
            &&& in_time(clients, client, now) ==> after.leases.renewed.contains_key(client)
                && after.leases.renewed[client] == now
            &&& in_time(clients, client, now) ==> (in_time(after, client, later) <==> later < now
                + clients.leases.duration)
            &&& !in_time(clients, client, now) ==> after == clients && after.touch_refused(
                client,
                principal,
                identity_error,
                later,
            ) == Some(unauthenticated(NfsStatus::Expired))
            &&& other != client ==> after.leases.renewed.contains_key(other) == clients.leases.renewed.contains_key(other)
                && after.leases.renewed[other] == clients.leases.renewed[other]
        }),
{
}

/// When leases are looked through, the clients whose state has to end are those that had to before, and those that have
/// not renewed their lease in time; those in time keep theirs.
pub proof fn lemma_expiry_exact(before: ClientsView, after: ClientsView, now: u64, maximum: usize, client: u64)
    requires
        before.leases.duration > 0,
        expiry_begun(before, after, now, maximum),
    ensures
        after.pending_expiry.contains(client) <==> before.pending_expiry.contains(client) || !in_time(before, client, now),
        after.leases.renewed.contains_key(client) <==> before.leases.renewed.contains_key(client) && in_time(
            before,
            client,
            now,
        ),
        after.leases.renewed.contains_key(client) ==> after.leases.renewed[client] == before.leases.renewed[client],
        !in_time(before, client, now) ==> after.expired.contains(client),
        after.expired.contains(client) ==> before.expired.contains(client) || !in_time(before, client, now),
{
    let lapsed: Set<u64> = Set::new(|c: u64| before.leases.lapsed(c, now));
    assert(lapsed.contains(client) == !in_time(before, client, now));
    assert((before.expired + lapsed).contains(client) == (before.expired.contains(client) || lapsed.contains(client)));
    if lapsed.contains(client) {
        assert((before.expired + lapsed).intersect(after.pending_expiry).contains(client));
    }
}

/// The slot holds a living state of the client.
pub open spec fn slot_of_client(slot: Slot, client: u64) -> bool {
    slot.state matches SlotState::Active(record) && record.client == client
}

/// The states of a client are there where a slot holds one.
proof fn lemma_states_listed(boot_tag: u32, slots: Seq<Slot>, client: u64, n: nat)
    requires
        n <= slots.len(),
    ensures
        client_states(boot_tag, slots, client, n).len() > 0 <==> exists|i: int|
            0 <= i < n && slot_of_client(#[trigger] slots[i], client),
    decreases n,
{
    if n > 0 {
        lemma_states_listed(boot_tag, slots, client, (n - 1) as nat);
        if slot_of_client(slots[n - 1], client) {
            assert(0 <= n - 1 < n && slot_of_client(slots[n - 1], client));
        }
        if exists|i: int| 0 <= i < n - 1 && slot_of_client(#[trigger] slots[i], client) {
            let i = choose|i: int| 0 <= i < n - 1 && slot_of_client(#[trigger] slots[i], client);
            assert(0 <= i < n && slot_of_client(slots[i], client));
        }
    }
}

/// The owner is the client's, and has a request under way or a state.
pub open spec fn owner_active(owner: Owner, client: u64) -> bool {
    owner.key.client_id == client && (owner.sequence.pending is Some || owner.active_states > 0)
}

/// A client has state where it has an open or a lock, where one of its owners has one or a request under way, or where an
/// open or a lock of the run before waits for it.
pub proof fn lemma_state_counts(state: StateView, client: u64, previous: Set<u64>)
    ensures
        has_state(state, client, previous) <==> {
            ||| exists|i: int| 0 <= i < state.stateids.slots.len() && slot_of_client(#[trigger] state.stateids.slots[i], client)
            ||| exists|place: Seq<u8>| #[trigger]
                state.open_owners.contains_key(place) && owner_active(state.open_owners[place], client)
            ||| exists|place: Seq<u8>| #[trigger]
                state.lock_owners.contains_key(place) && owner_active(state.lock_owners[place], client)
            ||| exists|token: Seq<u8>| #[trigger]
                state.recovered_opens.contains_key(token) && previous.contains(
                    state.recovered_opens[token].previous_client_id,
                )
            ||| exists|token: Seq<u8>| #[trigger]
                state.recovered_locks.contains_key(token) && previous.contains(
                    state.recovered_locks[token].previous_client_id,
                )
        },
        has_running(state, client) <==> {
            ||| exists|place: Seq<u8>| #[trigger]
                state.open_owners.contains_key(place) && state.open_owners[place].key.client_id == client
                    && state.open_owners[place].sequence.pending is Some
            ||| exists|place: Seq<u8>| #[trigger]
                state.lock_owners.contains_key(place) && state.lock_owners[place].key.client_id == client
                    && state.lock_owners[place].sequence.pending is Some
        },
{
    lemma_states_listed(state.stateids.boot_tag, state.stateids.slots, client, state.stateids.slots.len());
    lemma_owners_counted(state.open_owners, client);
    lemma_owners_counted(state.lock_owners, client);
}

/// Owners that have a request under way, or a state.
proof fn lemma_owners_counted(owners: Map<Seq<u8>, Owner>, client: u64)
    ensures
        owners_busy(owners, client, true) <==> exists|place: Seq<u8>| #[trigger]
            owners.contains_key(place) && owner_active(owners[place], client),
        owners_busy(owners, client, false) <==> exists|place: Seq<u8>| #[trigger]
            owners.contains_key(place) && owners[place].key.client_id == client && owners[place].sequence.pending is Some,
{
    if owners_busy(owners, client, true) {
        let place = choose|place: Seq<u8>| #[trigger]
            owners.contains_key(place) && owner_busy(owners[place], client, true);
        assert(owner_active(owners[place], client));
    }
    if exists|place: Seq<u8>| #[trigger] owners.contains_key(place) && owner_active(owners[place], client) {
        let place = choose|place: Seq<u8>| #[trigger] owners.contains_key(place) && owner_active(owners[place], client);
        assert(owner_busy(owners[place], client, true));
    }
    if owners_busy(owners, client, false) {
        let place = choose|place: Seq<u8>| #[trigger]
            owners.contains_key(place) && owner_busy(owners[place], client, false);
        assert(owners[place].sequence.pending is Some);
    }
    if exists|place: Seq<u8>| #[trigger]
        owners.contains_key(place) && owners[place].key.client_id == client && owners[place].sequence.pending is Some {
        let place = choose|place: Seq<u8>| #[trigger]
            owners.contains_key(place) && owners[place].key.client_id == client && owners[place].sequence.pending is Some;
        assert(owner_busy(owners[place], client, false));
    }
}

/// The name is confirmed for another sender, and its user has state.
pub open spec fn used_by_another(view: RuntimeView, clients: ClientsView, name: Seq<u8>, principal: PrincipalView) -> bool {
    &&& confirmed_under(clients, name) matches Some(record)
    &&& !same_identity(record.principal@, principal)
    &&& has_state(view.state, record.client_id, clients.previous(record.client_id))
}

/// A name that is confirmed for one sender is refused to another while its user has state, and the answer tells how that
/// user is called back. It is refused for no other reason but want of room.
pub proof fn lemma_name_in_use(view: RuntimeView, args: SetClientIdArgs, principal: PrincipalView, now: u64)
    requires
        args.id@.len() <= view.limits.max_client_owner_size,
    ensures
        ({
            let clients = view.clients.purged(now);
            let told = register_told(view, args, principal, now);
            &&& used_by_another(view, clients, args.id@, principal) ==> told == Some(
                SetClientIdResult::InUse(confirmed_under(clients, args.id@)->0.callback),
            )
            &&& !used_by_another(view, clients, args.id@, principal) ==> told is None || told == Some(
                SetClientIdResult::Failed(NfsStatus::Resource),
            )
        }),
{
}

/// The name is confirmed for that sender, with that verifier.
pub open spec fn confirmed_as_sent(clients: ClientsView, args: SetClientIdArgs, principal: PrincipalView) -> bool {
    &&& confirmed_under(clients, args.id@) matches Some(record)
    &&& same_identity(record.principal@, principal)
    &&& record.verifier@ == args.verifier@
}

/// A registration takes over what the request says of the client, and its sender. A client that registers again with the
/// verifier that it confirmed keeps its number; one with another verifier, or another sender, gets a number that no client
/// has.
pub proof fn lemma_registration(
    view: RuntimeView,
    args: SetClientIdArgs,
    principal: Arc<Principal>,
    now: u64,
    plan: RegisterPlan,
)
    requires
        register_told(view, args, principal@, now) is None,
        register_planned(view, args, principal, now, plan),
    ensures
        ({
            let clients = view.clients.purged(now);
            let kept = confirmed_as_sent(clients, args, principal@);
            &&& plan.record.owner@ == args.id@
            &&& plan.record.verifier == args.verifier
            &&& plan.record.principal == principal
            &&& plan.record.callback == args.callback
            &&& plan.record.callback_identifier == args.callback_identifier
            &&& plan.record.created_at == now
            &&& plan.known == kept
            &&& kept ==> plan.record.client_id == confirmed_under(clients, args.id@)->0.client_id && plan.releasing is None
            &&& !kept ==> !clients.client_owners.contains_key(plan.record.client_id)
            &&& (plan.releasing matches Some(old) ==> confirmed_under(clients, args.id@) matches Some(record) && record.client_id
                == old && !same_identity(record.principal@, principal@))
        }),
{
    if crate::runtime::register::same_incarnation(view.clients.purged(now), args, principal@) is None {
        crate::runtime::laws::lemma_number_fresh(view.clients.purged(now), args, principal@);
    }
}

/// A registration is confirmed by the sender that asked for it, under its number and with its confirmation, and by nobody
/// else. The client that it replaces, if any, is another number under the same name, and has no request under way.
pub proof fn lemma_confirmation(view: RuntimeView, client: u64, confirmation: Seq<u8>, principal: PrincipalView)
    ensures
        match confirm_told(view, client, confirmation, principal) {
            ConfirmStep::Confirm(plan) => {
                &&& plan.record.client_id == client
                &&& plan.record.confirmation@ == confirmation
                &&& same_identity(plan.record.principal@, principal)
                &&& view.clients.client_owners.contains_key(client)
                &&& plan.name == view.clients.client_owners[client]
                &&& view.clients.slots[plan.name@].unconfirmed == Some(plan.record)
                &&& plan.replaced == (match view.clients.slots[plan.name@].confirmed {
                    Some(previous) => if previous.client_id == client {
                        None
                    } else {
                        Some(previous.client_id)
                    },
                    None => None,
                })
                &&& plan.replaced matches Some(old) ==> !has_running(view.state, old)
            },
            ConfirmStep::Done(status) => status == NfsStatus::Success ==> {
                &&& view.clients.client_owners.contains_key(client)
                &&& view.clients.slots.contains_key(view.clients.client_owners[client]@)
                &&& view.clients.slots[view.clients.client_owners[client]@].confirmed matches Some(record)
                &&& record.client_id == client
                &&& record.confirmation@ == confirmation
                &&& same_identity(record.principal@, principal)
            },
        },
        !view.clients.client_owners.contains_key(client) ==> confirm_told(view, client, confirmation, principal)
            == ConfirmStep::Done(NfsStatus::StaleClientId),
{
}

/// Once a registration is confirmed its client is registered by its sender, and the client that it replaces is told that
/// its lease is over.
pub proof fn lemma_confirmed_stands(
    view: RuntimeView,
    client: u64,
    confirmation: Seq<u8>,
    principal: PrincipalView,
    plan: ConfirmPlan,
    now: u64,
)
    requires
        confirm_told(view, client, confirmation, principal) == ConfirmStep::Confirm(plan),
    ensures
        registered_by(confirmed_clients(view.clients, plan), client, principal),
        plan.replaced matches Some(old) ==> confirmed_clients(view.clients, plan).touch_refused(
            old,
            principal,
            NfsStatus::StaleClientId,
            now,
        ) == Some(unauthenticated(NfsStatus::Expired)),
{
    lemma_confirmation(view, client, confirmation, principal);
}

} // verus!
